use scorebot_core::commands::{
    already_exists_reply, board_failure_reply, boards_intro, boards_title, created_reply,
    dispatch, get_boards, guild_failure_reply, new_board, Command, Reply,
};
use scorebot_core::store::Store;

#[test]
fn new_board_on_fresh_guild_end_to_end() {
    let mut s = Store::new();
    let first = new_board(&mut s, 7, "alpha", "weekly", None);
    assert_eq!(first, "Scoreboard weekly added");
    let second = new_board(&mut s, 7, "alpha", "weekly", None);
    assert_eq!(second, "Scoreboard weekly already exists");
    let boards = get_boards(&s, 7);
    assert_eq!(boards, vec![(String::from("weekly"), None)]);
}

#[test]
fn new_board_registers_the_guild_itself() {
    let mut s = Store::new();
    assert_eq!(s.guild_len(), 0);
    new_board(&mut s, 7, "alpha", "weekly", Some(String::from("the weekly board")));
    assert_eq!(s.guild_len(), 1);
    let boards = get_boards(&s, 7);
    assert_eq!(
        boards,
        vec![(String::from("weekly"), Some(String::from("the weekly board")))]
    );
}

#[test]
fn get_boards_is_empty_for_unknown_guild() {
    let s = Store::new();
    assert!(get_boards(&s, 7).is_empty());
}

#[test]
fn dispatch_routes_commands() {
    let mut s = Store::new();
    match dispatch(&mut s, 7, "alpha", Command::Register) {
        Reply::Resync => {},
        _ => panic!("register must only ask for a resync"),
    }
    assert_eq!(s.guild_len(), 0);
    let r = dispatch(
        &mut s,
        7,
        "alpha",
        Command::NewBoard { scoreboard_name: String::from("weekly"), scoreboard_description: None },
    );
    match r {
        Reply::Text(t) => assert_eq!(t, "Scoreboard weekly added"),
        _ => panic!("new_board must reply with text"),
    }
    match dispatch(&mut s, 7, "alpha", Command::GetBoards) {
        Reply::Listing(entries) => assert_eq!(entries, vec![(String::from("weekly"), None)]),
        _ => panic!("get_boards must reply with a listing"),
    }
}

#[test]
fn reply_texts_are_exact() {
    assert_eq!(created_reply("weekly"), "Scoreboard weekly added");
    assert_eq!(already_exists_reply("weekly"), "Scoreboard weekly already exists");
    assert_eq!(boards_title(), "Scoreboards");
    assert_eq!(boards_intro(), "Here are the scoreboards for your server:");
    assert_eq!(guild_failure_reply(), "Error registering guild, please contact bot admin.");
    assert_eq!(
        board_failure_reply(),
        "Error registering new scoreboard, please contact bot admin."
    );
}
