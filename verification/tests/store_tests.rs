use scorebot_core::store::{CreateOutcome, StorageError, Store};

#[test]
fn ensure_guild_twice_single_row() {
    let mut s = Store::new();
    assert!(s.ensure_guild(7, "alpha").is_ok());
    assert!(s.ensure_guild(7, "alpha").is_ok());
    assert_eq!(s.guild_len(), 1);
    // Even under a different display name the key is the id.
    assert!(s.ensure_guild(7, "alpha renamed").is_ok());
    assert_eq!(s.guild_len(), 1);
    assert!(s.ensure_guild(8, "beta").is_ok());
    assert_eq!(s.guild_len(), 2);
}

#[test]
fn create_scoreboard_created_then_already_exists() {
    let mut s = Store::new();
    s.ensure_guild(7, "alpha").unwrap();
    let first = s.create_scoreboard(7, "weekly", None).unwrap();
    assert_eq!(first, CreateOutcome::Created);
    let second = s.create_scoreboard(7, "weekly", Some(String::from("other"))).unwrap();
    assert_eq!(second, CreateOutcome::AlreadyExists);
    assert_eq!(s.list_scoreboards(7).len(), 1);
}

#[test]
fn repeated_creations_leave_one_row_and_one_created() {
    let mut s = Store::new();
    s.ensure_guild(7, "alpha").unwrap();
    let mut created = 0;
    let mut already = 0;
    for _ in 0..5 {
        match s.create_scoreboard(7, "weekly", None).unwrap() {
            CreateOutcome::Created => created += 1,
            CreateOutcome::AlreadyExists => already += 1,
        }
    }
    assert_eq!(created, 1);
    assert_eq!(already, 4);
    assert_eq!(s.list_scoreboards(7).len(), 1);
}

#[test]
fn create_scoreboard_without_guild_is_refused() {
    let mut s = Store::new();
    let r = s.create_scoreboard(7, "weekly", None);
    assert_eq!(r, Err(StorageError::MissingGuild));
    assert_eq!(s.list_scoreboards(7).len(), 0);
}

#[test]
fn same_name_in_two_guilds_is_fine() {
    let mut s = Store::new();
    s.ensure_guild(7, "alpha").unwrap();
    s.ensure_guild(8, "beta").unwrap();
    assert_eq!(s.create_scoreboard(7, "weekly", None).unwrap(), CreateOutcome::Created);
    assert_eq!(s.create_scoreboard(8, "weekly", None).unwrap(), CreateOutcome::Created);
    assert_eq!(s.list_scoreboards(7).len(), 1);
    assert_eq!(s.list_scoreboards(8).len(), 1);
}

#[test]
fn list_scoreboards_empty_guild_is_empty_not_error() {
    let mut s = Store::new();
    s.ensure_guild(7, "alpha").unwrap();
    let boards = s.list_scoreboards(7);
    assert!(boards.is_empty());
    // Unknown guild too: an empty listing, not a failure.
    assert!(s.list_scoreboards(999).is_empty());
}

#[test]
fn listing_round_trip_keeps_names_and_descriptions() {
    let mut s = Store::new();
    s.ensure_guild(7, "alpha").unwrap();
    s.create_scoreboard(7, "weekly", Some(String::from("weekly standings"))).unwrap();
    s.create_scoreboard(7, "all-time", None).unwrap();
    let boards = s.list_scoreboards(7);
    assert_eq!(boards.len(), 2);
    assert_eq!(boards[0].scoreboard_name, "weekly");
    assert_eq!(boards[0].scoreboard_description, Some(String::from("weekly standings")));
    assert_eq!(boards[0].guild_id, 7);
    assert_eq!(boards[1].scoreboard_name, "all-time");
    assert_eq!(boards[1].scoreboard_description, None);
    assert_ne!(boards[0].scoreboard_id, boards[1].scoreboard_id);
}

#[test]
fn upsert_then_read_last_write_wins() {
    let mut s = Store::new();
    s.ensure_guild(7, "alpha").unwrap();
    s.create_scoreboard(7, "weekly", None).unwrap();
    let board_id = s.list_scoreboards(7)[0].scoreboard_id;
    assert!(s.upsert_score(board_id, 42, 10).is_ok());
    assert_eq!(s.get_score(board_id, 42), Some(10));
    assert!(s.upsert_score(board_id, 42, 99).is_ok());
    assert_eq!(s.get_score(board_id, 42), Some(99));
    // Never a duplicate row for the key: the leaderboard has one entry.
    assert_eq!(s.leaderboard(board_id), vec![(42, 99)]);
}

#[test]
fn upsert_without_scoreboard_is_refused() {
    let mut s = Store::new();
    s.ensure_guild(7, "alpha").unwrap();
    let r = s.upsert_score(1, 42, 10);
    assert_eq!(r, Err(StorageError::MissingScoreboard));
    assert_eq!(s.get_score(1, 42), None);
}

#[test]
fn extreme_ids_are_ordinary_keys() {
    let mut s = Store::new();
    s.ensure_guild(i64::MAX, "edge").unwrap();
    s.ensure_guild(i64::MIN, "other edge").unwrap();
    assert_eq!(s.guild_len(), 2);
    assert_eq!(s.create_scoreboard(i64::MAX, "weekly", None).unwrap(), CreateOutcome::Created);
    let board_id = s.list_scoreboards(i64::MAX)[0].scoreboard_id;
    s.upsert_score(board_id, i64::MIN, i32::MAX).unwrap();
    assert_eq!(s.get_score(board_id, i64::MIN), Some(i32::MAX));
}

#[test]
fn leaderboard_of_empty_scoreboard_is_empty() {
    let mut s = Store::new();
    s.ensure_guild(7, "alpha").unwrap();
    s.create_scoreboard(7, "weekly", None).unwrap();
    let board_id = s.list_scoreboards(7)[0].scoreboard_id;
    assert!(s.leaderboard(board_id).is_empty());
}

#[test]
fn leaderboard_orders_scores_descending() {
    let mut s = Store::new();
    s.ensure_guild(7, "alpha").unwrap();
    s.create_scoreboard(7, "weekly", None).unwrap();
    let board_id = s.list_scoreboards(7)[0].scoreboard_id;
    s.upsert_score(board_id, 1, 5).unwrap();
    s.upsert_score(board_id, 2, 20).unwrap();
    s.upsert_score(board_id, 3, 10).unwrap();
    let lb = s.leaderboard(board_id);
    assert_eq!(lb, vec![(2, 20), (3, 10), (1, 5)]);
    // Scores in another scoreboard stay out of this one's leaderboard.
    s.create_scoreboard(7, "all-time", None).unwrap();
    let other_id = s.list_scoreboards(7)[1].scoreboard_id;
    s.upsert_score(other_id, 9, 1000).unwrap();
    assert_eq!(s.leaderboard(board_id).len(), 3);
}
