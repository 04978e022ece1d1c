//! Command dispatch: maps an inbound command to the registry call it stands
//! for and fixes the exact reply the caller sees. Storage failures of a real
//! backend are reported through the generic failure texts here; the
//! underlying error is never echoed to the end user.
use vstd::prelude::*;

verus! {

use crate::store::{
    CreateOutcome, Store, boards_for, count_board, count_guild, ensure_guild_post, has_board,
    has_guild, inv, opt_text_view, clone_opt_text,
};

/// An inbound command invocation, after the platform adapter has parsed it.
pub enum Command {
    Register,
    NewBoard { scoreboard_name: String, scoreboard_description: Option<String> },
    GetBoards,
}

/// What goes back to the invoking context. `Resync` asks the platform
/// adapter to re-publish the command metadata; the data model is untouched.
pub enum Reply {
    Resync,
    Text(String),
    Listing(Vec<(String, Option<String>)>),
}

/// The reply for a scoreboard that was created.
pub open spec fn created_reply_text(name: Seq<char>) -> Seq<char> {
    "Scoreboard "@ + name + " added"@
}

/// The reply for a scoreboard name already taken in the guild.
pub open spec fn exists_reply_text(name: Seq<char>) -> Seq<char> {
    "Scoreboard "@ + name + " already exists"@
}

/// The reply for a scoreboard that was created, as sent.
pub fn created_reply(name: &str) -> (r: String)
    ensures
        r@ == created_reply_text(name@),
{
    let mut r = String::from_str("Scoreboard ");
    r.append(name);
    r.append(" added");
    r
}

/// The reply for a scoreboard name already taken, as sent.
pub fn already_exists_reply(name: &str) -> (r: String)
    ensures
        r@ == exists_reply_text(name@),
{
    let mut r = String::from_str("Scoreboard ");
    r.append(name);
    r.append(" already exists");
    r
}

/// Handles `new_board`: makes sure the invoking guild is registered, then
/// creates the scoreboard by one conditional insert. The reply names the
/// scoreboard and says whether it was added or already existed; a repeated
/// invocation is answered, not failed, and leaves exactly one row.
pub fn new_board(
    store: &mut Store,
    guild_id: i64,
    guild_name: &str,
    scoreboard_name: &str,
    scoreboard_description: Option<String>,
) -> (r: String)
    requires
        inv(old(store)@),
        old(store)@.next_scoreboard_id < i32::MAX as int,
    ensures
        inv(final(store)@),
        ensure_guild_post(old(store)@.guilds, final(store)@.guilds, guild_id, guild_name@),
        count_guild(final(store)@.guilds, guild_id) == 1,
        count_board(final(store)@.scoreboards, guild_id, scoreboard_name@) == 1,
        final(store)@.scores == old(store)@.scores,
        has_board(old(store)@.scoreboards, guild_id, scoreboard_name@) ==> r@
            == exists_reply_text(scoreboard_name@) && final(store)@.scoreboards == old(
            store,
        )@.scoreboards,
        !has_board(old(store)@.scoreboards, guild_id, scoreboard_name@) ==> r@
            == created_reply_text(scoreboard_name@) && final(store)@.scoreboards == old(
            store,
        )@.scoreboards.push(
            crate::store::ScoreboardView {
                scoreboard_id: old(store)@.next_scoreboard_id as i32,
                guild_id,
                name: scoreboard_name@,
                description: opt_text_view(scoreboard_description),
            },
        ),
{
    let registered = store.ensure_guild(guild_id, guild_name);
    proof {
        assert(registered is Ok);
        assert(has_guild(store@.guilds, guild_id)) by {
            if !has_guild(old(store)@.guilds, guild_id) {
                assert(store@.guilds[old(store)@.guilds.len() as int].guild_id == guild_id);
            }
        }
    }
    let created = store.create_scoreboard(guild_id, scoreboard_name, scoreboard_description);
    match created {
        Ok(CreateOutcome::Created) => created_reply(scoreboard_name),
        Ok(CreateOutcome::AlreadyExists) => already_exists_reply(scoreboard_name),
        Err(_) => {
            // Unreachable: the guild was just registered, so the conditional
            // insert cannot miss its parent row.
            proof {
                assert(false);
            }
            String::new()
        },
    }
}

/// Handles `get_boards`: the invoking guild's scoreboards as name and
/// optional description, in insertion order; an empty list — not an error —
/// for a guild with none.
pub fn get_boards(store: &Store, guild_id: i64) -> (r: Vec<(String, Option<String>)>)
    ensures
        r@.len() == boards_for(store@.scoreboards, guild_id).len(),
        forall|i: int|
            0 <= i < r@.len() ==> (#[trigger] r@[i]).0@ == boards_for(
                store@.scoreboards,
                guild_id,
            )[i].name && opt_text_view(r@[i].1) == boards_for(
                store@.scoreboards,
                guild_id,
            )[i].description,
{
    let boards = store.list_scoreboards(guild_id);
    let ghost listed = boards_for(store@.scoreboards, guild_id);
    let n = boards.len();
    let mut out: Vec<(String, Option<String>)> = Vec::new();
    let mut i: usize = 0;
    while i < n
        invariant
            n == boards.len(),
            i <= n,
            boards@.map_values(|b: crate::store::Scoreboard| b@) == listed,
            out@.len() == i,
            forall|k: int|
                0 <= k < i ==> (#[trigger] out@[k]).0@ == listed[k].name && opt_text_view(
                    out@[k].1,
                ) == listed[k].description,
        decreases n - i,
    {
        let b = &boards[i];
        proof {
            assert(boards@.map_values(|b: crate::store::Scoreboard| b@)[i as int] == boards@[i as int]@);
        }
        out.push((b.scoreboard_name.clone(), clone_opt_text(&b.scoreboard_description)));
        i += 1;
    }
    out
}

/// The title of the listing reply.
pub fn boards_title() -> (r: String)
    ensures
        r@ == "Scoreboards"@,
{
    String::from_str("Scoreboards")
}

/// The line that introduces the listing reply.
pub fn boards_intro() -> (r: String)
    ensures
        r@ == "Here are the scoreboards for your server:"@,
{
    String::from_str("Here are the scoreboards for your server:")
}

/// The generic text a user sees when registering their guild fails in a real
/// storage backend. The underlying error is logged, never echoed.
pub fn guild_failure_reply() -> (r: String)
    ensures
        r@ == "Error registering guild, please contact bot admin."@,
{
    String::from_str("Error registering guild, please contact bot admin.")
}

/// The generic text a user sees when creating a scoreboard fails in a real
/// storage backend. The underlying error is logged, never echoed.
pub fn board_failure_reply() -> (r: String)
    ensures
        r@ == "Error registering new scoreboard, please contact bot admin."@,
{
    String::from_str("Error registering new scoreboard, please contact bot admin.")
}

/// Routes one invocation to its handler. `register` touches no data;
/// `new_board` registers the guild and creates the scoreboard; `get_boards`
/// reads and changes nothing.
pub fn dispatch(store: &mut Store, guild_id: i64, guild_name: &str, command: Command) -> (r: Reply)
    requires
        inv(old(store)@),
        old(store)@.next_scoreboard_id < i32::MAX as int,
    ensures
        inv(final(store)@),
        command is Register ==> r is Resync && final(store)@ == old(store)@,
        command is GetBoards ==> r is Listing && final(store)@ == old(store)@,
        command matches Command::NewBoard { scoreboard_name: n, scoreboard_description: d } ==> {
            &&& r is Text
            &&& count_guild(final(store)@.guilds, guild_id) == 1
            &&& count_board(final(store)@.scoreboards, guild_id, n@) == 1
            &&& (has_board(old(store)@.scoreboards, guild_id, n@) ==> r->Text_0@
                == exists_reply_text(n@))
            &&& (!has_board(old(store)@.scoreboards, guild_id, n@) ==> r->Text_0@
                == created_reply_text(n@))
        },
        command is GetBoards ==> {
            &&& r->Listing_0@.len() == boards_for(old(store)@.scoreboards, guild_id).len()
            &&& forall|i: int|
                0 <= i < r->Listing_0@.len() ==> (#[trigger] r->Listing_0@[i]).0@ == boards_for(
                    old(store)@.scoreboards,
                    guild_id,
                )[i].name && opt_text_view(r->Listing_0@[i].1) == boards_for(
                    old(store)@.scoreboards,
                    guild_id,
                )[i].description
        },
{
    match command {
        Command::Register => Reply::Resync,
        Command::NewBoard { scoreboard_name, scoreboard_description } => Reply::Text(
            new_board(
                store,
                guild_id,
                guild_name,
                scoreboard_name.as_str(),
                scoreboard_description,
            ),
        ),
        Command::GetBoards => Reply::Listing(get_boards(store, guild_id)),
    }
}

} // verus!
