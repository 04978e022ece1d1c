//! The guarantees the registries give across calls: registration is
//! idempotent, racing creations of one name leave one row and one `Created`,
//! listings return what was created, and the last score written is the one
//! read back.
use vstd::prelude::*;

verus! {

use crate::store::{
    CreateOutcome, GuildView, ScoreView, ScoreboardView, StorageError, StoreView, boards_for,
    count_board, count_guild, count_score, create_scoreboard_post, ensure_guild_post, has_board,
    has_guild, has_score, lemma_absent_count_board, lemma_absent_count_guild,
    lemma_absent_count_score, lemma_boards_for_push, lemma_count_board_push,
    lemma_count_guild_push, lemma_count_score_update, lemma_score_index_at,
    lemma_score_of_update_at, lemma_unique_count_guild, score_index, score_of, scores_unique,
    upsert_score_post, guild_ids_unique,
};

/// Registering the same guild twice — under any names, in any interleaving
/// that serializes to these two steps — leaves exactly one row for it.
pub proof fn lemma_guild_registration_idempotent(
    pre: Seq<GuildView>,
    mid: Seq<GuildView>,
    post: Seq<GuildView>,
    guild_id: i64,
    name_first: Seq<char>,
    name_second: Seq<char>,
)
    requires
        guild_ids_unique(pre),
        ensure_guild_post(pre, mid, guild_id, name_first),
        ensure_guild_post(mid, post, guild_id, name_second),
    ensures
        count_guild(post, guild_id) == 1,
{
    if has_guild(pre, guild_id) {
        lemma_unique_count_guild(pre, guild_id);
        assert(mid == pre);
    } else {
        let row = GuildView { guild_id, name: name_first };
        lemma_absent_count_guild(pre, guild_id);
        lemma_count_guild_push(pre, row, guild_id);
        assert(has_guild(mid, guild_id)) by {
            assert(mid[pre.len() as int].guild_id == guild_id);
        }
    }
    assert(post == mid);
}

/// A run of creations of the same `(guild, name)`, one after another.
pub open spec fn create_chain(
    states: Seq<StoreView>,
    results: Seq<Result<CreateOutcome, StorageError>>,
    guild_id: i64,
    name: Seq<char>,
    description: Option<Seq<char>>,
) -> bool {
    &&& states.len() == results.len() + 1
    &&& forall|i: int|
        0 <= i < results.len() ==> create_scoreboard_post(
            states[i],
            states[i + 1],
            guild_id,
            name,
            description,
            #[trigger] results[i],
        )
}

/// How many callers in the run were told `Created`.
pub open spec fn count_created(results: Seq<Result<CreateOutcome, StorageError>>) -> int
    decreases results.len(),
{
    if results.len() == 0 {
        0
    } else {
        (if results.first() == Result::<CreateOutcome, StorageError>::Ok(CreateOutcome::Created) {
            1int
        } else {
            0int
        }) + count_created(results.drop_first())
    }
}

/// Once the `(guild, name)` row exists, every further creation in the run is
/// told `AlreadyExists` and writes nothing.
pub proof fn lemma_create_chain_from_existing(
    states: Seq<StoreView>,
    results: Seq<Result<CreateOutcome, StorageError>>,
    guild_id: i64,
    name: Seq<char>,
    description: Option<Seq<char>>,
)
    requires
        create_chain(states, results, guild_id, name, description),
        has_guild(states[0].guilds, guild_id),
        has_board(states[0].scoreboards, guild_id, name),
    ensures
        states.last().scoreboards == states[0].scoreboards,
        count_created(results) == 0,
        forall|i: int|
            0 <= i < results.len() ==> results[i] == Result::<CreateOutcome, StorageError>::Ok(
                CreateOutcome::AlreadyExists,
            ),
    decreases results.len(),
{
    if results.len() == 0 {
        assert(states.last() == states[0]);
    } else {
        assert(create_scoreboard_post(
            states[0],
            states[1],
            guild_id,
            name,
            description,
            results[0],
        ));
        let tail_states = states.drop_first();
        let tail_results = results.drop_first();
        assert(create_chain(tail_states, tail_results, guild_id, name, description)) by {
            assert forall|i: int| 0 <= i < tail_results.len() implies create_scoreboard_post(
                tail_states[i],
                tail_states[i + 1],
                guild_id,
                name,
                description,
                #[trigger] tail_results[i],
            ) by {
                assert(tail_results[i] == results[i + 1]);
                assert(tail_states[i] == states[i + 1]);
                assert(tail_states[i + 1] == states[i + 2]);
            }
        }
        assert(tail_states[0] == states[1]);
        lemma_create_chain_from_existing(
            tail_states,
            tail_results,
            guild_id,
            name,
            description,
        );
        assert(tail_states.last() == states.last());
        assert forall|i: int| 0 <= i < results.len() implies results[i] == Result::<
            CreateOutcome,
            StorageError,
        >::Ok(CreateOutcome::AlreadyExists) by {
            if i >= 1 {
                assert(tail_results[i - 1] == results[i]);
            }
        }
    }
}

/// Creating the same `(guild, name)` any number of times in a row — the
/// serialization of N racing callers — leaves exactly one row for the key;
/// exactly one caller is told `Created`, every other `AlreadyExists`, and
/// none sees an error.
pub proof fn lemma_create_scoreboard_race(
    states: Seq<StoreView>,
    results: Seq<Result<CreateOutcome, StorageError>>,
    guild_id: i64,
    name: Seq<char>,
    description: Option<Seq<char>>,
)
    requires
        create_chain(states, results, guild_id, name, description),
        results.len() >= 1,
        has_guild(states[0].guilds, guild_id),
        !has_board(states[0].scoreboards, guild_id, name),
    ensures
        count_board(states.last().scoreboards, guild_id, name) == 1,
        count_created(results) == 1,
        results[0] == Result::<CreateOutcome, StorageError>::Ok(CreateOutcome::Created),
        forall|i: int|
            1 <= i < results.len() ==> results[i] == Result::<CreateOutcome, StorageError>::Ok(
                CreateOutcome::AlreadyExists,
            ),
{
    assert(create_scoreboard_post(states[0], states[1], guild_id, name, description, results[0]));
    let row = ScoreboardView {
        scoreboard_id: states[0].next_scoreboard_id as i32,
        guild_id,
        name,
        description,
    };
    assert(states[1].scoreboards == states[0].scoreboards.push(row));
    lemma_absent_count_board(states[0].scoreboards, guild_id, name);
    lemma_count_board_push(states[0].scoreboards, row, guild_id, name);
    assert(count_board(states[1].scoreboards, guild_id, name) == 1);
    assert(has_board(states[1].scoreboards, guild_id, name)) by {
        assert(states[1].scoreboards[states[0].scoreboards.len() as int] == row);
    }
    assert(has_guild(states[1].guilds, guild_id));
    let tail_states = states.drop_first();
    let tail_results = results.drop_first();
    assert(create_chain(tail_states, tail_results, guild_id, name, description)) by {
        assert forall|i: int| 0 <= i < tail_results.len() implies create_scoreboard_post(
            tail_states[i],
            tail_states[i + 1],
            guild_id,
            name,
            description,
            #[trigger] tail_results[i],
        ) by {
            assert(tail_results[i] == results[i + 1]);
            assert(tail_states[i] == states[i + 1]);
            assert(tail_states[i + 1] == states[i + 2]);
        }
    }
    assert(tail_states[0] == states[1]);
    lemma_create_chain_from_existing(tail_states, tail_results, guild_id, name, description);
    assert(tail_states.last() == states.last());
    assert forall|i: int| 1 <= i < results.len() implies results[i] == Result::<
        CreateOutcome,
        StorageError,
    >::Ok(CreateOutcome::AlreadyExists) by {
        assert(tail_results[i - 1] == results[i]);
    }
}

/// Creating two scoreboards for a guild extends its listing by exactly those
/// two, each under its original name and description: what was created is
/// what a listing returns.
pub proof fn lemma_listing_round_trip(
    pre: StoreView,
    mid: StoreView,
    post: StoreView,
    guild_id: i64,
    name_a: Seq<char>,
    desc_a: Option<Seq<char>>,
    name_b: Seq<char>,
    desc_b: Option<Seq<char>>,
    r_a: Result<CreateOutcome, StorageError>,
    r_b: Result<CreateOutcome, StorageError>,
)
    requires
        has_guild(pre.guilds, guild_id),
        !has_board(pre.scoreboards, guild_id, name_a),
        !has_board(mid.scoreboards, guild_id, name_b),
        create_scoreboard_post(pre, mid, guild_id, name_a, desc_a, r_a),
        create_scoreboard_post(mid, post, guild_id, name_b, desc_b, r_b),
    ensures
        boards_for(post.scoreboards, guild_id) == boards_for(pre.scoreboards, guild_id).push(
            ScoreboardView {
                scoreboard_id: pre.next_scoreboard_id as i32,
                guild_id,
                name: name_a,
                description: desc_a,
            },
        ).push(
            ScoreboardView {
                scoreboard_id: mid.next_scoreboard_id as i32,
                guild_id,
                name: name_b,
                description: desc_b,
            },
        ),
{
    let row_a = ScoreboardView {
        scoreboard_id: pre.next_scoreboard_id as i32,
        guild_id,
        name: name_a,
        description: desc_a,
    };
    let row_b = ScoreboardView {
        scoreboard_id: mid.next_scoreboard_id as i32,
        guild_id,
        name: name_b,
        description: desc_b,
    };
    assert(has_guild(mid.guilds, guild_id));
    assert(mid.scoreboards == pre.scoreboards.push(row_a));
    assert(post.scoreboards == mid.scoreboards.push(row_b));
    lemma_boards_for_push(pre.scoreboards, row_a, guild_id);
    lemma_boards_for_push(mid.scoreboards, row_b, guild_id);
}

/// Writing a user's score and then a second value leaves the second visible
/// and still exactly one row under the key: the last write wins, and an
/// upsert never duplicates its row.
pub proof fn lemma_last_write_wins(
    pre: Seq<ScoreView>,
    mid: Seq<ScoreView>,
    post: Seq<ScoreView>,
    scoreboard_id: i32,
    user_id: i64,
    value_first: i32,
    value_second: i32,
)
    requires
        scores_unique(pre),
        upsert_score_post(pre, mid, scoreboard_id, user_id, value_first),
        upsert_score_post(mid, post, scoreboard_id, user_id, value_second),
    ensures
        score_of(post, scoreboard_id, user_id) == Option::<i32>::Some(value_second),
        count_score(post, scoreboard_id, user_id) == 1,
{
    let row1 = ScoreView { scoreboard_id, user_id, score: value_first };
    let row2 = ScoreView { scoreboard_id, user_id, score: value_second };
    if has_score(pre, scoreboard_id, user_id) {
        let i = score_index(pre, scoreboard_id, user_id);
        lemma_score_index_valid(pre, scoreboard_id, user_id);
        assert(mid == pre.update(i, row1));
        assert(forall|k: int|
            0 <= k < pre.len() && k != i ==> !(#[trigger] pre[k].scoreboard_id == scoreboard_id
                && pre[k].user_id == user_id));
        assert(has_score(mid, scoreboard_id, user_id)) by {
            assert(mid[i].scoreboard_id == scoreboard_id && mid[i].user_id == user_id);
        }
        assert(forall|k: int|
            i < k < mid.len() ==> !(mid[k].scoreboard_id == scoreboard_id && mid[k].user_id
                == user_id));
        lemma_score_index_at(mid, scoreboard_id, user_id, i);
        assert(post == mid.update(i, row2));
        lemma_score_of_update_at(mid, i, row2, scoreboard_id, user_id);
        lemma_count_score_update(pre, i, row1, scoreboard_id, user_id);
        lemma_count_score_update(mid, i, row2, scoreboard_id, user_id);
        crate::store::lemma_unique_count_score(pre, scoreboard_id, user_id);
    } else {
        assert(mid == pre.push(row1));
        let i = pre.len() as int;
        assert(mid[i] == row1);
        assert(has_score(mid, scoreboard_id, user_id));
        assert(forall|k: int|
            i < k < mid.len() ==> !(mid[k].scoreboard_id == scoreboard_id && mid[k].user_id
                == user_id));
        lemma_score_index_at(mid, scoreboard_id, user_id, i);
        assert(post == mid.update(i, row2));
        lemma_score_of_update_at(mid, i, row2, scoreboard_id, user_id);
        lemma_absent_count_score(pre, scoreboard_id, user_id);
        assert(count_score(mid, scoreboard_id, user_id) == 1) by {
            assert(mid.drop_last() =~= pre);
        }
        lemma_count_score_update(mid, i, row2, scoreboard_id, user_id);
    }
}

/// Where a row carries the key, the key's index names that row, and nothing
/// after it carries the key.
pub proof fn lemma_score_index_valid(scores: Seq<ScoreView>, scoreboard_id: i32, user_id: i64)
    requires
        has_score(scores, scoreboard_id, user_id),
    ensures
        0 <= score_index(scores, scoreboard_id, user_id) < scores.len(),
        scores[score_index(scores, scoreboard_id, user_id)].scoreboard_id == scoreboard_id,
        scores[score_index(scores, scoreboard_id, user_id)].user_id == user_id,
        forall|k: int|
            score_index(scores, scoreboard_id, user_id) < k < scores.len() ==> !(
            scores[k].scoreboard_id == scoreboard_id && scores[k].user_id == user_id),
    decreases scores.len(),
{
    if scores.last().scoreboard_id == scoreboard_id && scores.last().user_id == user_id {
    } else {
        let head = scores.drop_last();
        assert(has_score(head, scoreboard_id, user_id)) by {
            let w = choose|w: int|
                0 <= w < scores.len() && scores[w].scoreboard_id == scoreboard_id
                    && scores[w].user_id == user_id;
            assert(scores[scores.len() - 1] == scores.last());
            assert(w < head.len() && head[w].scoreboard_id == scoreboard_id && head[w].user_id
                == user_id);
        }
        lemma_score_index_valid(head, scoreboard_id, user_id);
        let i = score_index(head, scoreboard_id, user_id);
        assert(head[i] == scores[i]);
        assert(scores[scores.len() - 1] == scores.last());
        assert forall|k: int| i < k < scores.len() implies !(scores[k].scoreboard_id
            == scoreboard_id && scores[k].user_id == user_id) by {
            if k < scores.len() - 1 {
                assert(scores[k] == head[k]);
            } else {
                assert(scores[k] == scores.last());
            }
        }
    }
}

} // verus!
