//! The data model: guilds, scoreboards and per-user scores, held under the
//! invariants of the persisted schema (unique keys, referential integrity),
//! together with the atomic conditional-insert operations that guard them.
use vstd::prelude::*;

verus! {

use vstd::multiset::Multiset;

/// A guild row: a community on the chat platform, identified by the stable
/// integer id the platform assigns.
pub struct GuildRow {
    pub guild_id: i64,
    pub guild_name: String,
}

/// A scoreboard row: a named, optionally described leaderboard scoped to one
/// guild. `scoreboard_id` is assigned by the store and immutable once created.
pub struct Scoreboard {
    pub scoreboard_id: i32,
    pub guild_id: i64,
    pub scoreboard_name: String,
    pub scoreboard_description: Option<String>,
}

/// A score row: one user's mutable score within one scoreboard.
pub struct ScoreRow {
    pub scoreboard_id: i32,
    pub user_id: i64,
    pub score: i32,
}

/// Mathematical image of a guild row.
#[verifier::ext_equal]
pub ghost struct GuildView {
    pub guild_id: i64,
    pub name: Seq<char>,
}

/// Mathematical image of a scoreboard row.
#[verifier::ext_equal]
pub ghost struct ScoreboardView {
    pub scoreboard_id: i32,
    pub guild_id: i64,
    pub name: Seq<char>,
    pub description: Option<Seq<char>>,
}

/// Mathematical image of a score row.
#[verifier::ext_equal]
pub ghost struct ScoreView {
    pub scoreboard_id: i32,
    pub user_id: i64,
    pub score: i32,
}

impl View for GuildRow {
    type V = GuildView;

    open spec fn view(&self) -> GuildView {
        GuildView { guild_id: self.guild_id, name: self.guild_name@ }
    }
}

impl View for Scoreboard {
    type V = ScoreboardView;

    open spec fn view(&self) -> ScoreboardView {
        ScoreboardView {
            scoreboard_id: self.scoreboard_id,
            guild_id: self.guild_id,
            name: self.scoreboard_name@,
            description: opt_text_view(self.scoreboard_description),
        }
    }
}

impl View for ScoreRow {
    type V = ScoreView;

    open spec fn view(&self) -> ScoreView {
        ScoreView {
            scoreboard_id: self.scoreboard_id,
            user_id: self.user_id,
            score: self.score,
        }
    }
}

/// The image of an optional text: present exactly when the text is, so that a
/// missing description and an empty one stay distinguishable.
pub open spec fn opt_text_view(d: Option<String>) -> Option<Seq<char>> {
    match d {
        Option::None => Option::None,
        Option::Some(s) => Option::Some(s@),
    }
}

/// Why a storage operation was refused: the referenced parent row is absent.
#[derive(Clone, Copy, PartialEq, Eq, Structural, Debug)]
pub enum StorageError {
    MissingGuild,
    MissingScoreboard,
}

/// The two normal outcomes of a conditional insert keyed on `(guild, name)`.
#[derive(Clone, Copy, PartialEq, Eq, Structural, Debug)]
pub enum CreateOutcome {
    Created,
    AlreadyExists,
}

/// Mathematical image of the whole store.
#[verifier::ext_equal]
pub ghost struct StoreView {
    pub guilds: Seq<GuildView>,
    pub scoreboards: Seq<ScoreboardView>,
    pub scores: Seq<ScoreView>,
    pub next_scoreboard_id: int,
}

pub open spec fn has_guild(guilds: Seq<GuildView>, guild_id: i64) -> bool {
    exists|i: int| 0 <= i < guilds.len() && guilds[i].guild_id == guild_id
}

/// How many rows carry this guild id.
pub open spec fn count_guild(guilds: Seq<GuildView>, guild_id: i64) -> int
    decreases guilds.len(),
{
    if guilds.len() == 0 {
        0
    } else {
        count_guild(guilds.drop_last(), guild_id) + if guilds.last().guild_id == guild_id {
            1int
        } else {
            0int
        }
    }
}

pub open spec fn guild_ids_unique(guilds: Seq<GuildView>) -> bool {
    forall|i: int, j: int|
        0 <= i < j < guilds.len() ==> guilds[i].guild_id != guilds[j].guild_id
}

pub open spec fn has_board(boards: Seq<ScoreboardView>, guild_id: i64, name: Seq<char>) -> bool {
    exists|i: int|
        0 <= i < boards.len() && boards[i].guild_id == guild_id && boards[i].name == name
}

pub open spec fn has_board_id(boards: Seq<ScoreboardView>, scoreboard_id: i32) -> bool {
    exists|i: int| 0 <= i < boards.len() && boards[i].scoreboard_id == scoreboard_id
}

/// How many rows carry this `(guild, name)` key.
pub open spec fn count_board(boards: Seq<ScoreboardView>, guild_id: i64, name: Seq<char>) -> int
    decreases boards.len(),
{
    if boards.len() == 0 {
        0
    } else {
        count_board(boards.drop_last(), guild_id, name) + if boards.last().guild_id == guild_id
            && boards.last().name == name {
            1int
        } else {
            0int
        }
    }
}

/// No two scoreboard rows share an id, and none share a `(guild, name)` key.
pub open spec fn boards_unique(boards: Seq<ScoreboardView>) -> bool {
    forall|i: int, j: int|
        0 <= i < j < boards.len() ==> boards[i].scoreboard_id != boards[j].scoreboard_id && !(
        boards[i].guild_id == boards[j].guild_id && boards[i].name == boards[j].name)
}

pub open spec fn has_score(scores: Seq<ScoreView>, scoreboard_id: i32, user_id: i64) -> bool {
    exists|i: int|
        0 <= i < scores.len() && scores[i].scoreboard_id == scoreboard_id && scores[i].user_id
            == user_id
}

/// How many rows carry this `(scoreboard, user)` key.
pub open spec fn count_score(scores: Seq<ScoreView>, scoreboard_id: i32, user_id: i64) -> int
    decreases scores.len(),
{
    if scores.len() == 0 {
        0
    } else {
        count_score(scores.drop_last(), scoreboard_id, user_id) + if scores.last().scoreboard_id
            == scoreboard_id && scores.last().user_id == user_id {
            1int
        } else {
            0int
        }
    }
}

/// No two score rows share a `(scoreboard, user)` key.
pub open spec fn scores_unique(scores: Seq<ScoreView>) -> bool {
    forall|i: int, j: int|
        0 <= i < j < scores.len() ==> !(scores[i].scoreboard_id == scores[j].scoreboard_id
            && scores[i].user_id == scores[j].user_id)
}

/// The user's score under this key, or `None` where no row carries it.
pub open spec fn score_of(scores: Seq<ScoreView>, scoreboard_id: i32, user_id: i64) -> Option<i32>
    decreases scores.len(),
{
    if scores.len() == 0 {
        Option::None
    } else if scores.last().scoreboard_id == scoreboard_id && scores.last().user_id == user_id {
        Option::Some(scores.last().score)
    } else {
        score_of(scores.drop_last(), scoreboard_id, user_id)
    }
}

/// The scoreboards of one guild, in insertion order.
pub open spec fn boards_for(boards: Seq<ScoreboardView>, guild_id: i64) -> Seq<ScoreboardView>
    decreases boards.len(),
{
    if boards.len() == 0 {
        Seq::empty()
    } else if boards.last().guild_id == guild_id {
        boards_for(boards.drop_last(), guild_id).push(boards.last())
    } else {
        boards_for(boards.drop_last(), guild_id)
    }
}

/// The well-formedness of the store: the uniqueness and referential-integrity
/// invariants of the schema, and the freshness of the id counter.
pub open spec fn inv(s: StoreView) -> bool {
    &&& guild_ids_unique(s.guilds)
    &&& boards_unique(s.scoreboards)
    &&& scores_unique(s.scores)
    &&& forall|i: int|
        0 <= i < s.scoreboards.len() ==> has_guild(s.guilds, #[trigger] s.scoreboards[i].guild_id)
    &&& forall|i: int|
        0 <= i < s.scores.len() ==> has_board_id(
            s.scoreboards,
            #[trigger] s.scores[i].scoreboard_id,
        )
    &&& forall|i: int|
        0 <= i < s.scoreboards.len() ==> (#[trigger] s.scoreboards[i].scoreboard_id)
            < s.next_scoreboard_id
    &&& 1 <= s.next_scoreboard_id
}

/// How registering a guild relates the rows after the call to those before:
/// an atomic "insert if absent" keyed on the guild id.
pub open spec fn ensure_guild_post(
    pre: Seq<GuildView>,
    post: Seq<GuildView>,
    guild_id: i64,
    name: Seq<char>,
) -> bool {
    if has_guild(pre, guild_id) {
        post == pre
    } else {
        post == pre.push(GuildView { guild_id, name })
    }
}

/// The in-memory store: the three tables of the data model and the counter
/// that assigns scoreboard ids. It is the mathematical reference for what the
/// persisted tables hold; every operation on it is the atomic conditional
/// form that the persistence layer must match.
pub struct Store {
    guilds: Vec<GuildRow>,
    scoreboards: Vec<Scoreboard>,
    scores: Vec<ScoreRow>,
    next_scoreboard_id: i32,
}

impl View for Store {
    type V = StoreView;

    closed spec fn view(&self) -> StoreView {
        StoreView {
            guilds: self.guilds@.map_values(|g: GuildRow| g@),
            scoreboards: self.scoreboards@.map_values(|b: Scoreboard| b@),
            scores: self.scores@.map_values(|r: ScoreRow| r@),
            next_scoreboard_id: self.next_scoreboard_id as int,
        }
    }
}

impl Store {
    /// An empty store: no rows in any table, ids starting at one.
    pub fn new() -> (s: Store)
        ensures
            inv(s@),
            s@.guilds.len() == 0,
            s@.scoreboards.len() == 0,
            s@.scores.len() == 0,
            s@.next_scoreboard_id == 1,
    {
        let s = Store {
            guilds: Vec::new(),
            scoreboards: Vec::new(),
            scores: Vec::new(),
            next_scoreboard_id: 1,
        };
        proof {
            assert(s@.guilds =~= Seq::<GuildView>::empty());
            assert(s@.scoreboards =~= Seq::<ScoreboardView>::empty());
            assert(s@.scores =~= Seq::<ScoreView>::empty());
        }
        s
    }

    /// Registers a guild on first sight: an atomic insert-if-absent keyed on
    /// the guild id. A repeated call for the same guild changes nothing and
    /// does not error, so two racing registrations leave exactly one row.
    pub fn ensure_guild(&mut self, guild_id: i64, guild_name: &str) -> (r: Result<
        (),
        StorageError,
    >)
        requires
            inv(old(self)@),
        ensures
            inv(final(self)@),
            r is Ok,
            ensure_guild_post(old(self)@.guilds, final(self)@.guilds, guild_id, guild_name@),
            final(self)@.scoreboards == old(self)@.scoreboards,
            final(self)@.scores == old(self)@.scores,
            final(self)@.next_scoreboard_id == old(self)@.next_scoreboard_id,
            count_guild(final(self)@.guilds, guild_id) == 1,
    {
        let ghost pre = self@;
        let n = self.guilds.len();
        let mut i: usize = 0;
        while i < n
            invariant
                n == self.guilds.len(),
                i <= n,
                self@ == pre,
                pre == old(self)@,
                inv(pre),
                forall|k: int| 0 <= k < i ==> pre.guilds[k].guild_id != guild_id,
            decreases n - i,
        {
            if self.guilds[i].guild_id == guild_id {
                proof {
                    assert(pre.guilds[i as int].guild_id == guild_id);
                    assert(has_guild(pre.guilds, guild_id));
                    lemma_unique_count_guild(pre.guilds, guild_id);
                }
                return Ok(());
            }
            i += 1;
        }
        proof {
            assert(!has_guild(pre.guilds, guild_id));
        }
        let row = GuildRow { guild_id, guild_name: String::from_str(guild_name) };
        self.guilds.push(row);
        proof {
            let gv = GuildView { guild_id, name: guild_name@ };
            assert(self@.guilds =~= pre.guilds.push(gv));
            assert(self@.scoreboards =~= pre.scoreboards);
            assert(self@.scores =~= pre.scores);
            lemma_count_guild_push(pre.guilds, gv, guild_id);
            lemma_absent_count_guild(pre.guilds, guild_id);
            assert(guild_ids_unique(self@.guilds)) by {
                assert(forall|k: int|
                    0 <= k < pre.guilds.len() ==> pre.guilds[k].guild_id != guild_id);
            }
            assert(forall|i: int|
                0 <= i < self@.scoreboards.len() ==> has_guild(
                    self@.guilds,
                    #[trigger] self@.scoreboards[i].guild_id,
                )) by {
                assert forall|i: int| 0 <= i < self@.scoreboards.len() implies has_guild(
                    self@.guilds,
                    #[trigger] self@.scoreboards[i].guild_id,
                ) by {
                    let w = choose|w: int|
                        0 <= w < pre.guilds.len() && pre.guilds[w].guild_id
                            == pre.scoreboards[i].guild_id;
                    assert(self@.guilds[w].guild_id == self@.scoreboards[i].guild_id);
                }
            }
        }
        Ok(())
    }
}

/// How creating a scoreboard relates the store after the call to the store
/// before: one atomic conditional insert keyed on `(guild, name)`. The
/// conflict outcome is a normal result, not an error; the only error is a
/// missing parent guild.
pub open spec fn create_scoreboard_post(
    pre: StoreView,
    post: StoreView,
    guild_id: i64,
    name: Seq<char>,
    description: Option<Seq<char>>,
    r: Result<CreateOutcome, StorageError>,
) -> bool {
    &&& post.guilds == pre.guilds
    &&& post.scores == pre.scores
    &&& if !has_guild(pre.guilds, guild_id) {
        &&& r == Result::<CreateOutcome, StorageError>::Err(StorageError::MissingGuild)
        &&& post.scoreboards == pre.scoreboards
        &&& post.next_scoreboard_id == pre.next_scoreboard_id
    } else if has_board(pre.scoreboards, guild_id, name) {
        &&& r == Result::<CreateOutcome, StorageError>::Ok(CreateOutcome::AlreadyExists)
        &&& post.scoreboards == pre.scoreboards
        &&& post.next_scoreboard_id == pre.next_scoreboard_id
    } else {
        &&& r == Result::<CreateOutcome, StorageError>::Ok(CreateOutcome::Created)
        &&& post.scoreboards == pre.scoreboards.push(
            ScoreboardView {
                scoreboard_id: pre.next_scoreboard_id as i32,
                guild_id,
                name,
                description,
            },
        )
        &&& post.next_scoreboard_id == pre.next_scoreboard_id + 1
    }
}

impl Store {
    /// Creates a scoreboard for a guild unless one of that name already
    /// exists there: a single atomic conditional insert keyed on
    /// `(guild, name)`, never a separate check followed by an insert, so two
    /// racing creations of the same name leave exactly one row. Requires
    /// nothing of the name; refuses only a guild that was never registered.
    pub fn create_scoreboard(
        &mut self,
        guild_id: i64,
        name: &str,
        description: Option<String>,
    ) -> (r: Result<CreateOutcome, StorageError>)
        requires
            inv(old(self)@),
            old(self)@.next_scoreboard_id < i32::MAX as int,
        ensures
            inv(final(self)@),
            create_scoreboard_post(
                old(self)@,
                final(self)@,
                guild_id,
                name@,
                opt_text_view(description),
                r,
            ),
            has_guild(old(self)@.guilds, guild_id) ==> count_board(
                final(self)@.scoreboards,
                guild_id,
                name@,
            ) == 1,
    {
        let ghost pre = self@;
        // Referential integrity: the parent guild row must exist.
        let ng = self.guilds.len();
        let mut found_guild = false;
        let mut i: usize = 0;
        while i < ng
            invariant
                ng == self.guilds.len(),
                i <= ng,
                self@ == pre,
                found_guild ==> has_guild(pre.guilds, guild_id),
                !found_guild ==> forall|k: int| 0 <= k < i ==> pre.guilds[k].guild_id != guild_id,
            decreases ng - i,
        {
            if self.guilds[i].guild_id == guild_id {
                proof {
                    assert(pre.guilds[i as int].guild_id == guild_id);
                }
                found_guild = true;
            }
            i += 1;
        }
        if !found_guild {
            return Err(StorageError::MissingGuild);
        }
        // The conditional insert itself: one atomic step on the store.
        let key = String::from_str(name);
        let nb = self.scoreboards.len();
        let mut j: usize = 0;
        while j < nb
            invariant
                nb == self.scoreboards.len(),
                j <= nb,
                self@ == pre,
                pre == old(self)@,
                inv(pre),
                has_guild(pre.guilds, guild_id),
                key@ == name@,
                forall|k: int|
                    0 <= k < j ==> !(pre.scoreboards[k].guild_id == guild_id
                        && pre.scoreboards[k].name == name@),
            decreases nb - j,
        {
            if self.scoreboards[j].guild_id == guild_id && self.scoreboards[j].scoreboard_name
                == key {
                proof {
                    assert(pre.scoreboards[j as int].guild_id == guild_id
                        && pre.scoreboards[j as int].name == name@);
                    assert(has_board(pre.scoreboards, guild_id, name@));
                    lemma_unique_count_board(pre.scoreboards, guild_id, name@);
                }
                return Ok(CreateOutcome::AlreadyExists);
            }
            j += 1;
        }
        proof {
            assert(!has_board(pre.scoreboards, guild_id, name@));
        }
        let id = self.next_scoreboard_id;
        let row = Scoreboard {
            scoreboard_id: id,
            guild_id,
            scoreboard_name: key,
            scoreboard_description: description,
        };
        self.scoreboards.push(row);
        self.next_scoreboard_id = id + 1;
        proof {
            let bv = ScoreboardView {
                scoreboard_id: pre.next_scoreboard_id as i32,
                guild_id,
                name: name@,
                description: opt_text_view(description),
            };
            assert(self@.scoreboards =~= pre.scoreboards.push(bv));
            assert(self@.guilds =~= pre.guilds);
            assert(self@.scores =~= pre.scores);
            lemma_count_board_push(pre.scoreboards, bv, guild_id, name@);
            lemma_absent_count_board(pre.scoreboards, guild_id, name@);
            assert(boards_unique(self@.scoreboards)) by {
                assert(forall|k: int|
                    0 <= k < pre.scoreboards.len() ==> !(pre.scoreboards[k].guild_id == guild_id
                        && pre.scoreboards[k].name == name@));
                assert(forall|k: int|
                    0 <= k < pre.scoreboards.len()
                        ==> (#[trigger] pre.scoreboards[k].scoreboard_id)
                        < pre.next_scoreboard_id);
            }
            assert(forall|i: int|
                0 <= i < self@.scoreboards.len() ==> has_guild(
                    self@.guilds,
                    #[trigger] self@.scoreboards[i].guild_id,
                ));
            assert(forall|i: int|
                0 <= i < self@.scores.len() ==> has_board_id(
                    self@.scoreboards,
                    #[trigger] self@.scores[i].scoreboard_id,
                )) by {
                assert forall|i: int| 0 <= i < self@.scores.len() implies has_board_id(
                    self@.scoreboards,
                    #[trigger] self@.scores[i].scoreboard_id,
                ) by {
                    let w = choose|w: int|
                        0 <= w < pre.scoreboards.len() && pre.scoreboards[w].scoreboard_id
                            == pre.scores[i].scoreboard_id;
                    assert(self@.scoreboards[w].scoreboard_id == self@.scores[i].scoreboard_id);
                }
            }
        }
        Ok(CreateOutcome::Created)
    }

    /// Returns every scoreboard of the guild, in insertion order, as fresh
    /// rows. A guild with no scoreboards yields an empty vector, never an
    /// error.
    pub fn list_scoreboards(&self, guild_id: i64) -> (r: Vec<Scoreboard>)
        ensures
            r@.map_values(|b: Scoreboard| b@) == boards_for(self@.scoreboards, guild_id),
    {
        let ghost all = self@.scoreboards;
        let n = self.scoreboards.len();
        let mut out: Vec<Scoreboard> = Vec::new();
        proof {
            assert(out@.map_values(|b: Scoreboard| b@) =~= boards_for(all.take(0), guild_id));
        }
        let mut i: usize = 0;
        while i < n
            invariant
                n == self.scoreboards.len(),
                i <= n,
                all == self@.scoreboards,
                out@.map_values(|b: Scoreboard| b@) == boards_for(all.take(i as int), guild_id),
            decreases n - i,
        {
            let ghost prefix = all.take(i as int);
            proof {
                assert(all.take(i + 1int).drop_last() =~= prefix);
                assert(all.take(i + 1int).last() == all[i as int]);
            }
            let b = &self.scoreboards[i];
            if b.guild_id == guild_id {
                let copy = Scoreboard {
                    scoreboard_id: b.scoreboard_id,
                    guild_id: b.guild_id,
                    scoreboard_name: b.scoreboard_name.clone(),
                    scoreboard_description: clone_opt_text(&b.scoreboard_description),
                };
                let ghost before = out@;
                proof {
                    assert(copy@ =~= all[i as int]);
                }
                out.push(copy);
                proof {
                    assert(out@.map_values(|b: Scoreboard| b@) =~= before.map_values(
                        |b: Scoreboard| b@,
                    ).push(all[i as int]));
                }
            }
            i += 1;
        }
        proof {
            assert(all.take(n as int) =~= all);
        }
        out
    }
}

/// The index of the row carrying this `(scoreboard, user)` key, scanning
/// from the end, or `-1` where no row carries it.
pub open spec fn score_index(scores: Seq<ScoreView>, scoreboard_id: i32, user_id: i64) -> int
    decreases scores.len(),
{
    if scores.len() == 0 {
        -1
    } else if scores.last().scoreboard_id == scoreboard_id && scores.last().user_id == user_id {
        scores.len() - 1
    } else {
        score_index(scores.drop_last(), scoreboard_id, user_id)
    }
}

/// How an upsert relates the score rows after the call to those before: the
/// single row under the key is written in place, or appended where absent —
/// one atomic operation, never a separate check followed by a write.
pub open spec fn upsert_score_post(
    pre: Seq<ScoreView>,
    post: Seq<ScoreView>,
    scoreboard_id: i32,
    user_id: i64,
    score: i32,
) -> bool {
    let row = ScoreView { scoreboard_id, user_id, score };
    if has_score(pre, scoreboard_id, user_id) {
        post == pre.update(score_index(pre, scoreboard_id, user_id), row)
    } else {
        post == pre.push(row)
    }
}

impl Store {
    /// Sets one user's score within one scoreboard: creates the row with the
    /// given value where absent, otherwise overwrites it (last writer wins).
    /// Refuses only a scoreboard that does not exist; the key never gains a
    /// second row, and rows under other keys keep their value.
    pub fn upsert_score(&mut self, scoreboard_id: i32, user_id: i64, score: i32) -> (r: Result<
        (),
        StorageError,
    >)
        requires
            inv(old(self)@),
        ensures
            inv(final(self)@),
            final(self)@.guilds == old(self)@.guilds,
            final(self)@.scoreboards == old(self)@.scoreboards,
            final(self)@.next_scoreboard_id == old(self)@.next_scoreboard_id,
            !has_board_id(old(self)@.scoreboards, scoreboard_id) ==> r == Result::<
                (),
                StorageError,
            >::Err(StorageError::MissingScoreboard) && final(self)@.scores == old(self)@.scores,
            has_board_id(old(self)@.scoreboards, scoreboard_id) ==> {
                &&& r is Ok
                &&& upsert_score_post(
                    old(self)@.scores,
                    final(self)@.scores,
                    scoreboard_id,
                    user_id,
                    score,
                )
                &&& score_of(final(self)@.scores, scoreboard_id, user_id) == Option::Some(score)
                &&& count_score(final(self)@.scores, scoreboard_id, user_id) == 1
                &&& forall|b2: i32, u2: i64|
                    !(b2 == scoreboard_id && u2 == user_id) ==> score_of(
                        final(self)@.scores,
                        b2,
                        u2,
                    ) == score_of(old(self)@.scores, b2, u2)
            },
    {
        let ghost pre = self@;
        // Referential integrity: the parent scoreboard row must exist.
        let nb = self.scoreboards.len();
        let mut found_board = false;
        let mut i: usize = 0;
        while i < nb
            invariant
                nb == self.scoreboards.len(),
                i <= nb,
                self@ == pre,
                found_board ==> has_board_id(pre.scoreboards, scoreboard_id),
                !found_board ==> forall|k: int|
                    0 <= k < i ==> pre.scoreboards[k].scoreboard_id != scoreboard_id,
            decreases nb - i,
        {
            if self.scoreboards[i].scoreboard_id == scoreboard_id {
                proof {
                    assert(pre.scoreboards[i as int].scoreboard_id == scoreboard_id);
                }
                found_board = true;
            }
            i += 1;
        }
        if !found_board {
            return Err(StorageError::MissingScoreboard);
        }
        // The upsert itself: scan from the most recent row; overwrite in
        // place, or append where the key is absent.
        let n = self.scores.len();
        let mut j: usize = n;
        while j > 0
            invariant
                n == self.scores.len(),
                j <= n,
                self@ == pre,
                pre == old(self)@,
                inv(pre),
                has_board_id(pre.scoreboards, scoreboard_id),
                forall|k: int|
                    j <= k < n ==> !(pre.scores[k].scoreboard_id == scoreboard_id
                        && pre.scores[k].user_id == user_id),
            decreases j,
        {
            j -= 1;
            if self.scores[j].scoreboard_id == scoreboard_id && self.scores[j].user_id == user_id {
                self.scores[j] = ScoreRow { scoreboard_id, user_id, score };
                proof {
                    let row = ScoreView { scoreboard_id, user_id, score };
                    assert(pre.scores[j as int].scoreboard_id == scoreboard_id
                        && pre.scores[j as int].user_id == user_id);
                    assert(has_score(pre.scores, scoreboard_id, user_id));
                    lemma_score_index_at(pre.scores, scoreboard_id, user_id, j as int);
                    assert(self@.scores =~= pre.scores.update(j as int, row));
                    assert(self@.guilds =~= pre.guilds);
                    assert(self@.scoreboards =~= pre.scoreboards);
                    lemma_score_of_update_at(pre.scores, j as int, row, scoreboard_id, user_id);
                    lemma_count_score_update(pre.scores, j as int, row, scoreboard_id, user_id);
                    lemma_unique_count_score(pre.scores, scoreboard_id, user_id);
                    assert(scores_unique(self@.scores)) by {
                        assert(forall|k: int|
                            0 <= k < pre.scores.len() && k != j ==> !(
                            #[trigger] pre.scores[k].scoreboard_id == scoreboard_id
                                && pre.scores[k].user_id == user_id));
                    }
                    assert forall|b2: i32, u2: i64|
                        !(b2 == scoreboard_id && u2 == user_id) implies score_of(
                        self@.scores,
                        b2,
                        u2,
                    ) == score_of(pre.scores, b2, u2) by {
                        lemma_score_of_update_other(pre.scores, j as int, row, b2, u2);
                    }
                }
                return Ok(());
            }
        }
        proof {
            assert(!has_score(pre.scores, scoreboard_id, user_id));
        }
        self.scores.push(ScoreRow { scoreboard_id, user_id, score });
        proof {
            let row = ScoreView { scoreboard_id, user_id, score };
            assert(self@.scores =~= pre.scores.push(row));
            assert(self@.guilds =~= pre.guilds);
            assert(self@.scoreboards =~= pre.scoreboards);
            assert(pre.scores.push(row).drop_last() =~= pre.scores);
            lemma_absent_count_score(pre.scores, scoreboard_id, user_id);
            assert(count_score(self@.scores, scoreboard_id, user_id) == 1);
            assert(scores_unique(self@.scores)) by {
                assert forall|k: int|
                    0 <= k < pre.scores.len() implies !(#[trigger] pre.scores[k].scoreboard_id
                    == scoreboard_id && pre.scores[k].user_id == user_id) by {
                    if pre.scores[k].scoreboard_id == scoreboard_id && pre.scores[k].user_id
                        == user_id {
                        assert(has_score(pre.scores, scoreboard_id, user_id));
                    }
                }
            }
            assert forall|b2: i32, u2: i64|
                !(b2 == scoreboard_id && u2 == user_id) implies score_of(self@.scores, b2, u2)
                == score_of(pre.scores, b2, u2) by {
                assert(self@.scores.drop_last() =~= pre.scores);
            }
        }
        Ok(())
    }

    /// How many guild rows exist. A guild registered any number of times
    /// counts once.
    pub fn guild_len(&self) -> (n: usize)
        ensures
            n == self@.guilds.len(),
    {
        let n = self.guilds.len();
        proof {
            assert(self@.guilds.len() == self.guilds@.len());
        }
        n
    }

    /// Reads one user's score within one scoreboard, or `None` where no row
    /// carries the key. Read-only.
    pub fn get_score(&self, scoreboard_id: i32, user_id: i64) -> (r: Option<i32>)
        ensures
            r == score_of(self@.scores, scoreboard_id, user_id),
    {
        let ghost all = self@.scores;
        let n = self.scores.len();
        let mut j: usize = n;
        proof {
            assert(all.take(n as int) =~= all);
        }
        while j > 0
            invariant
                n == self.scores.len(),
                j <= n,
                all == self@.scores,
                score_of(all, scoreboard_id, user_id) == score_of(
                    all.take(j as int),
                    scoreboard_id,
                    user_id,
                ),
            decreases j,
        {
            j -= 1;
            proof {
                assert(all.take(j + 1int).drop_last() =~= all.take(j as int));
                assert(all.take(j + 1int).last() == all[j as int]);
            }
            if self.scores[j].scoreboard_id == scoreboard_id && self.scores[j].user_id == user_id {
                return Some(self.scores[j].score);
            }
        }
        None
    }
}

/// Where a row at `i` carries the key and nothing after it does, the key's
/// index is `i`.
pub proof fn lemma_score_index_at(scores: Seq<ScoreView>, scoreboard_id: i32, user_id: i64, i: int)
    requires
        0 <= i < scores.len(),
        scores[i].scoreboard_id == scoreboard_id && scores[i].user_id == user_id,
        forall|k: int|
            i < k < scores.len() ==> !(scores[k].scoreboard_id == scoreboard_id
                && scores[k].user_id == user_id),
    ensures
        score_index(scores, scoreboard_id, user_id) == i,
    decreases scores.len(),
{
    if i == scores.len() - 1 {
    } else {
        assert(!(scores.last().scoreboard_id == scoreboard_id && scores.last().user_id
            == user_id)) by {
            assert(scores[scores.len() - 1] == scores.last());
        }
        let head = scores.drop_last();
        assert(head[i] == scores[i]);
        lemma_score_index_at(head, scoreboard_id, user_id, i);
    }
}

/// A key that no row carries is counted zero times.
pub proof fn lemma_absent_count_score(scores: Seq<ScoreView>, scoreboard_id: i32, user_id: i64)
    requires
        !has_score(scores, scoreboard_id, user_id),
    ensures
        count_score(scores, scoreboard_id, user_id) == 0,
    decreases scores.len(),
{
    if scores.len() > 0 {
        let head = scores.drop_last();
        assert(!has_score(head, scoreboard_id, user_id)) by {
            if has_score(head, scoreboard_id, user_id) {
                let w = choose|w: int|
                    0 <= w < head.len() && head[w].scoreboard_id == scoreboard_id
                        && head[w].user_id == user_id;
                assert(scores[w].scoreboard_id == scoreboard_id && scores[w].user_id == user_id);
            }
        }
        lemma_absent_count_score(head, scoreboard_id, user_id);
        assert(!(scores.last().scoreboard_id == scoreboard_id && scores.last().user_id == user_id))
            by {
            if scores.last().scoreboard_id == scoreboard_id && scores.last().user_id == user_id {
                assert(scores[scores.len() - 1].scoreboard_id == scoreboard_id);
            }
        }
    }
}

/// Counting under uniqueness: a present `(scoreboard, user)` key is counted
/// exactly once.
pub proof fn lemma_unique_count_score(scores: Seq<ScoreView>, scoreboard_id: i32, user_id: i64)
    requires
        scores_unique(scores),
        has_score(scores, scoreboard_id, user_id),
    ensures
        count_score(scores, scoreboard_id, user_id) == 1,
    decreases scores.len(),
{
    let head = scores.drop_last();
    assert(scores_unique(head));
    if scores.last().scoreboard_id == scoreboard_id && scores.last().user_id == user_id {
        assert(!has_score(head, scoreboard_id, user_id)) by {
            if has_score(head, scoreboard_id, user_id) {
                let w = choose|w: int|
                    0 <= w < head.len() && head[w].scoreboard_id == scoreboard_id
                        && head[w].user_id == user_id;
                assert(scores[w].scoreboard_id == scores[scores.len() - 1].scoreboard_id
                    && scores[w].user_id == scores[scores.len() - 1].user_id);
            }
        }
        lemma_absent_count_score(head, scoreboard_id, user_id);
    } else {
        assert(has_score(head, scoreboard_id, user_id)) by {
            let w = choose|w: int|
                0 <= w < scores.len() && scores[w].scoreboard_id == scoreboard_id
                    && scores[w].user_id == user_id;
            assert(w < head.len() && head[w].scoreboard_id == scoreboard_id && head[w].user_id
                == user_id);
        }
        lemma_unique_count_score(head, scoreboard_id, user_id);
    }
}

/// Overwriting the row under a key in place leaves its new value visible.
pub proof fn lemma_score_of_update_at(
    scores: Seq<ScoreView>,
    i: int,
    row: ScoreView,
    scoreboard_id: i32,
    user_id: i64,
)
    requires
        0 <= i < scores.len(),
        row.scoreboard_id == scoreboard_id && row.user_id == user_id,
        forall|k: int|
            i < k < scores.len() ==> !(scores[k].scoreboard_id == scoreboard_id
                && scores[k].user_id == user_id),
    ensures
        score_of(scores.update(i, row), scoreboard_id, user_id) == Option::Some(row.score),
    decreases scores.len(),
{
    let upd = scores.update(i, row);
    if i == scores.len() - 1 {
        assert(upd.last() == row);
    } else {
        assert(upd.last() == scores.last());
        assert(!(upd.last().scoreboard_id == scoreboard_id && upd.last().user_id == user_id)) by {
            assert(scores[scores.len() - 1] == scores.last());
        }
        assert(upd.drop_last() =~= scores.drop_last().update(i, row));
        let head = scores.drop_last();
        assert(head[i] == scores[i]);
        lemma_score_of_update_at(head, i, row, scoreboard_id, user_id);
    }
}

/// Overwriting a row in place changes the count of its key by the difference
/// between what leaves and what arrives.
pub proof fn lemma_count_score_update(
    scores: Seq<ScoreView>,
    i: int,
    row: ScoreView,
    scoreboard_id: i32,
    user_id: i64,
)
    requires
        0 <= i < scores.len(),
    ensures
        count_score(scores.update(i, row), scoreboard_id, user_id) == count_score(
            scores,
            scoreboard_id,
            user_id,
        ) - (if scores[i].scoreboard_id == scoreboard_id && scores[i].user_id == user_id {
            1int
        } else {
            0int
        }) + (if row.scoreboard_id == scoreboard_id && row.user_id == user_id {
            1int
        } else {
            0int
        }),
    decreases scores.len(),
{
    let upd = scores.update(i, row);
    if i == scores.len() - 1 {
        assert(upd.last() == row);
        assert(upd.drop_last() =~= scores.drop_last());
        assert(scores[i] == scores.last());
    } else {
        assert(upd.last() == scores.last());
        assert(upd.drop_last() =~= scores.drop_last().update(i, row));
        assert(scores.drop_last()[i] == scores[i]);
        lemma_count_score_update(scores.drop_last(), i, row, scoreboard_id, user_id);
    }
}

/// Overwriting the row under one key leaves every other key's value as it
/// was: per-user rows are independent.
pub proof fn lemma_score_of_update_other(
    scores: Seq<ScoreView>,
    i: int,
    row: ScoreView,
    b2: i32,
    u2: i64,
)
    requires
        0 <= i < scores.len(),
        !(scores[i].scoreboard_id == b2 && scores[i].user_id == u2),
        !(row.scoreboard_id == b2 && row.user_id == u2),
    ensures
        score_of(scores.update(i, row), b2, u2) == score_of(scores, b2, u2),
    decreases scores.len(),
{
    let upd = scores.update(i, row);
    if i == scores.len() - 1 {
        assert(upd.last() == row);
        assert(upd.drop_last() =~= scores.drop_last());
        assert(scores[i] == scores.last());
    } else {
        assert(upd.last() == scores.last());
        assert(upd.drop_last() =~= scores.drop_last().update(i, row));
        assert(scores.drop_last()[i] == scores[i]);
        lemma_score_of_update_other(scores.drop_last(), i, row, b2, u2);
    }
}

/// The `(user, score)` entries of one scoreboard, in insertion order.
pub open spec fn entries_for(scores: Seq<ScoreView>, scoreboard_id: i32) -> Seq<(i64, i32)>
    decreases scores.len(),
{
    if scores.len() == 0 {
        Seq::empty()
    } else if scores.last().scoreboard_id == scoreboard_id {
        entries_for(scores.drop_last(), scoreboard_id).push(
            (scores.last().user_id, scores.last().score),
        )
    } else {
        entries_for(scores.drop_last(), scoreboard_id)
    }
}

/// Scores never rise along the sequence.
pub open spec fn sorted_desc(entries: Seq<(i64, i32)>) -> bool {
    forall|i: int, j: int| 0 <= i < j < entries.len() ==> entries[i].1 >= entries[j].1
}

impl Store {
    /// The leaderboard of one scoreboard: its `(user, score)` entries ordered
    /// by score, highest first. Read-only; the entries are exactly the
    /// scoreboard's score rows, nothing added and nothing lost.
    pub fn leaderboard(&self, scoreboard_id: i32) -> (r: Vec<(i64, i32)>)
        ensures
            sorted_desc(r@),
            r@.to_multiset() == entries_for(self@.scores, scoreboard_id).to_multiset(),
    {
        broadcast use vstd::seq_lib::group_to_multiset_ensures;
        broadcast use vstd::multiset::group_multiset_axioms;

        let ghost all = self@.scores;
        // Gather the scoreboard's entries in row order.
        let n = self.scores.len();
        let mut work: Vec<(i64, i32)> = Vec::new();
        proof {
            assert(work@ =~= entries_for(all.take(0), scoreboard_id));
        }
        let mut i: usize = 0;
        while i < n
            invariant
                n == self.scores.len(),
                i <= n,
                all == self@.scores,
                work@ == entries_for(all.take(i as int), scoreboard_id),
            decreases n - i,
        {
            proof {
                assert(all.take(i + 1int).drop_last() =~= all.take(i as int));
                assert(all.take(i + 1int).last() == all[i as int]);
            }
            let row = &self.scores[i];
            if row.scoreboard_id == scoreboard_id {
                work.push((row.user_id, row.score));
            }
            i += 1;
        }
        proof {
            assert(all.take(n as int) =~= all);
        }
        // Order them: repeatedly move the highest remaining score over.
        let mut out: Vec<(i64, i32)> = Vec::new();
        proof {
            assert(out@.to_multiset().add(work@.to_multiset()) =~= entries_for(
                self@.scores,
                scoreboard_id,
            ).to_multiset());
        }
        while work.len() > 0
            invariant
                sorted_desc(out@),
                forall|p: int, q: int|
                    0 <= p < out@.len() && 0 <= q < work@.len() ==> out@[p].1 >= work@[q].1,
                out@.to_multiset().add(work@.to_multiset()) == entries_for(
                    self@.scores,
                    scoreboard_id,
                ).to_multiset(),
            decreases work.len(),
        {
            broadcast use vstd::seq_lib::group_to_multiset_ensures;
            broadcast use vstd::multiset::group_multiset_axioms;

            let wn = work.len();
            let mut m: usize = 0;
            let mut k: usize = 1;
            while k < wn
                invariant
                    wn == work@.len(),
                    0 < wn,
                    1 <= k <= wn,
                    m < k,
                    forall|q: int| 0 <= q < k ==> work@[m as int].1 >= work@[q].1,
                decreases wn - k,
            {
                if work[k].1 > work[m].1 {
                    m = k;
                }
                k += 1;
            }
            let ghost prev_out = out@;
            let ghost prev_work = work@;
            let e = work.remove(m);
            out.push(e);
            proof {
                assert(e == prev_work[m as int]);
                assert(prev_work.contains(e)) by {
                    assert(prev_work[m as int] == e);
                }
                assert(out@ == prev_out.push(e));
                assert(work@ == prev_work.remove(m as int));
                assert(out@.to_multiset() =~= prev_out.to_multiset().insert(e));
                assert(work@.to_multiset() =~= prev_work.to_multiset().remove(e));
                assert(out@.to_multiset().add(work@.to_multiset()) =~= prev_out.to_multiset().add(
                    prev_work.to_multiset(),
                )) by {
                    assert(prev_work.to_multiset().count(e) > 0);
                }
                assert(sorted_desc(out@)) by {
                    assert(forall|p: int| 0 <= p < prev_out.len() ==> out@[p] == prev_out[p]);
                    assert(out@[out@.len() - 1] == e);
                    assert(forall|p: int| 0 <= p < prev_out.len() ==> prev_out[p].1 >= e.1);
                }
                assert forall|p: int, q: int|
                    0 <= p < out@.len() && 0 <= q < work@.len() implies out@[p].1 >= work@[q].1 by {
                    assert(work@[q] == if q < m as int {
                        prev_work[q]
                    } else {
                        prev_work[q + 1]
                    });
                    assert(work@[q].1 <= prev_work[m as int].1);
                    if p < prev_out.len() {
                        assert(out@[p] == prev_out[p]);
                    } else {
                        assert(out@[p] == e);
                    }
                }
            }
        }
        proof {
            broadcast use vstd::seq_lib::group_to_multiset_ensures;
            broadcast use vstd::multiset::group_multiset_axioms;

            assert(work@.to_multiset() =~= Multiset::<(i64, i32)>::empty()) by {
                assert forall|x: (i64, i32)| work@.to_multiset().count(x) == 0 by {
                    if work@.to_multiset().count(x) > 0 {
                        assert(work@.contains(x));
                    }
                }
            }
            assert(out@.to_multiset().add(work@.to_multiset()) =~= out@.to_multiset());
        }
        out
    }
}

/// A fresh copy of an optional description, preserving presence and text.
pub fn clone_opt_text(d: &Option<String>) -> (r: Option<String>)
    ensures
        opt_text_view(r) == opt_text_view(*d),
{
    match d {
        Option::None => Option::None,
        Option::Some(s) => Option::Some(s.clone()),
    }
}

/// Counting under uniqueness: a present `(guild, name)` key is counted
/// exactly once.
pub proof fn lemma_unique_count_board(boards: Seq<ScoreboardView>, guild_id: i64, name: Seq<char>)
    requires
        boards_unique(boards),
        has_board(boards, guild_id, name),
    ensures
        count_board(boards, guild_id, name) == 1,
    decreases boards.len(),
{
    let head = boards.drop_last();
    assert(boards_unique(head));
    if boards.last().guild_id == guild_id && boards.last().name == name {
        assert(!has_board(head, guild_id, name)) by {
            if has_board(head, guild_id, name) {
                let w = choose|w: int|
                    0 <= w < head.len() && head[w].guild_id == guild_id && head[w].name == name;
                assert(boards[w].guild_id == boards[boards.len() - 1].guild_id);
            }
        }
        lemma_absent_count_board(head, guild_id, name);
    } else {
        assert(has_board(head, guild_id, name)) by {
            let w = choose|w: int|
                0 <= w < boards.len() && boards[w].guild_id == guild_id && boards[w].name == name;
            assert(w < head.len() && head[w].guild_id == guild_id && head[w].name == name);
        }
        lemma_unique_count_board(head, guild_id, name);
    }
}

/// A `(guild, name)` key that no row carries is counted zero times.
pub proof fn lemma_absent_count_board(boards: Seq<ScoreboardView>, guild_id: i64, name: Seq<char>)
    requires
        !has_board(boards, guild_id, name),
    ensures
        count_board(boards, guild_id, name) == 0,
    decreases boards.len(),
{
    if boards.len() > 0 {
        let head = boards.drop_last();
        assert(!has_board(head, guild_id, name)) by {
            if has_board(head, guild_id, name) {
                let w = choose|w: int|
                    0 <= w < head.len() && head[w].guild_id == guild_id && head[w].name == name;
                assert(boards[w].guild_id == guild_id && boards[w].name == name);
            }
        }
        lemma_absent_count_board(head, guild_id, name);
        assert(boards.last().guild_id != guild_id || boards.last().name != name) by {
            if boards.last().guild_id == guild_id && boards.last().name == name {
                assert(boards[boards.len() - 1].guild_id == guild_id && boards[boards.len()
                    - 1].name == name);
            }
        }
    }
}

/// Appending a row adds one to the count of its `(guild, name)` key and
/// nothing to others.
pub proof fn lemma_count_board_push(
    boards: Seq<ScoreboardView>,
    row: ScoreboardView,
    guild_id: i64,
    name: Seq<char>,
)
    ensures
        count_board(boards.push(row), guild_id, name) == count_board(boards, guild_id, name) + if row.guild_id
            == guild_id && row.name == name {
            1int
        } else {
            0int
        },
{
    assert(boards.push(row).drop_last() =~= boards);
    assert(boards.push(row).last() == row);
}

/// Appending a row extends the guild's listing exactly when the row belongs
/// to that guild.
pub proof fn lemma_boards_for_push(boards: Seq<ScoreboardView>, row: ScoreboardView, guild_id: i64)
    ensures
        boards_for(boards.push(row), guild_id) == if row.guild_id == guild_id {
            boards_for(boards, guild_id).push(row)
        } else {
            boards_for(boards, guild_id)
        },
{
    assert(boards.push(row).drop_last() =~= boards);
    assert(boards.push(row).last() == row);
}

/// A guild none of whose rows exist lists as the empty sequence.
pub proof fn lemma_boards_for_absent(boards: Seq<ScoreboardView>, guild_id: i64)
    requires
        forall|i: int| 0 <= i < boards.len() ==> boards[i].guild_id != guild_id,
    ensures
        boards_for(boards, guild_id) == Seq::<ScoreboardView>::empty(),
    decreases boards.len(),
{
    if boards.len() > 0 {
        let head = boards.drop_last();
        assert(forall|i: int| 0 <= i < head.len() ==> head[i].guild_id != guild_id);
        lemma_boards_for_absent(head, guild_id);
        assert(boards.last().guild_id != guild_id) by {
            assert(boards[boards.len() - 1].guild_id != guild_id);
        }
    }
}

/// Counting under uniqueness: a present key is counted exactly once.
pub proof fn lemma_unique_count_guild(guilds: Seq<GuildView>, guild_id: i64)
    requires
        guild_ids_unique(guilds),
    ensures
        count_guild(guilds, guild_id) == if has_guild(guilds, guild_id) {
            1int
        } else {
            0int
        },
    decreases guilds.len(),
{
    if guilds.len() > 0 {
        let head = guilds.drop_last();
        assert(guild_ids_unique(head));
        lemma_unique_count_guild(head, guild_id);
        if guilds.last().guild_id == guild_id {
            assert(has_guild(guilds, guild_id));
            assert(!has_guild(head, guild_id)) by {
                if has_guild(head, guild_id) {
                    let w = choose|w: int|
                        0 <= w < head.len() && head[w].guild_id == guild_id;
                    assert(guilds[w].guild_id == guilds[guilds.len() - 1].guild_id);
                }
            }
        } else {
            if has_guild(guilds, guild_id) {
                let w = choose|w: int|
                    0 <= w < guilds.len() && guilds[w].guild_id == guild_id;
                assert(w < head.len() && head[w].guild_id == guild_id);
                assert(has_guild(head, guild_id));
            } else {
                assert(!has_guild(head, guild_id)) by {
                    if has_guild(head, guild_id) {
                        let w = choose|w: int|
                            0 <= w < head.len() && head[w].guild_id == guild_id;
                        assert(guilds[w].guild_id == guild_id);
                    }
                }
            }
        }
    }
}

/// A key that no row carries is counted zero times.
pub proof fn lemma_absent_count_guild(guilds: Seq<GuildView>, guild_id: i64)
    requires
        !has_guild(guilds, guild_id),
    ensures
        count_guild(guilds, guild_id) == 0,
    decreases guilds.len(),
{
    if guilds.len() > 0 {
        let head = guilds.drop_last();
        assert(!has_guild(head, guild_id)) by {
            if has_guild(head, guild_id) {
                let w = choose|w: int| 0 <= w < head.len() && head[w].guild_id == guild_id;
                assert(guilds[w].guild_id == guild_id);
            }
        }
        lemma_absent_count_guild(head, guild_id);
        assert(guilds.last().guild_id != guild_id) by {
            if guilds.last().guild_id == guild_id {
                assert(guilds[guilds.len() - 1].guild_id == guild_id);
            }
        }
    }
}

/// Appending a row adds one to the count of its key and nothing to others.
pub proof fn lemma_count_guild_push(guilds: Seq<GuildView>, row: GuildView, guild_id: i64)
    ensures
        count_guild(guilds.push(row), guild_id) == count_guild(guilds, guild_id) + if row.guild_id
            == guild_id {
            1int
        } else {
            0int
        },
{
    assert(guilds.push(row).drop_last() =~= guilds);
    assert(guilds.push(row).last() == row);
}

} // verus!
