//! Schema management: the three tables in foreign-key dependency order, the
//! statement text that creates each, and a model of which tables exist that
//! keeps a referencing table from ever preceding its target.
use vstd::prelude::*;

verus! {

/// The three tables, named in foreign-key dependency order: scoreboards
/// reference guilds, scores reference scoreboards.
#[derive(Clone, Copy, PartialEq, Eq, Structural, Debug)]
pub enum Table {
    Guilds,
    Scoreboards,
    Scores,
}

/// Which tables exist. Creation must respect the dependencies, so presence of
/// a referencing table implies presence of the one it references.
pub struct SchemaState {
    pub guilds_present: bool,
    pub scoreboards_present: bool,
    pub scores_present: bool,
}

/// No table exists before the table it references.
pub open spec fn fk_closed(s: SchemaState) -> bool {
    &&& s.scoreboards_present ==> s.guilds_present
    &&& s.scores_present ==> s.scoreboards_present
}

impl SchemaState {
    /// A fresh database: no tables yet.
    pub fn new() -> (s: SchemaState)
        ensures
            !s.guilds_present,
            !s.scoreboards_present,
            !s.scores_present,
            fk_closed(s),
    {
        SchemaState { guilds_present: false, scoreboards_present: false, scores_present: false }
    }

    /// One "create only if not already present" step. A table may be created
    /// only after the table it references; repeating a step changes nothing.
    pub fn apply_create(&mut self, table: Table)
        requires
            fk_closed(*old(self)),
            table is Scoreboards ==> old(self).guilds_present,
            table is Scores ==> old(self).scoreboards_present,
        ensures
            fk_closed(*final(self)),
            table is Guilds ==> *final(self) == (SchemaState {
                guilds_present: true,
                ..*old(self)
            }),
            table is Scoreboards ==> *final(self) == (SchemaState {
                scoreboards_present: true,
                ..*old(self)
            }),
            table is Scores ==> *final(self) == (SchemaState {
                scores_present: true,
                ..*old(self)
            }),
    {
        match table {
            Table::Guilds => {
                self.guilds_present = true;
            },
            Table::Scoreboards => {
                self.scoreboards_present = true;
            },
            Table::Scores => {
                self.scores_present = true;
            },
        }
    }

    /// Creates whatever is missing, in dependency order. Safe to repeat: a
    /// second run starts from the complete schema and leaves it complete.
    pub fn ensure_schema(&mut self)
        requires
            fk_closed(*old(self)),
        ensures
            fk_closed(*final(self)),
            final(self).guilds_present,
            final(self).scoreboards_present,
            final(self).scores_present,
    {
        self.apply_create(Table::Guilds);
        self.apply_create(Table::Scoreboards);
        self.apply_create(Table::Scores);
    }
}

/// The order in which the tables must be created.
pub fn creation_order() -> (r: Vec<Table>)
    ensures
        r@ == seq![Table::Guilds, Table::Scoreboards, Table::Scores],
{
    let mut v: Vec<Table> = Vec::new();
    v.push(Table::Guilds);
    v.push(Table::Scoreboards);
    v.push(Table::Scores);
    proof {
        assert(v@ =~= seq![Table::Guilds, Table::Scoreboards, Table::Scores]);
    }
    v
}

/// The idempotent creation statement for one table. The scoreboards table
/// carries the unique constraint on `(guild_id, scoreboard_name)` that makes
/// a conditional insert on that key atomic, and the scores table keys on
/// `(scoreboard_id, user_id)`.
pub fn create_table_sql(table: Table) -> (r: &'static str)
    ensures
        table is Guilds ==> r@
            == "CREATE TABLE IF NOT EXISTS guilds (guild_id BIGINT PRIMARY KEY, guild_name VARCHAR(255) NOT NULL)"@,
        table is Scoreboards ==> r@
            == "CREATE TABLE IF NOT EXISTS scoreboards (scoreboard_id SERIAL PRIMARY KEY, guild_id BIGINT NOT NULL, scoreboard_name VARCHAR(255) NOT NULL, scoreboard_description VARCHAR(255), CONSTRAINT fk_guild_id FOREIGN KEY (guild_id) REFERENCES guilds(guild_id), CONSTRAINT uq_guild_board UNIQUE (guild_id, scoreboard_name))"@,
        table is Scores ==> r@
            == "CREATE TABLE IF NOT EXISTS scores (scoreboard_id INT NOT NULL, user_id BIGINT NOT NULL, score INT NOT NULL DEFAULT 0, PRIMARY KEY (scoreboard_id, user_id), CONSTRAINT fk_scoreboard_id FOREIGN KEY (scoreboard_id) REFERENCES scoreboards(scoreboard_id))"@,
{
    match table {
        Table::Guilds => "CREATE TABLE IF NOT EXISTS guilds (guild_id BIGINT PRIMARY KEY, guild_name VARCHAR(255) NOT NULL)",
        Table::Scoreboards => "CREATE TABLE IF NOT EXISTS scoreboards (scoreboard_id SERIAL PRIMARY KEY, guild_id BIGINT NOT NULL, scoreboard_name VARCHAR(255) NOT NULL, scoreboard_description VARCHAR(255), CONSTRAINT fk_guild_id FOREIGN KEY (guild_id) REFERENCES guilds(guild_id), CONSTRAINT uq_guild_board UNIQUE (guild_id, scoreboard_name))",
        Table::Scores => "CREATE TABLE IF NOT EXISTS scores (scoreboard_id INT NOT NULL, user_id BIGINT NOT NULL, score INT NOT NULL DEFAULT 0, PRIMARY KEY (scoreboard_id, user_id), CONSTRAINT fk_scoreboard_id FOREIGN KEY (scoreboard_id) REFERENCES scoreboards(scoreboard_id))",
    }
}

} // verus!
