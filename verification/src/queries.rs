//! The parameterized statements the persistence layer runs, and the
//! connection URL. Every value travels as a bound parameter (`$1`, `$2`,
//! ...), never concatenated into the statement text, and each write is the
//! single atomic conditional form the registries' contracts demand.
use vstd::prelude::*;

verus! {

/// Registers a guild: insert-if-absent keyed on the guild id, in one atomic
/// statement. Binds: guild id, guild name.
pub fn insert_guild_sql() -> (r: &'static str)
    ensures
        r@ == "INSERT INTO guilds (guild_id, guild_name) VALUES ($1, $2) ON CONFLICT (guild_id) DO NOTHING"@,
{
    "INSERT INTO guilds (guild_id, guild_name) VALUES ($1, $2) ON CONFLICT (guild_id) DO NOTHING"
}

/// Creates a scoreboard: insert-if-absent keyed on `(guild_id,
/// scoreboard_name)`, in one atomic statement — the conflict outcome, not a
/// prior existence check, decides between `Created` and `AlreadyExists`.
/// Binds: guild id, name, optional description.
pub fn insert_scoreboard_sql() -> (r: &'static str)
    ensures
        r@ == "INSERT INTO scoreboards (guild_id, scoreboard_name, scoreboard_description) VALUES ($1, $2, $3) ON CONFLICT (guild_id, scoreboard_name) DO NOTHING"@,
{
    "INSERT INTO scoreboards (guild_id, scoreboard_name, scoreboard_description) VALUES ($1, $2, $3) ON CONFLICT (guild_id, scoreboard_name) DO NOTHING"
}

/// Lists a guild's scoreboards in insertion order. Binds: guild id.
pub fn select_scoreboards_sql() -> (r: &'static str)
    ensures
        r@ == "SELECT scoreboard_id, guild_id, scoreboard_name, scoreboard_description FROM scoreboards WHERE guild_id = $1 ORDER BY scoreboard_id"@,
{
    "SELECT scoreboard_id, guild_id, scoreboard_name, scoreboard_description FROM scoreboards WHERE guild_id = $1 ORDER BY scoreboard_id"
}

/// Sets one user's score in one scoreboard: insert-or-overwrite keyed on
/// `(scoreboard_id, user_id)`, in one atomic statement, last writer wins.
/// Binds: scoreboard id, user id, score.
pub fn upsert_score_sql() -> (r: &'static str)
    ensures
        r@ == "INSERT INTO scores (scoreboard_id, user_id, score) VALUES ($1, $2, $3) ON CONFLICT (scoreboard_id, user_id) DO UPDATE SET score = EXCLUDED.score"@,
{
    "INSERT INTO scores (scoreboard_id, user_id, score) VALUES ($1, $2, $3) ON CONFLICT (scoreboard_id, user_id) DO UPDATE SET score = EXCLUDED.score"
}

/// Reads one scoreboard's leaderboard, highest score first. Binds:
/// scoreboard id.
pub fn select_leaderboard_sql() -> (r: &'static str)
    ensures
        r@ == "SELECT user_id, score FROM scores WHERE scoreboard_id = $1 ORDER BY score DESC"@,
{
    "SELECT user_id, score FROM scores WHERE scoreboard_id = $1 ORDER BY score DESC"
}

/// The connection URL for the local database, assembled from the configured
/// database name, user and password.
pub fn connection_url(dbname: &str, user: &str, password: &str) -> (r: String)
    ensures
        r@ == "postgres://localhost?dbname="@ + dbname@ + "&user="@ + user@ + "&password="@
            + password@,
{
    let mut r = String::from_str("postgres://localhost?dbname=");
    r.append(dbname);
    r.append("&user=");
    r.append(user);
    r.append("&password=");
    r.append(password);
    r
}

} // verus!
