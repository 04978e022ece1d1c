use scorebot_core::pool::ConnectionPool;
use scorebot_core::queries::{
    connection_url, insert_guild_sql, insert_scoreboard_sql, select_leaderboard_sql,
    select_scoreboards_sql, upsert_score_sql,
};
use scorebot_core::schema::{create_table_sql, creation_order, SchemaState, Table};

#[test]
fn tables_are_created_in_dependency_order() {
    assert_eq!(creation_order(), vec![Table::Guilds, Table::Scoreboards, Table::Scores]);
}

#[test]
fn ensure_schema_is_idempotent() {
    let mut schema = SchemaState::new();
    assert!(!schema.guilds_present);
    schema.ensure_schema();
    assert!(schema.guilds_present && schema.scoreboards_present && schema.scores_present);
    schema.ensure_schema();
    assert!(schema.guilds_present && schema.scoreboards_present && schema.scores_present);
}

#[test]
fn create_table_statements_are_conditional_and_constrained() {
    let guilds = create_table_sql(Table::Guilds);
    let scoreboards = create_table_sql(Table::Scoreboards);
    let scores = create_table_sql(Table::Scores);
    for sql in [guilds, scoreboards, scores] {
        assert!(sql.starts_with("CREATE TABLE IF NOT EXISTS"));
    }
    // The unique key that makes scoreboard creation an atomic conditional
    // insert, and the compound key for scores.
    assert!(scoreboards.contains("UNIQUE (guild_id, scoreboard_name)"));
    assert!(scores.contains("PRIMARY KEY (scoreboard_id, user_id)"));
    assert!(scoreboards.contains("REFERENCES guilds(guild_id)"));
    assert!(scores.contains("REFERENCES scoreboards(scoreboard_id)"));
}

#[test]
fn statements_bind_every_value() {
    assert_eq!(
        insert_guild_sql(),
        "INSERT INTO guilds (guild_id, guild_name) VALUES ($1, $2) ON CONFLICT (guild_id) DO NOTHING"
    );
    assert_eq!(
        insert_scoreboard_sql(),
        "INSERT INTO scoreboards (guild_id, scoreboard_name, scoreboard_description) VALUES ($1, $2, $3) ON CONFLICT (guild_id, scoreboard_name) DO NOTHING"
    );
    assert_eq!(
        select_scoreboards_sql(),
        "SELECT scoreboard_id, guild_id, scoreboard_name, scoreboard_description FROM scoreboards WHERE guild_id = $1 ORDER BY scoreboard_id"
    );
    assert_eq!(
        upsert_score_sql(),
        "INSERT INTO scores (scoreboard_id, user_id, score) VALUES ($1, $2, $3) ON CONFLICT (scoreboard_id, user_id) DO UPDATE SET score = EXCLUDED.score"
    );
    assert_eq!(
        select_leaderboard_sql(),
        "SELECT user_id, score FROM scores WHERE scoreboard_id = $1 ORDER BY score DESC"
    );
    // No statement interpolates a value into its text.
    for sql in [
        insert_guild_sql(),
        insert_scoreboard_sql(),
        select_scoreboards_sql(),
        upsert_score_sql(),
        select_leaderboard_sql(),
    ] {
        assert!(sql.contains("$1"));
        assert!(!sql.contains('\''));
    }
}

#[test]
fn connection_url_assembles_the_parts() {
    assert_eq!(
        connection_url("scorebot", "svc", "hunter2"),
        "postgres://localhost?dbname=scorebot&user=svc&password=hunter2"
    );
}

#[test]
fn pool_hands_out_at_most_its_capacity() {
    let mut pool = ConnectionPool::new(2);
    assert!(pool.try_acquire());
    assert!(pool.try_acquire());
    assert!(!pool.try_acquire());
    pool.release();
    assert!(pool.try_acquire());
    assert!(!pool.try_acquire());
}
