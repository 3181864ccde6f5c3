use rusqlite::Connection;
use jumpjump::{MigrationAction, MigrationError, SCHEMA_VERSION, migration_script, next_migration};

#[test]
fn fresh_store_runs_every_step_in_order() {
    let mut version = 0;
    let mut steps = Vec::new();
    loop {
        match next_migration(version, SCHEMA_VERSION).unwrap() {
            MigrationAction::UpToDate => break,
            MigrationAction::Apply(step) => {
                steps.push(step);
                version = step + 1;
            }
        }
    }
    assert_eq!(steps, [0, 1, 2, 3]);
    assert_eq!(version, 4);
}

#[test]
fn stepwise_migration_runs_the_same_steps() {
    let mut steps = Vec::new();
    for target in 1..=SCHEMA_VERSION {
        let mut version = target - 1;
        while let MigrationAction::Apply(step) = next_migration(version, target).unwrap() {
            steps.push(step);
            version = step + 1;
        }
    }
    assert_eq!(steps, [0, 1, 2, 3]);
}

#[test]
fn current_store_is_up_to_date() {
    assert_eq!(next_migration(4, 4), Ok(MigrationAction::UpToDate));
    assert_eq!(next_migration(3, 3), Ok(MigrationAction::UpToDate));
}

#[test]
fn later_version_is_unrecognized() {
    assert_eq!(next_migration(5, 4), Err(MigrationError::UnrecognizedVersion(5)));
}

#[test]
fn downgrade_is_refused() {
    assert_eq!(next_migration(2, 1), Err(MigrationError::UnreachableTarget(1)));
}

#[test]
fn unknown_target_is_refused() {
    assert_eq!(next_migration(1, 7), Err(MigrationError::UnreachableTarget(7)));
}

#[test]
fn each_known_step_has_a_script() {
    for step in 0..4 {
        let script = migration_script(step).unwrap();
        assert!(script.contains("begin transaction"));
        assert!(script.contains(&format!("{})", step + 1)) || script.contains(&format!("version = {}", step + 1)));
    }
    assert!(migration_script(4).is_none());
}

fn run_to(conn: &Connection, target: u64) {
    conn.execute_batch("create table if not exists migration_version (id INTEGER PRIMARY KEY ASC, version INTEGER);")
        .unwrap();
    loop {
        let version: u64 = conn
            .query_row("select version from migration_version where id = 1", [], |row| row.get::<_, i64>(0))
            .map(|v| v as u64)
            .unwrap_or(0);
        match next_migration(version, target).unwrap() {
            MigrationAction::UpToDate => return,
            MigrationAction::Apply(step) => conn.execute_batch(migration_script(step).unwrap()).unwrap(),
        }
    }
}

#[test]
fn fresh_store_gets_the_location_table() {
    let conn = Connection::open_in_memory().unwrap();
    run_to(&conn, SCHEMA_VERSION);
    let version: i64 = conn.query_row("select version from migration_version where id = 1", [], |r| r.get(0)).unwrap();
    assert_eq!(version, 4);
    conn.execute("insert into jump_location(location, rank, lastAccess, lastAccessMillis) values ('/A', 1, '', 5)", [])
        .unwrap();
    assert!(conn.execute("insert into jump_location(location, rank) values ('/a', 1)", []).is_err());
    let count: i64 = conn.query_row("select count(*) from jump_location", [], |r| r.get(0)).unwrap();
    assert_eq!(count, 1);
}

#[test]
fn last_step_converts_local_time_text_to_millis() {
    let conn = Connection::open_in_memory().unwrap();
    run_to(&conn, 3);
    conn.execute(
        "insert into jump_location(location, rank, lastAccess) values ('/a', 2, '2023-11-14 22:13:20.123')",
        [],
    )
    .unwrap();
    run_to(&conn, 4);
    let (text, millis): (String, i64) = conn
        .query_row("select lastAccess, lastAccessMillis from jump_location", [], |r| Ok((r.get(0)?, r.get(1)?)))
        .unwrap();
    assert_eq!(text, "2023-11-14 22:13:20.123");
    let offset: i64 = conn
        .query_row(
            "select cast(strftime('%s', '2023-11-14 22:13:20', 'utc') as integer) - 1700000000",
            [],
            |r| r.get(0),
        )
        .unwrap();
    assert_eq!(millis, 1_700_000_000_123 + offset * 1000);
}

#[test]
fn released_steps_keep_their_text() {
    assert!(migration_script(0).unwrap().contains("insert into migration_version(version) values (1);"));
    assert!(migration_script(1).unwrap().contains("location STRING UNIQUE COLLATE NOCASE"));
    assert!(migration_script(2).unwrap().contains("strftime('%Y-%m-%d %H:%M:%f', 'now', 'localtime')"));
    assert!(migration_script(3).unwrap().contains("lastAccessMillis"));
}
