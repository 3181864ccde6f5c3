//! Schema migration: an ordered list of frozen steps, step `k` taking a store
//! from version `k` to version `k + 1`, and the rule that picks the next one.

use vstd::prelude::*;

verus! {

/// The version of a store on which every known step has run.
pub const SCHEMA_VERSION: u64 = 4;

/// Why a store cannot be brought to the version asked for.
#[derive(Debug, Clone, Copy, PartialEq, Eq)]
pub enum MigrationError {
    /// The store is at a version later than any known step leaves.
    UnrecognizedVersion(u64),
    /// The version asked for is unknown, or earlier than the store's.
    UnreachableTarget(u64),
}

/// What to do next for a store at a given version.
#[derive(Debug, Clone, Copy, PartialEq, Eq)]
pub enum MigrationAction {
    /// The store is at the version asked for.
    UpToDate,
    /// Run this step, in one transaction; it leaves the store one version later.
    Apply(u64),
}

/// The rule: stop at the target, refuse a version later than the known steps
/// or a target that cannot be reached, else run the step numbered by the
/// current version.
pub open spec fn migration_action(current: u64, target: u64) -> Result<MigrationAction, MigrationError> {
    if current == target {
        Ok(MigrationAction::UpToDate)
    } else if current > SCHEMA_VERSION {
        Err(MigrationError::UnrecognizedVersion(current))
    } else if target > SCHEMA_VERSION || current > target {
        Err(MigrationError::UnreachableTarget(target))
    } else {
        Ok(MigrationAction::Apply(current))
    }
}

/// The next action for a store at version `current` that is to reach `target`.
pub fn next_migration(current: u64, target: u64) -> (r: Result<MigrationAction, MigrationError>)
    ensures
        r == migration_action(current, target),
{
    if current == target {
        Ok(MigrationAction::UpToDate)
    } else if current > SCHEMA_VERSION {
        Err(MigrationError::UnrecognizedVersion(current))
    } else if target > SCHEMA_VERSION || current > target {
        Err(MigrationError::UnreachableTarget(target))
    } else {
        Ok(MigrationAction::Apply(current))
    }
}

/// Step 0: the location table and its index, and the first version row.
pub const CREATE_LOCATIONS_SQL: &'static str = "
        begin transaction;

        create table if not exists jump_location (id INTEGER PRIMARY KEY ASC, location STRING UNIQUE, rank INTEGER);
        create index if not exists location_index on jump_location(location);

        insert into migration_version(version) values (1);

        commit;
    ";

/// Step 1: the location table again with a case-insensitive unique location; rows
/// are copied across, a later row whose location differs only in case dropped.
pub const CASE_INSENSITIVE_LOCATIONS_SQL: &'static str = "
        begin transaction;

        drop table if exists temp_jump_location;
        alter table jump_location rename to temp_jump_location;

        create table jump_location (id INTEGER PRIMARY KEY ASC, location STRING UNIQUE COLLATE NOCASE, rank INTEGER);
        create index if not exists location_index on jump_location(location);

        insert or ignore into jump_location
            select id, location, rank from temp_jump_location;

        update migration_version set version = 2 where id = 1;

        commit;
    ";

/// Step 2: the last access column, as local time text, set to now on every row.
pub const LAST_ACCESS_TEXT_SQL: &'static str = "
        begin transaction;

        alter table jump_location add column lastAccess TEXT;

        update jump_location set lastAccess = strftime('%Y-%m-%d %H:%M:%f', 'now', 'localtime');

        update migration_version set version = 3 where id = 1;

        commit;
    ";

/// Step 3: the last access as an integer count of milliseconds since the Unix
/// epoch, computed from the local time text of step 2; that column is kept.
pub const LAST_ACCESS_MILLIS_SQL: &'static str = "
        begin transaction;

        alter table jump_location add column lastAccessMillis INTEGER;

        update jump_location set lastAccessMillis =
            cast(strftime('%s', lastAccess, 'utc') as integer) * 1000
            + cast(substr(strftime('%f', lastAccess), 4, 3) as integer);

        update migration_version set version = 4 where id = 1;

        commit;
    ";

/// The SQL text of step `step`, for the known steps.
pub open spec fn step_sql(step: u64) -> Seq<char> {
    if step == 0 {
        CREATE_LOCATIONS_SQL@
    } else if step == 1 {
        CASE_INSENSITIVE_LOCATIONS_SQL@
    } else if step == 2 {
        LAST_ACCESS_TEXT_SQL@
    } else {
        LAST_ACCESS_MILLIS_SQL@
    }
}

/// The SQL of step `step`. Each runs in its own transaction and sets the
/// stored version to `step + 1` as its last statement. A released step keeps its
/// text; a change of schema is a new step at the end.
pub fn migration_script(step: u64) -> (r: Option<&'static str>)
    ensures
        r is Some <==> step < SCHEMA_VERSION,
        r is Some ==> r->Some_0@ == step_sql(step),
{
    if step == 0 {
        Some(CREATE_LOCATIONS_SQL)
    } else if step == 1 {
        Some(CASE_INSENSITIVE_LOCATIONS_SQL)
    } else if step == 2 {
        Some(LAST_ACCESS_TEXT_SQL)
    } else if step == 3 {
        Some(LAST_ACCESS_MILLIS_SQL)
    } else {
        None
    }
}

/// The steps run, in order, when the rule is followed from `current` to
/// `target` and each step leaves the store one version later.
pub open spec fn migration_run(current: u64, target: u64) -> Seq<u64>
    decreases SCHEMA_VERSION - current,
{
    match migration_action(current, target) {
        Ok(MigrationAction::Apply(step)) => seq![step] + migration_run((step + 1) as u64, target),
        _ => Seq::empty(),
    }
}

/// From a version to a later known one, the rule runs each step between them
/// once, in order.
pub proof fn lemma_run_steps(current: u64, target: u64)
    requires
        current <= target <= SCHEMA_VERSION,
    ensures
        migration_run(current, target) == Seq::new((target - current) as nat, |i: int| (current + i) as u64),
    decreases target - current,
{
    if current < target {
        lemma_run_steps((current + 1) as u64, target);
    }
    assert(migration_run(current, target) =~= Seq::new((target - current) as nat, |i: int| (current + i) as u64));
}

/// Migrating a store straight to a version runs the same steps, in the same
/// order, as migrating it first to any version between and then on: a fresh
/// store brought to the current version in one go ends with the same schema as
/// one brought there version by version.
pub proof fn lemma_direct_equals_stepwise(from: u64, mid: u64, to: u64)
    requires
        from <= mid <= to <= SCHEMA_VERSION,
    ensures
        migration_run(from, to) == migration_run(from, mid) + migration_run(mid, to),
{
    lemma_run_steps(from, to);
    lemma_run_steps(from, mid);
    lemma_run_steps(mid, to);
    assert(migration_run(from, to) =~= migration_run(from, mid) + migration_run(mid, to));
}

} // verus!
