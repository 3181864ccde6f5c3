//! A ranked index of visited directories, queried by fuzzy tokens.

pub mod location;
pub mod index;
pub mod pattern;
pub mod laws;
pub mod migration;

pub use index::{Database, IndexError};
pub use location::LocationRecord;
pub use migration::{MigrationAction, MigrationError, SCHEMA_VERSION, migration_script, next_migration};
pub mod timestamp;
