//! A thin, composable SQL query builder: the SQL lexer that finds
//! placeholders and statement boundaries, query fragments and how they
//! compose, how each database dialect spells placeholders, and the logic that
//! decides which migrations to apply.
use vstd::prelude::*;

pub mod dialect;
pub mod driver;
pub mod error;
pub mod lexer;
pub mod migrate;
pub mod query;
pub mod script;
pub mod text;

pub use crate::dialect::{Dialect, MySql, Postgres};
pub use crate::driver::RowIndex;
pub use crate::error::{Error, FromRowError, MigrationError, MigrationErrorKind, ParamCountError};
pub use crate::lexer::split_statements;
pub use crate::migrate::{Migration, Migrator};
pub use crate::query::{Query, Trusted};

verus! {

} // verus!
