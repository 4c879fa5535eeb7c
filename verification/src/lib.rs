//! Logic of a read-only inspector for Lance datasets.

use vstd::prelude::*;

pub mod batch;
pub mod blob;
pub mod cache;
pub mod cursor;
pub mod dataset;
pub mod error;
pub mod files;
pub mod ident;
pub mod media;
pub mod models;
pub mod names;
pub mod number;
pub mod plan;
pub mod profile;
pub mod query;
pub mod rows;
pub mod schema;
pub mod slots;
pub mod snapshot;
pub mod sql;
pub mod state;
pub mod text;
pub mod transaction;

verus! {

/// Rows returned by a row preview whose request omits its limit.
pub fn default_row_limit() -> (limit: usize)
    ensures
        limit == rows::DEFAULT_ROW_LIMIT,
{
    rows::DEFAULT_ROW_LIMIT
}

/// The server is there.
pub fn health() -> (response: models::HealthResponse)
    ensures
        response.status@ == "ok"@,
{
    models::HealthResponse { status: "ok" }
}

} // verus!
