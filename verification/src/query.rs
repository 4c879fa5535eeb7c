//! Starting a query: what is run, and what its result holds.

use vstd::prelude::*;

use crate::error::RequestError;
use crate::models::SqlCursorResponse;
use crate::plan::{direct_projection_sources, name_views, projection_sources, Plan};
use crate::schema::{media_columns, MediaProjection, SqlColumns};
use crate::sql::{
    bare_query, begins_read_only, prepare_sql_with_row_addr, query_with_row_addresses,
    read_only_sql,
};

verus! {

/// A query that is being started: as it was asked for, and as it gives each row
/// its address, while that is worth a try.
#[derive(Debug)]
pub struct QueryStart {
    pub sql: String,
    pub prepared: Option<String>,
}

/// Why a query is not run.
pub open spec fn query_refusal(sql: Seq<char>) -> Option<Seq<char>> {
    if bare_query(sql).len() == 0 {
        Some("SQL query cannot be empty"@)
    } else if !begins_read_only(bare_query(sql)) {
        Some("only read-only SELECT or WITH queries are supported"@)
    } else {
        None
    }
}

/// Starts a query. Only queries that read are run.
pub fn start_query(sql: &str) -> (start: Result<QueryStart, RequestError>)
    ensures
        (match start {
            Ok(query) => {
                &&& query_refusal(sql@) is None
                &&& query.sql@ == bare_query(sql@)
                &&& match query.prepared {
                    Some(text) => query_with_row_addresses(query.sql@) == Some(text@),
                    None => query_with_row_addresses(query.sql@) is None,
                }
            },
            Err(error) => {
                &&& query_refusal(sql@) matches Some(reason)
                &&& error matches RequestError::InvalidRequest(message)
                &&& message@ == reason
            },
        }),
{
    match read_only_sql(sql) {
        Err(error) => Err(error),
        Ok(bare) => {
            let prepared = prepare_sql_with_row_addr(bare);
            Ok(QueryStart { sql: bare.to_owned(), prepared })
        },
    }
}

impl QueryStart {
    /// What is to be run, and whether its rows carry their addresses so that
    /// media can be found by them.
    pub fn attempt(&self) -> (attempt: (String, bool))
        ensures
            attempt.1 == (self.prepared is Some),
            attempt.0@ == (match self.prepared {
                Some(text) => text@,
                None => self.sql@,
            }),
    {
        match &self.prepared {
            Some(text) => (text.clone(), true),
            None => (self.sql.clone(), false),
        }
    }

    /// The attempt failed. The query as it was asked for is tried next, and
    /// where that was it the query is refused.
    pub fn attempt_failed(&mut self, cause: &str) -> (refusal: Option<RequestError>)
        ensures
            final(self).sql == old(self).sql,
            final(self).prepared is None,
            (match refusal {
                None => old(self).prepared is Some,
                Some(error) => old(self).prepared is None
                    && (error matches RequestError::InvalidRequest(message) && message@ == cause@),
            }),
    {
        if self.prepared.is_some() {
            self.prepared = None;
            None
        } else {
            Some(RequestError::InvalidRequest(cause.to_owned()))
        }
    }
}

/// For each column of a result the column of the dataset that it takes over as
/// it is; nothing is known of a query whose rows do not carry their addresses.
pub fn result_sources(media_safe: bool, plan: &Plan) -> (sources: Vec<Option<String>>)
    ensures
        name_views(sources@) == (if media_safe {
            projection_sources(*plan)
        } else {
            Seq::empty()
        }),
{
    if media_safe {
        direct_projection_sources(plan)
    } else {
        let sources: Vec<Option<String>> = Vec::new();
        assert(name_views(sources@) =~= Seq::empty());
        sources
    }
}

/// The answer to a query.
pub fn cursor_response(cursor_id: u128, columns: &SqlColumns) -> (response: SqlCursorResponse)
    ensures
        response.cursor_id == cursor_id,
        response.columns@ == columns.scalar@,
        response.media_columns@ == columns.media_projections@.map_values(
            |projection: MediaProjection| projection.column,
        ),
{
    let mut names: Vec<String> = Vec::new();
    let mut i: usize = 0;
    while i < columns.scalar.len()
        invariant
            i <= columns.scalar@.len(),
            names@ == columns.scalar@.take(i as int),
        decreases columns.scalar@.len() - i,
    {
        names.push(columns.scalar[i].clone());
        assert(names@ =~= columns.scalar@.take(i + 1));
        i += 1;
    }
    assert(columns.scalar@.take(i as int) =~= columns.scalar@);
    SqlCursorResponse {
        cursor_id,
        columns: names,
        media_columns: media_columns(&columns.media_projections),
    }
}

/// A query is run exactly where something is left of it and that begins with a
/// keyword that only reads.
pub proof fn only_reading_queries_are_run(sql: Seq<char>)
    ensures
        query_refusal(sql) is None <==> bare_query(sql).len() > 0 && begins_read_only(
            bare_query(sql),
        ),
        bare_query(sql).len() == 0 ==> query_refusal(sql) == Some("SQL query cannot be empty"@),
        bare_query(sql).len() > 0 && !begins_read_only(bare_query(sql)) ==> query_refusal(sql)
            == Some("only read-only SELECT or WITH queries are supported"@),
{
}

} // verus!
