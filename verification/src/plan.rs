//! Query plans, as far as they tell which columns a result takes over from the
//! dataset as they are.

use vstd::prelude::*;

verus! {

/// An expression of a plan.
#[derive(Debug)]
pub enum PlanExpr {
    /// A column of this name.
    Column(String),
    /// An expression under another name.
    Alias(Box<PlanExpr>),
    /// Any other expression.
    Other,
}

/// A query plan.
#[derive(Debug)]
pub enum Plan {
    Projection(Vec<PlanExpr>),
    Sort(Box<Plan>),
    Filter(Box<Plan>),
    Limit(Box<Plan>),
    SubqueryAlias(Box<Plan>),
    Distinct(Box<Plan>),
    /// A scan of a table, with the columns that it reads.
    TableScan(Vec<String>),
    /// Any other plan.
    Other,
}

/// The column that an expression takes over as it is, under its own name or
/// under another.
pub open spec fn column_source(expression: PlanExpr) -> Option<Seq<char>> {
    match expression {
        PlanExpr::Column(name) => Some(name@),
        PlanExpr::Alias(inner) => match *inner {
            PlanExpr::Column(name) => Some(name@),
            _ => None,
        },
        PlanExpr::Other => None,
    }
}

/// For each column of a plan's result the column of the dataset that it takes
/// over as it is; nothing where the plan does more than choose, order and drop
/// rows.
pub open spec fn projection_sources(plan: Plan) -> Seq<Option<Seq<char>>>
    decreases plan,
{
    match plan {
        Plan::Projection(expressions) => expressions@.map_values(
            |expression: PlanExpr| column_source(expression),
        ),
        Plan::Sort(input) => projection_sources(*input),
        Plan::Filter(input) => projection_sources(*input),
        Plan::Limit(input) => projection_sources(*input),
        Plan::SubqueryAlias(input) => projection_sources(*input),
        Plan::Distinct(input) => projection_sources(*input),
        Plan::TableScan(columns) => columns@.map_values(|name: String| Some(name@)),
        Plan::Other => Seq::empty(),
    }
}

/// The view of a name that may be missing.
pub open spec fn name_view(name: Option<String>) -> Option<Seq<char>> {
    match name {
        Some(text) => Some(text@),
        None => None,
    }
}

/// The views of names that may be missing.
pub open spec fn name_views(names: Seq<Option<String>>) -> Seq<Option<Seq<char>>> {
    names.map_values(|name: Option<String>| name_view(name))
}

/// The column that an expression takes over as it is.
pub fn direct_column_source(expression: &PlanExpr) -> (source: Option<String>)
    ensures
        name_view(source) == column_source(*expression),
{
    match expression {
        PlanExpr::Column(name) => Some(name.clone()),
        PlanExpr::Alias(inner) => match &**inner {
            PlanExpr::Column(name) => Some(name.clone()),
            _ => None,
        },
        PlanExpr::Other => None,
    }
}

/// For each column of a plan's result the column of the dataset that it takes
/// over as it is.
pub fn direct_projection_sources(plan: &Plan) -> (sources: Vec<Option<String>>)
    ensures
        name_views(sources@) == projection_sources(*plan),
    decreases plan,
{
    match plan {
        Plan::Projection(expressions) => {
            let mut sources: Vec<Option<String>> = Vec::new();
            let mut i: usize = 0;
            let ghost wanted = projection_sources(*plan);
            while i < expressions.len()
                invariant
                    i <= expressions@.len(),
                    wanted == expressions@.map_values(
                        |expression: PlanExpr| column_source(expression),
                    ),
                    name_views(sources@) == wanted.take(i as int),
                decreases expressions@.len() - i,
            {
                let source = direct_column_source(&expressions[i]);
                let ghost before = sources@;
                sources.push(source);
                assert(name_views(sources@) =~= name_views(before).push(name_view(source)));
                assert(wanted.take(i + 1) =~= wanted.take(i as int).push(wanted[i as int]));
                i += 1;
            }
            assert(wanted.take(i as int) =~= wanted);
            sources
        },
        Plan::Sort(input) => direct_projection_sources(input),
        Plan::Filter(input) => direct_projection_sources(input),
        Plan::Limit(input) => direct_projection_sources(input),
        Plan::SubqueryAlias(input) => direct_projection_sources(input),
        Plan::Distinct(input) => direct_projection_sources(input),
        Plan::TableScan(columns) => {
            let mut sources: Vec<Option<String>> = Vec::new();
            let mut i: usize = 0;
            let ghost wanted = projection_sources(*plan);
            while i < columns.len()
                invariant
                    i <= columns@.len(),
                    wanted == columns@.map_values(|name: String| Some(name@)),
                    name_views(sources@) == wanted.take(i as int),
                decreases columns@.len() - i,
            {
                let ghost before = sources@;
                sources.push(Some(columns[i].clone()));
                assert(name_views(sources@) =~= name_views(before).push(
                    Some(columns@[i as int]@),
                ));
                assert(wanted.take(i + 1) =~= wanted.take(i as int).push(wanted[i as int]));
                i += 1;
            }
            assert(wanted.take(i as int) =~= wanted);
            sources
        },
        Plan::Other => {
            let sources: Vec<Option<String>> = Vec::new();
            assert(name_views(sources@) =~= Seq::empty());
            sources
        },
    }
}

/// Choosing, ordering and dropping rows leaves the columns of a result where
/// they come from.
pub proof fn rows_do_not_move_columns(plan: Plan)
    ensures
        projection_sources(Plan::Sort(Box::new(plan))) == projection_sources(plan),
        projection_sources(Plan::Filter(Box::new(plan))) == projection_sources(plan),
        projection_sources(Plan::Limit(Box::new(plan))) == projection_sources(plan),
        projection_sources(Plan::SubqueryAlias(Box::new(plan))) == projection_sources(plan),
        projection_sources(Plan::Distinct(Box::new(plan))) == projection_sources(plan),
{
}

/// A projection gives one column for each expression, in their order: a column,
/// under its own name or under another, comes from the column that it is, and any
/// other expression from none, an alias of an alias among them.
pub proof fn projections_name_their_sources(expressions: Vec<PlanExpr>, i: int)
    requires
        0 <= i < expressions@.len(),
    ensures
        ({
            let sources = projection_sources(Plan::Projection(expressions));
            &&& sources.len() == expressions@.len()
            &&& match expressions@[i] {
                PlanExpr::Column(name) => sources[i] == Some(name@),
                PlanExpr::Alias(inner) => match *inner {
                    PlanExpr::Column(name) => sources[i] == Some(name@),
                    _ => sources[i] is None,
                },
                PlanExpr::Other => sources[i] is None,
            }
        }),
{
}

/// A scan gives the columns that it reads, in their order, and nothing is known of
/// any other plan.
pub proof fn scans_name_their_columns(columns: Vec<String>, i: int)
    ensures
        projection_sources(Plan::TableScan(columns)).len() == columns@.len(),
        0 <= i < columns@.len() ==> projection_sources(Plan::TableScan(columns))[i] == Some(
            columns@[i]@,
        ),
        projection_sources(Plan::Other).len() == 0,
{
}

} // verus!
