//! SQL texts: which are accepted, and which are extended by row addresses.

use datafusion_sql::sqlparser::ast::{
    Expr, Fetch, GroupByExpr, Ident, LimitClause, OrderBy as OrderClause, OrderByKind, SelectItem,
    SetExpr, Statement, TableFactor, TableWithJoins,
};
use datafusion_sql::sqlparser::dialect::GenericDialect;
use datafusion_sql::sqlparser::keywords::Keyword;
use datafusion_sql::sqlparser::parser::Parser;
use datafusion_sql::sqlparser::tokenizer::{Token, TokenWithSpan, Tokenizer, Word};
use vstd::prelude::*;
use vstd::string::StrSliceExecFns;

use crate::error::RequestError;
use crate::text::{
    case_is_ignored_letter_by_letter, chars_of, is_blank, is_run, is_space, is_text,
    is_whitespace, is_word, lowered, same_ignoring_case, taking_a_run_off_the_end, texts, to_lower,
    trim_end, trim_start, trim_trailing, trimmed, trimmed_end, trimmed_start, trimming_both_ends,
    trimming_the_end, trimming_the_start, without_trailing,
};

verus! {

/// A query without the white space round it and the semicolons behind it.
pub open spec fn bare_query(sql: Seq<char>) -> Seq<char> {
    trimmed_end(without_trailing(trimmed(sql), ';'))
}

/// The characters before the first white space.
pub open spec fn leading_word(text: Seq<char>) -> Seq<char>
    decreases text.len(),
{
    if text.len() == 0 || is_space(text[0]) {
        Seq::empty()
    } else {
        seq![text[0]] + leading_word(text.skip(1))
    }
}

/// Whether a query begins with a keyword that only reads.
pub open spec fn begins_read_only(query: Seq<char>) -> bool {
    let keyword = lowered(leading_word(trimmed_start(query)));
    keyword == "select"@ || keyword == "with"@
}

proof fn lemma_trimmed_start(text: Seq<char>)
    ensures
        trimmed_start(text).len() <= text.len(),
        trimmed_start(text) == text.skip(text.len() - trimmed_start(text).len()),
    decreases text.len(),
{
    if text.len() > 0 && is_space(text[0]) {
        lemma_trimmed_start(text.skip(1));
        let n = trimmed_start(text.skip(1)).len();
        assert(text.skip(1).skip(text.len() - 1 - n) == text.skip(text.len() - n));
    } else {
        assert(text.skip(0) == text);
    }
}

proof fn lemma_trimmed_end(text: Seq<char>)
    ensures
        trimmed_end(text).len() <= text.len(),
        trimmed_end(text) == text.take(trimmed_end(text).len() as int),
    decreases text.len(),
{
    if text.len() > 0 && is_space(text.last()) {
        lemma_trimmed_end(text.drop_last());
        let n = trimmed_end(text.drop_last()).len() as int;
        assert(text.drop_last().take(n) == text.take(n));
    } else {
        assert(text.take(text.len() as int) == text);
    }
}

proof fn lemma_without_trailing(text: Seq<char>, c: char)
    ensures
        without_trailing(text, c).len() <= text.len(),
        without_trailing(text, c) == text.take(without_trailing(text, c).len() as int),
    decreases text.len(),
{
    if text.len() > 0 && text.last() == c {
        lemma_without_trailing(text.drop_last(), c);
        let n = without_trailing(text.drop_last(), c).len() as int;
        assert(text.drop_last().take(n) == text.take(n));
    } else {
        assert(text.take(text.len() as int) == text);
    }
}

/// The characters of `chars` before its first white space.
fn first_word(chars: &[char]) -> (word: Vec<char>)
    ensures
        word@ == leading_word(chars@),
{
    let mut word: Vec<char> = Vec::new();
    let mut i: usize = 0;
    assert(chars@.skip(0) == chars@);
    while i < chars.len() && !is_whitespace(chars[i])
        invariant
            i <= chars@.len(),
            word@ + leading_word(chars@.skip(i as int)) == leading_word(chars@),
        decreases chars@.len() - i,
    {
        assert(chars@.skip(i as int).skip(1) == chars@.skip(i + 1));
        let ghost before = word@;
        word.push(chars[i]);
        assert(before + (seq![chars@[i as int]] + leading_word(chars@.skip(i + 1))) =~= word@
            + leading_word(chars@.skip(i + 1)));
        i += 1;
    }
    assert(word@ + Seq::<char>::empty() =~= word@);
    word
}

/// The bare query, where it is one that only reads.
pub fn read_only_sql(sql: &str) -> (query: Result<&str, RequestError>)
    ensures
        (match query {
            Ok(bare) => bare@ == bare_query(sql@) && bare@.len() > 0 && begins_read_only(bare@),
            Err(RequestError::InvalidRequest(message)) => if bare_query(sql@).len() == 0 {
                message@ == "SQL query cannot be empty"@
            } else {
                !begins_read_only(bare_query(sql@)) && message@
                    == "only read-only SELECT or WITH queries are supported"@
            },
            Err(_) => false,
        }),
{
    let chars = chars_of(sql);
    let opened = trim_start(chars.as_slice());
    let closed = trim_end(opened);
    let ended = trim_trailing(closed, ';');
    let bare = trim_end(ended);
    if bare.len() == 0 {
        return Err(RequestError::InvalidRequest("SQL query cannot be empty".to_owned()));
    }
    let keyword = to_lower(first_word(trim_start(bare)).as_slice());
    if !is_text(keyword.as_slice(), "select") && !is_text(keyword.as_slice(), "with") {
        return Err(
            RequestError::InvalidRequest(
                "only read-only SELECT or WITH queries are supported".to_owned(),
            ),
        );
    }
    proof {
        lemma_trimmed_start(chars@);
    }
    let start: usize = chars.len() - opened.len();
    proof {
        lemma_trimmed_end(opened@);
        lemma_without_trailing(closed@, ';');
        lemma_trimmed_end(ended@);
        assert(bare@ == chars@.subrange(start as int, start + bare@.len()));
    }
    Ok(sql.substring_char(start, start + bare.len()))
}

/// How deep `sqlparser` nests what it reads in a statement, the statement itself
/// not counted.
pub const STATEMENT_DEPTH: usize = 49;

/// `sqlparser::tokenizer::TokenWithSpan`, one token of a text and its place.
#[verifier::external_type_specification]
#[verifier::external_body]
pub struct ExTokenWithSpan(TokenWithSpan);

/// `sqlparser::ast::Statement`, one parsed statement.
#[verifier::external_type_specification]
#[verifier::external_body]
pub struct ExStatement(Statement);

/// `sqlparser::ast::TableWithJoins`, one item of a `FROM` clause.
#[verifier::external_type_specification]
#[verifier::external_body]
pub struct ExTableWithJoins(TableWithJoins);

/// `sqlparser::ast::SelectItem`, one item of a projection.
#[verifier::external_type_specification]
#[verifier::external_body]
pub struct ExSelectItem(SelectItem);

/// `sqlparser::ast::Expr`, an expression.
#[verifier::external_type_specification]
#[verifier::external_body]
pub struct ExExpr(Expr);

/// `sqlparser::ast::OrderBy`, an `ORDER BY` clause.
#[verifier::external_type_specification]
#[verifier::external_body]
pub struct ExOrderClause(OrderClause);

/// `sqlparser::ast::LimitClause`, a `LIMIT` clause with its offset.
#[verifier::external_type_specification]
#[verifier::external_body]
pub struct ExLimitClause(LimitClause);

/// `sqlparser::ast::Fetch`, a `FETCH` clause.
#[verifier::external_type_specification]
#[verifier::external_body]
pub struct ExFetch(Fetch);

/// An expression, as far as it names a column.
#[derive(Debug)]
pub enum ColumnExpr {
    Identifier(String),
    Compound(Vec<String>),
    Nested(Box<ColumnExpr>),
    Other,
}

/// What a [`ColumnExpr`] is, with its texts as sequences.
pub enum ColumnShape {
    Identifier(Seq<char>),
    Compound(Seq<Seq<char>>),
    Nested(Box<ColumnShape>),
    Other,
}

/// The shape of an expression.
pub open spec fn column_shape(expression: ColumnExpr) -> ColumnShape
    decreases expression,
{
    match expression {
        ColumnExpr::Identifier(name) => ColumnShape::Identifier(name@),
        ColumnExpr::Compound(names) => ColumnShape::Compound(texts(names@)),
        ColumnExpr::Nested(inner) => ColumnShape::Nested(Box::new(column_shape(*inner))),
        ColumnExpr::Other => ColumnShape::Other,
    }
}

/// The shapes of a list of expressions.
pub open spec fn column_shapes(list: Seq<ColumnExpr>) -> Seq<ColumnShape> {
    list.map_values(|expression: ColumnExpr| column_shape(expression))
}

/// Whether an expression is a column by its name alone.
pub open spec fn direct_column(expression: ColumnShape) -> bool {
    expression is Identifier || expression is Compound
}

/// The name of the row-address column, whatever the case of its letters.
pub open spec fn names_row_address(name: Seq<char>) -> bool {
    lowered(name) == lowered("_rowaddr"@)
}

/// Whether an expression is the row-address column.
pub open spec fn row_address(expression: ColumnShape) -> bool
    decreases expression,
{
    match expression {
        ColumnShape::Identifier(name) => names_row_address(name),
        ColumnShape::Compound(names) => names.len() > 0 && names_row_address(names.last()),
        ColumnShape::Nested(inner) => row_address(*inner),
        ColumnShape::Other => false,
    }
}

/// Whether `expression` is a column by its name alone.
pub fn is_direct_column(expression: &ColumnExpr) -> (direct: bool)
    ensures
        direct == direct_column(column_shape(*expression)),
{
    match expression {
        ColumnExpr::Identifier(_) => true,
        ColumnExpr::Compound(_) => true,
        ColumnExpr::Nested(_) => false,
        ColumnExpr::Other => false,
    }
}

/// Whether `name` is the row-address column, whatever the case of its letters.
fn is_row_addr_name(name: &str) -> (found: bool)
    ensures
        found == names_row_address(name@),
{
    let chars = chars_of(name);
    same_ignoring_case(chars.as_slice(), "_rowaddr")
}

/// Whether `expression` is the row-address column.
pub fn is_row_addr(expression: &ColumnExpr) -> (found: bool)
    ensures
        found == row_address(column_shape(*expression)),
    decreases expression,
{
    match expression {
        ColumnExpr::Identifier(name) => is_row_addr_name(name.as_str()),
        ColumnExpr::Compound(names) => {
            if names.len() == 0 {
                false
            } else {
                assert(texts(names@).last() == names@.last()@);
                is_row_addr_name(names[names.len() - 1].as_str())
            }
        },
        ColumnExpr::Nested(inner) => is_row_addr(inner),
        ColumnExpr::Other => false,
    }
}

/// What a query is ordered by: nothing, `ALL`, or a list.
#[derive(Debug)]
pub enum OrderBy<L> {
    Absent,
    All,
    By(L),
}

/// A table of a `FROM` clause by its name.
#[derive(Debug)]
pub struct NamedTable<T> {
    pub name: T,
    /// Whether it is called with arguments.
    pub has_args: bool,
    /// How many columns its alias names.
    pub alias_columns: usize,
}

/// One item of a `FROM` clause: a named table, where it is one, and the number
/// of joins that follow.
#[derive(Debug)]
pub struct FromClause<T> {
    pub table: Option<NamedTable<T>>,
    pub joins: usize,
}

/// One item of a projection.
#[derive(Debug)]
pub enum ProjectionItem<E, T> {
    /// A wildcard with the text of its options.
    Wildcard(T),
    Column(E),
    Aliased(E, T),
    Other,
}

/// The clauses of a query beside its body.
#[derive(Debug)]
pub struct QueryClauses<L> {
    pub has_with: bool,
    pub order_by: OrderBy<L>,
    /// The `ORDER BY` clause as it stands, with its directions.
    pub order: Option<OrderClause>,
    pub limit: Option<LimitClause>,
    pub fetch: Option<Fetch>,
}

/// A `SELECT` clause.
#[derive(Debug)]
pub struct SelectClause<F, P> {
    pub distinct: bool,
    /// The condition behind `WHERE`.
    pub condition: Option<Expr>,
    /// The numbers of expressions and of modifiers of `GROUP BY`, unless it
    /// groups by all.
    pub group_by: Option<(usize, usize)>,
    pub having: bool,
    pub qualify: bool,
    pub named_windows: usize,
    pub from: F,
    pub projection: P,
}

/// A query: what decides whether its rows can carry their addresses.
#[derive(Debug)]
pub struct QueryOutline {
    pub has_with: bool,
    pub order_by: OrderBy<Vec<ColumnExpr>>,
    /// The `SELECT` clause, where the body is one.
    pub select: Option<SelectClause<Vec<FromClause<String>>, Vec<ProjectionItem<ColumnExpr, String>>>>,
}

/// What a [`QueryOutline`] is, with its lists and texts as sequences.
pub struct QueryShape {
    pub has_with: bool,
    pub order_by: OrderBy<Seq<ColumnShape>>,
    pub select: Option<
        SelectClause<Seq<FromClause<Seq<char>>>, Seq<ProjectionItem<ColumnShape, Seq<char>>>>,
    >,
}

/// The shape of an item of a `FROM` clause.
pub open spec fn from_shape(item: FromClause<String>) -> FromClause<Seq<char>> {
    FromClause {
        table: match item.table {
            Some(table) => Some(
                NamedTable {
                    name: table.name@,
                    has_args: table.has_args,
                    alias_columns: table.alias_columns,
                },
            ),
            None => None,
        },
        joins: item.joins,
    }
}

/// The shape of an item of a projection.
pub open spec fn item_shape(item: ProjectionItem<ColumnExpr, String>) -> ProjectionItem<
    ColumnShape,
    Seq<char>,
> {
    match item {
        ProjectionItem::Wildcard(options) => ProjectionItem::Wildcard(options@),
        ProjectionItem::Column(expression) => ProjectionItem::Column(column_shape(expression)),
        ProjectionItem::Aliased(expression, alias) => ProjectionItem::Aliased(
            column_shape(expression),
            alias@,
        ),
        ProjectionItem::Other => ProjectionItem::Other,
    }
}

/// The shape of a `SELECT` clause.
pub open spec fn select_shape(
    select: SelectClause<Vec<FromClause<String>>, Vec<ProjectionItem<ColumnExpr, String>>>,
) -> SelectClause<Seq<FromClause<Seq<char>>>, Seq<ProjectionItem<ColumnShape, Seq<char>>>> {
    SelectClause {
        distinct: select.distinct,
        condition: select.condition,
        group_by: select.group_by,
        having: select.having,
        qualify: select.qualify,
        named_windows: select.named_windows,
        from: select.from@.map_values(|item: FromClause<String>| from_shape(item)),
        projection: select.projection@.map_values(
            |item: ProjectionItem<ColumnExpr, String>| item_shape(item),
        ),
    }
}

/// The shape of an `ORDER BY` clause.
pub open spec fn order_shape(order_by: OrderBy<Vec<ColumnExpr>>) -> OrderBy<Seq<ColumnShape>> {
    match order_by {
        OrderBy::Absent => OrderBy::Absent,
        OrderBy::All => OrderBy::All,
        OrderBy::By(list) => OrderBy::By(column_shapes(list@)),
    }
}

impl View for QueryOutline {
    type V = QueryShape;

    open spec fn view(&self) -> QueryShape {
        QueryShape {
            has_with: self.has_with,
            order_by: order_shape(self.order_by),
            select: match self.select {
                Some(select) => Some(select_shape(select)),
                None => None,
            },
        }
    }
}

/// Whether a query may be ordered so: not by all columns, and by direct
/// columns only.
pub open spec fn order_is_safe(order_by: OrderBy<Seq<ColumnShape>>) -> bool {
    match order_by {
        OrderBy::Absent => true,
        OrderBy::All => false,
        OrderBy::By(list) => forall|i: int|
            0 <= i < list.len() ==> direct_column(#[trigger] list[i]),
    }
}

/// Whether a `SELECT` clause reads the one table `dataset` row by row.
pub open spec fn reads_dataset_rows<P>(
    select: SelectClause<Seq<FromClause<Seq<char>>>, P>,
) -> bool {
    &&& select.from.len() == 1
    &&& select.from[0].joins == 0
    &&& select.from[0].table matches Some(table) && lowered(table.name) == lowered("dataset"@)
        && !table.has_args && table.alias_columns == 0
    &&& !select.distinct
    &&& select.group_by == Some((0usize, 0usize))
    &&& !select.having
    &&& !select.qualify
    &&& select.named_windows == 0
}

/// Whether an item keeps the meaning of the row-address column: it is a plain
/// wildcard or a direct column, and gives that name to no other column.
pub open spec fn item_is_safe(item: ProjectionItem<ColumnShape, Seq<char>>) -> bool {
    match item {
        ProjectionItem::Wildcard(options) => options.len() == 0,
        ProjectionItem::Column(expression) => direct_column(expression),
        ProjectionItem::Aliased(expression, alias) => direct_column(expression) && (
        names_row_address(alias) ==> row_address(expression)),
        ProjectionItem::Other => false,
    }
}

/// Whether an item brings the row-address column under its own name.
pub open spec fn item_has_row_address(item: ProjectionItem<ColumnShape, Seq<char>>) -> bool {
    match item {
        ProjectionItem::Wildcard(_) => true,
        ProjectionItem::Column(expression) => row_address(expression),
        ProjectionItem::Aliased(expression, alias) => row_address(expression) && names_row_address(
            alias,
        ),
        ProjectionItem::Other => false,
    }
}

/// Whether a query's rows can carry their addresses.
pub open spec fn query_is_simple(query: QueryShape) -> bool {
    &&& !query.has_with
    &&& order_is_safe(query.order_by)
    &&& query.select matches Some(select) && reads_dataset_rows(select) && (forall|i: int|
        0 <= i < select.projection.len() ==> item_is_safe(#[trigger] select.projection[i]))
}

/// Whether a simple query lacks the row-address column; `None` where the query
/// is not simple.
pub open spec fn row_address_plan(query: QueryShape) -> Option<bool> {
    if query_is_simple(query) {
        let items = query.select->Some_0.projection;
        Some(
            !exists|i: int| 0 <= i < items.len() && item_has_row_address(#[trigger] items[i]),
        )
    } else {
        None
    }
}

fn all_direct(list: &Vec<ColumnExpr>) -> (direct: bool)
    ensures
        direct == order_is_safe(OrderBy::By(column_shapes(list@))),
{
    let mut i: usize = 0;
    while i < list.len()
        invariant
            i <= list@.len(),
            forall|j: int| 0 <= j < i ==> direct_column(#[trigger] column_shapes(list@)[j]),
        decreases list@.len() - i,
    {
        if !is_direct_column(&list[i]) {
            let ghost shapes = column_shapes(list@);
            let ghost order = OrderBy::By(shapes);
            assert(!direct_column(shapes[i as int]));
            assert(!order_is_safe(order)) by {
                assert(order->By_0[i as int] == shapes[i as int]);
            }
            return false;
        }
        i += 1;
    }
    true
}

/// Whether the query's rows can carry their addresses, and if so, whether the
/// row-address column has to be added.
pub fn plan_row_addresses(query: &QueryOutline) -> (missing: Option<bool>)
    ensures
        missing == row_address_plan(query@),
{
    if query.has_with {
        return None;
    }
    let ordered = match &query.order_by {
        OrderBy::Absent => true,
        OrderBy::All => false,
        OrderBy::By(list) => all_direct(list),
    };
    if !ordered {
        return None;
    }
    let select = match &query.select {
        Some(select) => select,
        None => return None,
    };
    let ghost shape = select_shape(*select);
    assert(query@.select == Some(shape));
    match select.group_by {
        Some((expressions, modifiers)) => {
            if expressions != 0 || modifiers != 0 {
                return None;
            }
        },
        None => return None,
    }
    if select.from.len() != 1 || select.distinct || select.having || select.qualify
        || select.named_windows != 0 {
        return None;
    }
    let from = &select.from[0];
    assert(shape.from[0] == from_shape(*from));
    if from.joins != 0 {
        return None;
    }
    match &from.table {
        Some(table) => {
            let name = chars_of(table.name.as_str());
            if !same_ignoring_case(name.as_slice(), "dataset") || table.has_args
                || table.alias_columns != 0 {
                return None;
            }
        },
        None => return None,
    }
    let mut has_row_addr = false;
    let mut i: usize = 0;
    while i < select.projection.len()
        invariant
            i <= select.projection@.len(),
            shape == select_shape(*select),
            query@.select == Some(shape),
            !query@.has_with,
            order_is_safe(query@.order_by),
            reads_dataset_rows(shape),
            forall|j: int| 0 <= j < i ==> item_is_safe(#[trigger] shape.projection[j]),
            has_row_addr == exists|j: int|
                0 <= j < i && item_has_row_address(#[trigger] shape.projection[j]),
        decreases select.projection@.len() - i,
    {
        let item = &select.projection[i];
        assert(shape.projection[i as int] == item_shape(*item));
        let (safe, found) = match item {
            ProjectionItem::Wildcard(options) => (options.as_str().is_empty(), true),
            ProjectionItem::Column(expression) => (
                is_direct_column(expression),
                is_row_addr(expression),
            ),
            ProjectionItem::Aliased(expression, alias) => {
                let named = is_row_addr_name(alias.as_str());
                let addressed = is_row_addr(expression);
                (is_direct_column(expression) && (!named || addressed), addressed && named)
            },
            ProjectionItem::Other => (false, false),
        };
        if !safe {
            assert(!item_is_safe(shape.projection[i as int]));
            return None;
        }
        has_row_addr = has_row_addr || found;
        i += 1;
    }
    Some(!has_row_addr)
}

/// A token, as far as statements are told apart by it and unbounded limits are
/// found by it.
#[derive(Debug, Clone, Copy, PartialEq, Eq, Structural)]
pub enum TokenKind {
    /// White space or a comment.
    Space,
    Semicolon,
    /// The keyword `END`.
    End,
    /// The keyword `LIMIT`.
    Limit,
    /// The keyword `ALL`.
    All,
    /// The keyword `BY`.
    By,
    Other,
}

/// Whether a token is none of a statement's.
pub open spec fn separates(kind: TokenKind) -> bool {
    kind is Space || kind is Semicolon
}

/// The number of tokens before the first statement.
pub open spec fn tokens_before(kinds: Seq<TokenKind>) -> nat
    decreases kinds.len(),
{
    if kinds.len() == 0 || !separates(kinds[0]) {
        0
    } else {
        1 + tokens_before(kinds.skip(1))
    }
}

/// Whether no statement follows from the token `at` on: nothing but semicolons
/// is left, or `END` comes next.
pub open spec fn no_statement_follows(kinds: Seq<TokenKind>, at: int) -> bool {
    ||| forall|i: int| at <= i < kinds.len() ==> separates(#[trigger] kinds[i])
    ||| exists|i: int|
        at <= i < kinds.len() && #[trigger] kinds[i] is End && forall|j: int|
            at <= j < i ==> #[trigger] kinds[j] is Space
}

/// Whether nothing but white space stands between two tokens.
pub open spec fn follow_each_other(kinds: Seq<TokenKind>, first: int, second: int) -> bool {
    first < second && forall|j: int| first < j < second ==> #[trigger] kinds[j] is Space
}

/// Whether the token at `i` begins `LIMIT ALL BY`, a limit by columns that has no
/// number.
pub open spec fn unbounded_limit_at(kinds: Seq<TokenKind>, i: int) -> bool {
    exists|j: int, k: int|
        0 <= i && k < kinds.len() && kinds[i] is Limit && #[trigger] kinds[j] is All
            && #[trigger] kinds[k] is By && follow_each_other(kinds, i, j) && follow_each_other(
            kinds,
            j,
            k,
        )
}

/// Whether `LIMIT ALL BY` stands somewhere.
pub open spec fn has_unbounded_limit(kinds: Seq<TokenKind>) -> bool {
    exists|i: int| #[trigger] unbounded_limit_at(kinds, i)
}

/// The first token behind `at` that is not white space, or the number of tokens.
fn next_token(kinds: &Vec<TokenKind>, at: usize) -> (next: usize)
    requires
        at < kinds@.len(),
    ensures
        at < next <= kinds@.len(),
        follow_each_other(kinds@, at as int, next as int),
        next < kinds@.len() ==> !(kinds@[next as int] is Space),
{
    let count: usize = kinds.len();
    let mut i: usize = at + 1;
    while i < count && kinds[i] == TokenKind::Space
        invariant
            count == kinds@.len(),
            at < i <= kinds@.len(),
            forall|j: int| at < j < i ==> #[trigger] kinds@[j] is Space,
        decreases kinds@.len() - i,
    {
        i += 1;
    }
    i
}

/// Whether `LIMIT ALL BY` stands somewhere.
pub fn limits_all_by(kinds: &Vec<TokenKind>) -> (found: bool)
    ensures
        found == has_unbounded_limit(kinds@),
{
    let mut i: usize = 0;
    while i < kinds.len()
        invariant
            i <= kinds@.len(),
            forall|at: int| 0 <= at < i ==> !#[trigger] unbounded_limit_at(kinds@, at),
        decreases kinds@.len() - i,
    {
        if kinds[i] == TokenKind::Limit {
            let second: usize = next_token(kinds, i);
            if second < kinds.len() && kinds[second] == TokenKind::All {
                let third: usize = next_token(kinds, second);
                if third < kinds.len() && kinds[third] == TokenKind::By {
                    assert(kinds@[second as int] is All && kinds@[third as int] is By);
                    assert(unbounded_limit_at(kinds@, i as int));
                    return true;
                }
                assert forall|j: int, k: int|
                    k < kinds@.len() && #[trigger] kinds@[j] is All && #[trigger] kinds@[k] is By
                        && follow_each_other(kinds@, i as int, j) implies !follow_each_other(
                    kinds@,
                    j,
                    k,
                ) by {
                    if j < second {
                        assert(kinds@[j] is Space);
                    } else if j > second {
                        assert(kinds@[second as int] is Space);
                    } else if k < third && k > second {
                        assert(kinds@[k] is Space);
                    } else if k > third {
                        assert(!(kinds@[third as int] is Space));
                    }
                }
            } else {
                assert forall|j: int| j < kinds@.len() && #[trigger] kinds@[j] is All implies
                    !follow_each_other(kinds@, i as int, j) by {
                    if i < j < second {
                        assert(kinds@[j] is Space);
                    } else if j > second {
                        assert(!(kinds@[second as int] is Space));
                    }
                }
            }
        }
        i += 1;
    }
    false
}

/// The number of tokens before the first statement.
pub fn count_tokens_before(kinds: &Vec<TokenKind>) -> (count: usize)
    ensures
        count == tokens_before(kinds@),
        count <= kinds@.len(),
{
    let mut i: usize = 0;
    assert(kinds@.skip(0) == kinds@);
    while i < kinds.len() && (kinds[i] == TokenKind::Space || kinds[i] == TokenKind::Semicolon)
        invariant
            i <= kinds@.len(),
            i + tokens_before(kinds@.skip(i as int)) == tokens_before(kinds@),
        decreases kinds@.len() - i,
    {
        assert(kinds@.skip(i as int).skip(1) == kinds@.skip(i + 1));
        i += 1;
    }
    i
}

/// Whether no statement follows from the token `at` on.
pub fn is_last_statement(kinds: &Vec<TokenKind>, at: usize) -> (last: bool)
    ensures
        last == no_statement_follows(kinds@, at as int),
{
    let mut i: usize = at;
    while i < kinds.len() && kinds[i] == TokenKind::Space
        invariant
            at <= i,
            forall|j: int| at <= j < i && j < kinds@.len() ==> #[trigger] kinds@[j] is Space,
        decreases kinds@.len() - i,
    {
        i += 1;
    }
    if i < kinds.len() && kinds[i] == TokenKind::End {
        return true;
    }
    let ghost first = i as int;
    while i < kinds.len()
        invariant
            at <= first <= i,
            forall|j: int| at <= j < first && j < kinds@.len() ==> #[trigger] kinds@[j] is Space,
            first < kinds@.len() ==> !(kinds@[first] is End) && !(kinds@[first] is Space),
            forall|j: int| at <= j < i && j < kinds@.len() ==> separates(#[trigger] kinds@[j]),
        decreases kinds@.len() - i,
    {
        if kinds[i] != TokenKind::Space && kinds[i] != TokenKind::Semicolon {
            assert(!separates(kinds@[i as int]));
            assert(kinds@[first] == kinds@[first]);
            return false;
        }
        i += 1;
    }
    true
}

/// The tokens that `sqlparser` reads in a text, in its generic dialect; `None`
/// where the text is not made of tokens.
pub uninterp spec fn text_tokens(sql: Seq<char>) -> Option<Seq<TokenWithSpan>>;

/// What a token is.
pub uninterp spec fn token_kind(token: TokenWithSpan) -> TokenKind;

/// The query that `sqlparser` reads at the front of a list of tokens, in its
/// generic dialect and nested at most so deep, and the number of tokens that it
/// takes up; `None` where no query stands there.
pub uninterp spec fn leading_query(tokens: Seq<TokenWithSpan>, depth: nat) -> Option<
    (Statement, nat),
>;

/// The clauses of the query that a statement is; `None` where the statement is
/// no query.
pub uninterp spec fn query_parts(statement: Statement) -> Option<QueryClauses<Seq<Expr>>>;

/// The `SELECT` clause that is the body of the query that a statement is;
/// `None` where the body is another.
pub uninterp spec fn select_parts(statement: Statement) -> Option<
    SelectClause<Seq<TableWithJoins>, Seq<SelectItem>>,
>;

/// What a `FROM` item is.
pub uninterp spec fn from_parts(item: TableWithJoins) -> FromClause<Seq<char>>;

/// What a projection item is.
pub uninterp spec fn item_parts(item: SelectItem) -> ProjectionItem<Expr, Seq<char>>;

/// What an expression is, as far as it names a column.
pub uninterp spec fn expression_parts(expression: Expr) -> ColumnShape;

/// A statement with one more column behind the projection of its `SELECT`
/// clause.
pub uninterp spec fn with_column(statement: Statement, name: Seq<char>) -> Statement;

/// A statement as SQL text.
pub uninterp spec fn statement_text(statement: Statement) -> Seq<char>;

/// `Tokenizer::tokenize_with_location` with the generic dialect: a function of
/// the text alone.
#[verifier::external_body]
fn tokenize(sql: &str) -> (tokens: Option<Vec<TokenWithSpan>>)
    ensures
        (match tokens {
            Some(list) => text_tokens(sql@) == Some(list@),
            None => text_tokens(sql@) is None,
        }),
{
    Tokenizer::new(&GenericDialect {}, sql).tokenize_with_location().ok()
}

/// Reads a `TokenWithSpan`: white space, a semicolon, a word by its keyword, or
/// another token.
#[verifier::external_body]
fn read_token(token: &TokenWithSpan) -> (kind: TokenKind)
    ensures
        kind == token_kind(*token),
{
    match &token.token {
        Token::Whitespace(_) => TokenKind::Space,
        Token::SemiColon => TokenKind::Semicolon,
        Token::Word(Word { keyword: Keyword::END, .. }) => TokenKind::End,
        Token::Word(Word { keyword: Keyword::LIMIT, .. }) => TokenKind::Limit,
        Token::Word(Word { keyword: Keyword::ALL, .. }) => TokenKind::All,
        Token::Word(Word { keyword: Keyword::BY, .. }) => TokenKind::By,
        _ => TokenKind::Other,
    }
}

/// `Parser::parse_query` with the generic dialect, then `Parser::index`: the
/// query and the number of tokens read, a function of the tokens and of the
/// recursion limit alone. Which query the tokens make is left unsaid.
#[verifier::external_body]
fn parse_leading_query(tokens: Vec<TokenWithSpan>, depth: usize) -> (query: Option<
    (Statement, usize),
>)
    ensures
        (match query {
            Some((statement, count)) => leading_query(tokens@, depth as nat) == Some(
                (statement, count as nat),
            ),
            None => leading_query(tokens@, depth as nat) is None,
        }),
{
    let parser = Parser::new(&GenericDialect {}).with_recursion_limit(depth);
    let mut parser = parser.with_tokens_with_locations(tokens);
    let query = parser.parse_query().ok()?;
    Some((Statement::Query(query), parser.index()))
}

/// Reads the fields `with`, `order_by`, `limit_clause` and `fetch` of
/// `Statement::Query`.
#[verifier::external_body]
fn read_query(statement: &Statement) -> (query: Option<QueryClauses<Vec<Expr>>>)
    ensures
        (match query {
            Some(clauses) => query_parts(*statement) == Some(
                QueryClauses {
                    has_with: clauses.has_with,
                    order_by: match clauses.order_by {
                        OrderBy::Absent => OrderBy::Absent,
                        OrderBy::All => OrderBy::All,
                        OrderBy::By(list) => OrderBy::By(list@),
                    },
                    order: clauses.order,
                    limit: clauses.limit,
                    fetch: clauses.fetch,
                },
            ),
            None => query_parts(*statement) is None,
        }),
{
    let Statement::Query(query) = statement else { return None };
    let order_by = match query.order_by.as_ref().map(|order| &order.kind) {
        None => OrderBy::Absent,
        Some(OrderByKind::All(_)) => OrderBy::All,
        Some(OrderByKind::Expressions(list)) => {
            OrderBy::By(list.iter().map(|item| item.expr.clone()).collect())
        },
    };
    let (order, limit) = (query.order_by.clone(), query.limit_clause.clone());
    let (has_with, fetch) = (query.with.is_some(), query.fetch.clone());
    Some(QueryClauses { has_with, order_by, order, limit, fetch })
}

/// Reads the fields of `SetExpr::Select` behind `Statement::Query`.
#[verifier::external_body]
fn read_select(statement: &Statement) -> (select: Option<
    SelectClause<Vec<TableWithJoins>, Vec<SelectItem>>,
>)
    ensures
        (match select {
            Some(clause) => select_parts(*statement) == Some(
                SelectClause {
                    distinct: clause.distinct,
                    condition: clause.condition,
                    group_by: clause.group_by,
                    having: clause.having,
                    qualify: clause.qualify,
                    named_windows: clause.named_windows,
                    from: clause.from@,
                    projection: clause.projection@,
                },
            ),
            None => select_parts(*statement) is None,
        }),
{
    let Statement::Query(query) = statement else { return None };
    let SetExpr::Select(select) = query.body.as_ref() else { return None };
    let group_by = match &select.group_by {
        GroupByExpr::All(_) => None,
        GroupByExpr::Expressions(list, modifiers) => Some((list.len(), modifiers.len())),
    };
    let (having, qualify) = (select.having.is_some(), select.qualify.is_some());
    let (from, projection) = (select.from.clone(), select.projection.clone());
    let named_windows = select.named_window.len();
    let (distinct, condition) = (select.distinct.is_some(), select.selection.clone());
    Some(SelectClause {
        distinct, condition, group_by, having, qualify, named_windows, from, projection,
    })
}

/// Reads a `TableWithJoins` of a statement that was read: the name as
/// `ObjectName` writes it, whether there are arguments, and the numbers of alias
/// columns and of joins.
#[verifier::external_body]
fn read_from(item: &TableWithJoins) -> (from: FromClause<String>)
    requires
        exists|statement: Statement| #[trigger]
            is_read(statement) && (select_parts(statement) matches Some(clause)
                && clause.from.contains(*item)),
    ensures
        from_shape(from) == from_parts(*item),
{
    let table = match &item.relation {
        TableFactor::Table { name, alias, args, .. } => Some(NamedTable {
            name: name.to_string(),
            has_args: args.is_some(),
            alias_columns: alias.as_ref().map_or(0, |alias| alias.columns.len()),
        }),
        _ => None,
    };
    FromClause { table, joins: item.joins.len() }
}

/// Reads a `SelectItem` of a statement that was read: a wildcard with its options
/// as text, an expression, an expression with an alias, or another item.
#[verifier::external_body]
fn read_item(item: &SelectItem) -> (read: ProjectionItem<Expr, String>)
    requires
        exists|statement: Statement| #[trigger]
            is_read(statement) && (select_parts(statement) matches Some(clause)
                && clause.projection.contains(*item)),
    ensures
        item_parts(*item) == (match read {
            ProjectionItem::Wildcard(options) => ProjectionItem::Wildcard(options@),
            ProjectionItem::Column(expression) => ProjectionItem::Column(expression),
            ProjectionItem::Aliased(expression, alias) => ProjectionItem::Aliased(
                expression,
                alias@,
            ),
            ProjectionItem::Other => ProjectionItem::Other,
        }),
{
    match item {
        SelectItem::Wildcard(options) => ProjectionItem::Wildcard(options.to_string()),
        SelectItem::QualifiedWildcard(_, options) => ProjectionItem::Wildcard(options.to_string()),
        SelectItem::UnnamedExpr(expr) => ProjectionItem::Column(expr.clone()),
        SelectItem::ExprWithAlias { expr, alias } => {
            ProjectionItem::Aliased(expr.clone(), alias.value.clone())
        },
        _ => ProjectionItem::Other,
    }
}

/// Reads an `Expr`: an identifier, a compound identifier, a parenthesis, or
/// another expression.
#[verifier::external_body]
fn read_expression(expression: &Expr) -> (read: ColumnExpr)
    ensures
        column_shape(read) == expression_parts(*expression),
{
    match expression {
        Expr::Identifier(name) => ColumnExpr::Identifier(name.value.clone()),
        Expr::CompoundIdentifier(names) => {
            ColumnExpr::Compound(names.iter().map(|name| name.value.clone()).collect())
        },
        Expr::Nested(inner) => ColumnExpr::Nested(Box::new(read_expression(inner))),
        _ => ColumnExpr::Other,
    }
}

/// Whether `item` is the column `name`, by that identifier alone.
pub open spec fn is_column_item(item: SelectItem, name: Seq<char>) -> bool {
    item_of(item) == ProjectionItem::<ColumnShape, Seq<char>>::Column(ColumnShape::Identifier(name))
}

/// Whether `extended` is `statement` with the column `name` behind its
/// projection, where it has one: the items of the projection stand in their
/// order before it, and the condition, the order, the limit and the other clauses
/// that are read are the same.
pub open spec fn has_added_column(
    extended: Statement,
    statement: Statement,
    name: Seq<char>,
) -> bool {
    &&& query_parts(extended) == query_parts(statement)
    &&& match select_parts(statement) {
        Some(clause) => exists|item: SelectItem| #[trigger]
            is_column_item(item, name) && select_parts(extended) == Some(
                SelectClause { projection: clause.projection.push(item), ..clause },
            ),
        None => extended == statement,
    }
}

/// Pushes `SelectItem::UnnamedExpr` of an identifier to the projection of a
/// `SELECT` clause; every other part of the statement stays as it is.
#[verifier::external_body]
fn add_column(statement: Statement, name: &str) -> (extended: Statement)
    ensures
        extended == with_column(statement, name@),
        has_added_column(extended, statement, name@),
{
    let mut statement = statement;
    if let Statement::Query(query) = &mut statement {
        if let SetExpr::Select(select) = query.body.as_mut() {
            let column = Expr::Identifier(Ident::new(name));
            select.projection.push(SelectItem::UnnamedExpr(column));
        }
    }
    statement
}

/// `Statement`'s own text form, of a statement that was read, or of one with the
/// row-address column added; there is none of a limit by columns that has no
/// number, nor of identifiers whose quotes no text can have.
#[verifier::external_body]
fn write_statement(statement: &Statement) -> (text: String)
    requires
        is_read(*statement) || exists|plain: Statement| #[trigger]
            is_read(plain) && *statement == with_column(plain, "_rowaddr"@),
    ensures
        text@ == statement_text(*statement),
{
    statement.to_string()
}

/// What the query that a statement is looks like; `None` where the statement
/// is no query.
pub open spec fn query_of(statement: Statement) -> Option<QueryShape> {
    match query_parts(statement) {
        Some(clauses) => Some(
            QueryShape {
                has_with: clauses.has_with,
                order_by: match clauses.order_by {
                    OrderBy::Absent => OrderBy::Absent,
                    OrderBy::All => OrderBy::All,
                    OrderBy::By(list) => OrderBy::By(
                        list.map_values(|expression: Expr| expression_parts(expression)),
                    ),
                },
                select: match select_parts(statement) {
                    Some(clause) => Some(
                        SelectClause {
                            distinct: clause.distinct,
                            condition: clause.condition,
                            group_by: clause.group_by,
                            having: clause.having,
                            qualify: clause.qualify,
                            named_windows: clause.named_windows,
                            from: clause.from.map_values(|item: TableWithJoins| from_parts(item)),
                            projection: clause.projection.map_values(
                                |item: SelectItem| item_of(item),
                            ),
                        },
                    ),
                    None => None,
                },
            },
        ),
        None => None,
    }
}

/// What a projection item looks like.
pub open spec fn item_of(item: SelectItem) -> ProjectionItem<ColumnShape, Seq<char>> {
    match item_parts(item) {
        ProjectionItem::Wildcard(options) => ProjectionItem::Wildcard(options),
        ProjectionItem::Column(expression) => ProjectionItem::Column(expression_parts(expression)),
        ProjectionItem::Aliased(expression, alias) => ProjectionItem::Aliased(
            expression_parts(expression),
            alias,
        ),
        ProjectionItem::Other => ProjectionItem::Other,
    }
}

fn outline_order(order_by: &OrderBy<Vec<Expr>>) -> (outline: OrderBy<Vec<ColumnExpr>>)
    ensures
        order_shape(outline) == (match *order_by {
            OrderBy::Absent => OrderBy::Absent,
            OrderBy::All => OrderBy::All,
            OrderBy::By(list) => OrderBy::By(
                list@.map_values(|expression: Expr| expression_parts(expression)),
            ),
        }),
{
    match order_by {
        OrderBy::Absent => OrderBy::Absent,
        OrderBy::All => OrderBy::All,
        OrderBy::By(list) => {
            let mut columns: Vec<ColumnExpr> = Vec::new();
            let mut i: usize = 0;
            while i < list.len()
                invariant
                    i <= list@.len(),
                    columns@.len() == i,
                    forall|j: int|
                        0 <= j < i ==> column_shape(#[trigger] columns@[j]) == expression_parts(
                            list@[j],
                        ),
                decreases list@.len() - i,
            {
                columns.push(read_expression(&list[i]));
                i += 1;
            }
            assert(column_shapes(columns@) =~= list@.map_values(
                |expression: Expr| expression_parts(expression),
            ));
            OrderBy::By(columns)
        },
    }
}

fn outline_item(item: &SelectItem) -> (outline: ProjectionItem<ColumnExpr, String>)
    requires
        exists|statement: Statement| #[trigger]
            is_read(statement) && (select_parts(statement) matches Some(clause)
                && clause.projection.contains(*item)),
    ensures
        item_shape(outline) == item_of(*item),
{
    match read_item(item) {
        ProjectionItem::Wildcard(options) => ProjectionItem::Wildcard(options),
        ProjectionItem::Column(expression) => ProjectionItem::Column(read_expression(&expression)),
        ProjectionItem::Aliased(expression, alias) => ProjectionItem::Aliased(
            read_expression(&expression),
            alias,
        ),
        ProjectionItem::Other => ProjectionItem::Other,
    }
}

/// What the query that a statement is looks like.
fn outline_query(statement: &Statement) -> (outline: Option<QueryOutline>)
    requires
        is_read(*statement),
    ensures
        (match outline {
            Some(query) => query_of(*statement) == Some(query@),
            None => query_of(*statement) is None,
        }),
{
    let clauses = match read_query(statement) {
        Some(clauses) => clauses,
        None => return None,
    };
    let order_by = outline_order(&clauses.order_by);
    let select = match read_select(statement) {
        Some(clause) => {
            let mut from: Vec<FromClause<String>> = Vec::new();
            let mut i: usize = 0;
            while i < clause.from.len()
                invariant
                    i <= clause.from@.len(),
                    from@.len() == i,
                    is_read(*statement),
                    select_parts(*statement) matches Some(parts) && parts.from == clause.from@,
                    forall|j: int|
                        0 <= j < i ==> from_shape(#[trigger] from@[j]) == from_parts(
                            clause.from@[j],
                        ),
                decreases clause.from@.len() - i,
            {
                assert(clause.from@.contains(clause.from@[i as int]));
                from.push(read_from(&clause.from[i]));
                i += 1;
            }
            let mut projection: Vec<ProjectionItem<ColumnExpr, String>> = Vec::new();
            let mut k: usize = 0;
            while k < clause.projection.len()
                invariant
                    k <= clause.projection@.len(),
                    projection@.len() == k,
                    is_read(*statement),
                    select_parts(*statement) matches Some(parts) && parts.projection
                        == clause.projection@,
                    forall|j: int|
                        0 <= j < k ==> item_shape(#[trigger] projection@[j]) == item_of(
                            clause.projection@[j],
                        ),
                decreases clause.projection@.len() - k,
            {
                assert(clause.projection@.contains(clause.projection@[k as int]));
                projection.push(outline_item(&clause.projection[k]));
                k += 1;
            }
            let select = SelectClause {
                distinct: clause.distinct,
                condition: clause.condition,
                group_by: clause.group_by,
                having: clause.having,
                qualify: clause.qualify,
                named_windows: clause.named_windows,
                from,
                projection,
            };
            assert(select_shape(select).from =~= clause.from@.map_values(
                |item: TableWithJoins| from_parts(item),
            ));
            assert(select_shape(select).projection =~= clause.projection@.map_values(
                |item: SelectItem| item_of(item),
            ));
            Some(select)
        },
        None => None,
    };
    Some(QueryOutline { has_with: clauses.has_with, order_by, select })
}

/// The kinds of a list of tokens.
pub open spec fn token_kinds(tokens: Seq<TokenWithSpan>) -> Seq<TokenKind> {
    tokens.map_values(|token: TokenWithSpan| token_kind(token))
}

/// The query that a text is, where it is one query and no other statement, and
/// none with a limit by columns that has no number, which cannot be written.
pub open spec fn only_query(sql: Seq<char>) -> Option<Statement> {
    match text_tokens(sql) {
        Some(all) => if has_unbounded_limit(token_kinds(all)) {
            None
        } else {
            let tokens = all.skip(tokens_before(token_kinds(all)) as int);
            match leading_query(tokens, STATEMENT_DEPTH as nat) {
                Some((statement, count)) => if no_statement_follows(
                    token_kinds(tokens),
                    count as int,
                ) {
                    Some(statement)
                } else {
                    None
                },
                None => None,
            }
        },
        None => None,
    }
}

/// Whether a statement is the one query that some text is.
pub open spec fn is_read(statement: Statement) -> bool {
    exists|sql: Seq<char>| #[trigger] only_query(sql) == Some(statement)
}

/// The query that `sql` is, where it is one query and no other statement, and one
/// that can be written.
fn parse_only_query(sql: &str) -> (query: Option<Statement>)
    ensures
        query == only_query(sql@),
        query matches Some(statement) ==> is_read(statement),
{
    let mut all = match tokenize(sql) {
        Some(tokens) => tokens,
        None => return None,
    };
    let mut kinds: Vec<TokenKind> = Vec::new();
    let mut i: usize = 0;
    while i < all.len()
        invariant
            i <= all@.len(),
            kinds@ == token_kinds(all@.take(i as int)),
        decreases all@.len() - i,
    {
        kinds.push(read_token(&all[i]));
        assert(kinds@ =~= token_kinds(all@.take(i + 1)));
        i += 1;
    }
    assert(all@.take(i as int) =~= all@);
    if limits_all_by(&kinds) {
        return None;
    }
    let start: usize = count_tokens_before(&kinds);
    let ghost every = all@;
    let tokens = all.split_off(start);
    let rest = kinds.split_off(start);
    assert(tokens@ =~= every.skip(start as int));
    assert(rest@ =~= token_kinds(tokens@));
    let (statement, count) = match parse_leading_query(tokens, STATEMENT_DEPTH) {
        Some(query) => query,
        None => return None,
    };
    if is_last_statement(&rest, count) {
        Some(statement)
    } else {
        None
    }
}

/// What is run in place of a query so that each row carries its address: the
/// query, with the row-address column where that is missing. `None` where the
/// query is not simple.
pub open spec fn prepared_statement(statement: Statement) -> Option<Statement> {
    match query_of(statement) {
        Some(query) => match row_address_plan(query) {
            Some(true) => Some(with_column(statement, "_rowaddr"@)),
            Some(false) => Some(statement),
            None => None,
        },
        None => None,
    }
}

/// Whether a statement is a simple query that has the row-address column.
pub open spec fn carries_row_addresses(statement: Statement) -> bool {
    query_of(statement) matches Some(query) && row_address_plan(query) == Some(false)
}

/// Whether `prepared` is `statement` with the row-address column: the items of
/// the projection stand in their order, the column behind them where none of
/// them has it, and the condition, the order, the limit and the other clauses
/// that are read are as they were.
pub open spec fn adds_row_addresses(prepared: Statement, statement: Statement) -> bool {
    &&& if carries_row_addresses(statement) {
        prepared == statement
    } else {
        has_added_column(prepared, statement, "_rowaddr"@)
    }
    &&& carries_row_addresses(prepared)
}

/// The statement to run in place of `statement` so that each row carries its
/// address; `None` where its rows are not rows of the dataset. What comes out is
/// the same query, with the row-address column, and preparing it once more
/// leaves it as it is.
pub fn prepare_statement(statement: Statement) -> (prepared: Option<Statement>)
    requires
        is_read(statement),
    ensures
        prepared == prepared_statement(statement),
        prepared matches Some(extended) ==> adds_row_addresses(extended, statement)
            && prepared_statement(extended) == Some(extended),
{
    let query = match outline_query(&statement) {
        Some(query) => query,
        None => return None,
    };
    let missing = match plan_row_addresses(&query) {
        Some(missing) => missing,
        None => return None,
    };
    if !missing {
        return Some(statement);
    }
    let ghost plain = statement;
    let statement = add_column(statement, "_rowaddr");
    proof {
        let clause = select_parts(plain)->Some_0;
        let item = choose|item: SelectItem| #[trigger]
            is_column_item(item, "_rowaddr"@) && select_parts(statement) == Some(
                SelectClause { projection: clause.projection.push(item), ..clause },
            );
        let before = query_of(plain)->Some_0.select->Some_0.projection;
        let after = query_of(statement)->Some_0.select->Some_0.projection;
        assert(after =~= before.push(item_of(item)));
        assert(item_has_row_address(after[before.len() as int]));
        assert forall|i: int| 0 <= i < after.len() implies item_is_safe(#[trigger] after[i]) by {
            if i < before.len() {
                assert(after[i] == before[i]);
            }
        }
    }
    Some(statement)
}

/// What is run in place of `sql` so that each row carries its address, where
/// `sql` is one simple query.
pub open spec fn query_with_row_addresses(sql: Seq<char>) -> Option<Seq<char>> {
    match only_query(sql) {
        Some(statement) => match prepared_statement(statement) {
            Some(prepared) => Some(statement_text(prepared)),
            None => None,
        },
        None => None,
    }
}

/// The query to run in place of `sql` so that each row carries its address;
/// `None` where the rows of `sql` are not rows of the dataset, or a limit in it
/// cannot be written. What comes out is the one query that `sql` is, with the
/// row-address column, and preparing it once more gives it again, unless its text
/// is not read as the query that it was written from.
pub fn prepare_sql_with_row_addr(sql: &str) -> (prepared: Option<String>)
    ensures
        (match prepared {
            Some(text) => query_with_row_addresses(sql@) == Some(text@),
            None => query_with_row_addresses(sql@) is None,
        }),
        prepared matches Some(text) ==> {
            let statement = only_query(sql@)->Some_0;
            let extended = prepared_statement(statement)->Some_0;
            &&& text@ == statement_text(extended)
            &&& adds_row_addresses(extended, statement)
            &&& prepared_statement(extended) == Some(extended)
            &&& only_query(text@) == Some(extended) ==> query_with_row_addresses(text@) == Some(
                text@,
            )
        },
{
    match parse_only_query(sql) {
        Some(statement) => {
            let ghost plain = statement;
            match prepare_statement(statement) {
                Some(prepared) => {
                    assert(is_read(plain));
                    Some(write_statement(&prepared))
                },
                None => None,
            }
        },
        None => None,
    }
}

/// Preparing keeps a query. Its condition, order and limit are those that it had;
/// the items of its projection stand where they stood; behind them comes the
/// row-address column where no item has it, and nothing where one has it; and the
/// rows of what comes out carry their addresses.
pub proof fn preparing_keeps_the_query(prepared: Statement, statement: Statement)
    requires
        prepared_statement(statement) == Some(prepared),
        adds_row_addresses(prepared, statement),
    ensures
        ({
            let query = query_parts(statement)->Some_0;
            let kept = query_parts(prepared)->Some_0;
            &&& query_parts(statement) is Some && query_parts(prepared) is Some
            &&& kept.order == query.order
            &&& kept.limit == query.limit
            &&& kept.fetch == query.fetch
        }),
        ({
            let select = select_parts(statement)->Some_0;
            let kept = select_parts(prepared)->Some_0;
            let count = select.projection.len();
            let has_column = exists|i: int|
                0 <= i < count && item_has_row_address(item_of(#[trigger] select.projection[i]));
            &&& select_parts(statement) is Some && select_parts(prepared) is Some
            &&& kept.condition == select.condition
            &&& kept.from == select.from
            &&& forall|i: int|
                0 <= i < count ==> #[trigger] kept.projection[i] == select.projection[i]
            &&& has_column ==> kept.projection.len() == count
            &&& !has_column ==> kept.projection.len() == count + 1 && is_column_item(
                kept.projection.last(),
                "_rowaddr"@,
            )
        }),
        carries_row_addresses(prepared),
{
    let select = select_parts(statement)->Some_0;
    let items = query_of(statement)->Some_0.select->Some_0.projection;
    assert forall|i: int| 0 <= i < items.len() implies #[trigger] items[i] == item_of(
        select.projection[i],
    ) by {}
    if carries_row_addresses(statement) {
        let i = choose|i: int| 0 <= i < items.len() && item_has_row_address(#[trigger] items[i]);
        assert(item_has_row_address(item_of(select.projection[i])));
    } else {
        assert forall|i: int| 0 <= i < select.projection.len() implies !item_has_row_address(
            item_of(#[trigger] select.projection[i]),
        ) by {
            assert(items[i] == item_of(select.projection[i]));
        }
    }
}

/// Preparing a prepared query gives it again, where the text is read as the
/// query that it was written from.
pub proof fn a_prepared_query_stays(text: Seq<char>, statement: Statement)
    requires
        text == statement_text(statement),
        carries_row_addresses(statement),
        only_query(text) == Some(statement),
    ensures
        query_with_row_addresses(text) == Some(text),
{
}

/// Whether an expression is a column, by one name or by several.
pub open spec fn is_plain_column(expression: Expr) -> bool {
    expression_parts(expression) is Identifier || expression_parts(expression) is Compound
}

/// Whether an expression is a column whose name, the last one of several, is
/// `word` in any case.
pub open spec fn is_column_named(expression: Expr, word: Seq<char>) -> bool {
    match expression_parts(expression) {
        ColumnShape::Identifier(name) => is_word(name, word),
        ColumnShape::Compound(names) => names.len() > 0 && is_word(names.last(), word),
        _ => false,
    }
}

proof fn lemma_query_parts(statement: Statement)
    ensures
        query_parts(statement) matches Some(clauses) ==> {
            &&& query_of(statement) matches Some(query)
            &&& query.has_with == clauses.has_with
            &&& order_is_safe(query.order_by) <==> (match clauses.order_by {
                OrderBy::Absent => true,
                OrderBy::All => false,
                OrderBy::By(list) => forall|i: int|
                    0 <= i < list.len() ==> is_plain_column(#[trigger] list[i]),
            })
        },
{
    if let Some(clauses) = query_parts(statement) {
        let query = query_of(statement)->Some_0;
        if let OrderBy::By(list) = clauses.order_by {
            let shapes = query.order_by->By_0;
            assert(shapes.len() == list.len());
            if order_is_safe(query.order_by) {
                assert forall|i: int| 0 <= i < list.len() implies is_plain_column(
                    #[trigger] list[i],
                ) by {
                    assert(direct_column(shapes[i]));
                }
            }
            if forall|i: int| 0 <= i < list.len() ==> is_plain_column(#[trigger] list[i]) {
                assert forall|i: int| 0 <= i < shapes.len() implies direct_column(
                    #[trigger] shapes[i],
                ) by {
                    assert(is_plain_column(list[i]));
                }
            }
        }
    }
}

proof fn lemma_item_parts(item: SelectItem)
    ensures
        item_is_safe(item_of(item)) <==> (match item_parts(item) {
            ProjectionItem::Wildcard(options) => options.len() == 0,
            ProjectionItem::Column(expression) => is_plain_column(expression),
            ProjectionItem::Aliased(expression, alias) => is_plain_column(expression) && (is_word(
                alias,
                "_rowaddr"@,
            ) ==> is_column_named(expression, "_rowaddr"@)),
            ProjectionItem::Other => false,
        }),
        item_is_safe(item_of(item)) ==> (item_has_row_address(item_of(item)) <==> (match item_parts(
            item,
        ) {
            ProjectionItem::Wildcard(_) => true,
            ProjectionItem::Column(expression) => is_column_named(expression, "_rowaddr"@),
            ProjectionItem::Aliased(expression, alias) => is_column_named(expression, "_rowaddr"@)
                && is_word(alias, "_rowaddr"@),
            ProjectionItem::Other => false,
        })),
{
    match item_parts(item) {
        ProjectionItem::Column(expression) => lemma_column_named(expression),
        ProjectionItem::Aliased(expression, alias) => {
            lemma_column_named(expression);
            case_is_ignored_letter_by_letter(alias, "_rowaddr"@);
        },
        _ => {},
    }
}

proof fn lemma_column_named(expression: Expr)
    ensures
        is_plain_column(expression) ==> (row_address(expression_parts(expression))
            <==> is_column_named(expression, "_rowaddr"@)),
{
    match expression_parts(expression) {
        ColumnShape::Identifier(name) => case_is_ignored_letter_by_letter(name, "_rowaddr"@),
        ColumnShape::Compound(names) => if names.len() > 0 {
            case_is_ignored_letter_by_letter(names.last(), "_rowaddr"@);
        },
        _ => {},
    }
}

/// A query is prepared exactly where its rows are rows of the dataset: it has no
/// `WITH` clause; it is ordered by nothing or by any number of plain columns; it
/// selects, without `DISTINCT`, grouping, `HAVING`, `QUALIFY` or windows, from one
/// table, which is `dataset` in any case, without arguments, named columns or
/// joins; and each item is a wildcard without options or a plain column, under
/// its own name or under another, where only the row-address column may be given
/// the name of the row-address column.
pub proof fn queries_of_dataset_rows_are_prepared(statement: Statement)
    ensures
        prepared_statement(statement) is Some <==> {
            &&& query_parts(statement) matches Some(query)
            &&& !query.has_with
            &&& match query.order_by {
                OrderBy::Absent => true,
                OrderBy::All => false,
                OrderBy::By(list) => forall|i: int|
                    0 <= i < list.len() ==> is_plain_column(#[trigger] list[i]),
            }
            &&& select_parts(statement) matches Some(select)
            &&& !select.distinct
            &&& select.group_by == Some((0usize, 0usize))
            &&& !select.having
            &&& !select.qualify
            &&& select.named_windows == 0
            &&& select.from.len() == 1
            &&& from_parts(select.from[0]).joins == 0
            &&& from_parts(select.from[0]).table matches Some(table)
            &&& is_word(table.name, "dataset"@)
            &&& !table.has_args
            &&& table.alias_columns == 0
            &&& forall|i: int|
                0 <= i < select.projection.len() ==> (match item_parts(
                    #[trigger] select.projection[i],
                ) {
                    ProjectionItem::Wildcard(options) => options.len() == 0,
                    ProjectionItem::Column(expression) => is_plain_column(expression),
                    ProjectionItem::Aliased(expression, alias) => is_plain_column(expression) && (
                    is_word(alias, "_rowaddr"@) ==> is_column_named(expression, "_rowaddr"@)),
                    ProjectionItem::Other => false,
                })
        },
{
    lemma_query_parts(statement);
    if let Some(select) = select_parts(statement) {
        if select.from.len() == 1 {
            if let Some(table) = from_parts(select.from[0]).table {
                case_is_ignored_letter_by_letter(table.name, "dataset"@);
            }
        }
        if query_parts(statement) is Some {
            let query = query_of(statement)->Some_0;
            let shape = query.select->Some_0;
            let items = shape.projection;
            assert(items.len() == select.projection.len());
            assert(shape.from.len() == select.from.len());
            if select.from.len() == 1 {
                assert(shape.from[0] == from_parts(select.from[0]));
            }
            assert forall|i: int| 0 <= i < items.len() implies #[trigger] items[i] == item_of(
                select.projection[i],
            ) by {}
            assert forall|i: int| 0 <= i < select.projection.len() implies item_is_safe(
                #[trigger] items[i],
            ) == (match item_parts(select.projection[i]) {
                ProjectionItem::Wildcard(options) => options.len() == 0,
                ProjectionItem::Column(expression) => is_plain_column(expression),
                ProjectionItem::Aliased(expression, alias) => is_plain_column(expression) && (
                is_word(alias, "_rowaddr"@) ==> is_column_named(expression, "_rowaddr"@)),
                ProjectionItem::Other => false,
            }) by {
                lemma_item_parts(select.projection[i]);
            }
            if query_is_simple(query) {
                assert forall|i: int| 0 <= i < select.projection.len() implies (match item_parts(
                    #[trigger] select.projection[i],
                ) {
                    ProjectionItem::Wildcard(options) => options.len() == 0,
                    ProjectionItem::Column(expression) => is_plain_column(expression),
                    ProjectionItem::Aliased(expression, alias) => is_plain_column(expression) && (
                    is_word(alias, "_rowaddr"@) ==> is_column_named(expression, "_rowaddr"@)),
                    ProjectionItem::Other => false,
                }) by {
                    assert(item_is_safe(items[i]));
                }
            }
        }
    }
}

/// A query that is prepared is run as it is exactly where one of its items is a
/// wildcard or the row-address column under its own name, in any case; otherwise
/// it is run with that column added.
pub proof fn the_column_is_added_where_it_is_missing(statement: Statement)
    requires
        prepared_statement(statement) is Some,
    ensures
        ({
            let items = select_parts(statement)->Some_0.projection;
            let present = exists|i: int|
                0 <= i < items.len() && (match item_parts(#[trigger] items[i]) {
                    ProjectionItem::Wildcard(_) => true,
                    ProjectionItem::Column(expression) => is_column_named(expression, "_rowaddr"@),
                    ProjectionItem::Aliased(expression, alias) => is_column_named(
                        expression,
                        "_rowaddr"@,
                    ) && is_word(alias, "_rowaddr"@),
                    ProjectionItem::Other => false,
                });
            prepared_statement(statement) == Some(
                if present {
                    statement
                } else {
                    with_column(statement, "_rowaddr"@)
                },
            )
        }),
{
    let items = select_parts(statement)->Some_0.projection;
    let shapes = query_of(statement)->Some_0.select->Some_0.projection;
    assert(shapes.len() == items.len());
    assert forall|i: int| 0 <= i < items.len() implies item_has_row_address(#[trigger] shapes[i])
        == (match item_parts(items[i]) {
        ProjectionItem::Wildcard(_) => true,
        ProjectionItem::Column(expression) => is_column_named(expression, "_rowaddr"@),
        ProjectionItem::Aliased(expression, alias) => is_column_named(expression, "_rowaddr"@)
            && is_word(alias, "_rowaddr"@),
        ProjectionItem::Other => false,
    }) by {
        assert(shapes[i] == item_of(items[i]));
        assert(item_is_safe(shapes[i]));
        lemma_item_parts(items[i]);
    }
    if exists|i: int| 0 <= i < shapes.len() && item_has_row_address(#[trigger] shapes[i]) {
        let i = choose|i: int| 0 <= i < shapes.len() && item_has_row_address(#[trigger] shapes[i]);
        assert(shapes[i] == item_of(items[i]));
    }
    if exists|i: int|
        0 <= i < items.len() && (match item_parts(#[trigger] items[i]) {
            ProjectionItem::Wildcard(_) => true,
            ProjectionItem::Column(expression) => is_column_named(expression, "_rowaddr"@),
            ProjectionItem::Aliased(expression, alias) => is_column_named(expression, "_rowaddr"@)
                && is_word(alias, "_rowaddr"@),
            ProjectionItem::Other => false,
        }) {
        let i = choose|i: int|
            0 <= i < items.len() && (match item_parts(#[trigger] items[i]) {
                ProjectionItem::Wildcard(_) => true,
                ProjectionItem::Column(expression) => is_column_named(expression, "_rowaddr"@),
                ProjectionItem::Aliased(expression, alias) => is_column_named(
                    expression,
                    "_rowaddr"@,
                ) && is_word(alias, "_rowaddr"@),
                ProjectionItem::Other => false,
            });
        assert(item_has_row_address(shapes[i]));
    }
}

/// One more column to order by changes nothing where it is a plain one, however
/// many there are; no list of any other expressions is safe, nor is `ALL`.
pub proof fn queries_are_ordered_by_any_number_of_columns(
    list: Seq<ColumnShape>,
    expression: ColumnShape,
)
    ensures
        order_is_safe(OrderBy::By(list.push(expression))) <==> order_is_safe(OrderBy::By(list)) && (
        expression is Identifier || expression is Compound),
        order_is_safe(OrderBy::By(Seq::empty())),
        order_is_safe(OrderBy::Absent),
        !order_is_safe(OrderBy::All),
{
    let longer = OrderBy::By(list.push(expression));
    let shorter = OrderBy::By(list);
    if order_is_safe(longer) {
        assert(longer->By_0[list.len() as int] == expression);
        assert forall|i: int| 0 <= i < list.len() implies direct_column(
            #[trigger] shorter->By_0[i],
        ) by {
            assert(longer->By_0[i] == list[i]);
        }
        assert(order_is_safe(shorter));
    }
    if order_is_safe(shorter) && (expression is Identifier || expression is Compound) {
        assert forall|i: int| 0 <= i < list.len() + 1 implies direct_column(
            #[trigger] longer->By_0[i],
        ) by {
            if i < list.len() {
                assert(shorter->By_0[i] == list[i]);
            }
        }
        assert(order_is_safe(longer));
    }
}

/// A column is the row-address column by the last of its names, in any case, and
/// parentheses round it change nothing.
pub proof fn row_addresses_are_known_by_the_last_name(
    names: Seq<Seq<char>>,
    name: Seq<char>,
    inner: ColumnShape,
)
    ensures
        row_address(ColumnShape::Identifier(name)) <==> is_word(name, "_rowaddr"@),
        row_address(ColumnShape::Compound(names.push(name))) <==> is_word(name, "_rowaddr"@),
        !row_address(ColumnShape::Compound(Seq::empty())),
        row_address(ColumnShape::Nested(Box::new(inner))) <==> row_address(inner),
        !row_address(ColumnShape::Other),
        direct_column(ColumnShape::Identifier(name)),
        direct_column(ColumnShape::Compound(names)),
        !direct_column(ColumnShape::Nested(Box::new(inner))),
        !direct_column(ColumnShape::Other),
{
    case_is_ignored_letter_by_letter(name, "_rowaddr"@);
    assert(names.push(name).last() == name);
}

/// A query is taken without the white space round it, and without the semicolons
/// behind it and the white space before those.
pub proof fn queries_are_taken_bare(
    before: Seq<char>,
    query: Seq<char>,
    gap: Seq<char>,
    semicolons: Seq<char>,
    after: Seq<char>,
)
    requires
        is_blank(before),
        is_blank(gap),
        is_blank(after),
        is_run(semicolons, ';'),
        query.len() > 0 ==> !is_space(query[0]) && !is_space(query.last()) && query.last() != ';',
    ensures
        bare_query(before + query + gap + semicolons + after) == query,
{
    let sql = before + query + gap + semicolons + after;
    if semicolons.len() == 0 {
        let blank = gap + after;
        assert forall|i: int| 0 <= i < blank.len() implies is_space(#[trigger] blank[i]) by {
            if i < gap.len() {
                assert(blank[i] == gap[i]);
            } else {
                assert(blank[i] == after[i - gap.len()]);
            }
        }
        assert(sql =~= before + query + blank);
        trimming_both_ends(before, query, blank);
        taking_a_run_off_the_end(query, Seq::empty(), ';');
        assert(query + Seq::<char>::empty() =~= query);
        trimming_the_end(query, Seq::empty());
    } else {
        assert(semicolons[0] == ';' && semicolons[semicolons.len() - 1] == ';');
        if query.len() == 0 {
            let blank = before + gap;
            assert forall|i: int| 0 <= i < blank.len() implies is_space(#[trigger] blank[i]) by {
                if i < before.len() {
                    assert(blank[i] == before[i]);
                } else {
                    assert(blank[i] == gap[i - before.len()]);
                }
            }
            assert(sql =~= blank + semicolons + after);
            trimming_both_ends(blank, semicolons, after);
            assert(Seq::<char>::empty() + semicolons =~= semicolons);
            taking_a_run_off_the_end(Seq::empty(), semicolons, ';');
            assert(query =~= Seq::empty());
        } else {
            let core = query + gap + semicolons;
            assert(core[0] == query[0]);
            assert(core.last() == semicolons[semicolons.len() - 1]);
            assert(sql =~= before + core + after);
            trimming_both_ends(before, core, after);
            let rest = query + gap;
            assert(core =~= rest + semicolons);
            assert(rest.last() != ';') by {
                if gap.len() > 0 {
                    assert(rest.last() == gap[gap.len() - 1]);
                }
            }
            taking_a_run_off_the_end(rest, semicolons, ';');
            trimming_the_end(query, gap);
        }
    }
}

proof fn lemma_leading_word(word: Seq<char>, rest: Seq<char>)
    requires
        forall|i: int| 0 <= i < word.len() ==> !is_space(#[trigger] word[i]),
        rest.len() > 0 ==> is_space(rest[0]),
    ensures
        leading_word(word + rest) == word,
    decreases word.len(),
{
    if word.len() == 0 {
        assert(word + rest =~= rest);
        assert(word =~= Seq::empty());
    } else {
        let text = word + rest;
        assert(text[0] == word[0]);
        assert(text.skip(1) =~= word.skip(1) + rest);
        assert forall|i: int| 0 <= i < word.skip(1).len() implies !is_space(
            #[trigger] word.skip(1)[i],
        ) by {
            assert(word.skip(1)[i] == word[i + 1]);
        }
        lemma_leading_word(word.skip(1), rest);
        assert(seq![word[0]] + word.skip(1) =~= word);
    }
}

/// A query only reads exactly where its first word is `SELECT` or `WITH`, in any
/// case, up to the white space that ends it.
pub proof fn reading_queries_begin_with_a_keyword(
    blank: Seq<char>,
    word: Seq<char>,
    rest: Seq<char>,
)
    requires
        is_blank(blank),
        forall|i: int| 0 <= i < word.len() ==> !is_space(#[trigger] word[i]),
        word.len() > 0,
        rest.len() > 0 ==> is_space(rest[0]),
    ensures
        begins_read_only(blank + word + rest) <==> is_word(word, "select"@) || is_word(
            word,
            "with"@,
        ),
{
    reveal_strlit("select");
    reveal_strlit("with");
    assert(blank + word + rest =~= blank + (word + rest));
    assert((word + rest)[0] == word[0]);
    trimming_the_start(blank, word + rest);
    lemma_leading_word(word, rest);
    case_is_ignored_letter_by_letter(word, "select"@);
    case_is_ignored_letter_by_letter(word, "with"@);
    assert(lowered("select"@) =~= "select"@);
    assert(lowered("with"@) =~= "with"@);
}

/// A statement begins with the first token that is neither white space nor a
/// semicolon.
pub proof fn statements_begin_behind_separators(gap: Seq<TokenKind>, rest: Seq<TokenKind>)
    requires
        forall|i: int| 0 <= i < gap.len() ==> #[trigger] gap[i] is Space || gap[i] is Semicolon,
        rest.len() > 0 ==> !(rest[0] is Space) && !(rest[0] is Semicolon),
    ensures
        tokens_before(gap + rest) == gap.len(),
    decreases gap.len(),
{
    let kinds = gap + rest;
    if gap.len() == 0 {
        assert(kinds =~= rest);
    } else {
        assert(kinds[0] == gap[0]);
        assert(kinds.skip(1) =~= gap.skip(1) + rest);
        assert forall|i: int| 0 <= i < gap.skip(1).len() implies #[trigger] gap.skip(1)[i] is Space
            || gap.skip(1)[i] is Semicolon by {
            assert(gap.skip(1)[i] == gap[i + 1]);
        }
        statements_begin_behind_separators(gap.skip(1), rest);
    }
}

/// Behind a statement comes no other exactly where nothing but white space and
/// semicolons is left, or the first token that is not white space is `END`.
pub proof fn statements_end_with_separators(
    statement: Seq<TokenKind>,
    spaces: Seq<TokenKind>,
    next: TokenKind,
    rest: Seq<TokenKind>,
)
    requires
        forall|i: int| 0 <= i < spaces.len() ==> #[trigger] spaces[i] is Space,
        !(next is Space),
    ensures
        no_statement_follows(statement + spaces, statement.len() as int),
        no_statement_follows(statement + spaces.push(next) + rest, statement.len() as int) <==> (
        next is End || (next is Semicolon && forall|i: int|
            0 <= i < rest.len() ==> #[trigger] rest[i] is Space || rest[i] is Semicolon)),
{
    let at = statement.len() as int;
    let short = statement + spaces;
    assert forall|i: int| at <= i < short.len() implies separates(#[trigger] short[i]) by {
        assert(short[i] == spaces[i - at]);
    }
    let kinds = statement + spaces.push(next) + rest;
    let here = at + spaces.len();
    assert(kinds[here] == next);
    assert forall|j: int| at <= j < here implies #[trigger] kinds[j] is Space by {
        assert(kinds[j] == spaces[j - at]);
    }
    assert forall|j: int| here < j < kinds.len() implies #[trigger] kinds[j] == rest[j - here
        - 1] by {}
    if next is Semicolon && forall|i: int|
        0 <= i < rest.len() ==> #[trigger] rest[i] is Space || rest[i] is Semicolon {
        assert forall|i: int| at <= i < kinds.len() implies separates(#[trigger] kinds[i]) by {
            if i > here {
                assert(kinds[i] == rest[i - here - 1]);
            }
        }
    }
    if no_statement_follows(kinds, at) && !(next is End) {
        if exists|i: int|
            at <= i < kinds.len() && #[trigger] kinds[i] is End && forall|j: int|
                at <= j < i ==> #[trigger] kinds[j] is Space {
            let i = choose|i: int|
                at <= i < kinds.len() && #[trigger] kinds[i] is End && forall|j: int|
                    at <= j < i ==> #[trigger] kinds[j] is Space;
            assert(i > here);
            assert(kinds[here] is Space);
        }
        assert(separates(kinds[here]));
        assert forall|i: int| 0 <= i < rest.len() implies #[trigger] rest[i] is Space
            || rest[i] is Semicolon by {
            assert(kinds[here + 1 + i] == rest[i]);
            assert(separates(kinds[here + 1 + i]));
        }
    }
}

/// `LIMIT ALL BY` is found wherever it stands, with any white space between its
/// words.
pub proof fn unbounded_limits_are_found(
    before: Seq<TokenKind>,
    first: Seq<TokenKind>,
    second: Seq<TokenKind>,
    after: Seq<TokenKind>,
)
    requires
        forall|i: int| 0 <= i < first.len() ==> #[trigger] first[i] is Space,
        forall|i: int| 0 <= i < second.len() ==> #[trigger] second[i] is Space,
    ensures
        has_unbounded_limit(
            before + seq![TokenKind::Limit] + first + seq![TokenKind::All] + second + seq![
                TokenKind::By,
            ] + after,
        ),
{
    let kinds = before + seq![TokenKind::Limit] + first + seq![TokenKind::All] + second + seq![
        TokenKind::By,
    ] + after;
    let i = before.len() as int;
    let j = i + 1 + first.len();
    let k = j + 1 + second.len();
    assert(kinds[i] is Limit);
    assert(kinds[j] is All && kinds[k] is By);
    assert(follow_each_other(kinds, i, j)) by {
        assert forall|x: int| i < x < j implies #[trigger] kinds[x] is Space by {
            assert(kinds[x] == first[x - i - 1]);
        }
    }
    assert(follow_each_other(kinds, j, k)) by {
        assert forall|x: int| j < x < k implies #[trigger] kinds[x] is Space by {
            assert(kinds[x] == second[x - j - 1]);
        }
    }
    assert(unbounded_limit_at(kinds, i));
}

/// Without one of its three words there is no `LIMIT ALL BY`.
pub proof fn other_limits_are_left_alone(kinds: Seq<TokenKind>)
    requires
        !kinds.contains(TokenKind::Limit) || !kinds.contains(TokenKind::All) || !kinds.contains(
            TokenKind::By,
        ),
    ensures
        !has_unbounded_limit(kinds),
{
    if has_unbounded_limit(kinds) {
        let i = choose|i: int| #[trigger] unbounded_limit_at(kinds, i);
        let (j, k) = choose|j: int, k: int|
            0 <= i && k < kinds.len() && kinds[i] is Limit && #[trigger] kinds[j] is All
                && #[trigger] kinds[k] is By && follow_each_other(kinds, i, j)
                && follow_each_other(kinds, j, k);
        assert(kinds[i] == TokenKind::Limit);
        assert(kinds[j] == TokenKind::All);
        assert(kinds[k] == TokenKind::By);
    }
}

} // verus!
