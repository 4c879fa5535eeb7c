use std::sync::Arc;

use arrow_array::builder::{Int32Builder, MapBuilder};
use arrow_array::types::Int32Type;
use arrow_array::{
    Array, ArrayRef, DictionaryArray, Int32Array, NullArray, RecordBatch, StringArray, StructArray,
    TimestampMicrosecondArray, TimestampSecondArray, UInt64Array, UInt8Array,
};
use arrow_schema::{DataType, Field, Fields, Schema};
use datafusion_expr::{col, lit, Expr};
use datafusion_sql::sqlparser::dialect::GenericDialect;
use datafusion_sql::sqlparser::parser::Parser;
use lance_inspector::batch::{
    can_write_rows, is_writable, Batch, ColumnKind, ColumnTree, TimeUnit, DAY, END_SECOND,
    FIRST_SECOND,
};
use lance_inspector::blob::BlobArray;
use lance_inspector::cursor::{
    PageRequest, PageStep, QueryCursor, SqlPageResponse, MAX_SQL_RESULT_ROWS, QUERY_IDLE_TTL,
    SQL_PAGE_ROWS,
};
use lance_inspector::error::{ApiError, RequestError};
use lance_inspector::plan::{direct_column_source, direct_projection_sources, Plan, PlanExpr};
use lance_inspector::query::{cursor_response, result_sources, start_query};
use lance_inspector::rows::{
    checked_rows, combine_rows, row_limit, rows_response, scan_indices, serialize_rows,
    MediaValues,
};
use lance_inspector::schema::{DatasetColumns, MediaProjection, SqlColumns};
use lance_inspector::models::MediaColumn;
use lance_inspector::sql::{
    count_tokens_before, is_last_statement, limits_all_by, prepare_sql_with_row_addr, prepare_statement,
    read_only_sql,
};
use lance_inspector::sql::TokenKind::{All, By, End, Limit, Other, Semicolon, Space};

#[test]
fn api_accepts_only_read_only_sql() {
    assert_eq!(
        read_only_sql(" SELECT * FROM dataset; ").unwrap(),
        "SELECT * FROM dataset"
    );
    assert!(read_only_sql("WITH selected AS (SELECT 1) SELECT * FROM selected").is_ok());
    assert!(read_only_sql("DELETE FROM dataset").is_err());
    assert!(read_only_sql("CREATE EXTERNAL TABLE secret").is_err());
    assert!(read_only_sql("  ").is_err());
}

#[test]
fn query_accepts_only_read_only_sql() {
    assert_eq!(
        read_only_sql(" SELECT * FROM dataset; ").unwrap(),
        "SELECT * FROM dataset"
    );
    assert!(read_only_sql("WITH selected AS (SELECT 1) SELECT * FROM selected").is_ok());
    assert!(read_only_sql("DELETE FROM dataset").is_err());
    assert!(read_only_sql("CREATE EXTERNAL TABLE secret").is_err());
    assert!(read_only_sql("  ").is_err());
}

#[test]
fn explains_why_a_query_is_not_run() {
    assert_eq!(read_only_sql(" ;; ").unwrap_err().message(), "SQL query cannot be empty");
    let error = read_only_sql("selection").unwrap_err();
    assert_eq!(
        error.message(),
        "only read-only SELECT or WITH queries are supported"
    );
    assert_eq!(ApiError::from_request(error).into_response().status, 400);
    assert_eq!(read_only_sql("sElEcT 1 ; ;").unwrap(), "sElEcT 1 ;");
    assert_eq!(read_only_sql("\u{2003}with\u{a0}x").unwrap(), "with\u{a0}x");
}

#[test]
fn prepares_only_simple_row_address_queries() {
    let prepared = prepare_sql_with_row_addr(
        "SELECT blob AS preview FROM dataset WHERE id > 0 ORDER BY id LIMIT 10",
    )
    .unwrap();
    assert!(prepared.contains("blob AS preview"));
    assert!(prepared.contains("_rowaddr"));
    assert!(prepare_sql_with_row_addr("SELECT * FROM dataset").is_some());
    assert!(prepare_sql_with_row_addr("SELECT blob, _rowaddr FROM dataset").is_some());

    for sql in [
        "SELECT DISTINCT blob FROM dataset",
        "SELECT max(blob) FROM dataset",
        "SELECT blob FROM dataset GROUP BY blob",
        "SELECT left.blob FROM dataset left JOIN dataset right ON true",
        "SELECT blob FROM dataset UNION ALL SELECT blob FROM dataset",
        "WITH selected AS (SELECT blob FROM dataset) SELECT blob FROM selected",
        "SELECT blob FROM (SELECT blob FROM dataset) nested",
        "SELECT (SELECT blob FROM dataset LIMIT 1) AS blob FROM dataset",
        "SELECT blob, 0 AS _rowaddr FROM dataset",
    ] {
        assert!(prepare_sql_with_row_addr(sql).is_none(), "{sql}");
    }
}

#[test]
fn prepared_queries_stay_as_they_are() {
    for sql in ["SELECT blob FROM dataset", "SELECT * FROM DataSet d", "select d.x as y from dataset d order by d.x"] {
        let prepared = prepare_sql_with_row_addr(sql).unwrap();
        assert_eq!(prepare_sql_with_row_addr(&prepared), Some(prepared.clone()));
    }
    assert_eq!(
        prepare_sql_with_row_addr("SELECT blob FROM dataset").unwrap(),
        "SELECT blob, _rowaddr FROM dataset"
    );
    assert_eq!(
        prepare_sql_with_row_addr("SELECT _ROWADDR AS _rowaddr FROM dataset").unwrap(),
        "SELECT _ROWADDR AS _rowaddr FROM dataset"
    );
    let doubled = prepare_sql_with_row_addr("SELECT x FROM dataset WHERE x = - -1").unwrap();
    assert_eq!(doubled, "SELECT x, _rowaddr FROM dataset WHERE x = --1");
    assert_eq!(prepare_sql_with_row_addr(&doubled), None);
    for sql in [
        "",
        "SELECT",
        "SELECT 1; SELECT 2",
        "SELECT x FROM other",
        "SELECT x FROM dataset AS d(x)",
        "SELECT x FROM dataset(1)",
        "SELECT x FROM dataset HAVING x > 1",
        "SELECT x FROM dataset ORDER BY x + 1",
        "SELECT * EXCLUDE (x) FROM dataset",
        "SELECT x FROM dataset, dataset",
    ] {
        assert!(prepare_sql_with_row_addr(sql).is_none(), "{sql}");
    }
}

#[test]
fn prepares_a_query_that_stands_alone() {
    for (sql, prepared) in [
        (";; SELECT x FROM dataset", "SELECT x, _rowaddr FROM dataset"),
        ("-- rows\n; SELECT x FROM dataset", "SELECT x, _rowaddr FROM dataset"),
        ("SELECT x FROM dataset ; /* done */ ;", "SELECT x, _rowaddr FROM dataset"),
        ("SELECT x FROM dataset WHERE x > 0 END", "SELECT x, _rowaddr FROM dataset WHERE x > 0"),
        ("SELECT x FROM dataset LIMIT 1 END of it", "SELECT x, _rowaddr FROM dataset LIMIT 1"),
        (
            "SELECT y, x AS z FROM dataset WHERE x > 0 ORDER BY x LIMIT 10",
            "SELECT y, x AS z, _rowaddr FROM dataset WHERE x > 0 ORDER BY x LIMIT 10",
        ),
    ] {
        assert_eq!(prepare_sql_with_row_addr(sql).as_deref(), Some(prepared), "{sql}");
    }
    for sql in [
        ";",
        "SELECT x FROM dataset; END",
        "SELECT x FROM dataset; SELECT x FROM dataset",
        "SELECT x FROM dataset d e",
        "SELECT 'x FROM dataset",
        "VALUES (1)",
        "TABLE dataset",
        "INSERT INTO dataset VALUES (1)",
        "DELETE FROM dataset",
        "END",
        "FLUSH RELAY LOGS FOR CHANNEL",
        "SELECT x FROM dataset; FLUSH RELAY LOGS FOR CHANNEL",
    ] {
        assert_eq!(prepare_sql_with_row_addr(sql), None, "{sql}");
    }
    for sql in [
        "SELECT x FROM dataset LIMIT ALL BY x",
        "SELECT x FROM dataset limit /* none */ all\nby x",
        "SELECT x FROM dataset WHERE x IN (SELECT y FROM other LIMIT ALL BY y)",
        "SELECT * REPLACE ((SELECT y FROM other LIMIT ALL BY y) AS x) FROM dataset",
    ] {
        assert_eq!(prepare_sql_with_row_addr(sql), None, "{sql}");
    }
    for (sql, prepared) in [
        ("SELECT x FROM dataset LIMIT ALL", "SELECT x, _rowaddr FROM dataset"),
        ("SELECT x FROM dataset LIMIT 2 BY x", "SELECT x, _rowaddr FROM dataset LIMIT 2 BY x"),
        (
            "SELECT x FROM dataset WHERE \"limit\" = 1 ORDER BY x DESC LIMIT 3 OFFSET 2",
            "SELECT x, _rowaddr FROM dataset WHERE \"limit\" = 1 ORDER BY x DESC LIMIT 3 OFFSET 2",
        ),
        (
            "SELECT x FROM dataset FETCH FIRST 2 ROWS ONLY",
            "SELECT x, _rowaddr FROM dataset FETCH FIRST 2 ROWS ONLY",
        ),
    ] {
        assert_eq!(prepare_sql_with_row_addr(sql).as_deref(), Some(prepared), "{sql}");
    }
    let start = start_query("select 1; flush relay logs for channel").unwrap();
    assert_eq!(start.sql, "select 1; flush relay logs for channel");
    assert_eq!(start.prepared, None);
}

#[test]
fn prepares_queries_as_deep_as_statements_nest() {
    let mut deepest = 0;
    for depth in 0..60 {
        let condition = format!("{}x{}", "(".repeat(depth), ")".repeat(depth));
        let sql = format!("SELECT x FROM dataset WHERE {condition}");
        let parsed = Parser::parse_sql(&GenericDialect {}, &sql).is_ok();
        assert_eq!(prepare_sql_with_row_addr(&sql).is_some(), parsed, "{depth}");
        if parsed {
            deepest = depth;
        }
    }
    assert!(deepest > 0 && deepest < 59);
}

#[test]
fn tells_statements_apart_by_their_tokens() {
    assert_eq!(count_tokens_before(&vec![]), 0);
    assert_eq!(count_tokens_before(&vec![Space, Semicolon, Space, Other, Space]), 3);
    assert_eq!(count_tokens_before(&vec![End, Space]), 0);
    assert!(is_last_statement(&vec![Other], 1));
    assert!(is_last_statement(&vec![Other], 7));
    assert!(is_last_statement(&vec![Other, Semicolon, Space, Semicolon], 1));
    assert!(is_last_statement(&vec![Other, Space, End, Other], 1));
    assert!(!is_last_statement(&vec![Other, Semicolon, End], 1));
    assert!(!is_last_statement(&vec![Other, Space, Other], 1));
    assert!(!is_last_statement(&vec![Other, Semicolon, Other], 1));
    assert!(limits_all_by(&vec![Other, Limit, Space, Space, All, By, Other]));
    assert!(limits_all_by(&vec![Limit, Limit, All, Space, By]));
    assert!(!limits_all_by(&vec![Limit, All]));
    assert!(!limits_all_by(&vec![Limit, All, Other, By]));
    assert!(!limits_all_by(&vec![Limit, Other, All, By]));
    assert!(!limits_all_by(&vec![All, By, Limit]));
}

#[test]
fn a_prepared_statement_needs_no_preparing() {
    let mut statements =
        Parser::parse_sql(&GenericDialect {}, "SELECT y, x FROM dataset WHERE x > 0").unwrap();
    let prepared = prepare_statement(statements.pop().unwrap()).unwrap();
    assert_eq!(prepared.to_string(), "SELECT y, x, _rowaddr FROM dataset WHERE x > 0");
    assert_eq!(prepare_statement(prepared.clone()), Some(prepared));
    let mut others = Parser::parse_sql(&GenericDialect {}, "SELECT x FROM other").unwrap();
    assert_eq!(prepare_statement(others.pop().unwrap()), None);
}

fn plan_expr(expression: &Expr) -> PlanExpr {
    match expression {
        Expr::Column(column) => PlanExpr::Column(column.name.clone()),
        Expr::Alias(alias) => PlanExpr::Alias(Box::new(plan_expr(&alias.expr))),
        _ => PlanExpr::Other,
    }
}

#[test]
fn traces_only_direct_columns_and_simple_aliases() {
    assert_eq!(direct_column_source(&plan_expr(&col("blob"))), Some("blob".to_string()));
    assert_eq!(
        direct_column_source(&plan_expr(&col("blob").alias("preview"))),
        Some("blob".to_string())
    );
    assert_eq!(direct_column_source(&plan_expr(&lit(1).alias("blob"))), None);
}

#[test]
fn traces_columns_through_plans() {
    let projection = || {
        Plan::Projection(vec![
            PlanExpr::Column("a".to_string()),
            PlanExpr::Other,
            PlanExpr::Alias(Box::new(PlanExpr::Alias(Box::new(PlanExpr::Column("b".to_string()))))),
        ])
    };
    let expected = vec![Some("a".to_string()), None, None];
    assert_eq!(direct_projection_sources(&projection()), expected);
    let wrapped = Plan::Limit(Box::new(Plan::Sort(Box::new(Plan::Filter(Box::new(
        Plan::SubqueryAlias(Box::new(Plan::Distinct(Box::new(projection())))),
    ))))));
    assert_eq!(direct_projection_sources(&wrapped), expected);
    assert_eq!(result_sources(true, &wrapped), expected);
    assert!(result_sources(false, &wrapped).is_empty());
    let scan = Plan::TableScan(vec!["x".to_string(), "_rowaddr".to_string()]);
    assert_eq!(
        direct_projection_sources(&scan),
        vec![Some("x".to_string()), Some("_rowaddr".to_string())]
    );
    assert!(direct_projection_sources(&Plan::Other).is_empty());
}

#[test]
fn tries_the_prepared_query_first() {
    let mut start = start_query(" SELECT blob FROM dataset; ").unwrap();
    assert_eq!(start.sql, "SELECT blob FROM dataset");
    assert_eq!(
        start.attempt(),
        ("SELECT blob, _rowaddr FROM dataset".to_string(), true)
    );
    assert!(start.attempt_failed("no such column").is_none());
    assert_eq!(start.attempt(), ("SELECT blob FROM dataset".to_string(), false));
    let refusal = start.attempt_failed("no such column").unwrap();
    assert!(matches!(refusal, RequestError::InvalidRequest(ref text) if text == "no such column"));
    let start = start_query("SELECT count(*) FROM dataset").unwrap();
    assert_eq!(start.attempt(), ("SELECT count(*) FROM dataset".to_string(), false));
    assert!(start_query("DROP TABLE dataset").is_err());
}

fn described_batch() -> RecordBatch {
    let members = Fields::from(vec![Field::new("kind", DataType::UInt8, true)]);
    let kinds: ArrayRef = Arc::new(UInt8Array::from(vec![Some(1), None]));
    let blobs = StructArray::new(members.clone(), vec![kinds], Some(vec![true, false].into()));
    let schema = Schema::new(vec![
        Field::new("value", DataType::Int32, false),
        Field::new("blob", DataType::Struct(members), true),
        Field::new("_rowaddr", DataType::UInt64, false),
    ]);
    RecordBatch::try_new(
        Arc::new(schema),
        vec![
            Arc::new(Int32Array::from(vec![1, 2])),
            Arc::new(blobs),
            Arc::new(UInt64Array::from(vec![10, 11])),
        ],
    )
    .unwrap()
}

#[test]
fn strips_blob_descriptors_and_emits_media_items() {
    let media = |slots| {
        vec![MediaValues { name: "blob".to_string(), array: BlobArray::Descriptors(slots) }]
    };
    let batch = Batch { batch: described_batch() };
    let scalar = vec![0, 2];
    assert!(can_write_rows(&batch, &scalar));
    let rows = serialize_rows(&batch, &scalar, &media(vec![Some(false), None])).unwrap();

    assert_eq!(rows[0].values["value"], 1);
    assert!(rows[0].values.get("blob").is_none());
    assert!(rows[0].media.get("blob").unwrap()[0].is_empty());
    assert!(rows[1].media.entries().is_empty());

    let sliced = Batch { batch: described_batch().slice(1, 1) };
    assert!(can_write_rows(&sliced, &scalar));
    let sliced = serialize_rows(&sliced, &scalar, &media(vec![None])).unwrap();
    assert_eq!(sliced.len(), 1);
    assert_eq!(sliced[0].values["value"], 2);
    assert_eq!(sliced[0].values["_rowaddr"], 11);
    assert!(sliced[0].media.entries().is_empty());
}

#[test]
fn writes_the_columns_that_are_asked_for() {
    let batch = Batch { batch: described_batch() };
    let rows = checked_rows(&batch, &vec![2], &Vec::new()).unwrap().unwrap();
    assert_eq!(rows[1].values.to_string(), r#"{"_rowaddr":11}"#);
    let rows = checked_rows(&batch, &vec![1], &Vec::new()).unwrap().unwrap();
    assert_eq!(rows[0].values.to_string(), r#"{"blob":{"kind":1}}"#);
    assert_eq!(rows[1].values.to_string(), "{}");
    let rows = checked_rows(&batch, &Vec::new(), &Vec::new()).unwrap().unwrap();
    assert_eq!(rows.len(), 2);
    assert_eq!(rows[0].values.to_string(), "{}");
    let none = Batch { batch: described_batch().slice(0, 0) };
    assert!(checked_rows(&none, &vec![0], &Vec::new()).unwrap().unwrap().is_empty());
}

fn single(array: ArrayRef) -> Batch {
    let field = Field::new("x", array.data_type().clone(), true);
    let schema = Arc::new(Schema::new(vec![field]));
    Batch { batch: RecordBatch::try_new(schema, vec![array]).unwrap() }
}

fn first_value(array: ArrayRef) -> Option<Result<String, String>> {
    let rows = checked_rows(&single(array), &vec![0], &Vec::new())?;
    Some(rows.map(|rows| rows[0].values.to_string()))
}

#[test]
fn reports_rows_that_cannot_be_read() {
    let batch = Batch { batch: described_batch() };
    let error = checked_rows(&batch, &vec![0, 3], &Vec::new()).unwrap().unwrap_err();
    assert!(error.contains("project index 3 out of bounds"));
    let mut map = MapBuilder::new(None, Int32Builder::new(), Int32Builder::new());
    map.append(true).unwrap();
    let error = first_value(Arc::new(map.finish())).unwrap().unwrap_err();
    assert!(error.contains("Only UTF8 keys supported"));
    let beyond = TimestampSecondArray::from(vec![i64::MAX]).with_timezone("+00:00");
    assert!(first_value(Arc::new(beyond)).unwrap().is_err());
}

#[test]
fn knows_which_columns_can_be_written() {
    let keyed = |keys: Vec<Option<i32>>| -> ArrayRef {
        let keys = Int32Array::from(keys);
        Arc::new(DictionaryArray::<Int32Type>::new(keys, Arc::new(NullArray::new(1))))
    };
    assert_eq!(first_value(keyed(vec![Some(0)])), None);
    assert_eq!(first_value(keyed(vec![None])), Some(Ok("{}".to_string())));
    assert_eq!(first_value(Arc::new(NullArray::new(1))), Some(Ok("{}".to_string())));
    let texts: DictionaryArray<Int32Type> = vec!["a"].into_iter().collect();
    assert_eq!(first_value(Arc::new(texts)), Some(Ok(r#"{"x":"a"}"#.to_string())));

    let inner = |keys: Vec<Option<i32>>| {
        let texts: ArrayRef = Arc::new(StringArray::from(vec!["a"]));
        DictionaryArray::<Int32Type>::new(Int32Array::from(keys), texts)
    };
    let outer = |values: DictionaryArray<Int32Type>| -> ArrayRef {
        Arc::new(DictionaryArray::<Int32Type>::new(Int32Array::from(vec![0]), Arc::new(values)))
    };
    assert_eq!(first_value(outer(inner(vec![Some(0)]))), Some(Ok(r#"{"x":"a"}"#.to_string())));
    assert_eq!(first_value(outer(inner(vec![None]))), None);

    let seconds = |value: i64, zone: &str| {
        first_value(Arc::new(TimestampSecondArray::from(vec![value]).with_timezone(zone)))
    };
    assert_eq!(seconds(0, "+01:00"), Some(Ok(r#"{"x":"1970-01-01T01:00:00+01:00"}"#.to_string())));
    for zone in ["+23:59", "-23:59", "+00:00"] {
        assert!(seconds(FIRST_SECOND + DAY, zone).unwrap().is_ok());
        assert!(seconds(END_SECOND - DAY - 1, zone).unwrap().is_ok());
        assert!(seconds(FIRST_SECOND - 1, zone).unwrap().is_err());
        assert!(seconds(END_SECOND, zone).unwrap().is_err());
        assert_eq!(seconds(FIRST_SECOND, zone), None);
        assert_eq!(seconds(FIRST_SECOND + DAY - 1, zone), None);
        assert_eq!(seconds(END_SECOND - 1, zone), None);
        assert_eq!(seconds(END_SECOND - DAY, zone), None);
    }
    let last = TimestampMicrosecondArray::from(vec![END_SECOND * 1_000_000 - 1]);
    assert!(first_value(Arc::new(last.clone())).unwrap().is_ok());
    assert_eq!(first_value(Arc::new(last.with_timezone("+01:00"))), None);
    let members = Fields::from(vec![Field::new("y", keyed(vec![Some(0)]).data_type().clone(), true)]);
    let nested = StructArray::new(members, vec![keyed(vec![Some(0)])], None);
    assert_eq!(first_value(Arc::new(nested)), None);
}

#[test]
fn judges_columns_by_what_they_are_made_of() {
    let tree = |kind, children| ColumnTree { kind, children };
    let nulls = || tree(ColumnKind::Nulls, vec![]);
    let other = || tree(ColumnKind::Other, vec![]);
    assert!(is_writable(&nulls()));
    assert!(is_writable(&tree(ColumnKind::Runs, vec![other(), nulls()])));
    assert!(is_writable(&tree(ColumnKind::Dictionary(2, 1), vec![other()])));
    assert!(is_writable(&tree(ColumnKind::Dictionary(2, 2), vec![nulls()])));
    assert!(!is_writable(&tree(ColumnKind::Dictionary(2, 1), vec![nulls()])));
    let inner = |nulls| tree(ColumnKind::Dictionary(3, nulls), vec![other()]);
    assert!(is_writable(&inner(1)));
    assert!(is_writable(&tree(ColumnKind::Dictionary(2, 0), vec![inner(0)])));
    assert!(!is_writable(&tree(ColumnKind::Dictionary(2, 0), vec![inner(1)])));
    let runs = tree(ColumnKind::Runs, vec![other(), nulls()]);
    let keyed = tree(ColumnKind::Dictionary(2, 1), vec![runs]);
    assert!(!is_writable(&tree(ColumnKind::Other, vec![other(), keyed])));
    let zoned = |unit, value| tree(ColumnKind::Zoned(unit, vec![0, value]), vec![]);
    assert!(is_writable(&zoned(TimeUnit::Nanosecond, i64::MAX)));
    assert!(is_writable(&zoned(TimeUnit::Millisecond, i64::MIN)));
    assert!(!is_writable(&zoned(TimeUnit::Millisecond, FIRST_SECOND * 1_000)));
    assert!(!is_writable(&zoned(TimeUnit::Microsecond, END_SECOND * 1_000_000 - 1)));
}

#[test]
fn reads_checked_in_nested_multimodal_fixture_lazily() {
    let nested = BlobArray::Lists(vec![
        Some(BlobArray::Lists(vec![
            Some(BlobArray::Descriptors(vec![Some(false), Some(false)])),
            Some(BlobArray::Descriptors(vec![Some(false), Some(true)])),
        ])),
        None,
    ]);
    let single = || BlobArray::Descriptors(vec![Some(false), Some(true)]);
    let media = vec![
        MediaValues { name: "image".to_string(), array: single() },
        MediaValues { name: "nested_media".to_string(), array: nested },
    ];
    let rows = combine_rows(vec![1, 2], &media);
    assert_eq!(rows.len(), 2);
    assert_eq!(
        rows[0].media.get("nested_media").unwrap(),
        &vec![vec![0, 0], vec![0, 1], vec![1, 0]]
    );
    assert_eq!(rows[0].media.entries().len(), 2);
    assert!(rows[1].media.entries().is_empty());
}

#[test]
fn bounds_row_previews() {
    assert_eq!(lance_inspector::default_row_limit(), 20);
    assert_eq!(row_limit(None), 20);
    assert_eq!(row_limit(Some(0)), 1);
    assert_eq!(row_limit(Some(55)), 55);
    assert_eq!(row_limit(Some(1000)), 100);
}

fn strings(list: &[&str]) -> Vec<String> {
    list.iter().map(|text| text.to_string()).collect()
}

#[test]
fn finds_plain_values_in_scans() {
    let columns = strings(&["a", "blob", "b", "_rowaddr"]);
    assert_eq!(scan_indices(&strings(&["b", "gone", "a"]), &columns), vec![2, 0, 3]);
    assert_eq!(scan_indices(&strings(&["a"]), &strings(&["a"])), vec![0]);
}

fn projection(name: &str, id: i32) -> MediaProjection {
    MediaProjection {
        result_index: 1,
        column: MediaColumn { name: name.to_string(), source_field_id: id },
    }
}

#[test]
fn answers_with_columns_and_rows() {
    let columns = DatasetColumns {
        projection: strings(&["a", "blob"]),
        scalar: strings(&["a"]),
        media: vec![projection("blob", 4)],
    };
    let response = rows_response(3, 20, 99, columns, combine_rows(vec!['x'], &Vec::new()));
    assert_eq!((response.offset, response.limit, response.total), (3, 20, 99));
    assert_eq!(response.columns, vec!["a"]);
    assert_eq!(response.media_columns[0].source_field_id, 4);
    assert_eq!(response.rows[0].values, 'x');
    let columns = SqlColumns {
        scalar_indices: vec![0],
        scalar: strings(&["a"]),
        media_projections: vec![projection("preview", 8)],
    };
    let response = cursor_response(77, &columns);
    assert_eq!(response.cursor_id, 77);
    assert_eq!(response.columns, vec!["a"]);
    assert_eq!(response.media_columns[0].name, "preview");
}

/// A stream of batches, and the batch at hand.
struct Source {
    batches: Vec<Vec<i32>>,
    hand: Vec<i32>,
}

/// Reads one page of a query.
fn read_page(
    cursor: &mut QueryCursor<i32>,
    source: &mut Source,
    connection_id: u128,
    sequence: u64,
    now: u64,
) -> Result<SqlPageResponse<i32>, Option<RequestError>> {
    let page_size = match cursor.begin_page(connection_id, sequence, now) {
        PageRequest::Gone => return Err(None),
        PageRequest::Replay(page) => return Ok(page),
        PageRequest::OutOfOrder(error) => return Err(Some(error)),
        PageRequest::Read(size) => size,
    };
    let mut rows = Vec::new();
    loop {
        match cursor.next_step(rows.len(), page_size) {
            PageStep::Take(n) => rows.extend(source.hand.drain(..n)),
            PageStep::Fetch => {
                if source.batches.is_empty() {
                    cursor.stream_ended();
                } else {
                    source.hand = source.batches.remove(0);
                    cursor.batch_read(source.hand.len());
                }
            }
            PageStep::Finish => return Ok(cursor.finish_page(rows)),
        }
    }
}

fn check_cursor(page_rows: usize, total: i32) {
    let mut source = Source { batches: vec![(0..total).collect()], hand: Vec::new() };
    let mut cursor = QueryCursor::new(1, page_rows, 0);

    let first = read_page(&mut cursor, &mut source, 1, 0, 5).unwrap();
    let pending = cursor.pending;
    let retry = read_page(&mut cursor, &mut source, 1, 0, 6).unwrap();
    assert_eq!(first.rows, retry.rows);
    assert_eq!((first.sequence, first.done, first.truncated), (retry.sequence, retry.done, retry.truncated));
    assert_eq!(cursor.pending, pending);
    assert_eq!(first.rows.len(), page_rows);
    assert!(!first.done);

    let second = read_page(&mut cursor, &mut source, 1, 1, 7).unwrap();
    let last = read_page(&mut cursor, &mut source, 1, 2, 8).unwrap();
    assert_eq!(second.rows.len(), page_rows);
    assert_eq!(last.rows.len(), 5);
    assert!(last.done);
    assert!(!last.truncated);
    let values: Vec<i32> = [first, second, last].into_iter().flat_map(|page| page.rows).collect();
    assert_eq!(values, (0..total).collect::<Vec<_>>());
}

#[test]
fn api_sql_cursor_pages_once_and_retries_idempotently() {
    check_cursor(100, 205);
}

#[test]
fn query_sql_cursor_pages_once_and_retries_idempotently() {
    check_cursor(SQL_PAGE_ROWS, 45);
}

#[test]
fn cursors_take_batches_of_any_size() {
    let mut source = Source {
        batches: vec![vec![0, 1, 2], Vec::new(), vec![3], (4..30).collect(), Vec::new()],
        hand: Vec::new(),
    };
    let mut cursor = QueryCursor::new(1, 10, 0);
    let mut values = Vec::new();
    for sequence in 0.. {
        let page = read_page(&mut cursor, &mut source, 1, sequence, 0).unwrap();
        values.extend(page.rows);
        if page.done {
            break;
        }
    }
    assert_eq!(values, (0..30).collect::<Vec<_>>());
}

#[test]
fn cursors_end_at_the_cap() {
    let mut source = Source { batches: vec![(0..20_000).collect()], hand: Vec::new() };
    let mut cursor = QueryCursor::new(1, 3_000, 0);
    let mut count = 0;
    for sequence in 0..4 {
        let page = read_page(&mut cursor, &mut source, 1, sequence, 0).unwrap();
        count += page.rows.len();
        assert_eq!(page.truncated, sequence == 3);
        assert_eq!(page.done, sequence == 3);
    }
    assert_eq!(count, MAX_SQL_RESULT_ROWS);
    let beyond = read_page(&mut cursor, &mut source, 1, 4, 0).unwrap();
    assert!(beyond.rows.is_empty());
    assert!(beyond.done);
}

#[test]
fn cursors_refuse_strangers_latecomers_and_other_pages() {
    let mut source = Source { batches: vec![vec![1]], hand: Vec::new() };
    let mut cursor = QueryCursor::new(1, 10, 100);
    assert!(cursor.belongs_to(1));
    assert!(!cursor.belongs_to(2));
    assert!(matches!(read_page(&mut cursor, &mut source, 2, 0, 100), Err(None)));
    let error = read_page(&mut cursor, &mut source, 1, 3, 100).unwrap_err().unwrap();
    assert_eq!(error.message(), "expected SQL page sequence 0, received 3");
    assert!(matches!(
        read_page(&mut cursor, &mut source, 1, 0, 100 + QUERY_IDLE_TTL),
        Err(None)
    ));
    assert!(read_page(&mut cursor, &mut source, 1, 0, 99 + QUERY_IDLE_TTL).is_ok());
    let error = cursor.fail("broken batch");
    assert_eq!(error.message(), "SQL execution failed; rerun the query: broken batch");
    assert_eq!(ApiError::from_request(error).into_response().status, 422);
    assert!(cursor.done);
}
