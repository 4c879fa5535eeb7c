use lance_inspector::error::{client_error_message, ApiError, RequestError};
use lance_inspector::names::{collect_map, comes_before, sort_by_name, TextMap};
use lance_inspector::number::{
    parse_u64, parse_usize, write_decimal, write_hex, write_large, write_signed, NumberFault,
};
use lance_inspector::profile::{error_response, svg_response, CpuProfileQuery};
use lance_inspector::text::{
    chars_of, contains_text, ends_with, find, rfind, same_ignoring_case, split, starts_with,
    strip_prefix, text_of, to_lower, trim,
};

#[test]
fn is_healthy() {
    assert_eq!(lance_inspector::health().status, "ok");
}

#[test]
fn says_context_and_cause_once() {
    assert_eq!(client_error_message("open", "missing"), "open: missing");
    assert_eq!(client_error_message("missing", "missing"), "missing");
}

#[test]
fn answers_each_failure_with_its_status() {
    let status = |error| ApiError::from_request(error).into_response().status;
    assert_eq!(status(RequestError::UnknownConnection(1)), 410);
    assert_eq!(status(RequestError::UnknownDiscovery(1)), 410);
    assert_eq!(status(RequestError::UnknownQueryCursor(1)), 404);
    assert_eq!(status(RequestError::InvalidRequest("x".to_string())), 400);
    assert_eq!(status(RequestError::QueryExecutionFailed("x".to_string())), 422);
    let range = RequestError::RangeNotSatisfiable { size: 7, message: "m".to_string() };
    assert_eq!(status(range), 416);
    let internal = ApiError::internal("reading", "broken").into_response();
    assert_eq!(internal.status, 500);
    assert_eq!(internal.error, "reading: broken");
    assert!(internal.content_range.is_none());
    let plain = ApiError::plain("broken".to_string()).into_response();
    assert_eq!(plain.error, "broken");
}

#[test]
fn writes_identifiers_with_hyphens() {
    let id = 0x0123_4567_89ab_cdef_0011_2233_4455_6677;
    assert_eq!(
        RequestError::UnknownConnection(id).message(),
        "connection 01234567-89ab-cdef-0011-223344556677 was not found or has expired; reconnect the dataset"
    );
}

#[test]
fn reads_numbers_strictly() {
    let read = |text: &str| parse_u64(&chars_of(text));
    assert_eq!(read("0"), Ok(0));
    assert_eq!(read("+12"), Ok(12));
    assert_eq!(read("007"), Ok(7));
    assert_eq!(read("18446744073709551615"), Ok(u64::MAX));
    assert_eq!(read("18446744073709551616"), Err(NumberFault::TooLarge));
    assert_eq!(read(""), Err(NumberFault::Empty));
    assert_eq!(read("+"), Err(NumberFault::InvalidDigit));
    assert_eq!(read("-1"), Err(NumberFault::InvalidDigit));
    assert_eq!(read("1 "), Err(NumberFault::InvalidDigit));
    assert_eq!(parse_usize(&chars_of("42")), Ok(42));
    for text in ["", "+", "x", "99999999999999999999999", "99999999999999999999999x", "5"] {
        let ours = read(text).map_err(|fault| fault.text().to_string());
        let theirs = text.parse::<u64>().map_err(|error| error.to_string());
        assert_eq!(ours, theirs);
    }
}

#[test]
fn writes_numbers() {
    for n in [0, 9, 10, 255, 65_536, u64::MAX] {
        assert_eq!(write_decimal(n), format!("{n}"));
        assert_eq!(write_hex(n, 8), format!("{n:08x}"));
        assert_eq!(parse_u64(&chars_of(&write_decimal(n))), Ok(n));
    }
    assert_eq!(write_hex(7, 2), "07");
    assert_eq!(write_signed(-120), "-120");
    assert_eq!(write_signed(i64::MIN), format!("{}", i64::MIN));
    assert_eq!(write_large(u128::MAX), format!("{}", u128::MAX));
}

#[test]
fn handles_text_by_characters() {
    let chars = chars_of(" a/b//c ");
    assert_eq!(text_of(trim(&chars)), "a/b//c");
    let pieces: Vec<String> = split(trim(&chars), '/').iter().map(|piece| text_of(piece)).collect();
    assert_eq!(pieces, vec!["a", "b", "", "c"]);
    assert_eq!(pieces.join("/"), "a/b//c");
    assert_eq!(find(&chars, '/'), Some(2));
    assert_eq!(rfind(&chars, '/'), Some(5));
    assert_eq!(find(&chars, 'x'), None);
    let word = chars_of("\u{c9}tude");
    assert_eq!(text_of(&to_lower(&word)), "\u{c9}tude");
    assert!(same_ignoring_case(&chars_of("MaIn"), "main"));
    assert!(starts_with(&word, "\u{c9}t"));
    assert!(ends_with(&word, "ude"));
    assert!(contains_text(&word, "tud"));
    assert!(!contains_text(&word, "dut"));
    assert_eq!(strip_prefix(&word, "\u{c9}").map(text_of), Some("tude".to_string()));
    assert!(strip_prefix(&word, "x").is_none());
}

#[test]
fn orders_texts_as_the_standard_library_does() {
    let texts = ["", "a", "ab", "b", "B", "\u{e9}", "z", "\u{10000}", "\u{ffff}"];
    for left in texts {
        for right in texts {
            assert_eq!(comes_before(left, right), left < right);
        }
    }
}

#[test]
fn maps_are_walked_in_order() {
    let mut map: TextMap<i32> = collect_map(vec![
        ("b".to_string(), 1),
        ("a".to_string(), 2),
        ("b".to_string(), 3),
    ]);
    map.insert("c".to_string(), 4);
    map.insert("a".to_string(), 5);
    let entries: Vec<_> = map.entries().iter().map(|(key, value)| (key.as_str(), *value)).collect();
    assert_eq!(entries, vec![("a", 5), ("b", 3), ("c", 4)]);
    assert_eq!(map.get("b"), Some(&3));
    assert_eq!(map.get("d"), None);
}

#[test]
fn sorting_keeps_the_order_of_equals() {
    let sorted = sort_by_name(vec![
        ("b".to_string(), 1),
        ("a".to_string(), 2),
        ("b".to_string(), 3),
        ("a".to_string(), 4),
    ]);
    let order: Vec<_> = sorted.iter().map(|(_, value)| *value).collect();
    assert_eq!(order, vec![2, 4, 1, 3]);
}

#[test]
fn bounds_profiles() {
    let bounds = |seconds, frequency| CpuProfileQuery { seconds, frequency }.bounds();
    assert_eq!(bounds(None, None), (10, 99));
    assert_eq!(bounds(Some(0), Some(-5)), (1, 1));
    assert_eq!(bounds(Some(500), Some(5_000)), (120, 1_000));
    assert_eq!(bounds(Some(30), Some(250)), (30, 250));
}

#[test]
fn answers_with_profiles() {
    let svg = svg_response(vec![1, 2], "cpu.svg");
    assert_eq!(svg.status, 200);
    assert_eq!(svg.content_type, "image/svg+xml");
    assert_eq!(svg.content_disposition.as_deref(), Some("inline; filename=\"cpu.svg\""));
    assert_eq!(svg.body, vec![1, 2]);
    let error = error_response(409, "busy");
    assert_eq!(error.status, 409);
    assert_eq!(error.content_type, "text/plain; charset=utf-8");
    assert_eq!(error.body, b"busy");
}
