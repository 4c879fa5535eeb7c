use lance_inspector::blob::{
    detect_media_type, list_value, media_items, media_type_of, missing_column, parse_index_path,
    row_filter, BlobArray, DetectedFormat, FormatKind,
};
use lance_inspector::error::{ApiError, RequestError};
use lance_inspector::media::{
    find_blob, media_response, media_source, media_target, parse_range, plan_blob,
    read_blob_array_media, requested_media_type, MediaTarget, SourceField,
};
use lance_inspector::schema::{DataType, Field};

#[test]
fn detects_inline_media_types() {
    assert_eq!(detect_media_type(b"\xff\xd8\xff"), "image/jpeg");
    assert_eq!(detect_media_type(b"RIFF\0\0\0\0WAVEpayload"), "audio/vnd.wave");
    assert_eq!(
        detect_media_type(b"\0\0\0\x18ftypisom\0\0\0\0isomiso2"),
        "video/mp4"
    );
}

#[test]
fn serves_unknown_formats_as_bytes() {
    assert_eq!(detect_media_type(b"plain words"), "application/octet-stream");
    assert_eq!(detect_media_type(b""), "application/octet-stream");
    let format = |kind, mpeg4| DetectedFormat {
        kind,
        media_type: "found/type".to_string(),
        mpeg4,
    };
    assert_eq!(media_type_of(format(FormatKind::Image, false)), "found/type");
    assert_eq!(media_type_of(format(FormatKind::Audio, true)), "found/type");
    assert_eq!(media_type_of(format(FormatKind::Video, false)), "found/type");
    assert_eq!(media_type_of(format(FormatKind::Other, true)), "video/mp4");
    assert_eq!(
        media_type_of(format(FormatKind::Other, false)),
        "application/octet-stream"
    );
}

#[test]
fn parses_nested_blob_index_paths() {
    assert_eq!(parse_index_path(Some("2,4,1")).unwrap(), vec![2, 4, 1]);
    assert!(parse_index_path(Some("2,nope")).is_err());
    assert!(parse_index_path(None).is_err());
}

#[test]
fn explains_bad_index_paths() {
    let message = |error: ApiError| error.into_response().error;
    assert_eq!(
        message(parse_index_path(None).unwrap_err()),
        "blob array media requests require an index"
    );
    assert_eq!(
        message(parse_index_path(Some("2,no\"pe,x")).unwrap_err()),
        "invalid blob array index \"no\\\"pe\": invalid digit found in string"
    );
    assert_eq!(
        message(parse_index_path(Some("")).unwrap_err()),
        "invalid blob array index \"\": cannot parse integer from empty string"
    );
    assert_eq!(
        message(parse_index_path(Some("1,99999999999999999999")).unwrap_err()),
        "invalid blob array index \"99999999999999999999\": number too large to fit in target type"
    );
    assert_eq!(parse_index_path(Some("+3")).unwrap(), vec![3]);
}

#[test]
fn api_parses_http_byte_ranges() {
    assert_eq!(parse_range(Some(b"bytes=10-19"), 100).unwrap(), (10, 20, true));
    assert_eq!(parse_range(Some(b"bytes=90-"), 100).unwrap(), (90, 100, true));
    assert_eq!(parse_range(Some(b"bytes=-20"), 100).unwrap(), (80, 100, true));
    assert_eq!(parse_range(Some(b"bytes=-500"), 100).unwrap(), (0, 100, true));
    assert_eq!(parse_range(None, 100).unwrap(), (0, 100, false));
}

#[test]
fn media_parses_http_byte_ranges() {
    assert_eq!(parse_range(Some(b"bytes=10-19"), 100).unwrap(), (10, 20, true));
    assert_eq!(parse_range(Some(b"bytes=90-"), 100).unwrap(), (90, 100, true));
    assert_eq!(parse_range(Some(b"bytes=-20"), 100).unwrap(), (80, 100, true));
    assert_eq!(parse_range(Some(b"bytes=-500"), 100).unwrap(), (0, 100, true));
    assert_eq!(parse_range(None, 100).unwrap(), (0, 100, false));
}

#[test]
fn api_rejects_invalid_http_byte_ranges_with_416() {
    for value in ["items=0-1", "bytes=100-", "bytes=20-10", "bytes=-0"] {
        let error = parse_range(Some(value.as_bytes()), 100).unwrap_err();
        let response = ApiError::from_request(error).into_response();
        assert_eq!(response.status, 416);
        assert_eq!(response.content_range.as_deref(), Some("bytes */100"));
        assert_eq!(response.accept_ranges.as_deref(), Some("bytes"));
    }
}

#[test]
fn media_rejects_invalid_http_byte_ranges_with_416() {
    for value in ["items=0-1", "bytes=100-", "bytes=20-10", "bytes=-0"] {
        let error = parse_range(Some(value.as_bytes()), 100).unwrap_err();
        let response = ApiError::from_request(error).into_response();
        assert_eq!(response.status, 416);
        assert_eq!(response.content_range.as_deref(), Some("bytes */100"));
        assert_eq!(response.accept_ranges.as_deref(), Some("bytes"));
    }
}

#[test]
fn explains_invalid_byte_ranges() {
    let cases: [(&[u8], u64, &str); 9] = [
        (b"bytes=\xff-1", 100, "range header is not valid ASCII"),
        (b"items=0-1", 100, "unsupported range header"),
        (b"bytes=12", 100, "invalid range header"),
        (b"bytes=-x", 100, "invalid suffix range"),
        (b"bytes=-5", 0, "requested range is outside the blob"),
        (b"bytes=x-", 100, "invalid range start"),
        (b"bytes=100-", 100, "requested range is outside the blob"),
        (b"bytes=1-x", 100, "invalid range end"),
        (b"bytes=20-10", 100, "range end precedes range start"),
    ];
    for (header, size, reason) in cases {
        let error = parse_range(Some(header), size).unwrap_err();
        assert_eq!(error.message(), reason);
        assert!(matches!(error, RequestError::RangeNotSatisfiable { size: found, .. } if found == size));
    }
    assert_eq!(
        parse_range(Some(b"bytes=5-18446744073709551615"), 100).unwrap(),
        (5, 100, true)
    );
    assert_eq!(parse_range(None, 0).unwrap(), (0, 0, false));
}

#[test]
fn keeps_content_type_stable_across_ranges_and_head() {
    let first = media_response(vec![0; 10], "video/mp4", 0, 10, 100, true, false).unwrap();
    let later = media_response(vec![0; 10], "video/mp4", 50, 60, 100, true, true).unwrap();

    assert_eq!(first.content_type, "video/mp4");
    assert_eq!(later.content_type, "video/mp4");
    assert_eq!(later.content_length, "10");
    assert_eq!(later.status, 206);
}

#[test]
fn answers_with_ranges_and_lengths() {
    let part = media_response(vec![7; 3], "image/png", 1, 4, 8, true, false).unwrap();
    assert_eq!(part.content_range.as_deref(), Some("bytes 1-3/8"));
    assert_eq!(part.accept_ranges, "bytes");
    assert_eq!(part.content_length, "3");
    assert_eq!(part.body, vec![7; 3]);
    let whole = media_response(Vec::new(), "image/png", 0, 0, 0, false, false).unwrap();
    assert_eq!(whole.status, 200);
    assert!(whole.content_range.is_none());
    let bad = media_response(Vec::new(), "image/\n", 0, 0, 0, false, false).unwrap_err();
    assert_eq!(bad.context, "failed to parse header value");
}

fn images() -> BlobArray {
    BlobArray::Lists(vec![Some(BlobArray::Binaries(vec![
        Some(b"\x89PNG\r\n\x1a\n".to_vec()),
        None,
        Some(Vec::new()),
    ]))])
}

#[test]
fn serves_blob_array_items_with_backend_owned_mime() {
    let array = images();
    let item = |index: &str| match media_target(true, Some(index)).unwrap() {
        MediaTarget::Item(path) => path,
        MediaTarget::Blob => panic!("an index asks for an item"),
    };
    let response =
        read_blob_array_media(&array, "images", &item("0"), Some(b"bytes=1-3"), false).unwrap();
    assert_eq!(response.status, 206);
    assert_eq!(response.content_type, "image/png");
    assert_eq!(response.content_range.as_deref(), Some("bytes 1-3/8"));
    assert_eq!(response.body, b"PNG");
    assert!(read_blob_array_media(&array, "images", &item("1"), None, false).is_err());
    let empty = read_blob_array_media(&array, "images", &item("2"), None, true).unwrap();
    assert_eq!(empty.status, 200);
    assert_eq!(empty.content_length, "0");
}

#[test]
fn explains_missing_blobs() {
    let array = images();
    let message = |path: &[usize]| find_blob(&array, path, "images").unwrap_err().context;
    assert_eq!(message(&[3]), "blob index 3 is outside column images with 3 items");
    assert_eq!(message(&[1]), "blob array item 1 is null");
    assert_eq!(
        message(&[0, 0]),
        "column images does not contain the requested blob array depth"
    );
    let nested = BlobArray::Lists(vec![Some(BlobArray::Lists(vec![None]))]);
    assert_eq!(
        find_blob(&nested, &[0], "frames").unwrap_err().context,
        "blob array column frames did not materialize as binary values"
    );
    assert_eq!(
        list_value(&nested, 4, "frames").unwrap_err().context,
        "blob index 4 is outside column frames with 1 items"
    );
    assert_eq!(missing_column("c").context, "blob array column c was not returned");
    assert_eq!(row_filter(42), "_rowaddr = 42");
    let range = read_blob_array_media(&array, "images", &[0], Some(b"bytes=8-"), false).unwrap_err();
    assert_eq!(range.into_response().status, 416);
}

#[test]
fn targets_blobs_and_items() {
    assert!(matches!(media_target(false, None), Ok(MediaTarget::Blob)));
    assert_eq!(
        media_target(false, Some("0")).unwrap_err().context,
        "blob index is only valid for blob array columns"
    );
    assert_eq!(
        media_target(true, None).unwrap_err().context,
        "blob array media requests require an index"
    );
}

#[test]
fn plans_reads_of_blobs() {
    let plan = plan_blob(Some(b"bytes=2-5"), 100, false).unwrap();
    assert_eq!(plan.prefix_end(), 32);
    assert_eq!(plan.body_range(), Some((2, 6)));
    let answer = plan.answer(b"\xff\xd8\xff", vec![1, 2, 3, 4]).unwrap();
    assert_eq!(answer.content_type, "image/jpeg");
    assert_eq!(answer.content_range.as_deref(), Some("bytes 2-5/100"));
    let head = plan_blob(None, 5, true).unwrap();
    assert_eq!(head.prefix_end(), 5);
    assert_eq!(head.body_range(), None);
    let answer = head.answer(b"words", Vec::new()).unwrap();
    assert_eq!(answer.content_length, "5");
    assert!(plan_blob(Some(b"bytes=9-"), 5, false).is_err());
}

fn blob_field(name: &str) -> Field {
    Field {
        name: name.to_string(),
        data_type: DataType::LargeBinary,
        nullable: true,
        metadata: vec![("ARROW:extension:name".to_string(), "lance.blob.v2".to_string())],
    }
}

#[test]
fn finds_the_field_that_media_are_asked_for() {
    let plain = Field {
        name: "id".to_string(),
        data_type: DataType::Other,
        nullable: false,
        metadata: Vec::new(),
    };
    let list = Field {
        name: "frames".to_string(),
        data_type: DataType::List(Box::new(blob_field("item"))),
        nullable: true,
        metadata: Vec::new(),
    };
    let fields = vec![
        SourceField { id: 3, field: plain },
        SourceField { id: 5, field: blob_field("image") },
        SourceField { id: 7, field: list },
    ];
    assert_eq!(media_source(&fields, 5).unwrap(), (1, false));
    assert_eq!(media_source(&fields, 7).unwrap(), (2, true));
    assert_eq!(
        media_source(&fields, 3).unwrap_err().context,
        "column id is not a Lance blob column"
    );
    assert_eq!(media_source(&fields, -4).unwrap_err().context, "unknown source field id -4");
}

#[test]
fn serves_only_media_as_what_is_asked_for() {
    let served = |mime: &str| requested_media_type(Some(mime.to_string()));
    assert_eq!(served("image/png"), "image/png");
    assert_eq!(served("audio/ogg"), "audio/ogg");
    assert_eq!(served("video/mp4"), "video/mp4");
    assert_eq!(served("application/octet-stream"), "application/octet-stream");
    assert_eq!(served("text/html"), "application/octet-stream");
    assert_eq!(requested_media_type(None), "application/octet-stream");
}

#[test]
fn lists_the_blobs_of_a_row() {
    let described = BlobArray::Lists(vec![
        Some(BlobArray::Lists(vec![
            Some(BlobArray::Descriptors(vec![Some(false), Some(false)])),
            Some(BlobArray::Descriptors(vec![Some(false), None, Some(true)])),
            None,
        ])),
        None,
    ]);
    assert_eq!(media_items(&described, 0), vec![vec![0, 0], vec![0, 1], vec![1, 0]]);
    assert!(media_items(&described, 1).is_empty());
    assert!(media_items(&described, 2).is_empty());
    let loaded = BlobArray::Lists(vec![
        Some(BlobArray::Lists(vec![
            Some(BlobArray::Binaries(vec![Some(vec![1]), Some(vec![2])])),
            Some(BlobArray::Binaries(vec![Some(vec![3]), None, None])),
            None,
        ])),
        None,
    ]);
    for path in media_items(&described, 0) {
        assert!(find_blob(&loaded, &path, "nested_media").is_ok());
    }
    assert!(find_blob(&loaded, &[1, 1], "nested_media").is_err());
    let others = BlobArray::Others(vec![Some(()), None]);
    assert!(media_items(&others, 0).is_empty());
    assert_eq!(others.len(), 2);
    assert!(others.is_null(1));
}
