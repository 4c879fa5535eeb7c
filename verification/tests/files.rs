use lance_inspector::error::RequestError;
use lance_inspector::files::{
    classify_file, file_entry, files_page_size, keep_unless_failed, list_files, may_start_listing,
    preview_file, preview_size, validate_relative_path, validated_dataset_path, write_dump,
    FileListing, FilesRequest, StoredObject,
};
use lance_inspector::models::{FileEntry, FilesPage};

#[test]
fn api_classifies_lance_internal_files() {
    assert_eq!(classify_file("_versions/2.manifest"), "manifest");
    assert_eq!(classify_file("data/part.lance"), "data");
    assert_eq!(classify_file("_deletions/0-1-2.arrow"), "deletion");
    assert_eq!(classify_file("_indices/index/file"), "index");
}

#[test]
fn files_classifies_lance_internal_files() {
    assert_eq!(classify_file("_versions/2.manifest"), "manifest");
    assert_eq!(classify_file("data/part.lance"), "data");
    assert_eq!(classify_file("_deletions/0-1-2.arrow"), "deletion");
    assert_eq!(classify_file("_indices/index/file"), "index");
}

#[test]
fn classifies_transactions_and_other_files() {
    assert_eq!(classify_file("_transactions/0-1.txn"), "transaction");
    assert_eq!(classify_file("notes.txt"), "file");
    assert_eq!(classify_file("a_deletions/file"), "file");
    assert_eq!(classify_file("_indices/x/part.lance"), "data");
    assert_eq!(classify_file(""), "file");
}

#[test]
fn api_rejects_paths_outside_dataset() {
    assert!(validate_relative_path("data/part.lance").is_ok());
    assert!(validate_relative_path("../secret").is_err());
    assert!(validate_relative_path("/etc/passwd").is_err());
    assert!(validate_relative_path("data//part.lance").is_err());
}

#[test]
fn files_rejects_paths_outside_dataset() {
    let join = |mut base: String, segment: &str| {
        if !base.is_empty() {
            base.push('/');
        }
        base.push_str(segment);
        base
    };
    assert_eq!(
        validated_dataset_path(String::new(), "data/part.lance", join).unwrap(),
        "data/part.lance"
    );
    assert!(validated_dataset_path(String::new(), "../secret", join).is_err());
    assert!(validated_dataset_path(String::new(), "/etc/passwd", join).is_err());
    assert!(validated_dataset_path(String::new(), "data//part.lance", join).is_err());
}

#[test]
fn rejects_other_paths_that_lead_elsewhere() {
    for path in ["", "/", "a/", "a/..", "a/../b", ".."] {
        let error = validate_relative_path(path).unwrap_err();
        assert_eq!(error.context, "invalid dataset-relative path");
        assert_eq!(error.into_response().status, 500);
    }
    assert!(validate_relative_path("a/...").is_ok());
    assert!(validate_relative_path(".hidden").is_ok());
}

#[test]
fn joins_segments_below_the_base() {
    let join = |base: String, segment: &str| format!("{base}/{segment}");
    assert_eq!(
        validated_dataset_path("root".to_string(), "a/b/c", join).unwrap(),
        "root/a/b/c"
    );
}

fn object(location: &str, size: u64) -> StoredObject {
    StoredObject {
        location: location.to_string(),
        size,
        modified: "now".to_string(),
    }
}

#[test]
fn names_files_within_their_dataset() {
    let entry = file_entry("bucket/set.lance//", object("bucket/set.lance/data/a.lance", 7)).unwrap();
    assert_eq!(entry.path, "data/a.lance");
    assert_eq!(entry.size, 7);
    assert_eq!(entry.kind, "data");
    assert_eq!(entry.modified, "now");
    assert!(file_entry("bucket/set", object("bucket/set/", 0)).is_none());
    assert_eq!(file_entry("bucket/set", object("/else/where", 1)).unwrap().path, "else/where");
}

#[test]
fn lists_files_by_path() {
    let files = list_files(
        "d",
        vec![object("d/b", 1), object("d", 2), object("d/a/z", 3), object("d/B", 4)],
    );
    let paths: Vec<_> = files.iter().map(|file| file.path.as_str()).collect();
    assert_eq!(paths, vec!["B", "a/z", "b"]);
    let sizes: Vec<_> = files.iter().map(|file| file.size).collect();
    assert_eq!(sizes, vec![4, 3, 1]);
}

#[test]
fn bounds_file_pages() {
    assert_eq!(files_page_size(None), 500);
    assert_eq!(files_page_size(Some(0)), 1);
    assert_eq!(files_page_size(Some(7)), 7);
    assert_eq!(files_page_size(Some(5000)), 1000);
}

#[test]
fn starts_listings_at_their_first_page() {
    assert!(may_start_listing(0).is_ok());
    let error = may_start_listing(3).unwrap_err();
    assert_eq!(error.message(), "the first file page must start at offset 0");
    assert!(matches!(error, RequestError::InvalidRequest(_)));
}

fn entry(index: u64) -> FileEntry {
    FileEntry {
        path: format!("data/{index}.lance"),
        size: index,
        kind: "data",
        modified: "now".to_string(),
    }
}

/// Reads one page, receiving files from the front of `stream`.
fn read_page(
    listing: &mut FileListing,
    stream: &mut Vec<FileEntry>,
    offset: usize,
    limit: usize,
) -> Result<FilesPage, RequestError> {
    match listing.begin_page(offset, limit) {
        FilesRequest::Replay(page) => Ok(page),
        FilesRequest::OutOfOrder(error) => Err(error),
        FilesRequest::Fill(mut draft) => {
            while draft.wants_more() {
                if stream.is_empty() {
                    draft.end();
                } else {
                    draft.receive(stream.remove(0));
                }
            }
            Ok(listing.finish_page(draft))
        }
    }
}

fn paths(page: &FilesPage) -> Vec<&str> {
    page.entries.iter().map(|entry| entry.path.as_str()).collect()
}

#[test]
fn file_listing_pages_once_and_retries_idempotently() {
    let mut stream: Vec<FileEntry> = (0..5).map(entry).collect();
    let mut listing = FileListing::new();

    let first = read_page(&mut listing, &mut stream, 0, 2).unwrap();
    assert_eq!(first.entries.len(), 2);
    assert_eq!(first.next_offset, Some(2));
    let retry = read_page(&mut listing, &mut stream, 0, 2).unwrap();
    assert_eq!(paths(&retry), paths(&first));

    let second = read_page(&mut listing, &mut stream, 2, 2).unwrap();
    assert_eq!(second.entries.len(), 2);
    assert_eq!(second.next_offset, Some(4));
    let last = read_page(&mut listing, &mut stream, 4, 2).unwrap();
    assert_eq!(last.entries.len(), 1);
    assert_eq!(last.next_offset, None);
    let error = read_page(&mut listing, &mut stream, 7, 2).unwrap_err();
    assert_eq!(error.message(), "expected file offset 5, received 7");
}

#[test]
fn file_pages_hold_every_file_once() {
    let mut stream: Vec<FileEntry> = (0..9).map(entry).collect();
    let mut listing = FileListing::new();
    let mut seen = Vec::new();
    let mut offset = 0;
    for limit in [3, 1, 2, 10] {
        let page = read_page(&mut listing, &mut stream, offset, limit).unwrap();
        seen.extend(page.entries.iter().map(|entry| entry.size));
        if let Some(next) = page.next_offset {
            offset = next;
        }
    }
    assert_eq!(seen, (0..9).collect::<Vec<_>>());
}

#[test]
fn gives_a_failed_listing_up() {
    let draft = match FileListing::new().begin_page(0, 5) {
        FilesRequest::Fill(draft) => draft,
        _ => panic!("the first page is filled"),
    };
    let failed = Err(draft.fail("gone"));
    let mut listing = Some(FileListing::new());
    keep_unless_failed(&mut listing, &failed);
    assert!(listing.is_none());
    assert_eq!(failed.unwrap_err().context, "failed to list dataset files: gone");

    let mut kept = Some(FileListing::new());
    keep_unless_failed(&mut kept, &Ok(FilesPage { entries: Vec::new(), next_offset: None }));
    assert!(kept.is_some());
}

#[test]
fn previews_text_as_it_is() {
    let preview = preview_file("notes.txt", 7, "h\u{e9}llo\n".as_bytes());
    assert_eq!(preview.path, "notes.txt");
    assert_eq!(preview.size, 7);
    assert_eq!(preview.format, "text");
    assert_eq!(preview.content, "h\u{e9}llo\n");
    assert!(!preview.truncated);
}

#[test]
fn previews_other_bytes_as_a_dump() {
    let mut bytes: Vec<u8> = (0..18).collect();
    bytes[0] = 0xff;
    let preview = preview_file("part.lance", 70_000, &bytes);
    assert_eq!(preview.format, "hex");
    assert_eq!(
        preview.content,
        "00000000  ff 01 02 03 04 05 06 07 08 09 0a 0b 0c 0d 0e 0f\n00000010  10 11"
    );
    assert!(preview.truncated);
    assert_eq!(write_dump(&[]), "");
}

#[test]
fn bounds_previews() {
    assert_eq!(preview_size(10), 10);
    assert_eq!(preview_size(65_536), 65_536);
    assert_eq!(preview_size(65_537), 65_536);
}
