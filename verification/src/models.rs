//! What clients are sent.

use serde_json::Value;
use vstd::prelude::*;

use crate::names::TextMap;

verus! {

#[verifier::external_type_specification]
#[verifier::external_body]
pub struct ExValue(Value);

/// A file of a dataset.
#[derive(Debug)]
pub struct FileEntry {
    pub path: String,
    pub size: u64,
    pub kind: &'static str,
    pub modified: String,
}

impl Clone for FileEntry {
    fn clone(&self) -> (copy: Self)
        ensures
            copy == *self,
    {
        FileEntry {
            path: self.path.clone(),
            size: self.size,
            kind: self.kind,
            modified: self.modified.clone(),
        }
    }
}

/// One page of the files of a dataset.
#[derive(Debug)]
pub struct FilesPage {
    pub entries: Vec<FileEntry>,
    /// Where the next page starts; `None` after the last page.
    pub next_offset: Option<usize>,
}

impl FilesPage {
    /// Whether two pages hold the same.
    pub open spec fn same(&self, other: FilesPage) -> bool {
        self.entries@ == other.entries@ && self.next_offset == other.next_offset
    }
}

impl Clone for FilesPage {
    fn clone(&self) -> (copy: Self)
        ensures
            self.same(copy),
    {
        let entries = self.entries.clone();
        assert(entries@ =~= self.entries@) by {
            assert forall|i: int| 0 <= i < entries@.len() implies entries@[i]
                == self.entries@[i] by {
                assert(cloned(self.entries@[i], entries@[i]));
            }
        }
        FilesPage { entries, next_offset: self.next_offset }
    }
}

/// The start of a file, as text or as a hexadecimal dump.
#[derive(Debug)]
pub struct FilePreview {
    pub path: String,
    pub size: usize,
    pub format: &'static str,
    pub content: String,
    pub truncated: bool,
}

/// A column of a result that holds media, and the field of the dataset that it
/// comes from.
#[derive(Debug)]
pub struct MediaColumn {
    pub name: String,
    pub source_field_id: i32,
}

impl Clone for MediaColumn {
    fn clone(&self) -> (copy: Self)
        ensures
            copy == *self,
    {
        MediaColumn { name: self.name.clone(), source_field_id: self.source_field_id }
    }
}

/// A column that holds media, and the column that tells their types, where
/// there is one.
#[derive(Debug)]
pub struct MimeColumn {
    pub name: String,
    pub mime_column: Option<String>,
}

/// A row: its plain values, and the paths of its blobs by column.
#[derive(Debug)]
pub struct RowView<T> {
    pub values: T,
    pub media: TextMap<Vec<Vec<usize>>>,
}

/// The answer to a request for rows.
#[derive(Debug)]
pub struct RowsResponse<T> {
    pub offset: usize,
    pub limit: usize,
    pub total: usize,
    pub columns: Vec<String>,
    pub media_columns: Vec<MediaColumn>,
    pub rows: Vec<RowView<T>>,
}

/// Whether the server is there.
#[derive(Debug)]
pub struct HealthResponse {
    pub status: &'static str,
}

/// A request for what there is of a dataset.
#[derive(Debug)]
pub struct DiscoverRequest {
    pub uri: String,
}

/// A request to open a dataset that was discovered.
#[derive(Debug)]
pub struct ConnectRequest {
    pub discovery_id: u128,
    pub reference: Option<String>,
}

/// The answer to a request to open a dataset.
#[derive(Debug)]
pub struct ConnectResponse {
    pub connection_id: u128,
    pub dataset: std::sync::Arc<DatasetInfo>,
}

/// A request that needs no more than a connection.
#[derive(Debug)]
pub struct ConnectionQuery {
    pub connection_id: u128,
}

/// A request for a page of files.
#[derive(Debug)]
pub struct FilesQuery {
    pub connection_id: u128,
    pub offset: usize,
    pub limit: Option<usize>,
}

/// A request for one file.
#[derive(Debug)]
pub struct FileQuery {
    pub connection_id: u128,
    pub path: String,
}

/// A request for rows.
#[derive(Debug)]
pub struct RowsQuery {
    pub connection_id: u128,
    pub offset: usize,
    pub limit: Option<usize>,
}

/// A query.
#[derive(Debug)]
pub struct SqlRequest {
    pub sql: String,
}

/// A request for a page of a query's rows.
#[derive(Debug)]
pub struct SqlPageQuery {
    pub connection_id: u128,
    pub sequence: u64,
}

/// A request for media.
#[derive(Debug)]
pub struct MediaQuery {
    pub connection_id: u128,
    pub index: Option<String>,
}

/// The answer to a query: where its rows can be had, and what they hold.
#[derive(Debug)]
pub struct SqlCursorResponse {
    pub cursor_id: u128,
    pub columns: Vec<String>,
    pub media_columns: Vec<MediaColumn>,
}

/// A snapshot of a dataset.
#[derive(Debug)]
pub struct DatasetInfo {
    pub uri: String,
    pub reference: String,
    pub version: u64,
    pub branch: String,
    pub rows: usize,
    pub schema: Vec<SchemaField>,
    pub indices: Vec<IndexView>,
    pub manifest: ManifestView,
    pub fragments: Vec<FragmentView>,
}

/// A column of a dataset.
#[derive(Debug)]
pub struct SchemaField {
    pub name: String,
    pub data_type: String,
    pub nullable: bool,
    pub media: bool,
    pub metadata: TextMap<String>,
}

/// An index of a dataset.
#[derive(Debug)]
pub struct IndexView {
    pub name: String,
    pub index_type: String,
    pub type_url: String,
    pub fields: Vec<String>,
    pub rows_indexed: u64,
    pub segment_count: usize,
    pub total_size_bytes: Option<u64>,
    pub details: Option<Value>,
}

/// The manifest of a dataset.
#[derive(Debug)]
pub struct ManifestView {
    pub version: u64,
    pub path: String,
    pub size: Option<u64>,
    pub writer_version: Option<String>,
    pub timestamp_nanos: String,
    pub reader_feature_flags: u64,
    pub writer_feature_flags: u64,
    pub next_row_id: u64,
    pub max_fragment_id: Option<u32>,
    pub transaction_file: Option<String>,
    pub data_storage_format: String,
    pub config: TextMap<String>,
    pub table_metadata: TextMap<String>,
    pub base_paths: TextMap<String>,
}

/// A fragment of a dataset.
#[derive(Debug)]
pub struct FragmentView {
    pub id: u64,
    pub physical_rows: Option<usize>,
    pub visible_rows: Option<usize>,
    pub files: Vec<DataFileView>,
    pub deletion: Option<DeletionView>,
}

/// A data file of a fragment.
#[derive(Debug)]
pub struct DataFileView {
    pub path: String,
    pub fields: Vec<i32>,
    pub column_indices: Vec<i32>,
    pub format: String,
    pub size_bytes: Option<u64>,
    pub base_id: Option<u32>,
}

/// The deleted rows of a fragment.
#[derive(Debug)]
pub struct DeletionView {
    pub path: String,
    pub file_type: String,
    pub read_version: u64,
    pub id: u64,
    pub count: usize,
    pub offsets: Vec<u32>,
    pub offsets_truncated: bool,
}

/// What there is of a dataset: its branches, with their versions, and its tags.
#[derive(Debug)]
pub struct ReferenceCatalog {
    pub discovery_id: u128,
    pub uri: String,
    pub branches: Vec<BranchHistory>,
    pub tags: Vec<TagView>,
}

/// A branch of a dataset.
#[derive(Debug)]
pub struct BranchHistory {
    pub name: String,
    pub parent_branch: Option<String>,
    pub parent_version: Option<u64>,
    pub versions: Vec<VersionView>,
}

/// A version of a branch.
#[derive(Debug)]
pub struct VersionView {
    pub version: u64,
    pub timestamp: Option<String>,
    pub total_rows: Option<u64>,
    pub tags: Vec<String>,
}

/// A tag of a dataset.
#[derive(Debug)]
pub struct TagView {
    pub name: String,
    pub branch: String,
    pub version: u64,
}

/// A copy of a page of files has its files, in their order, and leads where it
/// leads.
pub proof fn copies_of_pages_hold_the_same(page: FilesPage, copy: FilesPage, i: int)
    requires
        page.same(copy),
    ensures
        copy.entries@.len() == page.entries@.len(),
        0 <= i < page.entries@.len() ==> copy.entries@[i] == page.entries@[i],
        copy.next_offset == page.next_offset,
{
}

} // verus!
