//! What is in a snapshot of a dataset: its columns, indices and fragments.

use serde_json::Value;
use vstd::prelude::*;
use vstd::string::StringExecFns;

use crate::error::ApiError;
use crate::models::{
    DataFileView, DatasetInfo, DeletionView, FragmentView, IndexView, ManifestView, SchemaField,
};
use crate::names::{collect_map, mapped};
use crate::number::{decimal, write_decimal, write_large};
use crate::schema::{holds_blob, is_blob_field, Field};
use crate::text::{
    a_part_stands_between, case_is_ignored_letter_by_letter, chars_of, contains_text, has_part,
    is_word, lowered, same_text, to_lower,
};

verus! {

/// Deleted rows that a fragment lists at most.
pub const MAX_DELETION_OFFSETS: usize = 2_000;

/// A column, and how its type is written.
#[derive(Debug)]
pub struct ColumnSnapshot {
    pub field: Field,
    pub data_type: String,
}

/// Whether a column of this name holds blobs.
pub open spec fn is_media_name(columns: Seq<ColumnSnapshot>, name: Seq<char>) -> bool {
    exists|j: int|
        0 <= j < columns.len() && (#[trigger] columns[j]).field.name@ == name && holds_blob(
            columns[j].field,
        )
}

/// Whether `view` shows this column.
pub open spec fn is_column(view: SchemaField, column: ColumnSnapshot, media: bool) -> bool {
    &&& view.name == column.field.name
    &&& view.data_type == column.data_type
    &&& view.nullable == column.field.nullable
    &&& view.media == media
    &&& view.metadata.valid()
    &&& view.metadata@ == mapped(column.field.metadata@)
}

/// Whether `views` show these columns.
pub open spec fn are_columns(views: Seq<SchemaField>, columns: Seq<ColumnSnapshot>) -> bool {
    &&& views.len() == columns.len()
    &&& forall|i: int|
        0 <= i < columns.len() ==> is_column(
            #[trigger] views[i],
            columns[i],
            is_media_name(columns, columns[i].field.name@),
        )
}

fn has_media_name(columns: &Vec<ColumnSnapshot>, name: &str) -> (found: bool)
    ensures
        found == is_media_name(columns@, name@),
{
    let mut i: usize = 0;
    while i < columns.len()
        invariant
            i <= columns@.len(),
            forall|j: int|
                0 <= j < i ==> !((#[trigger] columns@[j]).field.name@ == name@ && holds_blob(
                    columns@[j].field,
                )),
        decreases columns@.len() - i,
    {
        if same_text(columns[i].field.name.as_str(), name) && is_blob_field(&columns[i].field) {
            return true;
        }
        i += 1;
    }
    false
}

/// The columns of a dataset, for a client.
pub fn schema_fields(columns: Vec<ColumnSnapshot>) -> (views: Vec<SchemaField>)
    ensures
        are_columns(views@, columns@),
{
    let ghost all = columns@;
    let mut media: Vec<bool> = Vec::new();
    let mut i: usize = 0;
    while i < columns.len()
        invariant
            i <= columns@.len(),
            all == columns@,
            media@.len() == i,
            forall|j: int|
                0 <= j < i ==> #[trigger] media@[j] == is_media_name(all, all[j].field.name@),
        decreases columns@.len() - i,
    {
        media.push(has_media_name(&columns, columns[i].field.name.as_str()));
        i += 1;
    }
    let mut views: Vec<SchemaField> = Vec::new();
    for column in it: columns
        invariant
            it.seq() == all,
            views@.len() == it.index(),
            media@.len() == all.len(),
            forall|j: int|
                0 <= j < all.len() ==> #[trigger] media@[j] == is_media_name(
                    all,
                    all[j].field.name@,
                ),
            forall|j: int|
                0 <= j < it.index() ==> is_column(
                    #[trigger] views@[j],
                    all[j],
                    is_media_name(all, all[j].field.name@),
                ),
    {
        let place: usize = views.len();
        views.push(
            SchemaField {
                name: column.field.name,
                data_type: column.data_type,
                nullable: column.field.nullable,
                media: media[place],
                metadata: collect_map(column.field.metadata),
            },
        );
    }
    views
}

/// An index, as the dataset describes it.
#[derive(Debug)]
pub struct IndexSnapshot {
    pub name: String,
    pub index_type: String,
    pub type_url: String,
    pub field_ids: Vec<u32>,
    pub rows_indexed: u64,
    pub segment_count: usize,
    pub total_size_bytes: Option<u64>,
    /// What else is known of the index, as JSON text.
    pub details: Option<String>,
}

/// Whether the first field of this number stands at `at`.
pub open spec fn is_field_at(fields: Seq<(i32, String)>, id: i32, at: int) -> bool {
    &&& 0 <= at < fields.len()
    &&& fields[at].0 == id
    &&& forall|j: int| 0 <= j < at ==> (#[trigger] fields[j]).0 != id
}

/// Whether `name` names the field of an index: by its name where it is known,
/// and by its number otherwise.
pub open spec fn is_index_field(name: Seq<char>, fields: Seq<(i32, String)>, id: u32) -> bool {
    ||| exists|at: int| #[trigger]
        is_field_at(fields, id as i32, at) && name == fields[at].1@
    ||| (forall|j: int| 0 <= j < fields.len() ==> (#[trigger] fields[j]).0 != id as i32) && name
        == "#"@ + decimal(id as nat)
}

fn index_field(fields: &Vec<(i32, String)>, id: u32) -> (name: String)
    ensures
        is_index_field(name@, fields@, id),
{
    let wanted: i32 = id as i32;
    let mut i: usize = 0;
    while i < fields.len()
        invariant
            i <= fields@.len(),
            wanted == id as i32,
            forall|j: int| 0 <= j < i ==> (#[trigger] fields@[j]).0 != wanted,
        decreases fields@.len() - i,
    {
        if fields[i].0 == wanted {
            assert(is_field_at(fields@, wanted, i as int));
            return fields[i].1.clone();
        }
        i += 1;
    }
    let mut name = String::new();
    name.append("#");
    name.append(write_decimal(id as u64).as_str());
    assert(name@ =~= "#"@ + decimal(id as nat));
    name
}

/// The value that a JSON text writes, where it writes one.
pub uninterp spec fn json_value(text: Seq<char>) -> Option<Value>;

/// `serde_json::from_str` reads the value that a JSON text writes. Which text
/// writes which value is left unsaid.
#[verifier::external_body]
fn read_value(text: &str) -> (value: Option<Value>)
    ensures
        value == json_value(text@),
{
    serde_json::from_str(text).ok()
}

/// Whether `view` shows this index of a dataset with these fields.
pub open spec fn is_index(
    view: IndexView,
    index: IndexSnapshot,
    fields: Seq<(i32, String)>,
) -> bool {
    &&& view.name == index.name
    &&& view.index_type == index.index_type
    &&& view.type_url == index.type_url
    &&& view.fields@.len() == index.field_ids@.len()
    &&& forall|i: int|
        0 <= i < index.field_ids@.len() ==> is_index_field(
            (#[trigger] view.fields@[i])@,
            fields,
            index.field_ids@[i],
        )
    &&& view.rows_indexed == index.rows_indexed
    &&& view.segment_count == index.segment_count
    &&& view.total_size_bytes == index.total_size_bytes
    &&& view.details == (match index.details {
        Some(text) => json_value(text@),
        None => None,
    })
}

/// An index of a dataset with these fields, for a client.
pub fn index_view(index: IndexSnapshot, fields: &Vec<(i32, String)>) -> (view: IndexView)
    ensures
        is_index(view, index, fields@),
{
    let mut names: Vec<String> = Vec::new();
    let mut i: usize = 0;
    while i < index.field_ids.len()
        invariant
            i <= index.field_ids@.len(),
            names@.len() == i,
            forall|j: int|
                0 <= j < i ==> is_index_field(
                    (#[trigger] names@[j])@,
                    fields@,
                    index.field_ids@[j],
                ),
        decreases index.field_ids@.len() - i,
    {
        names.push(index_field(fields, index.field_ids[i]));
        i += 1;
    }
    let details = match &index.details {
        Some(text) => read_value(text.as_str()),
        None => None,
    };
    IndexView {
        name: index.name,
        index_type: index.index_type,
        type_url: index.type_url,
        fields: names,
        rows_indexed: index.rows_indexed,
        segment_count: index.segment_count,
        total_size_bytes: index.total_size_bytes,
        details,
    }
}

/// A data file, as a fragment records it.
#[derive(Debug)]
pub struct DataFileSnapshot {
    pub path: String,
    pub fields: Vec<i32>,
    pub column_indices: Vec<i32>,
    pub major_version: u32,
    pub minor_version: u32,
    pub size_bytes: Option<u64>,
    pub base_id: Option<u32>,
}

/// Whether `view` shows this data file.
pub open spec fn is_data_file(view: DataFileView, file: DataFileSnapshot) -> bool {
    &&& view.path@ == "data/"@ + file.path@
    &&& view.fields == file.fields
    &&& view.column_indices == file.column_indices
    &&& view.format@ == decimal(file.major_version as nat) + "."@ + decimal(
        file.minor_version as nat,
    )
    &&& view.size_bytes == file.size_bytes
    &&& view.base_id == file.base_id
}

/// A data file, for a client.
pub fn data_file_view(file: DataFileSnapshot) -> (view: DataFileView)
    ensures
        is_data_file(view, file),
{
    let mut path = String::new();
    path.append("data/");
    path.append(file.path.as_str());
    assert(path@ =~= "data/"@ + file.path@);
    let mut format = String::new();
    format.append(write_decimal(file.major_version as u64).as_str());
    format.append(".");
    format.append(write_decimal(file.minor_version as u64).as_str());
    assert(format@ =~= decimal(file.major_version as nat) + "."@ + decimal(
        file.minor_version as nat,
    ));
    DataFileView {
        path,
        fields: file.fields,
        column_indices: file.column_indices,
        format,
        size_bytes: file.size_bytes,
        base_id: file.base_id,
    }
}

/// The rows that a deletion file deletes: how many, and the first of them.
#[derive(Debug)]
pub struct DeletedRows {
    pub count: usize,
    pub offsets: Vec<u32>,
}

/// A deletion file, as a fragment records it.
#[derive(Debug)]
pub struct DeletionSnapshot {
    /// The type of the file, as it is written.
    pub file_type: String,
    pub read_version: u64,
    pub id: u64,
    pub rows: Option<DeletedRows>,
}

impl DeletionSnapshot {
    /// How many rows are deleted.
    pub open spec fn count(&self) -> usize {
        match self.rows {
            Some(rows) => rows.count,
            None => 0,
        }
    }

    /// The deleted rows that are known.
    pub open spec fn offsets(&self) -> Seq<u32> {
        match self.rows {
            Some(rows) => rows.offsets@,
            None => Seq::empty(),
        }
    }
}

/// Where a deletion file stands: those that hold arrays are Arrow files.
pub open spec fn deletion_path(fragment: u64, deletion: DeletionSnapshot) -> Seq<char> {
    "_deletions/"@ + decimal(fragment as nat) + "-"@ + decimal(deletion.read_version as nat) + "-"@
        + decimal(deletion.id as nat) + "."@ + (if has_part(
        lowered(deletion.file_type@),
        "array"@,
    ) {
        "arrow"@
    } else {
        "bin"@
    })
}

/// Whether `view` shows the deleted rows of this fragment.
pub open spec fn is_deletion(view: DeletionView, fragment: u64, deletion: DeletionSnapshot) -> bool {
    let known = deletion.offsets();
    &&& view.path@ == deletion_path(fragment, deletion)
    &&& view.file_type == deletion.file_type
    &&& view.read_version == deletion.read_version
    &&& view.id == deletion.id
    &&& view.count == deletion.count()
    &&& view.offsets@ == (if deletion.count() > 0 {
        known.take(
            if known.len() <= MAX_DELETION_OFFSETS {
                known.len() as int
            } else {
                MAX_DELETION_OFFSETS as int
            },
        )
    } else {
        Seq::empty()
    })
    &&& view.offsets_truncated == (deletion.count() > MAX_DELETION_OFFSETS)
}

/// The deleted rows of a fragment, for a client. A long list is cut off.
pub fn deletion_view(fragment: u64, deletion: DeletionSnapshot) -> (view: DeletionView)
    ensures
        is_deletion(view, fragment, deletion),
{
    let kind = chars_of(deletion.file_type.as_str());
    let extension = if contains_text(to_lower(kind.as_slice()).as_slice(), "array") {
        "arrow"
    } else {
        "bin"
    };
    let mut path = String::new();
    path.append("_deletions/");
    path.append(write_decimal(fragment).as_str());
    path.append("-");
    path.append(write_decimal(deletion.read_version).as_str());
    path.append("-");
    path.append(write_decimal(deletion.id).as_str());
    path.append(".");
    path.append(extension);
    assert(path@ =~= deletion_path(fragment, deletion));
    let mut count: usize = 0;
    let mut offsets: Vec<u32> = Vec::new();
    if let Some(rows) = &deletion.rows {
        count = rows.count;
        if count > 0 {
            let ghost known = rows.offsets@;
            let mut i: usize = 0;
            while i < rows.offsets.len() && i < MAX_DELETION_OFFSETS
                invariant
                    i <= rows.offsets@.len(),
                    i <= MAX_DELETION_OFFSETS,
                    offsets@ == rows.offsets@.take(i as int),
                decreases rows.offsets@.len() - i,
            {
                offsets.push(rows.offsets[i]);
                assert(offsets@ =~= rows.offsets@.take(i + 1));
                i += 1;
            }
        }
    }
    DeletionView {
        path,
        file_type: deletion.file_type,
        read_version: deletion.read_version,
        id: deletion.id,
        count,
        offsets,
        offsets_truncated: count > MAX_DELETION_OFFSETS,
    }
}

/// A fragment, as a dataset records it.
#[derive(Debug)]
pub struct FragmentSnapshot {
    pub id: u64,
    pub physical_rows: usize,
    pub files: Vec<DataFileSnapshot>,
    pub deletion: Option<DeletionSnapshot>,
}

impl FragmentSnapshot {
    /// How many rows of the fragment are deleted.
    pub open spec fn deleted(&self) -> usize {
        match self.deletion {
            Some(deletion) => deletion.count(),
            None => 0,
        }
    }

    /// How many rows of the fragment can be seen.
    pub open spec fn visible(&self) -> nat {
        if self.deleted() <= self.physical_rows {
            (self.physical_rows - self.deleted()) as nat
        } else {
            0
        }
    }
}

/// Whether `view` shows this fragment.
pub open spec fn is_fragment(view: FragmentView, fragment: FragmentSnapshot) -> bool {
    &&& view.id == fragment.id
    &&& view.physical_rows == Some(fragment.physical_rows)
    &&& view.visible_rows matches Some(rows) && rows == fragment.visible()
    &&& view.files@.len() == fragment.files@.len()
    &&& forall|i: int|
        0 <= i < fragment.files@.len() ==> is_data_file(
            #[trigger] view.files@[i],
            fragment.files@[i],
        )
    &&& match (view.deletion, fragment.deletion) {
        (Some(shown), Some(deletion)) => is_deletion(shown, fragment.id, deletion),
        (None, None) => true,
        _ => false,
    }
}

/// What a client reads of a fragment with more rows deleted than it has.
pub open spec fn rows_fault(fragment: FragmentSnapshot) -> Seq<char> {
    "fragment "@ + decimal(fragment.id as nat) + " reports "@ + decimal(fragment.deleted() as nat)
        + " deleted rows but only "@ + decimal(fragment.physical_rows as nat) + " physical rows"@
}

/// A fragment, for a client. One with more rows deleted than it has is faulty.
pub fn fragment_view(fragment: FragmentSnapshot) -> (view: Result<FragmentView, ApiError>)
    ensures
        view is Ok <==> fragment.deleted() <= fragment.physical_rows,
        view matches Ok(shown) ==> is_fragment(shown, fragment),
        view matches Err(error) ==> error.is_plain(rows_fault(fragment)),
{
    let ghost given = fragment;
    let deleted: usize = match &fragment.deletion {
        Some(deletion) => match &deletion.rows {
            Some(rows) => rows.count,
            None => 0,
        },
        None => 0,
    };
    if deleted > fragment.physical_rows {
        let mut message = String::new();
        message.append("fragment ");
        message.append(write_decimal(fragment.id).as_str());
        message.append(" reports ");
        message.append(write_decimal(deleted as u64).as_str());
        message.append(" deleted rows but only ");
        message.append(write_decimal(fragment.physical_rows as u64).as_str());
        message.append(" physical rows");
        assert(message@ =~= rows_fault(fragment));
        return Err(ApiError::plain(message));
    }
    let visible: usize = fragment.physical_rows - deleted;
    let mut files: Vec<DataFileView> = Vec::new();
    let ghost all = fragment.files@;
    let id: u64 = fragment.id;
    for file in it: fragment.files
        invariant
            it.seq() == all,
            files@.len() == it.index(),
            forall|i: int| 0 <= i < it.index() ==> is_data_file(#[trigger] files@[i], all[i]),
    {
        files.push(data_file_view(file));
    }
    let deletion = match fragment.deletion {
        Some(deletion) => Some(deletion_view(id, deletion)),
        None => None,
    };
    Ok(
        FragmentView {
            id,
            physical_rows: Some(fragment.physical_rows),
            visible_rows: Some(visible),
            files,
            deletion,
        },
    )
}

/// How many rows of the fragments can be seen.
pub open spec fn visible_rows(fragments: Seq<FragmentSnapshot>) -> nat
    decreases fragments.len(),
{
    if fragments.len() == 0 {
        0
    } else {
        visible_rows(fragments.drop_last()) + fragments.last().visible()
    }
}

/// Fewer fragments have no more rows.
proof fn lemma_visible_rows_grow(fragments: Seq<FragmentSnapshot>, n: int)
    requires
        0 <= n <= fragments.len(),
    ensures
        visible_rows(fragments.take(n)) <= visible_rows(fragments),
    decreases fragments.len() - n,
{
    if n < fragments.len() {
        lemma_visible_rows_grow(fragments, n + 1);
        assert(fragments.take(n + 1).drop_last() =~= fragments.take(n));
    } else {
        assert(fragments.take(n) =~= fragments);
    }
}

/// The manifest of a dataset, as it is recorded.
#[derive(Debug)]
pub struct ManifestSnapshot {
    pub version: u64,
    pub branch: Option<String>,
    pub path: String,
    pub size: Option<u64>,
    pub writer_version: Option<String>,
    pub timestamp_nanos: u128,
    pub reader_feature_flags: u64,
    pub writer_feature_flags: u64,
    pub next_row_id: u64,
    pub max_fragment_id: Option<u32>,
    pub transaction_file: Option<String>,
    pub data_storage_format: String,
    pub config: Vec<(String, String)>,
    pub table_metadata: Vec<(String, String)>,
    pub base_paths: Vec<(String, String)>,
}

/// Whether `view` shows this manifest.
pub open spec fn is_manifest(view: ManifestView, manifest: ManifestSnapshot) -> bool {
    &&& view.version == manifest.version
    &&& view.path == manifest.path
    &&& view.size == manifest.size
    &&& view.writer_version == manifest.writer_version
    &&& view.timestamp_nanos@ == decimal(manifest.timestamp_nanos as nat)
    &&& view.reader_feature_flags == manifest.reader_feature_flags
    &&& view.writer_feature_flags == manifest.writer_feature_flags
    &&& view.next_row_id == manifest.next_row_id
    &&& view.max_fragment_id == manifest.max_fragment_id
    &&& view.transaction_file == manifest.transaction_file
    &&& view.data_storage_format == manifest.data_storage_format
    &&& view.config.valid() && view.config@ == mapped(manifest.config@)
    &&& view.table_metadata.valid() && view.table_metadata@ == mapped(manifest.table_metadata@)
    &&& view.base_paths.valid() && view.base_paths@ == mapped(manifest.base_paths@)
}

/// Everything that is shown of a dataset.
#[derive(Debug)]
pub struct DatasetSnapshot {
    pub columns: Vec<ColumnSnapshot>,
    pub indices: Vec<IndexSnapshot>,
    /// The numbers and the names of the dataset's fields.
    pub fields: Vec<(i32, String)>,
    pub fragments: Vec<FragmentSnapshot>,
    pub manifest: ManifestSnapshot,
}

/// Whether `info` shows this dataset.
pub open spec fn is_info(
    info: DatasetInfo,
    snapshot: DatasetSnapshot,
    uri: Seq<char>,
    reference: Seq<char>,
) -> bool {
    &&& info.uri@ == uri
    &&& info.reference@ == reference
    &&& info.version == snapshot.manifest.version
    &&& info.branch@ == crate::dataset::branch_name(snapshot.manifest.branch)
    &&& info.rows == visible_rows(snapshot.fragments@)
    &&& are_columns(info.schema@, snapshot.columns@)
    &&& info.indices@.len() == snapshot.indices@.len()
    &&& forall|i: int|
        0 <= i < snapshot.indices@.len() ==> is_index(
            #[trigger] info.indices@[i],
            snapshot.indices@[i],
            snapshot.fields@,
        )
    &&& is_manifest(info.manifest, snapshot.manifest)
    &&& info.fragments@.len() == snapshot.fragments@.len()
    &&& forall|i: int|
        0 <= i < snapshot.fragments@.len() ==> is_fragment(
            #[trigger] info.fragments@[i],
            snapshot.fragments@[i],
        )
}

/// Whether the first faulty fragment stands at `at`.
pub open spec fn is_first_faulty(fragments: Seq<FragmentSnapshot>, at: int) -> bool {
    &&& 0 <= at < fragments.len()
    &&& fragments[at].deleted() > fragments[at].physical_rows
    &&& forall|j: int|
        0 <= j < at ==> (#[trigger] fragments[j]).deleted() <= fragments[j].physical_rows
}

/// Everything that is shown of a dataset, for a client. The first fragment with
/// more rows deleted than it has is reported instead.
pub fn build_dataset_info(snapshot: DatasetSnapshot, uri: &str, reference: &str) -> (info: Result<
    DatasetInfo,
    ApiError,
>)
    requires
        visible_rows(snapshot.fragments@) <= usize::MAX,
    ensures
        (match info {
            Ok(shown) => {
                &&& forall|j: int|
                    0 <= j < snapshot.fragments@.len() ==> (
                    #[trigger] snapshot.fragments@[j]).deleted()
                        <= snapshot.fragments@[j].physical_rows
                &&& is_info(shown, snapshot, uri@, reference@)
            },
            Err(error) => exists|at: int| #[trigger]
                is_first_faulty(snapshot.fragments@, at) && error.is_plain(
                    rows_fault(snapshot.fragments@[at]),
                ),
        }),
{
    let schema = schema_fields(snapshot.columns);
    let ghost given = snapshot.indices@;
    let mut indices: Vec<IndexView> = Vec::new();
    for index in it: snapshot.indices
        invariant
            it.seq() == given,
            indices@.len() == it.index(),
            forall|i: int|
                0 <= i < it.index() ==> is_index(
                    #[trigger] indices@[i],
                    given[i],
                    snapshot.fields@,
                ),
    {
        indices.push(index_view(index, &snapshot.fields));
    }
    let ghost all = snapshot.fragments@;
    let mut fragments: Vec<FragmentView> = Vec::new();
    let mut rows: usize = 0;
    assert(all.take(0) =~= Seq::empty());
    for fragment in it: snapshot.fragments
        invariant
            it.seq() == all,
            all == snapshot.fragments@,
            visible_rows(all) <= usize::MAX,
            fragments@.len() == it.index(),
            rows == visible_rows(all.take(it.index())),
            forall|j: int|
                0 <= j < it.index() ==> (#[trigger] all[j]).deleted() <= all[j].physical_rows,
            forall|i: int|
                0 <= i < it.index() ==> is_fragment(#[trigger] fragments@[i], all[i]),
    {
        proof {
            lemma_visible_rows_grow(all, it.index() + 1);
            assert(all.take(it.index() + 1).drop_last() =~= all.take(it.index()));
        }
        match fragment_view(fragment) {
            Ok(view) => {
                if let Some(visible) = view.visible_rows {
                    rows = rows + visible;
                }
                fragments.push(view);
            },
            Err(error) => {
                assert(is_first_faulty(all, it.index()));
                return Err(error);
            },
        }
    }
    assert(all.take(all.len() as int) =~= all);
    let manifest = snapshot.manifest;
    let branch = match manifest.branch {
        Some(name) => name,
        None => "main".to_owned(),
    };
    Ok(
        DatasetInfo {
            uri: uri.to_owned(),
            reference: reference.to_owned(),
            version: manifest.version,
            branch,
            rows,
            schema,
            indices,
            manifest: ManifestView {
                version: manifest.version,
                path: manifest.path,
                size: manifest.size,
                writer_version: manifest.writer_version,
                timestamp_nanos: write_large(manifest.timestamp_nanos),
                reader_feature_flags: manifest.reader_feature_flags,
                writer_feature_flags: manifest.writer_feature_flags,
                next_row_id: manifest.next_row_id,
                max_fragment_id: manifest.max_fragment_id,
                transaction_file: manifest.transaction_file,
                data_storage_format: manifest.data_storage_format,
                config: collect_map(manifest.config),
                table_metadata: collect_map(manifest.table_metadata),
                base_paths: collect_map(manifest.base_paths),
            },
            fragments,
        },
    )
}

/// How many rows of the fragments are shown as visible.
pub open spec fn shown_rows(fragments: Seq<FragmentView>) -> nat
    decreases fragments.len(),
{
    if fragments.len() == 0 {
        0
    } else {
        shown_rows(fragments.drop_last()) + (match fragments.last().visible_rows {
            Some(rows) => rows as nat,
            None => 0,
        })
    }
}

proof fn lemma_shown_rows(views: Seq<FragmentView>, fragments: Seq<FragmentSnapshot>)
    requires
        views.len() == fragments.len(),
        forall|i: int| 0 <= i < views.len() ==> is_fragment(#[trigger] views[i], fragments[i]),
    ensures
        shown_rows(views) == visible_rows(fragments),
    decreases views.len(),
{
    if views.len() > 0 {
        let shorter = views.drop_last();
        assert forall|i: int| 0 <= i < shorter.len() implies is_fragment(
            #[trigger] shorter[i],
            fragments.drop_last()[i],
        ) by {
            assert(shorter[i] == views[i]);
        }
        lemma_shown_rows(shorter, fragments.drop_last());
        assert(is_fragment(views[views.len() - 1], fragments[views.len() - 1]));
    }
}

/// The rows that are shown of a dataset are the visible rows that are shown of
/// its fragments, together.
pub proof fn rows_are_those_of_the_fragments(
    info: DatasetInfo,
    snapshot: DatasetSnapshot,
    uri: Seq<char>,
    reference: Seq<char>,
)
    requires
        is_info(info, snapshot, uri, reference),
    ensures
        info.rows == shown_rows(info.fragments@),
{
    lemma_shown_rows(info.fragments@, snapshot.fragments@);
}

/// The sum of counts.
pub open spec fn sum(counts: Seq<nat>) -> nat {
    counts.fold_left(0nat, |total: nat, count: nat| total + count)
}

/// The rows that each fragment has, deleted ones and all.
pub open spec fn physical_counts(fragments: Seq<FragmentSnapshot>) -> Seq<nat> {
    fragments.map_values(|fragment: FragmentSnapshot| fragment.physical_rows as nat)
}

/// The rows that are deleted from each fragment.
pub open spec fn deleted_counts(fragments: Seq<FragmentSnapshot>) -> Seq<nat> {
    fragments.map_values(
        |fragment: FragmentSnapshot|
            match fragment.deletion {
                Some(deletion) => match deletion.rows {
                    Some(rows) => rows.count as nat,
                    None => 0,
                },
                None => 0,
            },
    )
}

proof fn lemma_rows_balance(fragments: Seq<FragmentSnapshot>)
    requires
        forall|j: int|
            0 <= j < fragments.len() ==> (#[trigger] fragments[j]).deleted()
                <= fragments[j].physical_rows,
    ensures
        visible_rows(fragments) + sum(deleted_counts(fragments)) == sum(physical_counts(fragments)),
    decreases fragments.len(),
{
    if fragments.len() > 0 {
        let before = fragments.drop_last();
        assert forall|j: int| 0 <= j < before.len() implies (#[trigger] before[j]).deleted()
            <= before[j].physical_rows by {
            assert(before[j] == fragments[j]);
        }
        lemma_rows_balance(before);
        assert(deleted_counts(fragments).drop_last() =~= deleted_counts(before));
        assert(physical_counts(fragments).drop_last() =~= physical_counts(before));
        let last = fragments[fragments.len() - 1];
        assert(deleted_counts(fragments).last() == last.deleted());
        assert(physical_counts(fragments).last() == last.physical_rows);
        assert(fragments.last() == last);
    }
}

/// The rows of a dataset and those that are deleted from its fragments are,
/// together, all rows that its fragments have.
pub proof fn rows_and_deleted_rows_are_all_rows(
    info: DatasetInfo,
    snapshot: DatasetSnapshot,
    uri: Seq<char>,
    reference: Seq<char>,
)
    requires
        is_info(info, snapshot, uri, reference),
        forall|j: int|
            0 <= j < snapshot.fragments@.len() ==> (#[trigger] snapshot.fragments@[j]).deleted()
                <= snapshot.fragments@[j].physical_rows,
    ensures
        info.rows + sum(deleted_counts(snapshot.fragments@)) == sum(
            physical_counts(snapshot.fragments@),
        ),
{
    lemma_rows_balance(snapshot.fragments@);
}

/// A fragment is shown with its own rows, with those of them that are not deleted,
/// and with its files in their order.
pub proof fn fragments_are_shown_as_recorded(view: FragmentView, fragment: FragmentSnapshot, i: int)
    requires
        is_fragment(view, fragment),
    ensures
        view.id == fragment.id,
        view.physical_rows == Some(fragment.physical_rows),
        fragment.deletion is None ==> view.deletion is None && view.visible_rows == Some(
            fragment.physical_rows,
        ),
        fragment.deletion matches Some(deletion) ==> {
            &&& view.deletion is Some
            &&& view.deletion->0.id == deletion.id
            &&& deletion.rows is None ==> view.visible_rows == Some(fragment.physical_rows)
                && view.deletion->0.count == 0
            &&& deletion.rows matches Some(rows) ==> view.deletion->0.count == rows.count && (
            rows.count <= fragment.physical_rows ==> view.visible_rows is Some
                && view.visible_rows->0 + rows.count == fragment.physical_rows)
        },
        view.files@.len() == fragment.files@.len(),
        0 <= i < fragment.files@.len() ==> view.files@[i].path@ == "data/"@
            + fragment.files@[i].path@,
{
    if 0 <= i < fragment.files@.len() {
        assert(is_data_file(view.files@[i], fragment.files@[i]));
    }
}

/// Of the deleted rows of a fragment the first two thousand are shown, in their
/// order, and whether there are more; none are shown where none are deleted.
pub proof fn the_first_deleted_rows_are_shown(
    view: DeletionView,
    fragment: u64,
    deletion: DeletionSnapshot,
    i: int,
)
    requires
        is_deletion(view, fragment, deletion),
    ensures
        view.file_type == deletion.file_type,
        view.read_version == deletion.read_version,
        view.id == deletion.id,
        deletion.rows is None ==> view.count == 0 && view.offsets@.len() == 0
            && !view.offsets_truncated,
        deletion.rows matches Some(rows) ==> {
            &&& view.count == rows.count
            &&& view.offsets_truncated <==> rows.count > 2_000
            &&& rows.count == 0 ==> view.offsets@.len() == 0
            &&& rows.count > 0 && rows.offsets@.len() <= 2_000 ==> view.offsets@ == rows.offsets@
            &&& rows.count > 0 && rows.offsets@.len() > 2_000 ==> view.offsets@.len() == 2_000
            &&& 0 <= i < view.offsets@.len() ==> view.offsets@[i] == rows.offsets@[i]
        },
{
    if let Some(rows) = deletion.rows {
        assert(rows.offsets@.take(rows.offsets@.len() as int) =~= rows.offsets@);
    }
}

/// A deletion file is named by its fragment, by the version that was read and by
/// its number. It is an Arrow file exactly where its type has the word `array` in
/// it, in any case.
pub proof fn deletion_files_are_named_by_their_type(
    fragment: u64,
    deletion: DeletionSnapshot,
    before: Seq<char>,
    word: Seq<char>,
    after: Seq<char>,
)
    requires
        deletion.file_type@ == before + word + after,
        is_word(word, "array"@),
    ensures
        deletion_path(fragment, deletion) == "_deletions/"@ + decimal(fragment as nat) + "-"@
            + decimal(deletion.read_version as nat) + "-"@ + decimal(deletion.id as nat) + "."@
            + "arrow"@,
{
    reveal_strlit("array");
    case_is_ignored_letter_by_letter(word, "array"@);
    assert(lowered("array"@) =~= "array"@);
    let kind = lowered(deletion.file_type@);
    assert(kind =~= lowered(before) + lowered(word) + lowered(after));
    a_part_stands_between(kind, "array"@);
    assert(kind == lowered(before) + "array"@ + lowered(after));
}

/// A deletion file of any other type is one of bits.
pub proof fn other_deletion_files_are_named_so(fragment: u64, deletion: DeletionSnapshot)
    requires
        forall|i: int|
            0 <= i <= deletion.file_type@.len() - 5 ==> !is_word(
                #[trigger] deletion.file_type@.subrange(i, i + 5),
                "array"@,
            ),
    ensures
        deletion_path(fragment, deletion) == "_deletions/"@ + decimal(fragment as nat) + "-"@
            + decimal(deletion.read_version as nat) + "-"@ + decimal(deletion.id as nat) + "."@
            + "bin"@,
{
    reveal_strlit("array");
    assert(lowered("array"@) =~= "array"@);
    let text = deletion.file_type@;
    let kind = lowered(text);
    assert(!has_part(kind, "array"@)) by {
        if has_part(kind, "array"@) {
            let i = choose|i: int|
                0 <= i <= kind.len() - "array"@.len() && #[trigger] kind.subrange(
                    i,
                    i + "array"@.len(),
                ) == "array"@;
            let word = text.subrange(i, i + 5);
            assert(lowered(word) =~= kind.subrange(i, i + 5));
            case_is_ignored_letter_by_letter(word, "array"@);
        }
    }
}

/// A data file is shown with its own fields and size, and with the version of its
/// format.
pub proof fn data_files_are_shown_as_recorded(view: DataFileView, file: DataFileSnapshot)
    requires
        is_data_file(view, file),
    ensures
        view.path@ == "data/"@ + file.path@,
        view.fields@ == file.fields@,
        view.column_indices@ == file.column_indices@,
        view.format@ == decimal(file.major_version as nat) + "."@ + decimal(
            file.minor_version as nat,
        ),
        view.size_bytes == file.size_bytes,
        view.base_id == file.base_id,
{
}

/// A column is shown as one of media exactly where a column of its name holds
/// blobs, and otherwise as it is recorded.
pub proof fn columns_are_shown_as_recorded(
    views: Seq<SchemaField>,
    columns: Seq<ColumnSnapshot>,
    i: int,
)
    requires
        are_columns(views, columns),
        0 <= i < columns.len(),
    ensures
        views.len() == columns.len(),
        views[i].name@ == columns[i].field.name@,
        views[i].data_type@ == columns[i].data_type@,
        views[i].nullable == columns[i].field.nullable,
        views[i].metadata@ == mapped(columns[i].field.metadata@),
        holds_blob(columns[i].field) ==> views[i].media,
        views[i].media <==> exists|j: int|
            0 <= j < columns.len() && (#[trigger] columns[j]).field.name@ == columns[i].field.name@
                && holds_blob(columns[j].field),
{
    assert(is_column(
        views[i],
        columns[i],
        is_media_name(columns, columns[i].field.name@),
    ));
}

/// An index is shown as it is described, and each of its fields by the name of the
/// first field of that number, or by the number itself where there is none.
pub proof fn indices_are_shown_as_described(
    view: IndexView,
    index: IndexSnapshot,
    fields: Seq<(i32, String)>,
    i: int,
    at: int,
)
    requires
        is_index(view, index, fields),
        0 <= i < index.field_ids@.len(),
    ensures
        view.name@ == index.name@,
        view.index_type@ == index.index_type@,
        view.type_url@ == index.type_url@,
        view.rows_indexed == index.rows_indexed,
        view.segment_count == index.segment_count,
        view.total_size_bytes == index.total_size_bytes,
        index.details is None ==> view.details is None,
        index.details matches Some(text) ==> view.details == json_value(text@),
        view.fields@.len() == index.field_ids@.len(),
        0 <= at < fields.len() && fields[at].0 == index.field_ids@[i] as i32 && (forall|j: int|
            0 <= j < at ==> (#[trigger] fields[j]).0 != index.field_ids@[i] as i32)
            ==> view.fields@[i]@ == fields[at].1@,
        (forall|j: int|
            0 <= j < fields.len() ==> (#[trigger] fields[j]).0 != index.field_ids@[i] as i32)
            ==> view.fields@[i]@ == "#"@ + decimal(index.field_ids@[i] as nat),
{
    let id = index.field_ids@[i];
    let name = view.fields@[i]@;
    assert(is_index_field(name, fields, id));
    if exists|found: int| #[trigger]
        is_field_at(fields, id as i32, found) && name == fields[found].1@ {
        let found = choose|found: int| #[trigger]
            is_field_at(fields, id as i32, found) && name == fields[found].1@;
        assert(fields[found].0 == id as i32);
        if 0 <= at < fields.len() && fields[at].0 == id as i32 && (forall|j: int|
            0 <= j < at ==> (#[trigger] fields[j]).0 != id as i32) {
            assert(found == at);
        }
    }
}

/// A manifest is shown as it is recorded.
pub proof fn manifests_are_shown_as_recorded(
    info: DatasetInfo,
    snapshot: DatasetSnapshot,
    uri: Seq<char>,
    reference: Seq<char>,
)
    requires
        is_info(info, snapshot, uri, reference),
    ensures
        info.uri@ == uri,
        info.reference@ == reference,
        info.version == snapshot.manifest.version,
        info.branch@ == (match snapshot.manifest.branch {
            Some(branch) => branch@,
            None => "main"@,
        }),
        info.fragments@.len() == snapshot.fragments@.len(),
        info.indices@.len() == snapshot.indices@.len(),
        info.schema@.len() == snapshot.columns@.len(),
        ({
            let shown = info.manifest;
            let manifest = snapshot.manifest;
            &&& shown.version == manifest.version
            &&& shown.path@ == manifest.path@
            &&& shown.size == manifest.size
            &&& shown.writer_version == manifest.writer_version
            &&& shown.timestamp_nanos@ == decimal(manifest.timestamp_nanos as nat)
            &&& shown.reader_feature_flags == manifest.reader_feature_flags
            &&& shown.writer_feature_flags == manifest.writer_feature_flags
            &&& shown.next_row_id == manifest.next_row_id
            &&& shown.max_fragment_id == manifest.max_fragment_id
            &&& shown.transaction_file == manifest.transaction_file
            &&& shown.data_storage_format@ == manifest.data_storage_format@
            &&& shown.config@ == mapped(manifest.config@)
            &&& shown.table_metadata@ == mapped(manifest.table_metadata@)
            &&& shown.base_paths@ == mapped(manifest.base_paths@)
        }),
{
}

/// The fragment that is reported as faulty is the first one with more rows deleted
/// than it has, and there is only one such.
pub proof fn the_first_faulty_fragment_is_reported(
    fragments: Seq<FragmentSnapshot>,
    one: int,
    other: int,
)
    requires
        is_first_faulty(fragments, one),
        is_first_faulty(fragments, other),
    ensures
        one == other,
        deleted_counts(fragments)[one] > physical_counts(fragments)[one],
        forall|j: int|
            0 <= j < one ==> #[trigger] deleted_counts(fragments)[j] <= physical_counts(
                fragments,
            )[j],
        rows_fault(fragments[one]) == "fragment "@ + decimal(fragments[one].id as nat)
            + " reports "@ + decimal(deleted_counts(fragments)[one]) + " deleted rows but only "@
            + decimal(physical_counts(fragments)[one]) + " physical rows"@,
{
    assert forall|j: int| 0 <= j < fragments.len() implies #[trigger] deleted_counts(fragments)[j]
        == fragments[j].deleted() && physical_counts(fragments)[j] == fragments[j].physical_rows by {}
    assert(deleted_counts(fragments)[one] == fragments[one].deleted());
    assert(deleted_counts(fragments)[other] == fragments[other].deleted());
    if one < other {
        assert(fragments[one].deleted() <= fragments[one].physical_rows);
    }
    if other < one {
        assert(fragments[other].deleted() <= fragments[other].physical_rows);
    }
}

} // verus!
