//! Columns of datasets and of query results: which hold media, and which
//! hold plain values.

use arrow_schema::{DataType as ArrowType, Field as ArrowField, Fields as ArrowFields};
use lance_core::datatypes::BlobV2Layout;
use vstd::prelude::*;
use vstd::string::StringExecFns;

use crate::models::{MediaColumn, MimeColumn};
use crate::names::{
    collected_names_are_those_of_the_entries, mapped, the_last_entry_of_a_name_is_kept, TextMap,
};
use crate::text::same_text;

verus! {

/// A column, or what stands in one.
#[derive(Debug)]
pub struct Field {
    pub name: String,
    pub data_type: DataType,
    pub nullable: bool,
    /// Key and value pairs, a later pair in place of an earlier one of its key.
    pub metadata: Vec<(String, String)>,
}

/// The type of a column, as far as it tells where media stand.
#[derive(Debug)]
pub enum DataType {
    UInt8,
    UInt32,
    UInt64,
    Utf8,
    LargeBinary,
    Struct(Vec<Field>),
    List(Box<Field>),
    LargeList(Box<Field>),
    FixedSizeList(Box<Field>, i32),
    /// Any other type.
    Other,
}

/// The type of a member of a structure, as far as blob layouts tell types
/// apart.
#[derive(Debug, Clone, Copy, PartialEq, Eq, Structural)]
pub enum MemberType {
    UInt8,
    UInt32,
    UInt64,
    Utf8,
    LargeBinary,
    Other,
}

/// A member of a structure.
#[derive(Debug)]
pub struct Member {
    pub name: String,
    pub kind: MemberType,
    pub nullable: bool,
}

/// The member type that a type is.
pub open spec fn member_type(data_type: DataType) -> MemberType {
    match data_type {
        DataType::UInt8 => MemberType::UInt8,
        DataType::UInt32 => MemberType::UInt32,
        DataType::UInt64 => MemberType::UInt64,
        DataType::Utf8 => MemberType::Utf8,
        DataType::LargeBinary => MemberType::LargeBinary,
        _ => MemberType::Other,
    }
}

/// Whether a member has this name and type.
pub open spec fn is_member(
    member: (Seq<char>, MemberType, bool),
    name: Seq<char>,
    kind: MemberType,
) -> bool {
    member.0 == name && member.1 == kind
}

/// Whether a member has this name and type and may be null.
pub open spec fn is_nullable_member(
    member: (Seq<char>, MemberType, bool),
    name: Seq<char>,
    kind: MemberType,
) -> bool {
    is_member(member, name, kind) && member.2
}

/// Blobs as they are written: bytes or an address, and maybe a range of what
/// stands there, whose members may be required.
pub open spec fn is_logical_layout(members: Seq<(Seq<char>, MemberType, bool)>) -> bool {
    &&& members.len() == 2 || members.len() == 4
    &&& is_nullable_member(members[0], "data"@, MemberType::LargeBinary)
    &&& is_nullable_member(members[1], "uri"@, MemberType::Utf8)
    &&& members.len() == 4 ==> {
        &&& is_member(members[2], "position"@, MemberType::UInt64)
        &&& is_member(members[3], "size"@, MemberType::UInt64)
    }
}

/// Blobs on their way into a file.
pub open spec fn is_prepared_layout(members: Seq<(Seq<char>, MemberType, bool)>) -> bool {
    &&& members.len() == 6
    &&& is_nullable_member(members[0], "kind"@, MemberType::UInt8)
    &&& is_nullable_member(members[1], "data"@, MemberType::LargeBinary)
    &&& is_nullable_member(members[2], "uri"@, MemberType::Utf8)
    &&& is_nullable_member(members[3], "blob_id"@, MemberType::UInt32)
    &&& is_nullable_member(members[4], "blob_size"@, MemberType::UInt64)
    &&& is_nullable_member(members[5], "position"@, MemberType::UInt64)
}

/// Descriptions of blobs that are stored.
pub open spec fn is_descriptor_layout(members: Seq<(Seq<char>, MemberType, bool)>) -> bool {
    &&& members.len() == 5
    &&& is_member(members[0], "kind"@, MemberType::UInt8)
    &&& is_member(members[1], "position"@, MemberType::UInt64)
    &&& is_member(members[2], "size"@, MemberType::UInt64)
    &&& is_member(members[3], "blob_id"@, MemberType::UInt32)
    &&& is_member(members[4], "blob_uri"@, MemberType::Utf8)
}

/// Whether the members of a structure are those of a blob.
pub open spec fn is_blob_layout(members: Seq<(Seq<char>, MemberType, bool)>) -> bool {
    is_logical_layout(members) || is_prepared_layout(members) || is_descriptor_layout(members)
}

/// What layouts are told by, of each member.
pub open spec fn member_views(members: Seq<Member>) -> Seq<(Seq<char>, MemberType, bool)> {
    members.map_values(|member: Member| (member.name@, member.kind, member.nullable))
}

/// What layouts are told by, of each field.
pub open spec fn field_views(fields: Seq<Field>) -> Seq<(Seq<char>, MemberType, bool)> {
    fields.map_values(|field: Field| (field.name@, member_type(field.data_type), field.nullable))
}

/// `BlobV2Layout::classify` tells the layout of a blob by the names, the types
/// and the order of the members, and by which of them may be null where the
/// layout asks for it; members of any other type than those of the layouts are
/// handed to it with the null type, which no layout has.
#[verifier::external_body]
fn has_blob_layout(members: &Vec<Member>) -> (found: bool)
    ensures
        found == is_blob_layout(member_views(members@)),
{
    let fields: ArrowFields = members.iter().map(|member| {
        let kind = match member.kind {
            MemberType::UInt8 => ArrowType::UInt8,
            MemberType::UInt32 => ArrowType::UInt32,
            MemberType::UInt64 => ArrowType::UInt64,
            MemberType::Utf8 => ArrowType::Utf8,
            MemberType::LargeBinary => ArrowType::LargeBinary,
            MemberType::Other => ArrowType::Null,
        };
        ArrowField::new(member.name.clone(), kind, member.nullable)
    }).collect();
    BlobV2Layout::classify(&fields).is_some()
}

/// Whether the metadata of a field say that it holds blobs.
pub open spec fn says_blob(field: Field) -> bool {
    let metadata = mapped(field.metadata@);
    &&& metadata.contains_key("ARROW:extension:name"@)
    &&& metadata["ARROW:extension:name"@]@ == "lance.blob.v2"@
}

/// Whether a field holds blobs, by its metadata or by its layout.
pub open spec fn holds_blob(field: Field) -> bool {
    says_blob(field) || (field.data_type matches DataType::Struct(members) && is_blob_layout(
        field_views(members@),
    ))
}

/// Whether a field holds lists of blobs, at any depth.
pub open spec fn holds_blob_array(field: Field) -> bool
    decreases field,
{
    match field.data_type {
        DataType::List(item) => holds_blob(*item) || holds_blob_array(*item),
        DataType::LargeList(item) => holds_blob(*item) || holds_blob_array(*item),
        DataType::FixedSizeList(item, _) => holds_blob(*item) || holds_blob_array(*item),
        _ => false,
    }
}

/// Whether the metadata of a field say that it holds blobs.
pub fn has_blob_extension(field: &Field) -> (found: bool)
    ensures
        found == says_blob(*field),
{
    let ghost all = field.metadata@;
    let ghost key = "ARROW:extension:name"@;
    let mut n: usize = field.metadata.len();
    assert(all.take(n as int) =~= all);
    while n > 0
        invariant
            n <= all.len(),
            all == field.metadata@,
            key == "ARROW:extension:name"@,
            mapped(all).contains_key(key) == mapped(all.take(n as int)).contains_key(key),
            mapped(all)[key] == mapped(all.take(n as int))[key],
        decreases n,
    {
        assert(all.take(n as int).drop_last() =~= all.take(n - 1));
        assert(all.take(n as int).last() == all[n - 1]);
        if same_text(field.metadata[n - 1].0.as_str(), "ARROW:extension:name") {
            return same_text(field.metadata[n - 1].1.as_str(), "lance.blob.v2");
        }
        n -= 1;
    }
    assert(all.take(0) =~= Seq::empty());
    false
}

/// Whether a field holds blobs.
pub fn is_blob_field(field: &Field) -> (found: bool)
    ensures
        found == holds_blob(*field),
{
    if has_blob_extension(field) {
        return true;
    }
    match &field.data_type {
        DataType::Struct(fields) => {
            let mut members: Vec<Member> = Vec::new();
            let mut i: usize = 0;
            while i < fields.len()
                invariant
                    i <= fields@.len(),
                    members@.len() == i,
                    forall|j: int|
                        0 <= j < i ==> #[trigger] member_views(members@)[j] == field_views(
                            fields@,
                        )[j],
                decreases fields@.len() - i,
            {
                let kind = match &fields[i].data_type {
                    DataType::UInt8 => MemberType::UInt8,
                    DataType::UInt32 => MemberType::UInt32,
                    DataType::UInt64 => MemberType::UInt64,
                    DataType::Utf8 => MemberType::Utf8,
                    DataType::LargeBinary => MemberType::LargeBinary,
                    _ => MemberType::Other,
                };
                let ghost before = member_views(members@);
                members.push(
                    Member { name: fields[i].name.clone(), kind, nullable: fields[i].nullable },
                );
                assert(member_views(members@).take(i as int) =~= before);
                assert forall|j: int| 0 <= j < i + 1 implies #[trigger] member_views(members@)[j]
                    == field_views(fields@)[j] by {
                    if j < i {
                        assert(member_views(members@)[j] == before[j]);
                    }
                }
                i += 1;
            }
            assert(member_views(members@) =~= field_views(fields@));
            has_blob_layout(&members)
        },
        _ => false,
    }
}

/// Whether a field holds lists of blobs, at any depth.
pub fn is_blob_array_field(field: &Field) -> (found: bool)
    ensures
        found == holds_blob_array(*field),
    decreases field,
{
    match &field.data_type {
        DataType::List(item) => is_blob_field(item) || is_blob_array_field(item),
        DataType::LargeList(item) => is_blob_field(item) || is_blob_array_field(item),
        DataType::FixedSizeList(item, _) => is_blob_field(item) || is_blob_array_field(item),
        _ => false,
    }
}

/// The places below `n` at which `chosen` holds, in order.
pub open spec fn places(n: nat, chosen: spec_fn(int) -> bool) -> Seq<int>
    decreases n,
{
    if n == 0 {
        Seq::empty()
    } else {
        let before = places((n - 1) as nat, chosen);
        if chosen(n - 1) {
            before.push(n - 1)
        } else {
            before
        }
    }
}

/// A column of media, and where it stands in the result.
#[derive(Debug)]
pub struct MediaProjection {
    pub result_index: usize,
    pub column: MediaColumn,
}

impl Clone for MediaProjection {
    fn clone(&self) -> (copy: Self)
        ensures
            copy == *self,
    {
        MediaProjection { result_index: self.result_index, column: self.column.clone() }
    }
}

/// The columns of a dataset: all, those of plain values, those of media.
#[derive(Debug)]
pub struct DatasetColumns {
    pub projection: Vec<String>,
    pub scalar: Vec<String>,
    pub media: Vec<MediaProjection>,
}

/// The columns of a query result: those of plain values, with their places,
/// and those of media.
#[derive(Debug)]
pub struct SqlColumns {
    pub scalar_indices: Vec<usize>,
    pub scalar: Vec<String>,
    pub media_projections: Vec<MediaProjection>,
}

/// Whether `list` are the names of the fields at these places.
pub open spec fn are_names_at(list: Seq<String>, fields: Seq<Field>, at: Seq<int>) -> bool {
    &&& list.len() == at.len()
    &&& forall|k: int| 0 <= k < at.len() ==> (#[trigger] list[k])@ == fields[at[k]].name@
}

/// Whether `list` are the numbers of these places.
pub open spec fn are_places(list: Seq<usize>, at: Seq<int>) -> bool {
    &&& list.len() == at.len()
    &&& forall|k: int| 0 <= k < at.len() ==> #[trigger] list[k] == at[k]
}

/// Whether `list` are the media columns at these places, each with the number
/// of the field it comes from.
pub open spec fn are_media_at(
    list: Seq<MediaProjection>,
    fields: Seq<Field>,
    at: Seq<int>,
    source: spec_fn(int) -> Seq<char>,
    ids: Map<Seq<char>, i32>,
) -> bool {
    &&& list.len() == at.len()
    &&& forall|k: int|
        0 <= k < at.len() ==> {
            &&& (#[trigger] list[k]).result_index == at[k]
            &&& list[k].column.name@ == fields[at[k]].name@
            &&& list[k].column.source_field_id == ids[source(at[k])]
        }
}

/// Holding blobs, or lists of them.
pub open spec fn media_field(fields: Seq<Field>) -> spec_fn(int) -> bool {
    |i: int| holds_blob(fields[i]) || holds_blob_array(fields[i])
}

/// Not holding.
pub open spec fn other(chosen: spec_fn(int) -> bool) -> spec_fn(int) -> bool {
    |i: int| !chosen(i)
}

/// The name of a field.
pub open spec fn own_name(fields: Seq<Field>) -> spec_fn(int) -> Seq<char> {
    |i: int| fields[i].name@
}

/// A column of media.
fn media_projection(field: &Field, source_field_id: i32, result_index: usize) -> (projection:
    MediaProjection)
    ensures
        projection.result_index == result_index,
        projection.column.name@ == field.name@,
        projection.column.source_field_id == source_field_id,
{
    MediaProjection {
        result_index,
        column: MediaColumn { name: field.name.clone(), source_field_id },
    }
}

/// Whether `columns` are those of a dataset with this schema, whose fields have
/// these numbers.
pub open spec fn are_dataset_columns(
    columns: DatasetColumns,
    schema: Seq<Field>,
    ids: Map<Seq<char>, i32>,
) -> bool {
    &&& columns.projection@.len() == schema.len()
    &&& forall|i: int|
        0 <= i < schema.len() ==> (#[trigger] columns.projection@[i])@ == schema[i].name@
    &&& are_names_at(columns.scalar@, schema, places(schema.len(), other(media_field(schema))))
    &&& are_media_at(
        columns.media@,
        schema,
        places(schema.len(), media_field(schema)),
        own_name(schema),
        ids,
    )
}

/// Sorts the columns of a dataset into those of plain values and those of
/// media.
pub fn dataset_columns(schema: &Vec<Field>, source_field_ids: &TextMap<i32>) -> (columns:
    DatasetColumns)
    requires
        source_field_ids.valid(),
        forall|i: int|
            0 <= i < schema@.len() && media_field(schema@)(i)
                ==> source_field_ids@.contains_key((#[trigger] schema@[i]).name@),
    ensures
        columns.projection@.len() == schema@.len(),
        forall|i: int|
            0 <= i < schema@.len() ==> (#[trigger] columns.projection@[i])@ == schema@[i].name@,
        are_names_at(
            columns.scalar@,
            schema@,
            places(schema@.len(), other(media_field(schema@))),
        ),
        are_media_at(
            columns.media@,
            schema@,
            places(schema@.len(), media_field(schema@)),
            own_name(schema@),
            source_field_ids@,
        ),
        are_dataset_columns(columns, schema@, source_field_ids@),
{
    let mut projection: Vec<String> = Vec::new();
    let mut scalar: Vec<String> = Vec::new();
    let mut media: Vec<MediaProjection> = Vec::new();
    let mut i: usize = 0;
    while i < schema.len()
        invariant
            i <= schema@.len(),
            source_field_ids.valid(),
            forall|i: int|
                0 <= i < schema@.len() && media_field(schema@)(i)
                    ==> source_field_ids@.contains_key((#[trigger] schema@[i]).name@),
            projection@.len() == i,
            forall|j: int| 0 <= j < i ==> (#[trigger] projection@[j])@ == schema@[j].name@,
            are_names_at(scalar@, schema@, places(i as nat, other(media_field(schema@)))),
            are_media_at(
                media@,
                schema@,
                places(i as nat, media_field(schema@)),
                own_name(schema@),
                source_field_ids@,
            ),
        decreases schema@.len() - i,
    {
        let field = &schema[i];
        projection.push(field.name.clone());
        if is_blob_field(field) || is_blob_array_field(field) {
            assert(media_field(schema@)(i as int));
            match source_field_ids.get(field.name.as_str()) {
                Some(id) => media.push(media_projection(field, *id, i)),
                None => {
                    assert(false);
                },
            }
        } else {
            scalar.push(field.name.clone());
        }
        i += 1;
    }
    DatasetColumns { projection, scalar, media }
}

/// The columns that are projected.
pub fn media_columns(media: &Vec<MediaProjection>) -> (columns: Vec<MediaColumn>)
    ensures
        columns@ == media@.map_values(|projection: MediaProjection| projection.column),
{
    let mut columns: Vec<MediaColumn> = Vec::new();
    let mut i: usize = 0;
    while i < media.len()
        invariant
            i <= media@.len(),
            columns@.len() == i,
            forall|j: int| 0 <= j < i ==> #[trigger] columns@[j] == media@[j].column,
        decreases media@.len() - i,
    {
        columns.push(media[i].column.clone());
        i += 1;
    }
    assert(columns@ =~= media@.map_values(|projection: MediaProjection| projection.column));
    columns
}

/// The place of the first field of this name.
pub open spec fn first_named(fields: Seq<Field>, name: Seq<char>) -> Option<int> {
    field_names(fields).index_of_first(name)
}

/// The names of the fields.
pub open spec fn field_names(fields: Seq<Field>) -> Seq<Seq<char>> {
    fields.map_values(|field: Field| field.name@)
}

/// The first field of this name.
pub fn field_with_name<'a>(fields: &'a Vec<Field>, name: &str) -> (found: Option<&'a Field>)
    ensures
        (match found {
            Some(field) => first_named(fields@, name@) is Some && *field == fields@[first_named(
                fields@,
                name@,
            )->0],
            None => first_named(fields@, name@) is None,
        }),
{
    let ghost all = field_names(fields@);
    proof {
        all.index_of_first_ensures(name@);
    }
    let mut i: usize = 0;
    while i < fields.len()
        invariant
            i <= fields@.len(),
            all == field_names(fields@),
            forall|j: int| 0 <= j < i ==> #[trigger] all[j] != name@,
            (match all.index_of_first(name@) {
                Some(index) => 0 <= index < all.len() && all[index] == name@ && (forall|j: int|
                    0 <= j < index ==> all[j] != name@),
                None => !all.contains(name@),
            }),
        decreases fields@.len() - i,
    {
        assert(all[i as int] == fields@[i as int].name@);
        if same_text(fields[i].name.as_str(), name) {
            assert(all.contains(name@));
            return Some(&fields[i]);
        }
        i += 1;
    }
    None
}

/// The name of the dataset's field that a column of a result comes from: the
/// one that the query names, or the column's own name.
pub open spec fn source_name(result: Seq<Field>, sources: Seq<Option<String>>) -> spec_fn(
    int,
) -> Seq<char> {
    |i: int|
        if i < sources.len() && sources[i] is Some {
            sources[i]->0@
        } else {
            result[i].name@
        }
}

/// Holding blobs, or lists of them, that come from a field of the dataset that
/// does so too.
pub open spec fn sql_media_field(
    result: Seq<Field>,
    dataset: Seq<Field>,
    sources: Seq<Option<String>>,
) -> spec_fn(int) -> bool {
    |i: int|
        match first_named(dataset, source_name(result, sources)(i)) {
            Some(at) => (holds_blob_array(result[i]) && holds_blob_array(dataset[at])) || (
            holds_blob(result[i]) && holds_blob(dataset[at])),
            None => false,
        }
}

/// Whether `columns` are those of a result with this schema, which comes of a
/// dataset with that schema by these sources.
pub open spec fn are_sql_columns(
    columns: SqlColumns,
    result: Seq<Field>,
    dataset: Seq<Field>,
    sources: Seq<Option<String>>,
    ids: Map<Seq<char>, i32>,
) -> bool {
    let chosen = sql_media_field(result, dataset, sources);
    &&& are_places(columns.scalar_indices@, places(result.len(), other(chosen)))
    &&& are_names_at(columns.scalar@, result, places(result.len(), other(chosen)))
    &&& are_media_at(
        columns.media_projections@,
        result,
        places(result.len(), chosen),
        source_name(result, sources),
        ids,
    )
}

/// Sorts the columns of a query result into those of plain values and those of
/// media. A column holds media where it and the dataset's field that it comes
/// from both do.
pub fn sql_columns(
    result_schema: &Vec<Field>,
    dataset_schema: &Vec<Field>,
    source_names: &Vec<Option<String>>,
    source_field_ids: &TextMap<i32>,
) -> (columns: SqlColumns)
    requires
        source_field_ids.valid(),
        forall|i: int|
            0 <= i < result_schema@.len() && #[trigger] sql_media_field(
                result_schema@,
                dataset_schema@,
                source_names@,
            )(i) ==> source_field_ids@.contains_key(source_name(result_schema@, source_names@)(i)),
    ensures
        are_places(
            columns.scalar_indices@,
            places(
                result_schema@.len(),
                other(sql_media_field(result_schema@, dataset_schema@, source_names@)),
            ),
        ),
        are_names_at(
            columns.scalar@,
            result_schema@,
            places(
                result_schema@.len(),
                other(sql_media_field(result_schema@, dataset_schema@, source_names@)),
            ),
        ),
        are_media_at(
            columns.media_projections@,
            result_schema@,
            places(
                result_schema@.len(),
                sql_media_field(result_schema@, dataset_schema@, source_names@),
            ),
            source_name(result_schema@, source_names@),
            source_field_ids@,
        ),
        are_sql_columns(
            columns,
            result_schema@,
            dataset_schema@,
            source_names@,
            source_field_ids@,
        ),
{
    let mut scalar_indices: Vec<usize> = Vec::new();
    let mut scalar: Vec<String> = Vec::new();
    let mut media_projections: Vec<MediaProjection> = Vec::new();
    let ghost chosen = sql_media_field(result_schema@, dataset_schema@, source_names@);
    let ghost source = source_name(result_schema@, source_names@);
    let mut i: usize = 0;
    while i < result_schema.len()
        invariant
            i <= result_schema@.len(),
            source_field_ids.valid(),
            forall|i: int|
                0 <= i < result_schema@.len() && #[trigger] chosen(i)
                    ==> source_field_ids@.contains_key(source(i)),
            chosen == sql_media_field(result_schema@, dataset_schema@, source_names@),
            source == source_name(result_schema@, source_names@),
            are_places(scalar_indices@, places(i as nat, other(chosen))),
            are_names_at(scalar@, result_schema@, places(i as nat, other(chosen))),
            are_media_at(
                media_projections@,
                result_schema@,
                places(i as nat, chosen),
                source,
                source_field_ids@,
            ),
        decreases result_schema@.len() - i,
    {
        let field = &result_schema[i];
        let mut name = field.name.as_str();
        if i < source_names.len() {
            if let Some(given) = &source_names[i] {
                name = given.as_str();
            }
        }
        assert(name@ == source(i as int));
        let media = match field_with_name(dataset_schema, name) {
            Some(origin) => (is_blob_array_field(field) && is_blob_array_field(origin)) || (
            is_blob_field(field) && is_blob_field(origin)),
            None => false,
        };
        assert(media == chosen(i as int));
        if media {
            match source_field_ids.get(name) {
                Some(id) => media_projections.push(media_projection(field, *id, i)),
                None => {
                    assert(false);
                },
            }
        } else {
            scalar_indices.push(i);
            scalar.push(field.name.clone());
        }
        i += 1;
    }
    SqlColumns { scalar_indices, scalar, media_projections }
}

/// Every place is chosen or is not, and stands in one of the two lists, once and
/// in ascending order.
pub proof fn columns_are_sorted_out(n: nat, chosen: spec_fn(int) -> bool)
    ensures
        places(n, chosen).len() + places(n, other(chosen)).len() == n,
        forall|i: int|
            0 <= i < n ==> (#[trigger] places(n, chosen).contains(i) <==> chosen(i)),
        forall|i: int|
            0 <= i < n ==> (#[trigger] places(n, other(chosen)).contains(i) <==> !chosen(i)),
        forall|a: int, b: int|
            0 <= a < b < places(n, chosen).len() ==> #[trigger] places(n, chosen)[a]
                < #[trigger] places(n, chosen)[b],
        forall|a: int, b: int|
            0 <= a < b < places(n, other(chosen)).len() ==> #[trigger] places(n, other(chosen))[a]
                < #[trigger] places(n, other(chosen))[b],
{
    lemma_places(n, chosen);
    lemma_places(n, other(chosen));
    lemma_places_add_up(n, chosen);
}

proof fn lemma_places_add_up(n: nat, chosen: spec_fn(int) -> bool)
    ensures
        places(n, chosen).len() + places(n, other(chosen)).len() == n,
    decreases n,
{
    if n > 0 {
        lemma_places_add_up((n - 1) as nat, chosen);
    }
}

proof fn lemma_places(n: nat, chosen: spec_fn(int) -> bool)
    ensures
        forall|k: int| 0 <= k < places(n, chosen).len() ==> 0 <= #[trigger] places(n, chosen)[k] < n,
        forall|i: int| 0 <= i < n ==> (#[trigger] places(n, chosen).contains(i) <==> chosen(i)),
        forall|a: int, b: int|
            0 <= a < b < places(n, chosen).len() ==> #[trigger] places(n, chosen)[a]
                < #[trigger] places(n, chosen)[b],
    decreases n,
{
    if n > 0 {
        let m = (n - 1) as nat;
        lemma_places(m, chosen);
        let before = places(m, chosen);
        let now = places(n, chosen);
        assert forall|i: int| 0 <= i < n implies (#[trigger] now.contains(i) <==> chosen(i)) by {
            if i < m {
                assert(before.contains(i) <==> chosen(i));
                if before.contains(i) {
                    let k = before.index_of(i);
                    assert(now[k] == i);
                }
                if now.contains(i) {
                    let k = now.index_of(i);
                    assert(before[k] == i);
                }
            } else {
                if chosen(i) {
                    assert(now[now.len() - 1] == i);
                } else if now.contains(i) {
                    let k = now.index_of(i);
                    assert(before[k] < m);
                }
            }
        }
    }
}

/// Whether a column of a result holds blobs, by its own metadata or by those of
/// the dataset's field of its name.
pub open spec fn says_sql_blob(field: Field, dataset: Seq<Field>) -> bool {
    says_blob(field) || (first_named(dataset, field.name@) matches Some(at) && says_blob(
        dataset[at],
    ))
}

/// Whether a column of a result holds blobs, by its own metadata or by those of
/// the dataset's field of its name.
pub fn is_sql_blob_field(field: &Field, dataset_schema: &Vec<Field>) -> (found: bool)
    ensures
        found == says_sql_blob(*field, dataset_schema@),
{
    has_blob_extension(field) || match field_with_name(dataset_schema, field.name.as_str()) {
        Some(origin) => has_blob_extension(origin),
        None => false,
    }
}

/// The name of the column that tells the types of the media in a column.
pub open spec fn mime_name(name: Seq<char>) -> Seq<char> {
    name + "_mime"@
}

/// Whether `list` are the media columns at these places, each with the column
/// that tells the types of its media where the schema has one.
pub open spec fn are_mime_columns_at(list: Seq<MimeColumn>, fields: Seq<Field>, at: Seq<int>) -> bool {
    &&& list.len() == at.len()
    &&& forall|k: int|
        0 <= k < at.len() ==> {
            let name = fields[at[k]].name@;
            &&& (#[trigger] list[k]).name@ == name
            &&& list[k].mime_column is Some <==> first_named(fields, mime_name(name)) is Some
            &&& list[k].mime_column matches Some(mime) ==> mime@ == mime_name(name)
        }
}

/// The columns of a schema: those of plain values, with their places, and those
/// of media, with the columns that tell their types.
#[derive(Debug)]
pub struct MimeColumns {
    pub scalar_indices: Vec<usize>,
    pub scalar: Vec<String>,
    pub media: Vec<MimeColumn>,
}

/// Holding blobs, by its own metadata or by those of the dataset's field of its
/// name.
pub open spec fn sql_blob_field(fields: Seq<Field>, dataset: Seq<Field>) -> spec_fn(int) -> bool {
    |i: int| says_sql_blob(fields[i], dataset)
}

/// Sorts the columns of a schema into those of plain values and those of media,
/// each of the latter with its companion column of media types.
pub fn mime_columns(schema: &Vec<Field>, dataset_schema: &Vec<Field>) -> (columns: MimeColumns)
    ensures
        are_places(
            columns.scalar_indices@,
            places(schema@.len(), other(sql_blob_field(schema@, dataset_schema@))),
        ),
        are_names_at(
            columns.scalar@,
            schema@,
            places(schema@.len(), other(sql_blob_field(schema@, dataset_schema@))),
        ),
        are_mime_columns_at(
            columns.media@,
            schema@,
            places(schema@.len(), sql_blob_field(schema@, dataset_schema@)),
        ),
{
    let mut scalar_indices: Vec<usize> = Vec::new();
    let mut scalar: Vec<String> = Vec::new();
    let mut media: Vec<MimeColumn> = Vec::new();
    let ghost chosen = sql_blob_field(schema@, dataset_schema@);
    let mut i: usize = 0;
    while i < schema.len()
        invariant
            i <= schema@.len(),
            chosen == sql_blob_field(schema@, dataset_schema@),
            are_places(scalar_indices@, places(i as nat, other(chosen))),
            are_names_at(scalar@, schema@, places(i as nat, other(chosen))),
            are_mime_columns_at(media@, schema@, places(i as nat, chosen)),
        decreases schema@.len() - i,
    {
        let field = &schema[i];
        if is_sql_blob_field(field, dataset_schema) {
            let mut companion = String::new();
            companion.append(field.name.as_str());
            companion.append("_mime");
            assert(companion@ =~= mime_name(field.name@));
            let mime_column = match field_with_name(schema, companion.as_str()) {
                Some(_) => Some(companion),
                None => None,
            };
            media.push(MimeColumn { name: field.name.clone(), mime_column });
        } else {
            scalar_indices.push(i);
            scalar.push(field.name.clone());
        }
        i += 1;
    }
    MimeColumns { scalar_indices, scalar, media }
}

/// The metadata of a field say that it holds blobs where the last entry of the
/// extension name has the name of the blob extension.
pub proof fn blobs_are_told_by_the_last_extension_name(field: Field)
    ensures
        says_blob(field) <==> exists|i: int|
            0 <= i < field.metadata@.len() && (#[trigger] field.metadata@[i]).0@
                == "ARROW:extension:name"@ && field.metadata@[i].1@ == "lance.blob.v2"@ && forall|
                j: int,
            |
                i < j < field.metadata@.len() ==> (#[trigger] field.metadata@[j]).0@
                    != "ARROW:extension:name"@,
{
    let all = field.metadata@;
    let key = "ARROW:extension:name"@;
    collected_names_are_those_of_the_entries(all, key);
    if says_blob(field) {
        lemma_last_named(all, all.len() as int, key);
        let i = choose|i: int|
            0 <= i < all.len() && (#[trigger] all[i]).0@ == key && forall|j: int|
                i < j < all.len() ==> (#[trigger] all[j]).0@ != key;
        the_last_entry_of_a_name_is_kept(all, i);
        assert(field.metadata@[i].0@ == key);
    }
    if exists|i: int|
        0 <= i < all.len() && (#[trigger] all[i]).0@ == key && all[i].1@ == "lance.blob.v2"@
            && forall|j: int| i < j < all.len() ==> (#[trigger] all[j]).0@ != key {
        let i = choose|i: int|
            0 <= i < all.len() && (#[trigger] all[i]).0@ == key && all[i].1@ == "lance.blob.v2"@
                && forall|j: int| i < j < all.len() ==> (#[trigger] all[j]).0@ != key;
        the_last_entry_of_a_name_is_kept(all, i);
    }
}

/// Where a name stands among the first `n` entries, it stands last somewhere.
proof fn lemma_last_named(all: Seq<(String, String)>, n: int, key: Seq<char>)
    requires
        0 <= n <= all.len(),
        exists|i: int| 0 <= i < n && (#[trigger] all[i]).0@ == key,
        forall|j: int| n <= j < all.len() ==> (#[trigger] all[j]).0@ != key,
    ensures
        exists|i: int|
            0 <= i < all.len() && (#[trigger] all[i]).0@ == key && forall|j: int|
                i < j < all.len() ==> (#[trigger] all[j]).0@ != key,
    decreases n,
{
    if all[n - 1].0@ == key {
        assert(forall|j: int| n - 1 < j < all.len() ==> (#[trigger] all[j]).0@ != key);
    } else {
        let i = choose|i: int| 0 <= i < n && (#[trigger] all[i]).0@ == key;
        assert(0 <= i < n - 1 && all[i].0@ == key);
        lemma_last_named(all, n - 1, key);
    }
}

/// A field holds blobs where its metadata say so, or where it is a structure with
/// the members of a blob.
pub proof fn blobs_are_told_by_name_or_layout(field: Field)
    ensures
        says_blob(field) ==> holds_blob(field),
        !says_blob(field) ==> (match field.data_type {
            DataType::Struct(members) => holds_blob(field) == is_blob_layout(field_views(members@)),
            _ => !holds_blob(field),
        }),
{
}

/// Whether `item` is what the lists of a field hold.
pub open spec fn is_list_item(item: Field, field: Field) -> bool {
    match field.data_type {
        DataType::List(inner) => *inner == item,
        DataType::LargeList(inner) => *inner == item,
        DataType::FixedSizeList(inner, _) => *inner == item,
        _ => false,
    }
}

/// Whether each field of a chain holds lists of the next one.
pub open spec fn nests(chain: Seq<Field>) -> bool {
    forall|i: int| 0 < i < chain.len() ==> is_list_item(#[trigger] chain[i], chain[i - 1])
}

proof fn lemma_nested_blobs(field: Field) -> (chain: Seq<Field>)
    requires
        holds_blob_array(field),
    ensures
        chain.len() > 1,
        chain[0] == field,
        nests(chain),
        holds_blob(chain.last()),
    decreases field,
{
    let item = match field.data_type {
        DataType::List(inner) => *inner,
        DataType::LargeList(inner) => *inner,
        DataType::FixedSizeList(inner, _) => *inner,
        _ => field,
    };
    if holds_blob(item) {
        let chain = seq![field, item];
        assert(chain.last() == item);
        chain
    } else {
        let rest = match field.data_type {
            DataType::List(inner) => lemma_nested_blobs(*inner),
            DataType::LargeList(inner) => lemma_nested_blobs(*inner),
            DataType::FixedSizeList(inner, _) => lemma_nested_blobs(*inner),
            _ => Seq::empty(),
        };
        let chain = seq![field] + rest;
        assert forall|i: int| 0 < i < chain.len() implies is_list_item(
            #[trigger] chain[i],
            chain[i - 1],
        ) by {
            if i > 1 {
                assert(chain[i] == rest[i - 1]);
                assert(chain[i - 1] == rest[i - 2]);
                assert(is_list_item(rest[i - 1], rest[i - 2]));
            } else {
                assert(chain[1] == rest[0]);
            }
        }
        assert(chain.last() == rest.last());
        chain
    }
}

proof fn lemma_nesting_holds(chain: Seq<Field>)
    requires
        chain.len() > 1,
        nests(chain),
        holds_blob(chain.last()),
    ensures
        holds_blob_array(chain[0]),
    decreases chain.len(),
{
    assert(is_list_item(chain[1], chain[0]));
    if chain.len() > 2 {
        let rest = chain.skip(1);
        assert forall|i: int| 0 < i < rest.len() implies is_list_item(
            #[trigger] rest[i],
            rest[i - 1],
        ) by {
            assert(rest[i] == chain[i + 1]);
            assert(rest[i - 1] == chain[i]);
            assert(is_list_item(chain[i + 1], chain[i]));
        }
        assert(rest.last() == chain.last());
        lemma_nesting_holds(rest);
    } else {
        assert(chain.last() == chain[1]);
    }
}

/// A field holds lists of blobs exactly where lists, one inside the other to any
/// depth and of any kind, lead from it to a field that holds blobs.
pub proof fn blob_lists_lead_to_blobs(field: Field)
    ensures
        holds_blob_array(field) <==> exists|chain: Seq<Field>|
            chain.len() > 1 && chain[0] == field && #[trigger] nests(chain) && holds_blob(
                chain.last(),
            ),
{
    if holds_blob_array(field) {
        let chain = lemma_nested_blobs(field);
        assert(nests(chain));
    }
    if exists|chain: Seq<Field>|
        chain.len() > 1 && chain[0] == field && #[trigger] nests(chain) && holds_blob(
            chain.last(),
        ) {
        let chain = choose|chain: Seq<Field>|
            chain.len() > 1 && chain[0] == field && #[trigger] nests(chain) && holds_blob(
                chain.last(),
            );
        lemma_nesting_holds(chain);
    }
}

/// Each chosen column is among the media columns, under its own name, at its own
/// place and with the number of the field that it comes from, and no other column
/// is; they stand in the order of their places.
pub proof fn media_columns_are_the_chosen_ones(
    list: Seq<MediaProjection>,
    fields: Seq<Field>,
    chosen: spec_fn(int) -> bool,
    source: spec_fn(int) -> Seq<char>,
    ids: Map<Seq<char>, i32>,
    i: int,
)
    requires
        are_media_at(list, fields, places(fields.len(), chosen), source, ids),
        0 <= i < fields.len(),
    ensures
        chosen(i) <==> exists|k: int| 0 <= k < list.len() && (#[trigger] list[k]).result_index == i,
        chosen(i) ==> exists|k: int|
            0 <= k < list.len() && (#[trigger] list[k]).result_index == i && list[k].column.name@
                == fields[i].name@ && list[k].column.source_field_id == ids[source(i)],
        forall|a: int, b: int|
            0 <= a < b < list.len() ==> (#[trigger] list[a]).result_index < (
            #[trigger] list[b]).result_index,
{
    let at = places(fields.len(), chosen);
    lemma_places(fields.len(), chosen);
    if chosen(i) {
        assert(at.contains(i));
        let k = at.index_of(i);
        assert(list[k].result_index == i);
    }
    if exists|k: int| 0 <= k < list.len() && (#[trigger] list[k]).result_index == i {
        let k = choose|k: int| 0 <= k < list.len() && (#[trigger] list[k]).result_index == i;
        assert(at[k] == i);
        assert(at.contains(i));
    }
    assert forall|a: int, b: int| 0 <= a < b < list.len() implies (#[trigger] list[a]).result_index
        < (#[trigger] list[b]).result_index by {
        assert(at[a] < at[b]);
    }
}

/// Each column that is not chosen is among the columns of plain values, under its
/// own name and at its own place, and no other column is.
pub proof fn scalar_columns_are_the_other_ones(
    indices: Seq<usize>,
    scalar: Seq<String>,
    fields: Seq<Field>,
    chosen: spec_fn(int) -> bool,
    i: int,
)
    requires
        are_places(indices, places(fields.len(), other(chosen))),
        are_names_at(scalar, fields, places(fields.len(), other(chosen))),
        0 <= i < fields.len(),
    ensures
        scalar.len() == indices.len(),
        !chosen(i) <==> exists|k: int| 0 <= k < indices.len() && #[trigger] indices[k] == i,
        !chosen(i) ==> exists|k: int|
            0 <= k < indices.len() && #[trigger] indices[k] == i && scalar[k]@ == fields[i].name@,
        forall|a: int, b: int|
            0 <= a < b < indices.len() ==> #[trigger] indices[a] < #[trigger] indices[b],
{
    let at = places(fields.len(), other(chosen));
    lemma_places(fields.len(), other(chosen));
    assert(other(chosen)(i) == !chosen(i));
    if !chosen(i) {
        assert(at.contains(i));
        let k = at.index_of(i);
        assert(indices[k] == i);
        assert(scalar[k]@ == fields[i].name@);
    }
    if exists|k: int| 0 <= k < indices.len() && #[trigger] indices[k] == i {
        let k = choose|k: int| 0 <= k < indices.len() && #[trigger] indices[k] == i;
        assert(at[k] == i);
        assert(at.contains(i));
    }
    assert forall|a: int, b: int| 0 <= a < b < indices.len() implies #[trigger] indices[a]
        < #[trigger] indices[b] by {
        assert(at[a] < at[b]);
    }
}

/// A column of a dataset holds media where it holds blobs or lists of them.
pub proof fn media_fields_hold_blobs(fields: Seq<Field>, i: int)
    ensures
        media_field(fields)(i) <==> holds_blob(fields[i]) || holds_blob_array(fields[i]),
        own_name(fields)(i) == fields[i].name@,
{
}

/// A column of a result comes from the column that the query names for it, and
/// from the one of its own name where it names none. It holds media exactly where
/// it and the first field of that name in the dataset both hold blobs, or both
/// hold lists of them.
pub proof fn results_hold_media_of_the_dataset(
    result: Seq<Field>,
    dataset: Seq<Field>,
    sources: Seq<Option<String>>,
    i: int,
    at: int,
)
    requires
        0 <= i < result.len(),
    ensures
        i < sources.len() && sources[i] is Some ==> source_name(result, sources)(i)
            == sources[i]->0@,
        i >= sources.len() || sources[i] is None ==> source_name(result, sources)(i)
            == result[i].name@,
        0 <= at < dataset.len() && dataset[at].name@ == source_name(result, sources)(i) && (forall|
            j: int,
        |
            0 <= j < at ==> (#[trigger] dataset[j]).name@ != source_name(result, sources)(i)) ==> (
        sql_media_field(result, dataset, sources)(i) <==> (holds_blob(result[i]) && holds_blob(
            dataset[at],
        )) || (holds_blob_array(result[i]) && holds_blob_array(dataset[at]))),
        (forall|j: int|
            0 <= j < dataset.len() ==> (#[trigger] dataset[j]).name@ != source_name(
                result,
                sources,
            )(i)) ==> !sql_media_field(result, dataset, sources)(i),
{
    let name = source_name(result, sources)(i);
    let names = field_names(dataset);
    names.index_of_first_ensures(name);
    assert forall|j: int| 0 <= j < dataset.len() implies #[trigger] names[j]
        == dataset[j].name@ by {}
    if 0 <= at < dataset.len() && dataset[at].name@ == name && (forall|j: int|
        0 <= j < at ==> (#[trigger] dataset[j]).name@ != name) {
        assert(names[at] == name);
        assert(names.contains(name));
        let found = names.index_of_first(name)->0;
        assert(found == at) by {
            if found < at {
                assert(names[found] == dataset[found].name@);
            }
        }
    }
    if forall|j: int| 0 <= j < dataset.len() ==> (#[trigger] dataset[j]).name@ != name {
        assert(!names.contains(name)) by {
            if names.contains(name) {
                let j = names.index_of(name);
                assert(names[j] == dataset[j].name@);
            }
        }
    }
}

/// A column of a result holds blobs, by its metadata, where those say so or where
/// those of the first field of its name in the dataset do.
pub proof fn results_hold_blobs_of_the_dataset(field: Field, dataset: Seq<Field>, at: int)
    ensures
        says_blob(field) ==> says_sql_blob(field, dataset),
        !says_blob(field) && 0 <= at < dataset.len() && dataset[at].name@ == field.name@ && (forall|
            j: int,
        |
            0 <= j < at ==> (#[trigger] dataset[j]).name@ != field.name@) ==> (says_sql_blob(
            field,
            dataset,
        ) <==> says_blob(dataset[at])),
        !says_blob(field) && (forall|j: int|
            0 <= j < dataset.len() ==> (#[trigger] dataset[j]).name@ != field.name@)
            ==> !says_sql_blob(field, dataset),
{
    let name = field.name@;
    let names = field_names(dataset);
    names.index_of_first_ensures(name);
    if 0 <= at < dataset.len() && dataset[at].name@ == name && (forall|j: int|
        0 <= j < at ==> (#[trigger] dataset[j]).name@ != name) {
        assert(names[at] == name);
        assert(names.contains(name));
        let found = names.index_of_first(name)->0;
        assert(found == at) by {
            if found < at {
                assert(names[found] == dataset[found].name@);
            }
        }
    }
    if forall|j: int| 0 <= j < dataset.len() ==> (#[trigger] dataset[j]).name@ != name {
        assert(!names.contains(name)) by {
            if names.contains(name) {
                let j = names.index_of(name);
                assert(names[j] == dataset[j].name@);
            }
        }
    }
}

/// A column of media names the column of their types where there is one, which has
/// its own name and an ending.
pub proof fn media_types_stand_beside_their_media(
    list: Seq<MimeColumn>,
    fields: Seq<Field>,
    at: Seq<int>,
    k: int,
)
    requires
        are_mime_columns_at(list, fields, at),
        0 <= k < at.len(),
    ensures
        list.len() == at.len(),
        list[k].name@ == fields[at[k]].name@,
        list[k].mime_column is Some <==> field_names(fields).contains(
            fields[at[k]].name@ + "_mime"@,
        ),
        list[k].mime_column matches Some(mime) ==> mime@ == fields[at[k]].name@ + "_mime"@,
{
    field_names(fields).index_of_first_ensures(fields[at[k]].name@ + "_mime"@);
    assert(list[k].name@ == fields[at[k]].name@);
}

/// The layout of a structure is told by the name, the type and the nullability of
/// each of its members, in their order.
pub proof fn members_are_told_by_name_type_and_nullability(fields: Seq<Field>, i: int)
    requires
        0 <= i < fields.len(),
    ensures
        field_views(fields).len() == fields.len(),
        field_views(fields)[i].0 == fields[i].name@,
        field_views(fields)[i].2 == fields[i].nullable,
        field_views(fields)[i].1 is UInt8 <==> fields[i].data_type is UInt8,
        field_views(fields)[i].1 is UInt32 <==> fields[i].data_type is UInt32,
        field_views(fields)[i].1 is UInt64 <==> fields[i].data_type is UInt64,
        field_views(fields)[i].1 is Utf8 <==> fields[i].data_type is Utf8,
        field_views(fields)[i].1 is LargeBinary <==> fields[i].data_type is LargeBinary,
{
}

/// The columns of a dataset are all read, in their order; each holds media or plain
/// values, and is named among the ones or the others, not among both.
pub proof fn dataset_columns_are_sorted_out(
    columns: DatasetColumns,
    schema: Seq<Field>,
    ids: Map<Seq<char>, i32>,
    i: int,
)
    requires
        are_dataset_columns(columns, schema, ids),
        0 <= i < schema.len(),
    ensures
        columns.projection@.len() == schema.len(),
        columns.projection@[i]@ == schema[i].name@,
        columns.scalar@.len() + columns.media@.len() == schema.len(),
        ({
            let media = holds_blob(schema[i]) || holds_blob_array(schema[i]);
            &&& media <==> exists|k: int|
                0 <= k < columns.media@.len() && (#[trigger] columns.media@[k]).result_index == i
            &&& media ==> exists|k: int|
                0 <= k < columns.media@.len() && (#[trigger] columns.media@[k]).result_index == i
                    && columns.media@[k].column.name@ == schema[i].name@
                    && columns.media@[k].column.source_field_id == ids[schema[i].name@]
            &&& !media ==> exists|k: int|
                0 <= k < columns.scalar@.len() && (#[trigger] columns.scalar@[k])@
                    == schema[i].name@
        }),
{
    let chosen = media_field(schema);
    media_columns_are_the_chosen_ones(columns.media@, schema, chosen, own_name(schema), ids, i);
    columns_are_sorted_out(schema.len(), chosen);
    media_fields_hold_blobs(schema, i);
    if !chosen(i) {
        let at = places(schema.len(), other(chosen));
        assert(at.contains(i));
        let k = at.index_of(i);
        assert(columns.scalar@[k]@ == schema[i].name@);
    }
}

/// The columns of a result hold media or plain values: each is among the ones or
/// the others, at its own place and under its own name.
pub proof fn result_columns_are_sorted_out(
    columns: SqlColumns,
    result: Seq<Field>,
    dataset: Seq<Field>,
    sources: Seq<Option<String>>,
    ids: Map<Seq<char>, i32>,
    i: int,
)
    requires
        are_sql_columns(columns, result, dataset, sources, ids),
        0 <= i < result.len(),
    ensures
        columns.scalar@.len() == columns.scalar_indices@.len(),
        columns.scalar@.len() + columns.media_projections@.len() == result.len(),
        sql_media_field(result, dataset, sources)(i) <==> exists|k: int|
            0 <= k < columns.media_projections@.len() && (
            #[trigger] columns.media_projections@[k]).result_index == i,
        sql_media_field(result, dataset, sources)(i) ==> exists|k: int|
            0 <= k < columns.media_projections@.len() && (
            #[trigger] columns.media_projections@[k]).result_index == i
                && columns.media_projections@[k].column.name@ == result[i].name@
                && columns.media_projections@[k].column.source_field_id == ids[source_name(
                result,
                sources,
            )(i)],
        !sql_media_field(result, dataset, sources)(i) ==> exists|k: int|
            0 <= k < columns.scalar_indices@.len() && #[trigger] columns.scalar_indices@[k] == i
                && columns.scalar@[k]@ == result[i].name@,
{
    let chosen = sql_media_field(result, dataset, sources);
    media_columns_are_the_chosen_ones(
        columns.media_projections@,
        result,
        chosen,
        source_name(result, sources),
        ids,
        i,
    );
    scalar_columns_are_the_other_ones(
        columns.scalar_indices@,
        columns.scalar@,
        result,
        chosen,
        i,
    );
    columns_are_sorted_out(result.len(), chosen);
}

} // verus!
