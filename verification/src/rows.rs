//! Rows for clients: plain values, and where their media stand.

use serde_json::Value;
use vstd::prelude::*;

use crate::batch::{
    all_can_be_written, are_places_of, batch_columns, batch_json, can_be_written, can_write_rows,
    column_shape, columns_at, project, projection, rows_can_be_written, write_batch, Batch,
};
use crate::blob::{
    items_at, leads_to_blob, media_items, media_items_are_the_blobs, media_items_ascend, paths,
    paths_ascend, BlobArray,
};
use crate::default_row_limit;
use crate::models::{RowView, RowsResponse};
use crate::names::TextMap;
use crate::schema::DatasetColumns;
use crate::text::{same_text, texts};

verus! {

/// Rows of a preview whose request omits its limit.
pub const DEFAULT_ROW_LIMIT: usize = 20;

/// Rows of a preview at most.
pub const MAX_ROWS: usize = 100;

/// The number of rows of a preview, by the limit that was asked for: at least
/// one, and no more than the maximum.
pub open spec fn row_limit_of(limit: Option<usize>) -> usize {
    let wanted = match limit {
        Some(n) => n,
        None => DEFAULT_ROW_LIMIT,
    };
    if wanted < 1 {
        1
    } else if wanted > MAX_ROWS {
        MAX_ROWS
    } else {
        wanted
    }
}

/// The number of rows of a preview, by the limit that was asked for.
pub fn row_limit(limit: Option<usize>) -> (rows: usize)
    ensures
        rows == row_limit_of(limit),
        1 <= rows <= MAX_ROWS,
{
    let wanted: usize = match limit {
        Some(n) => n,
        None => default_row_limit(),
    };
    if wanted < 1 {
        1
    } else if wanted > MAX_ROWS {
        MAX_ROWS
    } else {
        wanted
    }
}

/// Where a column stands first among `columns`.
fn place_of_column(columns: &Vec<String>, name: &str) -> (place: Option<usize>)
    ensures
        (match place {
            Some(i) => texts(columns@).index_of_first(name@) == Some(i as int),
            None => texts(columns@).index_of_first(name@) is None,
        }),
{
    let ghost all = texts(columns@);
    proof {
        all.index_of_first_ensures(name@);
    }
    let mut i: usize = 0;
    while i < columns.len()
        invariant
            i <= columns@.len(),
            all == texts(columns@),
            forall|j: int| 0 <= j < i ==> #[trigger] all[j] != name@,
            (match all.index_of_first(name@) {
                Some(index) => 0 <= index < all.len() && all[index] == name@ && (forall|j: int|
                    0 <= j < index ==> all[j] != name@),
                None => !all.contains(name@),
            }),
        decreases columns@.len() - i,
    {
        assert(all[i as int] == columns@[i as int]@);
        if same_text(columns[i].as_str(), name) {
            assert(all.contains(name@));
            return Some(i);
        }
        i += 1;
    }
    None
}

/// The places of those of the names that are among `columns`, in the order of
/// the names.
pub open spec fn places_of(names: Seq<Seq<char>>, columns: Seq<Seq<char>>) -> Seq<int>
    decreases names.len(),
{
    if names.len() == 0 {
        Seq::empty()
    } else {
        let before = places_of(names.drop_last(), columns);
        match columns.index_of_first(names.last()) {
            Some(i) => before.push(i),
            None => before,
        }
    }
}

/// The places of the plain values in a scan's batches: the columns asked for,
/// and the row address.
pub open spec fn scan_places(scalar: Seq<Seq<char>>, columns: Seq<Seq<char>>) -> Seq<int> {
    places_of(scalar.push("_rowaddr"@), columns)
}

/// The places of the plain values in a scan's batches: the columns asked for,
/// and the row address.
pub fn scan_indices(scalar: &Vec<String>, columns: &Vec<String>) -> (indices: Vec<usize>)
    ensures
        indices@.map_values(|i: usize| i as int) == places_of(
            texts(scalar@).push("_rowaddr"@),
            texts(columns@),
        ),
        indices@.map_values(|i: usize| i as int) == scan_places(texts(scalar@), texts(columns@)),
{
    let mut indices: Vec<usize> = Vec::new();
    let ghost names = texts(scalar@);
    let ghost all = texts(columns@);
    let mut i: usize = 0;
    assert(names.take(0) =~= Seq::empty());
    assert(indices@.map_values(|i: usize| i as int) =~= Seq::empty());
    while i < scalar.len()
        invariant
            i <= scalar@.len(),
            names == texts(scalar@),
            all == texts(columns@),
            indices@.map_values(|i: usize| i as int) == places_of(names.take(i as int), all),
        decreases scalar@.len() - i,
    {
        let ghost before = indices@;
        assert(names.take(i + 1).drop_last() =~= names.take(i as int));
        assert(names.take(i + 1).last() == scalar@[i as int]@);
        if let Some(place) = place_of_column(columns, scalar[i].as_str()) {
            indices.push(place);
            assert(indices@.map_values(|i: usize| i as int) =~= before.map_values(
                |i: usize| i as int,
            ).push(place as int));
        }
        i += 1;
    }
    let ghost before = indices@;
    assert(names.take(i as int) =~= names);
    assert(names.push("_rowaddr"@).drop_last() =~= names);
    if let Some(place) = place_of_column(columns, "_rowaddr") {
        indices.push(place);
        assert(indices@.map_values(|i: usize| i as int) =~= before.map_values(
            |i: usize| i as int,
        ).push(place as int));
    }
    indices
}

/// A column of media in a batch of rows.
#[derive(Debug)]
pub struct MediaValues {
    /// The name of the column in the result.
    pub name: String,
    pub array: BlobArray,
}

/// The media of one row: under the name of each column that holds some the
/// paths of its blobs.
pub open spec fn row_media(media: Seq<MediaValues>, row: int) -> Map<Seq<char>, Seq<Seq<usize>>>
    decreases media.len(),
{
    if media.len() == 0 {
        Map::empty()
    } else {
        let before = row_media(media.drop_last(), row);
        let items = items_at(media.last().array, row, Seq::empty());
        if items.len() > 0 {
            before.insert(media.last().name@, items)
        } else {
            before
        }
    }
}

/// The paths under each name.
pub open spec fn media_view(media: Map<Seq<char>, Vec<Vec<usize>>>) -> Map<
    Seq<char>,
    Seq<Seq<usize>>,
> {
    media.map_values(|items: Vec<Vec<usize>>| paths(items@))
}

/// The media of one row.
fn media_of_row(media: &Vec<MediaValues>, row: usize) -> (map: TextMap<Vec<Vec<usize>>>)
    ensures
        map.valid(),
        media_view(map@) == row_media(media@, row as int),
{
    let mut map: TextMap<Vec<Vec<usize>>> = TextMap::new();
    let mut i: usize = 0;
    assert(media@.take(0) =~= Seq::empty());
    assert(media_view(map@) =~= Map::empty());
    while i < media.len()
        invariant
            i <= media@.len(),
            map.valid(),
            media_view(map@) == row_media(media@.take(i as int), row as int),
        decreases media@.len() - i,
    {
        let ghost now = media@.take(i + 1);
        assert(now.drop_last() =~= media@.take(i as int));
        assert(now.last() == media@[i as int]);
        let items = media_items(&media[i].array, row);
        assert(paths(items@).len() == items@.len());
        if items.len() > 0 {
            let ghost before = map@;
            let ghost found = items;
            map.insert(media[i].name.clone(), items);
            assert(media_view(map@) =~= media_view(before).insert(
                media@[i as int].name@,
                paths(found@),
            ));
        }
        i += 1;
    }
    assert(media@.take(i as int) =~= media@);
    map
}

/// Whether `rows` are these values, in order, each with its media.
pub open spec fn are_rows<T>(rows: Seq<RowView<T>>, values: Seq<T>, media: Seq<MediaValues>) -> bool {
    &&& rows.len() == values.len()
    &&& forall|i: int|
        0 <= i < values.len() ==> {
            &&& (#[trigger] rows[i]).values == values[i]
            &&& rows[i].media.valid()
            &&& media_view(rows[i].media@) == row_media(media, i)
        }
}

/// Puts the plain values of rows together with where their media stand.
pub fn combine_rows<T>(values: Vec<T>, media: &Vec<MediaValues>) -> (rows: Vec<RowView<T>>)
    ensures
        are_rows(rows@, values@, media@),
{
    let ghost all = values@;
    let mut rows: Vec<RowView<T>> = Vec::new();
    let mut row: usize = 0;
    let count: usize = values.len();
    for value in it: values
        invariant
            it.seq() == all,
            row == it.index(),
            rows@.len() == row,
            all.len() == count,
            are_rows(rows@, all.take(it.index()), media@),
    {
        let media_map = media_of_row(media, row);
        rows.push(RowView { values: value, media: media_map });
        assert(are_rows(rows@, all.take(it.index() + 1), media@)) by {
            let now = all.take(it.index() + 1);
            assert forall|i: int| 0 <= i < now.len() implies {
                &&& (#[trigger] rows@[i]).values == now[i]
                &&& rows@[i].media.valid()
                &&& media_view(rows@[i].media@) == row_media(media@, i)
            } by {
                if i < now.len() - 1 {
                    assert(all.take(it.index())[i] == now[i]);
                }
            }
        }
        row += 1;
    }
    assert(all.take(all.len() as int) =~= all);
    rows
}

/// The values in a JSON array, or why they cannot be read.
pub uninterp spec fn json_values(text: Seq<u8>) -> Result<Seq<Value>, Seq<char>>;

/// Whether two results are the same, success by values and failure by text.
pub open spec fn same_list<A>(
    found: Result<Vec<A>, String>,
    named: Result<Seq<A>, Seq<char>>,
) -> bool {
    match (found, named) {
        (Ok(a), Ok(b)) => a@ == b,
        (Err(a), Err(b)) => a@ == b,
        _ => false,
    }
}

/// `serde_json::from_slice` reads the values in a JSON array. Which text writes
/// which value is left unsaid.
#[verifier::external_body]
fn read_json(text: &Vec<u8>) -> (values: Result<Vec<Value>, String>)
    ensures
        same_list(values, json_values(text@)),
{
    serde_json::from_slice(text).map_err(|error| error.to_string())
}

/// Whether `rows` are those of a batch: the plain values of the columns at these
/// places, read back from what is written of them, each with its media; or why
/// they cannot be had.
pub open spec fn are_batch_rows(
    rows: Result<Vec<RowView<Value>>, String>,
    batch: Batch,
    scalar_indices: Seq<usize>,
    media: Seq<MediaValues>,
) -> bool {
    &&& projection(batch, scalar_indices) is Ok <==> are_places_of(
        scalar_indices,
        batch_columns(batch),
    )
    &&& match (rows, projection(batch, scalar_indices)) {
        (Ok(list), Ok(chosen)) => {
            &&& batch_columns(chosen) == columns_at(batch_columns(batch), scalar_indices)
            &&& batch_json(chosen) matches Ok(text) && (json_values(text) matches Ok(values)
                && are_rows(list@, values, media))
        },
        (Err(cause), Ok(chosen)) => match batch_json(chosen) {
            Ok(text) => json_values(text) matches Err(reason) && cause@ == reason,
            Err(reason) => cause@ == reason,
        },
        (Err(cause), Err(reason)) => cause@ == reason,
        (Ok(_), Err(_)) => false,
    }
}

/// The rows of a batch: the plain values of the columns at `scalar_indices`, and
/// where the media stand that `media` holds.
pub fn serialize_rows(
    batch: &Batch,
    scalar_indices: &Vec<usize>,
    media: &Vec<MediaValues>,
) -> (rows: Result<Vec<RowView<Value>>, String>)
    requires
        rows_can_be_written(*batch, scalar_indices@),
    ensures
        are_batch_rows(rows, *batch, scalar_indices@, media@),
{
    let scalar_batch = match project(batch, scalar_indices) {
        Ok(chosen) => chosen,
        Err(cause) => return Err(cause),
    };
    assert(all_can_be_written(batch_columns(scalar_batch))) by {
        let columns = batch_columns(scalar_batch);
        assert forall|i: int| 0 <= i < columns.len() implies can_be_written(
            column_shape(#[trigger] columns[i]),
        ) by {
            assert(scalar_indices@[i] < batch_columns(*batch).len());
        }
    }
    let text = match write_batch(&scalar_batch) {
        Ok(text) => text,
        Err(cause) => return Err(cause),
    };
    match read_json(&text) {
        Ok(values) => Ok(combine_rows(values, media)),
        Err(cause) => Err(cause),
    }
}

/// The rows of a batch, as [`serialize_rows`] gives them; `None` where a column
/// cannot be written.
pub fn checked_rows(
    batch: &Batch,
    scalar_indices: &Vec<usize>,
    media: &Vec<MediaValues>,
) -> (rows: Option<Result<Vec<RowView<Value>>, String>>)
    ensures
        (match rows {
            Some(result) => rows_can_be_written(*batch, scalar_indices@) && are_batch_rows(
                result,
                *batch,
                scalar_indices@,
                media@,
            ),
            None => !rows_can_be_written(*batch, scalar_indices@),
        }),
{
    if can_write_rows(batch, scalar_indices) {
        Some(serialize_rows(batch, scalar_indices, media))
    } else {
        None
    }
}

/// The answer to a request for rows.
pub fn rows_response<T>(
    offset: usize,
    limit: usize,
    total: usize,
    columns: DatasetColumns,
    rows: Vec<RowView<T>>,
) -> (response: RowsResponse<T>)
    ensures
        response.offset == offset,
        response.limit == limit,
        response.total == total,
        response.columns == columns.scalar,
        response.media_columns@ == columns.media@.map_values(
            |projection: crate::schema::MediaProjection| projection.column,
        ),
        response.rows == rows,
{
    let media_columns = crate::schema::media_columns(&columns.media);
    RowsResponse { offset, limit, total, columns: columns.scalar, media_columns, rows }
}

/// Rows without media say so: where no column has a blob in a row, the row lists
/// none.
pub proof fn rows_without_blobs_list_none(media: Seq<MediaValues>, row: int)
    requires
        forall|i: int|
            0 <= i < media.len() ==> items_at(
                (#[trigger] media[i]).array,
                row,
                Seq::empty(),
            ).len() == 0,
    ensures
        row_media(media, row) == Map::<Seq<char>, Seq<Seq<usize>>>::empty(),
    decreases media.len(),
{
    if media.len() > 0 {
        assert forall|i: int| 0 <= i < media.drop_last().len() implies items_at(
            (#[trigger] media.drop_last()[i]).array,
            row,
            Seq::empty(),
        ).len() == 0 by {
            assert(media.drop_last()[i] == media[i]);
        }
        rows_without_blobs_list_none(media.drop_last(), row);
        assert(media[media.len() - 1] == media.last());
    }
}

/// Whether a column has a blob in a row.
pub open spec fn has_blob(array: BlobArray, row: int) -> bool {
    exists|path: Seq<usize>| #[trigger] leads_to_blob(array, row, path)
}

proof fn lemma_has_blob(array: BlobArray, row: int)
    ensures
        has_blob(array, row) <==> items_at(array, row, Seq::empty()).len() > 0,
{
    let items = items_at(array, row, Seq::empty());
    if items.len() > 0 {
        assert(items.contains(items[0]));
        media_items_are_the_blobs(array, row, items[0]);
    }
    if has_blob(array, row) {
        let path = choose|path: Seq<usize>| #[trigger] leads_to_blob(array, row, path);
        media_items_are_the_blobs(array, row, path);
    }
}

proof fn lemma_row_media_at(media: Seq<MediaValues>, row: int, k: int)
    requires
        0 <= k < media.len(),
        has_blob(media[k].array, row),
        forall|j: int|
            k < j < media.len() ==> (#[trigger] media[j]).name@ != media[k].name@ || !has_blob(
                media[j].array,
                row,
            ),
    ensures
        row_media(media, row).contains_key(media[k].name@),
        row_media(media, row)[media[k].name@] == items_at(media[k].array, row, Seq::empty()),
    decreases media.len(),
{
    lemma_has_blob(media.last().array, row);
    if k < media.len() - 1 {
        let before = media.drop_last();
        assert forall|j: int| k < j < before.len() implies (#[trigger] before[j]).name@
            != before[k].name@ || !has_blob(before[j].array, row) by {
            assert(before[j] == media[j]);
        }
        lemma_row_media_at(before, row, k);
        assert(media[media.len() - 1] == media.last());
    }
}

proof fn lemma_row_media_names(media: Seq<MediaValues>, row: int, name: Seq<char>)
    ensures
        row_media(media, row).contains_key(name) <==> exists|k: int|
            0 <= k < media.len() && (#[trigger] media[k]).name@ == name && has_blob(
                media[k].array,
                row,
            ),
    decreases media.len(),
{
    if media.len() > 0 {
        let before = media.drop_last();
        lemma_row_media_names(before, row, name);
        lemma_has_blob(media.last().array, row);
        if row_media(before, row).contains_key(name) {
            let k = choose|k: int|
                0 <= k < before.len() && (#[trigger] before[k]).name@ == name && has_blob(
                    before[k].array,
                    row,
                );
            assert(media[k] == before[k]);
        }
        assert(media[media.len() - 1] == media.last());
        if exists|k: int|
            0 <= k < media.len() && (#[trigger] media[k]).name@ == name && has_blob(
                media[k].array,
                row,
            ) {
            let k = choose|k: int|
                0 <= k < media.len() && (#[trigger] media[k]).name@ == name && has_blob(
                    media[k].array,
                    row,
                );
            if k < before.len() {
                assert(before[k] == media[k]);
            }
        }
    }
}

/// Each row lists its own media. Under the name of a column that has blobs in it,
/// the last one of that name, it lists a path exactly where that path leads to a
/// blob from the slot of the row in that column, in ascending order.
pub proof fn rows_list_their_own_media<T>(
    rows: Seq<RowView<T>>,
    values: Seq<T>,
    media: Seq<MediaValues>,
    row: int,
    k: int,
)
    requires
        are_rows(rows, values, media),
        0 <= row < rows.len(),
        0 <= k < media.len(),
        has_blob(media[k].array, row),
        forall|j: int|
            k < j < media.len() ==> (#[trigger] media[j]).name@ != media[k].name@ || !has_blob(
                media[j].array,
                row,
            ),
    ensures
        rows[row].media@.contains_key(media[k].name@),
        forall|path: Seq<usize>|
            paths(rows[row].media@[media[k].name@]@).contains(path) <==> #[trigger] leads_to_blob(
                media[k].array,
                row,
                path,
            ),
        paths_ascend(paths(rows[row].media@[media[k].name@]@)),
{
    let name = media[k].name@;
    let shown = rows[row].media@;
    lemma_row_media_at(media, row, k);
    assert(media_view(shown) == row_media(media, row));
    assert(media_view(shown).contains_key(name));
    assert(media_view(shown)[name] == paths(shown[name]@));
    assert forall|path: Seq<usize>|
        paths(shown[name]@).contains(path) <==> #[trigger] leads_to_blob(
            media[k].array,
            row,
            path,
        ) by {
        media_items_are_the_blobs(media[k].array, row, path);
    }
    media_items_ascend(media[k].array, row);
}

/// A row lists media under a name exactly where some column of that name has a
/// blob in that row.
pub proof fn rows_list_only_names_with_media<T>(
    rows: Seq<RowView<T>>,
    values: Seq<T>,
    media: Seq<MediaValues>,
    row: int,
    name: Seq<char>,
)
    requires
        are_rows(rows, values, media),
        0 <= row < rows.len(),
    ensures
        rows[row].media@.contains_key(name) <==> exists|k: int|
            0 <= k < media.len() && (#[trigger] media[k]).name@ == name && has_blob(
                media[k].array,
                row,
            ),
{
    lemma_row_media_names(media, row, name);
    let shown = rows[row].media@;
    assert(media_view(shown) == row_media(media, row));
    assert(media_view(shown).contains_key(name) <==> shown.contains_key(name));
}

/// There is a row for each value, in the order of the values.
pub proof fn rows_carry_their_values<T>(
    rows: Seq<RowView<T>>,
    values: Seq<T>,
    media: Seq<MediaValues>,
    row: int,
)
    requires
        are_rows(rows, values, media),
        0 <= row < rows.len(),
    ensures
        rows.len() == values.len(),
        rows[row].values == values[row],
{
}

/// A preview has as many rows as are asked for, but at least one and no more than
/// a hundred, and twenty where nothing is asked for.
pub proof fn previews_have_the_rows_asked_for(limit: usize)
    ensures
        1 <= limit <= 100 ==> row_limit_of(Some(limit)) == limit,
        limit == 0 ==> row_limit_of(Some(limit)) == 1,
        limit > 100 ==> row_limit_of(Some(limit)) == 100,
        row_limit_of(None) == 20,
{
}

/// Columns are looked up name by name: each gives the place where it stands first,
/// and nothing where it does not stand.
pub proof fn places_are_found_name_by_name(
    first: Seq<Seq<char>>,
    second: Seq<Seq<char>>,
    columns: Seq<Seq<char>>,
    at: int,
    absent: Seq<char>,
)
    requires
        !columns.contains(absent),
        0 <= at < columns.len(),
        forall|j: int| 0 <= j < at ==> #[trigger] columns[j] != columns[at],
    ensures
        places_of(first + second, columns) == places_of(first, columns) + places_of(
            second,
            columns,
        ),
        places_of(seq![columns[at]], columns) == seq![at],
        places_of(seq![absent], columns).len() == 0,
    decreases second.len(),
{
    let here = seq![columns[at]];
    let gone = seq![absent];
    assert(here.drop_last() =~= Seq::<Seq<char>>::empty());
    assert(gone.drop_last() =~= Seq::<Seq<char>>::empty());
    columns.index_of_first_ensures(columns[at]);
    columns.index_of_first_ensures(absent);
    assert(columns.contains(columns[at]));
    let found = columns.index_of_first(columns[at])->0;
    assert(found == at) by {
        if found < at {
            assert(columns[found] != columns[at]);
        }
    }
    assert(places_of(here.drop_last(), columns) =~= Seq::<int>::empty());
    assert(here.last() == columns[at]);
    assert(gone.last() == absent);
    assert(places_of(here, columns) =~= seq![at]);
    if second.len() == 0 {
        assert(first + second =~= first);
        assert(places_of(first, columns) + places_of(second, columns) =~= places_of(
            first,
            columns,
        ));
    } else {
        places_are_found_name_by_name(first, second.drop_last(), columns, at, absent);
        assert((first + second).drop_last() =~= first + second.drop_last());
        assert((first + second).last() == second.last());
        assert(places_of(first + second, columns) =~= places_of(first, columns) + places_of(
            second,
            columns,
        ));
    }
}

/// The row address is read behind the columns asked for, where a scan gives it.
pub proof fn row_addresses_are_read_last(
    scalar: Seq<Seq<char>>,
    columns: Seq<Seq<char>>,
    at: int,
)
    requires
        0 <= at < columns.len(),
        columns[at] == "_rowaddr"@,
        forall|j: int| 0 <= j < at ==> #[trigger] columns[j] != "_rowaddr"@,
    ensures
        scan_places(scalar, columns) == places_of(scalar, columns).push(at),
{
    let names = scalar.push("_rowaddr"@);
    assert(names.drop_last() =~= scalar);
    columns.index_of_first_ensures("_rowaddr"@);
    assert(columns.contains("_rowaddr"@));
    let found = columns.index_of_first("_rowaddr"@)->0;
    assert(found == at) by {
        if found < at {
            assert(columns[found] != "_rowaddr"@);
        }
    }
}

/// The rows of a batch are written from the columns at the places asked for, in
/// their order, and from no others. They cannot be had where one of the places is
/// none of a column.
pub proof fn rows_are_written_from_the_columns_asked_for(
    rows: Result<Vec<RowView<Value>>, String>,
    batch: Batch,
    scalar_indices: Seq<usize>,
    media: Seq<MediaValues>,
    k: int,
)
    requires
        are_batch_rows(rows, batch, scalar_indices, media),
    ensures
        rows matches Ok(list) ==> {
            &&& projection(batch, scalar_indices) matches Ok(chosen)
            &&& batch_columns(chosen).len() == scalar_indices.len()
            &&& 0 <= k < scalar_indices.len() ==> scalar_indices[k] < batch_columns(batch).len()
                && batch_columns(chosen)[k] == batch_columns(batch)[scalar_indices[k] as int]
            &&& batch_json(chosen) matches Ok(text)
            &&& json_values(text) matches Ok(values)
            &&& list@.len() == values.len()
            &&& 0 <= k < values.len() ==> list@[k].values == values[k]
        },
        (exists|i: int|
            0 <= i < scalar_indices.len() && #[trigger] scalar_indices[i] >= batch_columns(
                batch,
            ).len()) ==> rows is Err,
{
    if rows is Ok && 0 <= k < scalar_indices.len() {
        assert(scalar_indices[k] < batch_columns(batch).len());
    }
}

} // verus!
