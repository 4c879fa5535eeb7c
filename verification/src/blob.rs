//! Blobs in rows: where they stand, how they are asked for, and what they are.

use file_format::{FileFormat, Kind};
use vstd::prelude::*;
use vstd::string::StringExecFns;

use crate::error::ApiError;
use crate::number::{
    decimal, decimal_reads_back, decimals_have_no_leading_zeros, fault_text, number, number_fault,
    parse_usize, write_decimal,
};
use crate::text::{chars_of, joined, parts, runs, split, splitting_undoes_joining, text_of};

verus! {

/// A column of values, as far as blobs are concerned. A slot without a value
/// is null.
#[derive(Debug)]
pub enum BlobArray {
    /// Lists of values.
    Lists(Vec<Option<BlobArray>>),
    /// Descriptions of blobs; each says whether its kind is null.
    Descriptors(Vec<Option<bool>>),
    /// The bytes of blobs.
    Binaries(Vec<Option<Vec<u8>>>),
    /// Values of any other type.
    Others(Vec<Option<()>>),
}

impl BlobArray {
    /// The number of slots.
    pub open spec fn slots(&self) -> nat {
        match self {
            BlobArray::Lists(slots) => slots@.len(),
            BlobArray::Descriptors(slots) => slots@.len(),
            BlobArray::Binaries(slots) => slots@.len(),
            BlobArray::Others(slots) => slots@.len(),
        }
    }

    /// Whether the slot at `index` is null.
    pub open spec fn null_at(&self, index: int) -> bool {
        match self {
            BlobArray::Lists(slots) => slots@[index] is None,
            BlobArray::Descriptors(slots) => slots@[index] is None,
            BlobArray::Binaries(slots) => slots@[index] is None,
            BlobArray::Others(slots) => slots@[index] is None,
        }
    }

    /// The number of slots.
    pub fn len(&self) -> (n: usize)
        ensures
            n == self.slots(),
    {
        match self {
            BlobArray::Lists(slots) => slots.len(),
            BlobArray::Descriptors(slots) => slots.len(),
            BlobArray::Binaries(slots) => slots.len(),
            BlobArray::Others(slots) => slots.len(),
        }
    }

    /// Whether the slot at `index` is null.
    pub fn is_null(&self, index: usize) -> (null: bool)
        requires
            index < self.slots(),
        ensures
            null == self.null_at(index as int),
    {
        match self {
            BlobArray::Lists(slots) => slots[index].is_none(),
            BlobArray::Descriptors(slots) => slots[index].is_none(),
            BlobArray::Binaries(slots) => slots[index].is_none(),
            BlobArray::Others(slots) => slots[index].is_none(),
        }
    }
}

/// The paths of the blobs in a slot, each behind `path`: one for each
/// description that is not null, in the order of the lists that hold them.
pub open spec fn items_at(array: BlobArray, index: int, path: Seq<usize>) -> Seq<Seq<usize>>
    decreases array, 0nat, 0nat,
{
    match array {
        BlobArray::Lists(slots) => if 0 <= index < slots@.len() {
            match slots@[index] {
                Some(values) => items_in(values, values.slots(), path),
                None => Seq::empty(),
            }
        } else {
            Seq::empty()
        },
        BlobArray::Descriptors(slots) => if 0 <= index < slots@.len() && slots@[index] == Some(
            false,
        ) {
            seq![path]
        } else {
            Seq::empty()
        },
        _ => Seq::empty(),
    }
}

/// The paths of the blobs in the first `n` slots, each behind `path` and the
/// number of its slot.
pub open spec fn items_in(values: BlobArray, n: nat, path: Seq<usize>) -> Seq<Seq<usize>>
    decreases values, 1nat, n,
{
    if n == 0 {
        Seq::empty()
    } else {
        items_in(values, (n - 1) as nat, path) + items_at(
            values,
            n - 1,
            path.push((n - 1) as usize),
        )
    }
}

/// Whether `path` leads from a slot, through the lists that it names, to the
/// description of a blob.
pub open spec fn leads_to_blob(array: BlobArray, index: int, path: Seq<usize>) -> bool
    decreases path.len(),
{
    if path.len() == 0 {
        array matches BlobArray::Descriptors(slots) && 0 <= index < slots@.len() && slots@[index]
            == Some(false)
    } else {
        &&& array matches BlobArray::Lists(slots)
        &&& 0 <= index < slots@.len()
        &&& slots@[index] matches Some(values)
        &&& leads_to_blob(values, path[0] as int, path.skip(1))
    }
}

/// The views of a list of paths.
pub open spec fn paths(list: Seq<Vec<usize>>) -> Seq<Seq<usize>> {
    list.map_values(|path: Vec<usize>| path@)
}

fn copy_path(path: &Vec<usize>) -> (copy: Vec<usize>)
    ensures
        copy@ == path@,
{
    let mut copy: Vec<usize> = Vec::new();
    let mut i: usize = 0;
    while i < path.len()
        invariant
            i <= path@.len(),
            copy@ == path@.take(i as int),
        decreases path@.len() - i,
    {
        copy.push(path[i]);
        assert(copy@ =~= path@.take(i + 1));
        i += 1;
    }
    assert(path@.take(i as int) =~= path@);
    copy
}

/// Appends the paths of the blobs in a slot to `output`.
fn collect_media_items(
    array: &BlobArray,
    index: usize,
    path: &mut Vec<usize>,
    output: &mut Vec<Vec<usize>>,
)
    ensures
        final(path)@ == old(path)@,
        paths(final(output)@) == paths(old(output)@) + items_at(*array, index as int, old(path)@),
    decreases array,
{
    let ghost start = path@;
    let ghost found = paths(output@);
    if index >= array.len() || array.is_null(index) {
        assert(items_at(*array, index as int, start) =~= Seq::empty());
        assert(paths(output@) =~= found + items_at(*array, index as int, start));
        return ;
    }
    match array {
        BlobArray::Lists(slots) => {
            if let Some(values) = &slots[index] {
                let mut child: usize = 0;
                let n: usize = values.len();
                assert(paths(output@) =~= found + items_in(*values, 0, start));
                assert(decreases_to!(*array => slots@[index as int]->0));
                while child < n
                    invariant
                        child <= n,
                        n == values.slots(),
                        index < slots@.len(),
                        *array == BlobArray::Lists(*slots),
                        slots@[index as int] == Some(*values),
                        decreases_to!(*array => *values),
                        path@ == start,
                        paths(output@) == found + items_in(*values, child as nat, start),
                    decreases n - child,
                {
                    path.push(child);
                    let ghost before = paths(output@);
                    collect_media_items(values, child, path, output);
                    path.pop();
                    assert(path@ =~= start);
                    assert(paths(output@) =~= found + items_in(*values, (child + 1) as nat, start));
                    child += 1;
                }
            }
        },
        BlobArray::Descriptors(slots) => {
            if let Some(kind_is_null) = slots[index] {
                if !kind_is_null {
                    output.push(copy_path(path));
                }
            }
            assert(paths(output@) =~= found + items_at(*array, index as int, start));
        },
        _ => {
            assert(paths(output@) =~= found + items_at(*array, index as int, start));
        },
    }
}

/// The paths of the blobs in a row, to be sent with its plain values.
pub fn media_items(descriptor: &BlobArray, row_index: usize) -> (items: Vec<Vec<usize>>)
    ensures
        paths(items@) == items_at(*descriptor, row_index as int, Seq::empty()),
{
    let mut items: Vec<Vec<usize>> = Vec::new();
    let mut path: Vec<usize> = Vec::new();
    collect_media_items(descriptor, row_index, &mut path, &mut items);
    assert(paths(items@) =~= items_at(*descriptor, row_index as int, Seq::empty()));
    items
}

/// No array has more slots than a machine can count.
proof fn lemma_slots_fit(array: BlobArray)
    ensures
        array.slots() <= usize::MAX,
{
    match array {
        BlobArray::Lists(slots) => {
            assert(slots@.len() == slots.len());
        },
        BlobArray::Descriptors(slots) => {
            assert(slots@.len() == slots.len());
        },
        BlobArray::Binaries(slots) => {
            assert(slots@.len() == slots.len());
        },
        BlobArray::Others(slots) => {
            assert(slots@.len() == slots.len());
        },
    }
}

proof fn lemma_items_at(array: BlobArray, index: int, path: Seq<usize>, item: Seq<usize>)
    ensures
        items_at(array, index, path).contains(item) <==> path.is_prefix_of(item) && leads_to_blob(
            array,
            index,
            item.skip(path.len() as int),
        ),
        items_at(array, index, path).no_duplicates(),
    decreases array, 0nat, 0nat,
{
    let rest = item.skip(path.len() as int);
    match array {
        BlobArray::Lists(slots) => if 0 <= index < slots@.len() {
            match slots@[index] {
                Some(values) => {
                    lemma_slots_fit(values);
                    lemma_items_in(values, values.slots(), path, item);
                    if path.is_prefix_of(item) && leads_to_blob(array, index, rest) {
                        assert(rest[0] == item[path.len() as int]);
                        assert(rest.skip(1) =~= item.skip(path.len() as int + 1));
                        lemma_leads_inside(values, rest[0] as int, rest.skip(1));
                    }
                    if items_in(values, values.slots(), path).contains(item) {
                        assert(rest[0] == item[path.len() as int]);
                        assert(rest.skip(1) =~= item.skip(path.len() as int + 1));
                    }
                },
                None => {},
            }
        },
        BlobArray::Descriptors(slots) => if 0 <= index < slots@.len() && slots@[index] == Some(
            false,
        ) {
            assert(seq![path].contains(item) <==> item == path) by {
                assert(seq![path][0] == path);
            }
            if item == path {
                assert(rest.len() == 0);
            }
            if path.is_prefix_of(item) && rest.len() == 0 {
                assert(item =~= path);
            }
        },
        _ => {},
    }
}

/// A path leads only into slots that are there.
proof fn lemma_leads_inside(array: BlobArray, index: int, path: Seq<usize>)
    requires
        leads_to_blob(array, index, path),
    ensures
        0 <= index < array.slots(),
{
}

proof fn lemma_items_in(values: BlobArray, n: nat, path: Seq<usize>, item: Seq<usize>)
    requires
        n <= usize::MAX,
    ensures
        items_in(values, n, path).contains(item) <==> {
            &&& path.is_prefix_of(item)
            &&& item.len() > path.len()
            &&& item[path.len() as int] < n
            &&& leads_to_blob(values, item[path.len() as int] as int, item.skip(path.len() as int + 1))
        },
        items_in(values, n, path).no_duplicates(),
    decreases values, 1nat, n,
{
    if n > 0 {
        let m = (n - 1) as nat;
        let deeper = path.push(m as usize);
        let before = items_in(values, m, path);
        let added = items_at(values, m as int, deeper);
        let all = items_in(values, n, path);
        lemma_items_in(values, m, path, item);
        lemma_items_at(values, m as int, deeper, item);
        assert(all.contains(item) <==> before.contains(item) || added.contains(item)) by {
            if before.contains(item) {
                let k = before.index_of(item);
                assert(all[k] == item);
            }
            if added.contains(item) {
                let k = added.index_of(item);
                assert(all[before.len() + k] == item);
            }
            if all.contains(item) {
                let k = all.index_of(item);
                if k < before.len() {
                    assert(before[k] == item);
                } else {
                    assert(added[k - before.len()] == item);
                }
            }
        }
        if deeper.is_prefix_of(item) {
            assert(item[path.len() as int] == deeper[path.len() as int]);
            assert(path =~= deeper.take(path.len() as int));
            assert(path =~= item.take(path.len() as int));
        }
        if path.is_prefix_of(item) && item.len() > path.len() && item[path.len() as int] == m {
            assert(deeper =~= item.take(path.len() as int + 1));
        }
        assert(all.no_duplicates()) by {
            assert forall|a: int, b: int| 0 <= a < b < all.len() implies all[a] != all[b] by {
                if a < before.len() && b >= before.len() {
                    let first = before[a];
                    let second = added[b - before.len()];
                    assert(before.contains(first));
                    assert(added.contains(second));
                    lemma_items_in(values, m, path, first);
                    lemma_items_at(values, m as int, deeper, second);
                    assert(second[path.len() as int] == deeper[path.len() as int]);
                }
            }
        }
    }
}

/// Whether two paths agree before `k` and the first has the lower slot at `k`.
pub open spec fn parts_at(first: Seq<usize>, second: Seq<usize>, k: int) -> bool {
    &&& 0 <= k < first.len()
    &&& k < second.len()
    &&& first.take(k) == second.take(k)
    &&& first[k] < second[k]
}

/// Whether a path comes before another, by the first slot in which they differ.
pub open spec fn path_before(first: Seq<usize>, second: Seq<usize>) -> bool {
    exists|k: int| #[trigger] parts_at(first, second, k)
}

/// Whether each path of a list comes before those that follow it.
pub open spec fn paths_ascend(list: Seq<Seq<usize>>) -> bool {
    forall|a: int, b: int|
        0 <= a < b < list.len() ==> path_before(#[trigger] list[a], #[trigger] list[b])
}

proof fn lemma_items_at_ascend(array: BlobArray, index: int, path: Seq<usize>)
    ensures
        paths_ascend(items_at(array, index, path)),
    decreases array, 0nat, 0nat,
{
    match array {
        BlobArray::Lists(slots) => if 0 <= index < slots@.len() {
            match slots@[index] {
                Some(values) => {
                    lemma_slots_fit(values);
                    lemma_items_in_ascend(values, values.slots(), path);
                },
                None => {},
            }
        },
        _ => {},
    }
}

proof fn lemma_items_in_ascend(values: BlobArray, n: nat, path: Seq<usize>)
    requires
        n <= usize::MAX,
    ensures
        paths_ascend(items_in(values, n, path)),
    decreases values, 1nat, n,
{
    if n > 0 {
        let m = (n - 1) as nat;
        let deeper = path.push(m as usize);
        let before = items_in(values, m, path);
        let added = items_at(values, m as int, deeper);
        let all = items_in(values, n, path);
        lemma_items_in_ascend(values, m, path);
        lemma_items_at_ascend(values, m as int, deeper);
        assert forall|a: int, b: int| 0 <= a < b < all.len() implies path_before(
            #[trigger] all[a],
            #[trigger] all[b],
        ) by {
            if b < before.len() {
                assert(path_before(before[a], before[b]));
            } else if a >= before.len() {
                assert(path_before(added[a - before.len()], added[b - before.len()]));
            } else {
                let first = before[a];
                let second = added[b - before.len()];
                assert(before.contains(first));
                assert(added.contains(second));
                lemma_items_in(values, m, path, first);
                lemma_items_at(values, m as int, deeper, second);
                let k = path.len() as int;
                assert(second[k] == deeper[k]);
                assert(first.take(k) =~= path);
                assert(second.take(k) =~= deeper.take(k));
                assert(deeper.take(k) =~= path);
                assert(parts_at(first, second, k));
            }
        }
    }
}

/// The items of a row stand in ascending order.
pub proof fn media_items_ascend(array: BlobArray, row: int)
    ensures
        paths_ascend(items_at(array, row, Seq::empty())),
{
    lemma_items_at_ascend(array, row, Seq::empty());
}

/// The items of a row are the paths to its blobs: each path that leads to one,
/// once, and no other.
pub proof fn media_items_are_the_blobs(array: BlobArray, row: int, path: Seq<usize>)
    ensures
        items_at(array, row, Seq::empty()).contains(path) <==> leads_to_blob(array, row, path),
        items_at(array, row, Seq::empty()).no_duplicates(),
{
    lemma_items_at(array, row, Seq::empty(), path);
    assert(path.skip(0) =~= path);
    assert(Seq::<usize>::empty().is_prefix_of(path));
}

/// What a client reads that asks for a slot beyond the last one.
pub open spec fn outside_message(index: nat, column: Seq<char>, count: nat) -> Seq<char> {
    "blob index "@ + decimal(index) + " is outside column "@ + column + " with "@ + decimal(count)
        + " items"@
}

/// What a client reads that asks for a slot that is null.
pub open spec fn null_message(index: nat) -> Seq<char> {
    "blob array item "@ + decimal(index) + " is null"@
}

/// What a client reads that asks for a list where there is none.
pub open spec fn depth_message(column: Seq<char>) -> Seq<char> {
    "column "@ + column + " does not contain the requested blob array depth"@
}

/// A slot beyond the last one was asked for.
pub(crate) fn outside_error(index: usize, column: &str, count: usize) -> (error: ApiError)
    ensures
        error.is_plain(outside_message(index as nat, column@, count as nat)),
{
    let mut message = String::new();
    message.append("blob index ");
    message.append(write_decimal(index as u64).as_str());
    message.append(" is outside column ");
    message.append(column);
    message.append(" with ");
    message.append(write_decimal(count as u64).as_str());
    message.append(" items");
    assert(message@ =~= outside_message(index as nat, column@, count as nat));
    ApiError::plain(message)
}

/// A slot that is null was asked for.
pub(crate) fn null_error(index: usize) -> (error: ApiError)
    ensures
        error.is_plain(null_message(index as nat)),
{
    let mut message = String::new();
    message.append("blob array item ");
    message.append(write_decimal(index as u64).as_str());
    message.append(" is null");
    assert(message@ =~= null_message(index as nat));
    ApiError::plain(message)
}

/// What is wrong with a request for the list in a slot.
pub open spec fn list_fault(array: BlobArray, index: int, column: Seq<char>) -> Option<Seq<char>> {
    if index >= array.slots() {
        Some(outside_message(index as nat, column, array.slots()))
    } else if array.null_at(index) {
        Some(null_message(index as nat))
    } else if !(array is Lists) {
        Some(depth_message(column))
    } else {
        None
    }
}

/// The list in a slot of a column.
pub fn list_value<'a>(array: &'a BlobArray, index: usize, column: &str) -> (values: Result<
    &'a BlobArray,
    ApiError,
>)
    ensures
        (match values {
            Ok(list) => {
                &&& list_fault(*array, index as int, column@) is None
                &&& Some(*list) == array->Lists_0@[index as int]
                &&& decreases_to!(*array => *list)
            },
            Err(error) => list_fault(*array, index as int, column@) matches Some(message)
                && error.is_plain(message),
        }),
{
    if index >= array.len() {
        return Err(outside_error(index, column, array.len()));
    }
    if array.is_null(index) {
        return Err(null_error(index));
    }
    match array {
        BlobArray::Lists(slots) => {
            assert(decreases_to!(*array => slots@[index as int]->0));
            match &slots[index] {
                Some(values) => Ok(values),
                None => Err(null_error(index)),
            }
        },
        _ => {
            let mut message = String::new();
            message.append("column ");
            message.append(column);
            message.append(" does not contain the requested blob array depth");
            assert(message@ =~= depth_message(column@));
            Err(ApiError::plain(message))
        },
    }
}

/// The filter that chooses one row by its address.
pub fn row_filter(row_address: u64) -> (filter: String)
    ensures
        filter@ == "_rowaddr = "@ + decimal(row_address as nat),
{
    let mut filter = String::new();
    filter.append("_rowaddr = ");
    filter.append(write_decimal(row_address).as_str());
    assert(filter@ =~= "_rowaddr = "@ + decimal(row_address as nat));
    filter
}

/// A row was read without the column that was asked for.
pub fn missing_column(column: &str) -> (error: ApiError)
    ensures
        error.is_plain("blob array column "@ + column@ + " was not returned"@),
{
    let mut message = String::new();
    message.append("blob array column ");
    message.append(column);
    message.append(" was not returned");
    assert(message@ =~= "blob array column "@ + column@ + " was not returned"@);
    ApiError::plain(message)
}

/// A text in double quotes, with what cannot be shown escaped, as debug output
/// writes it.
pub uninterp spec fn debug_text(text: Seq<char>) -> Seq<char>;

/// The debug form of `str`, as `format!` writes it with `{:?}`. Which characters
/// it escapes, and how, is left unsaid.
#[verifier::external_body]
fn write_debug(text: &str) -> (shown: String)
    ensures
        shown@ == debug_text(text@),
{
    format!("{text:?}")
}

/// Whether each of the first `n` pieces is a number that a machine can count
/// to.
pub open spec fn are_indices(pieces: Seq<Seq<char>>, n: int) -> bool {
    forall|i: int| 0 <= i < n ==> number(#[trigger] pieces[i], usize::MAX as nat) is Some
}

/// Whether `path` is what comes of reading `value`: the numbers between the
/// commas, or the failure that the first piece that is none of them makes.
pub open spec fn is_index_path(value: Option<&str>, path: Result<Vec<usize>, ApiError>) -> bool {
    match (value, path) {
        (None, Ok(_)) => false,
        (None, Err(error)) => error.is_plain("blob array media requests require an index"@),
        (Some(text), Ok(indices)) => {
            let pieces = parts(text@, ',');
            &&& indices@.len() == pieces.len()
            &&& indices@.len() > 0
            &&& forall|i: int|
                0 <= i < pieces.len() ==> number(#[trigger] pieces[i], usize::MAX as nat)
                    == Some(indices@[i] as nat)
        },
        (Some(text), Err(error)) => {
            let pieces = parts(text@, ',');
            exists|i: int|
                {
                    &&& 0 <= i < pieces.len()
                    &&& are_indices(pieces, i)
                    &&& number_fault(#[trigger] pieces[i], usize::MAX as nat) matches Some(fault)
                        && error.is_internal(
                        "invalid blob array index "@ + debug_text(pieces[i]),
                        fault_text(fault),
                    )
                }
        },
    }
}

/// The place of a blob in its row: the number of its slot in each of the lists
/// that hold it, from the outermost on, with commas between them.
pub fn parse_index_path(value: Option<&str>) -> (path: Result<Vec<usize>, ApiError>)
    ensures
        is_index_path(value, path),
{
    let text = match value {
        Some(text) => text,
        None => {
            return Err(
                ApiError::plain("blob array media requests require an index".to_owned()),
            );
        },
    };
    let chars = chars_of(text);
    let pieces = split(chars.as_slice(), ',');
    let ghost all = parts(text@, ',');
    let mut path: Vec<usize> = Vec::new();
    let mut i: usize = 0;
    while i < pieces.len()
        invariant
            i <= pieces@.len(),
            all == parts(text@, ','),
            runs(pieces@) == all,
            value == Some(text),
            path@.len() == i,
            are_indices(all, i as int),
            forall|j: int|
                0 <= j < i ==> number(#[trigger] all[j], usize::MAX as nat) == Some(path@[j] as nat),
        decreases pieces@.len() - i,
    {
        assert(runs(pieces@)[i as int] == pieces@[i as int]@);
        match parse_usize(pieces[i].as_slice()) {
            Ok(index) => path.push(index),
            Err(fault) => {
                let index = text_of(pieces[i].as_slice());
                let mut context = String::new();
                context.append("invalid blob array index ");
                context.append(write_debug(index.as_str()).as_str());
                assert(context@ =~= "invalid blob array index "@ + debug_text(all[i as int]));
                return Err(ApiError::internal(context.as_str(), fault.text()));
            },
        }
        i += 1;
    }
    Ok(path)
}

/// Whether a path is read, and which, rests on the text alone: it is read where
/// every piece between the commas is a number.
pub proof fn index_paths_are_lists_of_numbers(text: Seq<char>)
    ensures
        are_indices(parts(text, ','), parts(text, ',').len() as int) <==> !exists|i: int|
            {
                &&& 0 <= i < parts(text, ',').len()
                &&& are_indices(parts(text, ','), i)
                &&& number_fault(#[trigger] parts(text, ',')[i], usize::MAX as nat) is Some
            },
{
    let pieces = parts(text, ',');
    assert forall|i: int| 0 <= i < pieces.len() implies (number(
        #[trigger] pieces[i],
        usize::MAX as nat,
    ) is Some <==> number_fault(pieces[i], usize::MAX as nat) is None) by {
        crate::number::number_or_fault(pieces[i], usize::MAX as nat);
    }
    if !are_indices(pieces, pieces.len() as int) {
        lemma_first_bad_index(pieces, pieces.len() as int);
    }
}

/// Where not all are numbers there is a first that is none.
proof fn lemma_first_bad_index(pieces: Seq<Seq<char>>, n: int)
    requires
        0 <= n <= pieces.len(),
        !are_indices(pieces, n),
        forall|i: int|
            0 <= i < pieces.len() ==> (number(#[trigger] pieces[i], usize::MAX as nat) is Some
                <==> number_fault(pieces[i], usize::MAX as nat) is None),
    ensures
        exists|i: int|
            {
                &&& 0 <= i < pieces.len()
                &&& are_indices(pieces, i)
                &&& number_fault(#[trigger] pieces[i], usize::MAX as nat) is Some
            },
    decreases n,
{
    if n > 0 {
        if are_indices(pieces, n - 1) {
            assert(number(pieces[n - 1], usize::MAX as nat) is None) by {
                if number(pieces[n - 1], usize::MAX as nat) is Some {
                    assert(are_indices(pieces, n));
                }
            }
            assert(number_fault(pieces[n - 1], usize::MAX as nat) is Some);
        } else {
            lemma_first_bad_index(pieces, n - 1);
        }
    }
}

/// The kinds of formats that are told apart.
#[derive(Debug, Clone, Copy, PartialEq, Eq, Structural)]
pub enum FormatKind {
    Image,
    Audio,
    Video,
    Other,
}

/// What is found of the format of some bytes.
#[derive(Debug)]
pub struct DetectedFormat {
    pub kind: FormatKind,
    pub media_type: String,
    /// Whether it is an MPEG-4 container of which no more is known.
    pub mpeg4: bool,
}

/// The kind of the format of some bytes, its media type, and whether it is an
/// MPEG-4 container of which no more is known.
pub uninterp spec fn detected_format(bytes: Seq<u8>) -> (FormatKind, Seq<char>, bool);

/// `FileFormat::from_bytes` tells the format of the bytes by what they hold;
/// `kind` and `media_type` look up what is known of that format. Which bytes
/// have which format is left unsaid.
#[verifier::external_body]
fn detect_format(bytes: &[u8]) -> (format: DetectedFormat)
    ensures
        (format.kind, format.media_type@, format.mpeg4) == detected_format(bytes@),
{
    let format = FileFormat::from_bytes(bytes);
    let kind = match format.kind() {
        Kind::Image => FormatKind::Image,
        Kind::Audio => FormatKind::Audio,
        Kind::Video => FormatKind::Video,
        _ => FormatKind::Other,
    };
    let mpeg4 = format == FileFormat::Mpeg4Part14;
    DetectedFormat { kind, media_type: format.media_type().to_string(), mpeg4 }
}

/// The media type under which bytes of a format are served.
pub open spec fn served_type(kind: FormatKind, media_type: Seq<char>, mpeg4: bool) -> Seq<char> {
    if kind != FormatKind::Other {
        media_type
    } else if mpeg4 {
        "video/mp4"@
    } else {
        "application/octet-stream"@
    }
}

/// The media type under which bytes of a format are served. Only images, audio
/// and video are served as what they are. A short prefix cannot expose MP4
/// track metadata: browsers can still inspect the container, and reject what is
/// no video.
pub fn media_type_of(format: DetectedFormat) -> (media_type: String)
    ensures
        media_type@ == served_type(format.kind, format.media_type@, format.mpeg4),
{
    if format.kind != FormatKind::Other {
        format.media_type
    } else if format.mpeg4 {
        "video/mp4".to_owned()
    } else {
        "application/octet-stream".to_owned()
    }
}

/// The media type of some bytes.
pub open spec fn media_type_in(bytes: Seq<u8>) -> Seq<char> {
    let (kind, media_type, mpeg4) = detected_format(bytes);
    served_type(kind, media_type, mpeg4)
}

/// The media type under which bytes are served.
pub fn detect_media_type(bytes: &[u8]) -> (media_type: String)
    ensures
        media_type@ == media_type_in(bytes@),
{
    media_type_of(detect_format(bytes))
}

/// Whether each array of a chain holds the next one in the slot that the path
/// names at its place. The last slot is one of the last array.
pub open spec fn leads_along(chain: Seq<BlobArray>, path: Seq<usize>) -> bool {
    &&& chain.len() == path.len()
    &&& forall|i: int|
        0 <= i < chain.len() - 1 ==> (chain[i] matches BlobArray::Lists(slots)
            && #[trigger] path[i] < slots@.len() && slots@[path[i] as int] == Some(chain[i + 1]))
}

/// Whether a slot of an array holds the description of a blob.
pub open spec fn describes_blob(array: BlobArray, slot: usize) -> bool {
    array matches BlobArray::Descriptors(slots) && slot < slots@.len() && slots@[slot as int]
        == Some(false)
}

proof fn lemma_chain_behind(chain: Seq<BlobArray>, path: Seq<usize>)
    requires
        leads_along(chain, path),
        chain.len() > 1,
    ensures
        leads_along(chain.skip(1), path.skip(1)),
        chain.skip(1).last() == chain.last(),
        path.skip(1).last() == path.last(),
{
    let rest = chain.skip(1);
    let way = path.skip(1);
    assert forall|i: int| 0 <= i < rest.len() - 1 implies (rest[i] matches BlobArray::Lists(slots)
        && #[trigger] way[i] < slots@.len() && slots@[way[i] as int] == Some(rest[i + 1])) by {
        assert(way[i] == path[i + 1]);
        assert(rest[i] == chain[i + 1]);
        assert(rest[i + 1] == chain[i + 2]);
    }
}

proof fn lemma_chain_before(array: BlobArray, slot: usize, chain: Seq<BlobArray>, path: Seq<usize>)
    requires
        leads_along(chain, path),
        chain.len() > 0,
        array matches BlobArray::Lists(slots) && slot < slots@.len() && slots@[slot as int] == Some(
            chain[0],
        ),
    ensures
        leads_along(seq![array] + chain, seq![slot] + path),
        (seq![array] + chain).last() == chain.last(),
        (seq![slot] + path).last() == path.last(),
{
    let all = seq![array] + chain;
    let way = seq![slot] + path;
    assert forall|i: int| 0 <= i < all.len() - 1 implies (all[i] matches BlobArray::Lists(slots)
        && #[trigger] way[i] < slots@.len() && slots@[way[i] as int] == Some(all[i + 1])) by {
        if i == 0 {
            assert(all[1] == chain[0]);
        } else {
            assert(way[i] == path[i - 1]);
            assert(all[i] == chain[i - 1]);
            assert(all[i + 1] == chain[i]);
        }
    }
}

proof fn lemma_chain_to_blob(array: BlobArray, slot: usize, path: Seq<usize>) -> (chain: Seq<
    BlobArray,
>)
    requires
        leads_to_blob(array, slot as int, path),
    ensures
        leads_along(chain, seq![slot] + path),
        chain[0] == array,
        describes_blob(chain.last(), (seq![slot] + path).last()),
    decreases path.len(),
{
    if path.len() == 0 {
        assert(seq![slot] + path =~= seq![slot]);
        let chain = seq![array];
        assert(chain.last() == array);
        chain
    } else {
        let values = array->Lists_0@[slot as int]->0;
        let rest = lemma_chain_to_blob(values, path[0], path.skip(1));
        assert(seq![path[0]] + path.skip(1) =~= path);
        lemma_chain_before(array, slot, rest, path);
        seq![array] + rest
    }
}

proof fn lemma_chain_leads(chain: Seq<BlobArray>, way: Seq<usize>)
    requires
        leads_along(chain, way),
        chain.len() > 0,
        describes_blob(chain.last(), way.last()),
    ensures
        leads_to_blob(chain[0], way[0] as int, way.skip(1)),
    decreases chain.len(),
{
    if chain.len() > 1 {
        lemma_chain_behind(chain, way);
        lemma_chain_leads(chain.skip(1), way.skip(1));
        assert(way[0] < chain[0]->Lists_0@.len());
        assert(way.skip(1)[0] == way[1]);
    }
}

/// A row lists a path exactly where the lists that the path names, one inside the
/// other from the slot of the row on, lead to the description of a blob that is
/// not null.
pub proof fn listed_paths_lead_through_the_lists(array: BlobArray, row: usize, path: Seq<usize>)
    ensures
        items_at(array, row as int, Seq::empty()).contains(path) <==> exists|
            chain: Seq<BlobArray>,
        | #[trigger]
            leads_along(chain, seq![row] + path) && chain[0] == array && describes_blob(
                chain.last(),
                (seq![row] + path).last(),
            ),
{
    media_items_are_the_blobs(array, row as int, path);
    if leads_to_blob(array, row as int, path) {
        let chain = lemma_chain_to_blob(array, row, path);
        assert(leads_along(chain, seq![row] + path));
    }
    if exists|chain: Seq<BlobArray>| #[trigger]
        leads_along(chain, seq![row] + path) && chain[0] == array && describes_blob(
            chain.last(),
            (seq![row] + path).last(),
        ) {
        let way = seq![row] + path;
        let chain = choose|chain: Seq<BlobArray>| #[trigger]
            leads_along(chain, seq![row] + path) && chain[0] == array && describes_blob(
                chain.last(),
                (seq![row] + path).last(),
            );
        lemma_chain_leads(chain, way);
        assert(way.skip(1) =~= path);
    }
}

/// A list is found in a slot exactly where the slot is there, is not null, and is
/// one of an array of lists.
pub proof fn lists_are_found_where_they_are(array: BlobArray, index: usize, column: Seq<char>)
    ensures
        list_fault(array, index as int, column) is None <==> (array matches BlobArray::Lists(slots)
            && index < slots@.len() && slots@[index as int] is Some),
{
}

/// A path that is written as its numbers, in decimal and with commas between
/// them, is read as those numbers.
pub proof fn written_paths_are_read_back(
    numbers: Seq<usize>,
    text: &str,
    path: Result<Vec<usize>, ApiError>,
)
    requires
        numbers.len() > 0,
        text@ == joined(numbers.map_values(|n: usize| decimal(n as nat)), seq![',']),
        is_index_path(Some(text), path),
    ensures
        path matches Ok(indices) && indices@ == numbers,
{
    let written = numbers.map_values(|n: usize| decimal(n as nat));
    assert forall|i: int| 0 <= i < written.len() implies !(#[trigger] written[i]).contains(',') by {
        decimals_have_no_leading_zeros(numbers[i] as nat);
        assert(written[i] == decimal(numbers[i] as nat));
    }
    splitting_undoes_joining(written, ',');
    let pieces = parts(text@, ',');
    assert forall|i: int| 0 <= i < pieces.len() implies number(
        #[trigger] pieces[i],
        usize::MAX as nat,
    ) == Some(numbers[i] as nat) && number_fault(pieces[i], usize::MAX as nat) is None by {
        assert(pieces[i] == decimal(numbers[i] as nat));
        decimal_reads_back(numbers[i] as nat, usize::MAX as nat);
        crate::number::number_or_fault(pieces[i], usize::MAX as nat);
    }
    match path {
        Ok(indices) => {
            assert forall|i: int| 0 <= i < numbers.len() implies indices@[i] == numbers[i] by {
                assert(number(pieces[i], usize::MAX as nat) == Some(indices@[i] as nat));
            }
            assert(indices@ =~= numbers);
        },
        Err(_) => {},
    }
}

/// A path is read only where each piece between the commas is a number, and its
/// places are those numbers in their order.
pub proof fn read_paths_are_written_so(text: &str, indices: Vec<usize>, i: int)
    requires
        is_index_path(Some(text), Ok::<Vec<usize>, ApiError>(indices)),
        0 <= i < indices@.len(),
    ensures
        indices@.len() == parts(text@, ',').len(),
        number(parts(text@, ',')[i], usize::MAX as nat) == Some(indices@[i] as nat),
{
}

/// Images, audio and video are served as what they are, and nothing else is but
/// for MPEG-4 containers, which are served as video.
pub proof fn only_media_are_served_as_what_they_are(
    kind: FormatKind,
    media_type: Seq<char>,
    mpeg4: bool,
)
    ensures
        kind is Image || kind is Audio || kind is Video ==> served_type(kind, media_type, mpeg4)
            == media_type,
        kind is Other && mpeg4 ==> served_type(kind, media_type, mpeg4) == "video/mp4"@,
        kind is Other && !mpeg4 ==> served_type(kind, media_type, mpeg4)
            == "application/octet-stream"@,
{
}

/// The media type of bytes is told by their format alone.
pub proof fn media_types_are_told_by_the_format(bytes: Seq<u8>)
    ensures
        detected_format(bytes).0 != FormatKind::Other ==> media_type_in(bytes) == detected_format(
            bytes,
        ).1,
        detected_format(bytes).0 == FormatKind::Other ==> media_type_in(bytes) == (
        if detected_format(bytes).2 {
            "video/mp4"@
        } else {
            "application/octet-stream"@
        }),
{
}

/// What a client reads names the slot that they asked for, the column and what
/// there is.
pub proof fn faults_of_slots_are_named(index: nat, column: Seq<char>, count: nat)
    ensures
        outside_message(index, column, count) == "blob index "@ + decimal(index)
            + " is outside column "@ + column + " with "@ + decimal(count) + " items"@,
        null_message(index) == "blob array item "@ + decimal(index) + " is null"@,
        depth_message(column) == "column "@ + column
            + " does not contain the requested blob array depth"@,
{
}

} // verus!
