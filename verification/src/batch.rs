//! Batches of rows: which can be written, and how their columns are.

use arrow_array::{make_array, Array, ArrayRef, RecordBatch};
use arrow_json::ArrayWriter;
use arrow_schema::{DataType as ArrowType, FieldRef};
use vstd::prelude::*;

verus! {

/// `arrow_array::RecordBatch`, a batch of rows.
#[verifier::external_body]
pub struct Batch {
    pub batch: RecordBatch,
}

/// `arrow_schema::FieldRef` and `arrow_array::ArrayRef`, a column of a batch and
/// what describes it, or values that stand in one.
#[verifier::external_body]
pub struct Column {
    field: FieldRef,
    array: ArrayRef,
}

/// What the numbers of points in time count.
#[derive(Debug, Clone, Copy, PartialEq, Eq, Structural)]
pub enum TimeUnit {
    Second,
    Millisecond,
    Microsecond,
    Nanosecond,
}

/// The units in the order in which `arrow_schema::TimeUnit` lists them.
pub const TIME_UNITS: [TimeUnit; 4] = [
    TimeUnit::Second,
    TimeUnit::Millisecond,
    TimeUnit::Microsecond,
    TimeUnit::Nanosecond,
];

/// What a column holds, as far as that decides whether it can be written.
#[derive(Debug)]
pub enum ColumnKind<L> {
    /// Nothing but nulls, by its type.
    Nulls,
    /// So many keys into the values below, and how many of them are null.
    Dictionary(usize, usize),
    /// Runs of the values below.
    Runs,
    /// Points in time that have a time zone.
    Zoned(TimeUnit, L),
    /// Anything else.
    Other,
}

/// A column, and those that it is made of.
#[derive(Debug)]
pub struct ColumnTree {
    pub kind: ColumnKind<Vec<i64>>,
    pub children: Vec<ColumnTree>,
}

/// What a [`ColumnTree`] is, with its lists as sequences.
pub struct ColumnShape {
    pub kind: ColumnKind<Seq<i64>>,
    pub children: Seq<ColumnShape>,
}

/// What a kind is, with its list as a sequence.
pub open spec fn kind_shape(kind: ColumnKind<Vec<i64>>) -> ColumnKind<Seq<i64>> {
    match kind {
        ColumnKind::Nulls => ColumnKind::Nulls,
        ColumnKind::Dictionary(keys, nulls) => ColumnKind::Dictionary(keys, nulls),
        ColumnKind::Runs => ColumnKind::Runs,
        ColumnKind::Zoned(unit, values) => ColumnKind::Zoned(unit, values@),
        ColumnKind::Other => ColumnKind::Other,
    }
}

/// The shape of a tree.
pub open spec fn tree_shape(tree: ColumnTree) -> ColumnShape
    decreases tree, 1nat, 0nat,
{
    ColumnShape {
        kind: kind_shape(tree.kind),
        children: child_shapes(tree, tree.children@.len()),
    }
}

/// The shapes of the first `n` children of a tree.
pub open spec fn child_shapes(tree: ColumnTree, n: nat) -> Seq<ColumnShape>
    decreases tree, 0nat, n,
    when n <= tree.children@.len()
{
    if n == 0 {
        Seq::empty()
    } else {
        child_shapes(tree, (n - 1) as nat).push(tree_shape(tree.children@[n - 1]))
    }
}

proof fn lemma_child_shapes(tree: ColumnTree, n: nat)
    requires
        n <= tree.children@.len(),
    ensures
        child_shapes(tree, n).len() == n,
        forall|i: int|
            0 <= i < n ==> #[trigger] child_shapes(tree, n)[i] == tree_shape(tree.children@[i]),
    decreases n,
{
    if n > 0 {
        lemma_child_shapes(tree, (n - 1) as nat);
    }
}

/// The first second that a date can be given for, counted from 1970.
pub const FIRST_SECOND: i64 = -8_334_601_228_800;

/// The second after the last one that a date can be given for.
pub const END_SECOND: i64 = 8_210_266_876_800;

/// The seconds of a day.
pub const DAY: i64 = 86_400;

/// How many of a unit make up a second.
pub open spec fn units_per_second(unit: TimeUnit) -> int {
    match unit {
        TimeUnit::Second => 1,
        TimeUnit::Millisecond => 1_000,
        TimeUnit::Microsecond => 1_000_000,
        TimeUnit::Nanosecond => 1_000_000_000,
    }
}

/// Whether a point in time is on the first or on the last day that there is, so
/// that some time zone has no date for it.
pub open spec fn on_last_days(value: int, unit: TimeUnit) -> bool {
    let scale = units_per_second(unit);
    ||| FIRST_SECOND * scale <= value < (FIRST_SECOND + DAY) * scale
    ||| (END_SECOND - DAY) * scale <= value < END_SECOND * scale
}

/// Whether there can be slots without a value to write, not even one to be passed
/// over: nulls by type, and null keys, which need not lead anywhere.
pub open spec fn has_void_slots(shape: ColumnShape) -> bool
    decreases shape,
{
    match shape.kind {
        ColumnKind::Nulls => true,
        ColumnKind::Dictionary(_, nulls) => nulls > 0 || (shape.children.len() > 0
            && has_void_slots(shape.children.last())),
        ColumnKind::Runs => shape.children.len() > 0 && has_void_slots(shape.children.last()),
        _ => false,
    }
}

/// Whether a column can be written: no key of a dictionary leads to values among
/// which there can be void slots, and no point in time with a zone is on the
/// first or the last day.
pub open spec fn can_be_written(shape: ColumnShape) -> bool
    decreases shape,
{
    &&& shape.kind matches ColumnKind::Dictionary(keys, nulls) ==> keys == nulls
        || shape.children.len() == 0 || !has_void_slots(shape.children.last())
    &&& shape.kind matches ColumnKind::Zoned(unit, values) ==> forall|i: int|
        0 <= i < values.len() ==> !on_last_days(#[trigger] values[i] as int, unit)
    &&& forall|i: int|
        0 <= i < shape.children.len() ==> can_be_written(#[trigger] shape.children[i])
}

/// Whether a point in time is on the first or on the last day that there is.
fn is_on_last_days(value: i64, unit: TimeUnit) -> (found: bool)
    ensures
        found == on_last_days(value as int, unit),
{
    let scale: i128 = match unit {
        TimeUnit::Second => 1,
        TimeUnit::Millisecond => 1_000,
        TimeUnit::Microsecond => 1_000_000,
        TimeUnit::Nanosecond => 1_000_000_000,
    };
    let first: i128 = FIRST_SECOND as i128;
    let end: i128 = END_SECOND as i128;
    let day: i128 = DAY as i128;
    let value: i128 = value as i128;
    (first * scale <= value && value < (first + day) * scale) || ((end - day) * scale <= value
        && value < end * scale)
}

/// Whether there can be slots without a value to write.
fn may_have_void_slots(tree: &ColumnTree) -> (found: bool)
    ensures
        found == has_void_slots(tree_shape(*tree)),
    decreases tree,
{
    proof {
        lemma_child_shapes(*tree, tree.children@.len());
    }
    match &tree.kind {
        ColumnKind::Nulls => true,
        ColumnKind::Dictionary(_, _) | ColumnKind::Runs => {
            if let ColumnKind::Dictionary(_, nulls) = &tree.kind {
                if *nulls > 0 {
                    return true;
                }
            }
            let count: usize = tree.children.len();
            if count == 0 {
                false
            } else {
                assert(decreases_to!(*tree => tree.children@[count - 1]));
                may_have_void_slots(&tree.children[count - 1])
            }
        },
        _ => false,
    }
}

/// Whether a column can be written.
pub fn is_writable(tree: &ColumnTree) -> (writable: bool)
    ensures
        writable == can_be_written(tree_shape(*tree)),
    decreases tree,
{
    let ghost shape = tree_shape(*tree);
    proof {
        lemma_child_shapes(*tree, tree.children@.len());
    }
    let count: usize = tree.children.len();
    if let ColumnKind::Dictionary(keys, nulls) = &tree.kind {
        if *keys != *nulls && count > 0 && may_have_void_slots(&tree.children[count - 1]) {
            return false;
        }
    }
    if let ColumnKind::Zoned(unit, values) = &tree.kind {
        let mut k: usize = 0;
        while k < values.len()
            invariant
                k <= values@.len(),
                shape == tree_shape(*tree),
                shape.kind == ColumnKind::Zoned(*unit, values@),
                forall|j: int| 0 <= j < k ==> !on_last_days(#[trigger] values@[j] as int, *unit),
            decreases values@.len() - k,
        {
            if is_on_last_days(values[k], *unit) {
                assert(on_last_days(shape.kind->Zoned_1[k as int] as int, *unit));
                return false;
            }
            k += 1;
        }
    }
    let mut i: usize = 0;
    while i < count
        invariant
            i <= count,
            count == tree.children@.len(),
            shape == tree_shape(*tree),
            shape.children.len() == count,
            forall|j: int|
                0 <= j < count ==> #[trigger] shape.children[j] == tree_shape(tree.children@[j]),
            forall|j: int| 0 <= j < i ==> can_be_written(#[trigger] shape.children[j]),
        decreases count - i,
    {
        assert(decreases_to!(*tree => tree.children@[i as int]));
        if !is_writable(&tree.children[i]) {
            assert(!can_be_written(shape.children[i as int]));
            return false;
        }
        i += 1;
    }
    true
}

/// The columns of a batch.
pub uninterp spec fn batch_columns(batch: Batch) -> Seq<Column>;

/// What a column holds.
pub uninterp spec fn column_shape(column: Column) -> ColumnShape;

/// A batch of the columns at these places of another, or why there is none.
pub uninterp spec fn projection(batch: Batch, indices: Seq<usize>) -> Result<Batch, Seq<char>>;

/// A batch as a JSON array with an object for each row, or why it cannot be
/// written.
pub uninterp spec fn batch_json(batch: Batch) -> Result<Seq<u8>, Seq<char>>;

/// Reads the fields and the columns of a `RecordBatch`.
#[verifier::external_body]
fn read_columns(batch: &Batch) -> (columns: Vec<Column>)
    ensures
        columns@ == batch_columns(*batch),
{
    let schema = batch.batch.schema();
    let columns = schema.fields().iter().zip(batch.batch.columns());
    columns.map(|(field, array)| Column { field: field.clone(), array: array.clone() }).collect()
}

/// Reads an `ArrayRef`: whether its type is the null type, a dictionary, with
/// the numbers of its keys and of the null ones, runs, or a timestamp with a
/// zone, with its values, null slots and all; and, below it, the arrays that it
/// is made of, the values of a dictionary or of runs last.
#[verifier::external_body]
fn read_column(column: &Column) -> (tree: ColumnTree)
    ensures
        tree_shape(tree) == column_shape(*column),
{
    let (data, field) = (column.array.to_data(), &column.field);
    let kind = match data.data_type() {
        ArrowType::Null => ColumnKind::Nulls,
        ArrowType::Dictionary(_, _) => ColumnKind::Dictionary(data.len(), data.null_count()),
        ArrowType::RunEndEncoded(_, _) => ColumnKind::Runs,
        ArrowType::Timestamp(unit, Some(_)) => {
            ColumnKind::Zoned(TIME_UNITS[*unit as usize], data.buffer::<i64>(0).to_vec())
        },
        _ => ColumnKind::Other,
    };
    let below = data.child_data().iter().map(|child| make_array(child.clone()));
    let children = below.map(|array| read_column(&Column { field: field.clone(), array })).collect();
    ColumnTree { kind, children }
}

/// Whether two results are the same, failure by its text.
pub open spec fn same_batch(
    found: Result<Batch, String>,
    named: Result<Batch, Seq<char>>,
) -> bool {
    match (found, named) {
        (Ok(a), Ok(b)) => a == b,
        (Err(a), Err(b)) => a@ == b,
        _ => false,
    }
}

/// Whether two results are the same, success by bytes and failure by its text.
pub open spec fn same_bytes(
    found: Result<Vec<u8>, String>,
    named: Result<Seq<u8>, Seq<char>>,
) -> bool {
    match (found, named) {
        (Ok(a), Ok(b)) => a@ == b,
        (Err(a), Err(b)) => a@ == b,
        _ => false,
    }
}

/// Whether each of these is the place of a column.
pub open spec fn are_places_of(indices: Seq<usize>, columns: Seq<Column>) -> bool {
    forall|k: int| 0 <= k < indices.len() ==> #[trigger] indices[k] < columns.len()
}

/// The columns at these places.
pub open spec fn columns_at(columns: Seq<Column>, indices: Seq<usize>) -> Seq<Column> {
    indices.map_values(|i: usize| columns[i as int])
}

/// `RecordBatch::project` gives the columns at these places, in their order,
/// where there is a column at each. The text of its failure is a function of its
/// arguments.
#[verifier::external_body]
pub(crate) fn project(batch: &Batch, indices: &Vec<usize>) -> (projected: Result<Batch, String>)
    ensures
        same_batch(projected, projection(*batch, indices@)),
        projected is Ok <==> are_places_of(indices@, batch_columns(*batch)),
        projected matches Ok(chosen) ==> batch_columns(chosen) == columns_at(
            batch_columns(*batch),
            indices@,
        ),
{
    let projected = batch.batch.project(indices).map_err(|error| error.to_string())?;
    Ok(Batch { batch: projected })
}

/// Whether every column can be written.
pub open spec fn all_can_be_written(columns: Seq<Column>) -> bool {
    forall|i: int|
        0 <= i < columns.len() ==> can_be_written(column_shape(#[trigger] columns[i]))
}

/// `ArrayWriter` writes a batch as a JSON array: a function of the batch alone.
/// It follows a key without asking whether what it leads to is null, and panics
/// where that is of the null type or again a key that is null; and it panics on a
/// point in time for which the zone has no date. Which text stands for which
/// values is left unsaid.
#[verifier::external_body]
pub(crate) fn write_batch(batch: &Batch) -> (text: Result<Vec<u8>, String>)
    requires
        all_can_be_written(batch_columns(*batch)),
    ensures
        same_bytes(text, batch_json(*batch)),
{
    let mut output = Vec::new();
    let mut writer = ArrayWriter::new(&mut output);
    writer.write(&batch.batch).map_err(|error| error.to_string())?;
    writer.finish().map_err(|error| error.to_string())?;
    Ok(output)
}

/// Whether the columns at these places can be written, where there are some.
pub open spec fn rows_can_be_written(batch: Batch, indices: Seq<usize>) -> bool {
    let columns = batch_columns(batch);
    forall|k: int|
        0 <= k < indices.len() && #[trigger] indices[k] < columns.len() ==> can_be_written(
            column_shape(columns[indices[k] as int]),
        )
}

/// Whether the columns at these places can be written, where there are some.
pub fn can_write_rows(batch: &Batch, indices: &Vec<usize>) -> (writable: bool)
    ensures
        writable == rows_can_be_written(*batch, indices@),
{
    let columns = read_columns(batch);
    let mut k: usize = 0;
    while k < indices.len()
        invariant
            k <= indices@.len(),
            columns@ == batch_columns(*batch),
            forall|j: int|
                0 <= j < k && #[trigger] indices@[j] < columns@.len() ==> can_be_written(
                    column_shape(columns@[indices@[j] as int]),
                ),
        decreases indices@.len() - k,
    {
        let place: usize = indices[k];
        if place < columns.len() {
            let tree = read_column(&columns[place]);
            if !is_writable(&tree) {
                assert(indices@[k as int] < columns@.len());
                return false;
            }
        }
        k += 1;
    }
    true
}

/// Columns of plain values can be written, however they are nested: only keys of
/// dictionaries and points in time with a zone stand in the way.
pub proof fn plain_columns_can_be_written(shape: ColumnShape)
    requires
        shape.kind is Nulls || shape.kind is Runs || shape.kind is Other,
    ensures
        can_be_written(shape) <==> forall|i: int|
            0 <= i < shape.children.len() ==> can_be_written(#[trigger] shape.children[i]),
{
}

/// Points in time with a zone can be written unless they are on the first or on the
/// last day for which there are dates.
pub proof fn points_in_time_can_be_written(shape: ColumnShape, unit: TimeUnit, values: Seq<i64>)
    requires
        shape.kind == ColumnKind::Zoned(unit, values),
        shape.children.len() == 0,
    ensures
        ({
            let scale: int = match unit {
                TimeUnit::Second => 1,
                TimeUnit::Millisecond => 1_000,
                TimeUnit::Microsecond => 1_000_000,
                TimeUnit::Nanosecond => 1_000_000_000,
            };
            can_be_written(shape) <==> forall|i: int|
                0 <= i < values.len() ==> {
                    ||| #[trigger] values[i] < -8_334_601_228_800 * scale
                    ||| -8_334_601_142_400 * scale <= values[i] < 8_210_266_790_400 * scale
                    ||| values[i] >= 8_210_266_876_800 * scale
                }
        }),
{
    let scale: int = units_per_second(unit);
    assert forall|i: int| 0 <= i < values.len() implies (!on_last_days(
        #[trigger] values[i] as int,
        unit,
    ) <==> {
        ||| values[i] < -8_334_601_228_800 * scale
        ||| -8_334_601_142_400 * scale <= values[i] < 8_210_266_790_400 * scale
        ||| values[i] >= 8_210_266_876_800 * scale
    }) by {}
    if can_be_written(shape) {
        assert forall|i: int| 0 <= i < values.len() implies !on_last_days(
            #[trigger] values[i] as int,
            unit,
        ) by {
            assert(shape.kind->Zoned_1[i] == values[i]);
        }
    }
}

/// A dictionary of plain values can be written where its values can.
pub proof fn dictionaries_of_values_can_be_written(shape: ColumnShape, keys: usize, nulls: usize)
    requires
        shape.kind == ColumnKind::<Seq<i64>>::Dictionary(keys, nulls),
        shape.children.len() == 1,
        shape.children[0].kind is Other || shape.children[0].kind is Zoned,
    ensures
        can_be_written(shape) <==> can_be_written(shape.children[0]),
{
    assert(shape.children.last() == shape.children[0]);
}

} // verus!
