//! Transactions of a dataset, and how they are shown.

use vstd::prelude::*;

use crate::error::ApiError;
use crate::names::{collect_map, mapped, TextMap};
use crate::text::{chars_of, ends_with};

verus! {

/// A JSON value. The members of an object have different names.
#[derive(Debug)]
pub enum Json {
    Null,
    Bool(bool),
    Number(u64),
    Text(String),
    List(Vec<Json>),
    Object(Vec<(String, Json)>),
}

/// What a JSON value holds.
pub enum JsonView {
    Null,
    Bool(bool),
    Number(nat),
    Text(Seq<char>),
    List(Seq<JsonView>),
    Object(Seq<(Seq<char>, JsonView)>),
}

impl View for Json {
    type V = JsonView;

    open spec fn view(&self) -> JsonView {
        json_view(*self)
    }
}

/// What a JSON value holds.
pub open spec fn json_view(json: Json) -> JsonView
    decreases json,
{
    match json {
        Json::Null => JsonView::Null,
        Json::Bool(value) => JsonView::Bool(value),
        Json::Number(value) => JsonView::Number(value as nat),
        Json::Text(text) => JsonView::Text(text@),
        Json::List(items) => JsonView::List(
            Seq::new(
                items@.len(),
                |i: int|
                    if 0 <= i < items@.len() {
                        json_view(items@[i])
                    } else {
                        JsonView::Null
                    },
            ),
        ),
        Json::Object(members) => JsonView::Object(
            Seq::new(
                members@.len(),
                |i: int|
                    if 0 <= i < members@.len() {
                        (members@[i].0@, json_view(members@[i].1))
                    } else {
                        (Seq::empty(), JsonView::Null)
                    },
            ),
        ),
    }
}

/// The views of JSON values.
pub open spec fn json_views(items: Seq<Json>) -> Seq<JsonView> {
    items.map_values(|item: Json| item@)
}

/// The views of the members of a JSON object.
pub open spec fn member_views(members: Seq<(String, Json)>) -> Seq<(Seq<char>, JsonView)> {
    members.map_values(|member: (String, Json)| (member.0@, member.1@))
}

/// A list holds its items.
proof fn lemma_list_view(items: Vec<Json>)
    ensures
        Json::List(items)@ == JsonView::List(json_views(items@)),
{
    assert(Json::List(items)@->List_0 =~= json_views(items@));
}

/// An object holds its members.
proof fn lemma_object_view(members: Vec<(String, Json)>)
    ensures
        Json::Object(members)@ == JsonView::Object(member_views(members@)),
{
    assert(Json::Object(members)@->Object_0 =~= member_views(members@));
}

/// A text as a JSON value, and nothing as null.
pub open spec fn text_json(text: Option<Seq<char>>) -> JsonView {
    match text {
        Some(value) => JsonView::Text(value),
        None => JsonView::Null,
    }
}

/// A number as a JSON value, and nothing as null.
pub open spec fn number_json(number: Option<nat>) -> JsonView {
    match number {
        Some(value) => JsonView::Number(value),
        None => JsonView::Null,
    }
}

/// Texts as a JSON list.
pub open spec fn texts_json(texts: Seq<String>) -> JsonView {
    JsonView::List(texts.map_values(|text: String| JsonView::Text(text@)))
}

/// The view of a text that may be missing.
pub open spec fn text_view(text: Option<String>) -> Option<Seq<char>> {
    match text {
        Some(value) => Some(value@),
        None => None,
    }
}

/// The number that a count is, where there is one.
pub open spec fn count_view(count: Option<usize>) -> Option<nat> {
    match count {
        Some(value) => Some(value as nat),
        None => None,
    }
}

fn optional_text(text: &Option<String>) -> (json: Json)
    ensures
        json@ == text_json(text_view(*text)),
{
    match text {
        Some(value) => Json::Text(value.clone()),
        None => Json::Null,
    }
}

fn optional_count(count: Option<usize>) -> (json: Json)
    ensures
        json@ == number_json(count_view(count)),
{
    match count {
        Some(value) => Json::Number(value as u64),
        None => Json::Null,
    }
}

fn text_list(texts: &Vec<String>) -> (json: Json)
    ensures
        json@ == texts_json(texts@),
{
    let mut items: Vec<Json> = Vec::new();
    let mut i: usize = 0;
    while i < texts.len()
        invariant
            i <= texts@.len(),
            items@.len() == i,
            forall|j: int| 0 <= j < i ==> (#[trigger] items@[j])@ == JsonView::Text(texts@[j]@),
        decreases texts@.len() - i,
    {
        items.push(Json::Text(texts[i].clone()));
        i += 1;
    }
    proof {
        lemma_list_view(items);
        assert(json_views(items@) =~= texts@.map_values(|text: String| JsonView::Text(text@)));
    }
    Json::List(items)
}

fn number_list(numbers: &Vec<u64>) -> (json: Json)
    ensures
        json@ == JsonView::List(numbers@.map_values(|n: u64| JsonView::Number(n as nat))),
{
    let mut items: Vec<Json> = Vec::new();
    let mut i: usize = 0;
    while i < numbers.len()
        invariant
            i <= numbers@.len(),
            items@.len() == i,
            forall|j: int|
                0 <= j < i ==> (#[trigger] items@[j])@ == JsonView::Number(numbers@[j] as nat),
        decreases numbers@.len() - i,
    {
        items.push(Json::Number(numbers[i]));
        i += 1;
    }
    proof {
        lemma_list_view(items);
        assert(json_views(items@) =~= numbers@.map_values(|n: u64| JsonView::Number(n as nat)));
    }
    Json::List(items)
}

/// A fragment that a transaction names.
#[derive(Debug)]
pub struct Fragment {
    pub id: u64,
    pub physical_rows: Option<usize>,
    pub visible_rows: Option<usize>,
    /// The paths of its data files.
    pub data_files: Vec<String>,
    pub deletion_count: Option<usize>,
}

/// How a fragment of a transaction is shown.
pub open spec fn fragment_json_view(fragment: Fragment) -> JsonView {
    JsonView::Object(
        seq![
            ("id"@, JsonView::Number(fragment.id as nat)),
            ("physical_rows"@, number_json(count_view(fragment.physical_rows))),
            ("visible_rows"@, number_json(count_view(fragment.visible_rows))),
            ("data_files"@, texts_json(fragment.data_files@)),
            ("deletion_count"@, number_json(count_view(fragment.deletion_count))),
        ],
    )
}

/// Shows a fragment of a transaction.
pub fn fragment_json(fragment: &Fragment) -> (json: Json)
    ensures
        json@ == fragment_json_view(*fragment),
{
    let mut members: Vec<(String, Json)> = Vec::new();
    members.push(("id".to_owned(), Json::Number(fragment.id)));
    members.push(("physical_rows".to_owned(), optional_count(fragment.physical_rows)));
    members.push(("visible_rows".to_owned(), optional_count(fragment.visible_rows)));
    members.push(("data_files".to_owned(), text_list(&fragment.data_files)));
    members.push(("deletion_count".to_owned(), optional_count(fragment.deletion_count)));
    proof {
        lemma_object_view(members);
        assert(member_views(members@) =~= fragment_json_view(*fragment)->Object_0);
    }
    Json::Object(members)
}

/// How fragments of a transaction are shown.
pub open spec fn fragments_json_view(fragments: Seq<Fragment>) -> JsonView {
    JsonView::List(fragments.map_values(|fragment: Fragment| fragment_json_view(fragment)))
}

fn fragment_list(fragments: &Vec<Fragment>) -> (json: Json)
    ensures
        json@ == fragments_json_view(fragments@),
{
    let mut items: Vec<Json> = Vec::new();
    let mut i: usize = 0;
    while i < fragments.len()
        invariant
            i <= fragments@.len(),
            items@.len() == i,
            forall|j: int|
                0 <= j < i ==> (#[trigger] items@[j])@ == fragment_json_view(fragments@[j]),
        decreases fragments@.len() - i,
    {
        items.push(fragment_json(&fragments[i]));
        i += 1;
    }
    proof {
        lemma_list_view(items);
        assert(json_views(items@) =~= fragments_json_view(fragments@)->List_0);
    }
    Json::List(items)
}

/// What a transaction does.
#[derive(Debug)]
pub enum Operation {
    Append { fragments: Vec<Fragment> },
    Delete {
        updated_fragments: Vec<Fragment>,
        deleted_fragment_ids: Vec<u64>,
        predicate: String,
    },
    Overwrite {
        fragments: Vec<Fragment>,
        schema_fields: Vec<String>,
        config_upsert_values: Option<Vec<(String, String)>>,
        /// The storage bases, as they are written.
        initial_bases: Option<String>,
    },
    Clone {
        is_shallow: bool,
        ref_name: Option<String>,
        ref_version: u64,
        ref_path: String,
        branch_name: Option<String>,
    },
    Restore { version: u64 },
    ReserveFragments { num_fragments: u32 },
    /// Any other operation, in short and in full.
    Other { summary: String, details: String },
}

/// Pairs of texts as the members of a JSON object.
pub open spec fn pairs_json(pairs: Seq<(String, String)>) -> JsonView {
    JsonView::Object(
        pairs.map_values(|pair: (String, String)| (pair.0@, JsonView::Text(pair.1@))),
    )
}

fn pair_object(pairs: &Vec<(String, String)>) -> (json: Json)
    ensures
        json@ == pairs_json(pairs@),
{
    let mut members: Vec<(String, Json)> = Vec::new();
    let mut i: usize = 0;
    while i < pairs.len()
        invariant
            i <= pairs@.len(),
            members@.len() == i,
            forall|j: int|
                0 <= j < i ==> (#[trigger] members@[j]).0@ == pairs@[j].0@ && members@[j].1@
                    == JsonView::Text(pairs@[j].1@),
        decreases pairs@.len() - i,
    {
        members.push((pairs[i].0.clone(), Json::Text(pairs[i].1.clone())));
        i += 1;
    }
    proof {
        lemma_object_view(members);
        assert(member_views(members@) =~= pairs_json(pairs@)->Object_0);
    }
    Json::Object(members)
}

/// How an operation is shown.
pub open spec fn operation_json_view(operation: Operation) -> JsonView {
    JsonView::Object(
        match operation {
            Operation::Append { fragments } => seq![
                ("fragment_count"@, JsonView::Number(fragments@.len())),
                ("fragments"@, fragments_json_view(fragments@)),
            ],
            Operation::Delete { updated_fragments, deleted_fragment_ids, predicate } => seq![
                ("predicate"@, JsonView::Text(predicate@)),
                ("updated_fragments"@, fragments_json_view(updated_fragments@)),
                (
                    "deleted_fragment_ids"@,
                    JsonView::List(
                        deleted_fragment_ids@.map_values(|n: u64| JsonView::Number(n as nat)),
                    ),
                ),
            ],
            Operation::Overwrite {
                fragments,
                schema_fields,
                config_upsert_values,
                initial_bases,
            } => seq![
                ("fragment_count"@, JsonView::Number(fragments@.len())),
                ("fragments"@, fragments_json_view(fragments@)),
                ("schema_fields"@, texts_json(schema_fields@)),
                (
                    "config_upsert_values"@,
                    match config_upsert_values {
                        Some(pairs) => pairs_json(pairs@),
                        None => JsonView::Null,
                    },
                ),
                ("initial_bases"@, text_json(text_view(initial_bases))),
            ],
            Operation::Clone { is_shallow, ref_name, ref_version, ref_path, branch_name } => seq![
                ("is_shallow"@, JsonView::Bool(is_shallow)),
                ("source_reference"@, text_json(text_view(ref_name))),
                ("source_version"@, JsonView::Number(ref_version as nat)),
                ("source_path"@, JsonView::Text(ref_path@)),
                ("branch_name"@, text_json(text_view(branch_name))),
            ],
            Operation::Restore { version } => seq![
                ("restored_version"@, JsonView::Number(version as nat)),
            ],
            Operation::ReserveFragments { num_fragments } => seq![
                ("reserved_fragment_count"@, JsonView::Number(num_fragments as nat)),
            ],
            Operation::Other { summary, details } => seq![
                ("summary"@, JsonView::Text(summary@)),
                ("details"@, JsonView::Text(details@)),
            ],
        },
    )
}

/// Shows an operation.
pub fn operation_json(operation: &Operation) -> (json: Json)
    ensures
        json@ == operation_json_view(*operation),
{
    let mut members: Vec<(String, Json)> = Vec::new();
    match operation {
        Operation::Append { fragments } => {
            members.push(("fragment_count".to_owned(), Json::Number(fragments.len() as u64)));
            members.push(("fragments".to_owned(), fragment_list(fragments)));
        },
        Operation::Delete { updated_fragments, deleted_fragment_ids, predicate } => {
            members.push(("predicate".to_owned(), Json::Text(predicate.clone())));
            members.push(("updated_fragments".to_owned(), fragment_list(updated_fragments)));
            members.push(("deleted_fragment_ids".to_owned(), number_list(deleted_fragment_ids)));
        },
        Operation::Overwrite { fragments, schema_fields, config_upsert_values, initial_bases } => {
            members.push(("fragment_count".to_owned(), Json::Number(fragments.len() as u64)));
            members.push(("fragments".to_owned(), fragment_list(fragments)));
            members.push(("schema_fields".to_owned(), text_list(schema_fields)));
            let config = match config_upsert_values {
                Some(pairs) => pair_object(pairs),
                None => Json::Null,
            };
            members.push(("config_upsert_values".to_owned(), config));
            members.push(("initial_bases".to_owned(), optional_text(initial_bases)));
        },
        Operation::Clone { is_shallow, ref_name, ref_version, ref_path, branch_name } => {
            members.push(("is_shallow".to_owned(), Json::Bool(*is_shallow)));
            members.push(("source_reference".to_owned(), optional_text(ref_name)));
            members.push(("source_version".to_owned(), Json::Number(*ref_version)));
            members.push(("source_path".to_owned(), Json::Text(ref_path.clone())));
            members.push(("branch_name".to_owned(), optional_text(branch_name)));
        },
        Operation::Restore { version } => {
            members.push(("restored_version".to_owned(), Json::Number(*version)));
        },
        Operation::ReserveFragments { num_fragments } => {
            members.push(
                ("reserved_fragment_count".to_owned(), Json::Number(*num_fragments as u64)),
            );
        },
        Operation::Other { summary, details } => {
            members.push(("summary".to_owned(), Json::Text(summary.clone())));
            members.push(("details".to_owned(), Json::Text(details.clone())));
        },
    }
    proof {
        lemma_object_view(members);
        assert(member_views(members@) =~= operation_json_view(*operation)->Object_0);
    }
    Json::Object(members)
}

/// Checks that a path is one of a transaction file.
pub fn check_transaction_path(path: &str) -> (checked: Result<(), ApiError>)
    ensures
        checked is Ok <==> ".txn"@.is_suffix_of(path@),
        checked matches Err(error) ==> error.is_plain("transaction path must end in .txn"@),
{
    let chars = chars_of(path);
    if ends_with(chars.as_slice(), ".txn") {
        Ok(())
    } else {
        Err(ApiError::plain("transaction path must end in .txn".to_owned()))
    }
}

/// A transaction, as its file records it.
#[derive(Debug)]
pub struct TransactionRecord {
    pub read_version: u64,
    pub uuid: String,
    pub tag: Option<String>,
    pub properties: Option<Vec<(String, String)>>,
    /// The name of the operation.
    pub operation_type: String,
    pub operation: Operation,
}

/// A transaction, for a client.
#[derive(Debug)]
pub struct TransactionView {
    pub path: String,
    pub read_version: u64,
    pub uuid: String,
    pub tag: Option<String>,
    pub properties: TextMap<String>,
    pub operation_type: String,
    pub operation: Json,
}

/// Shows a transaction.
pub fn transaction_view(path: &str, record: TransactionRecord) -> (view: TransactionView)
    ensures
        view.path@ == path@,
        view.read_version == record.read_version,
        view.uuid == record.uuid,
        view.tag == record.tag,
        view.properties.valid(),
        view.properties@ == (match record.properties {
            Some(pairs) => mapped(pairs@),
            None => Map::<Seq<char>, String>::empty(),
        }),
        view.operation_type == record.operation_type,
        view.operation@ == operation_json_view(record.operation),
{
    let operation = operation_json(&record.operation);
    let properties = match record.properties {
        Some(pairs) => collect_map(pairs),
        None => TextMap::new(),
    };
    TransactionView {
        path: path.to_owned(),
        read_version: record.read_version,
        uuid: record.uuid,
        tag: record.tag,
        properties,
        operation_type: record.operation_type,
        operation,
    }
}

/// The names of the members of an object.
pub open spec fn member_names(json: JsonView) -> Seq<Seq<char>> {
    match json {
        JsonView::Object(members) => members.map_values(
            |member: (Seq<char>, JsonView)| member.0,
        ),
        _ => Seq::empty(),
    }
}

/// No two members of what is shown of an operation or of a fragment have the
/// same name.
pub proof fn members_have_different_names(operation: Operation, fragment: Fragment)
    ensures
        member_names(operation_json_view(operation)).no_duplicates(),
        member_names(fragment_json_view(fragment)).no_duplicates(),
{
    reveal_strlit("fragment_count");
    reveal_strlit("fragments");
    reveal_strlit("predicate");
    reveal_strlit("updated_fragments");
    reveal_strlit("deleted_fragment_ids");
    reveal_strlit("schema_fields");
    reveal_strlit("config_upsert_values");
    reveal_strlit("initial_bases");
    reveal_strlit("is_shallow");
    reveal_strlit("source_reference");
    reveal_strlit("source_version");
    reveal_strlit("source_path");
    reveal_strlit("branch_name");
    reveal_strlit("summary");
    reveal_strlit("details");
    reveal_strlit("id");
    reveal_strlit("physical_rows");
    reveal_strlit("visible_rows");
    reveal_strlit("data_files");
    reveal_strlit("deletion_count");
    let names = member_names(operation_json_view(operation));
    match operation {
        Operation::Append { .. } => {
            assert(names =~= seq!["fragment_count"@, "fragments"@]);
        },
        Operation::Delete { .. } => {
            assert(names =~= seq!["predicate"@, "updated_fragments"@, "deleted_fragment_ids"@]);
        },
        Operation::Overwrite { .. } => {
            assert(names =~= seq![
                "fragment_count"@,
                "fragments"@,
                "schema_fields"@,
                "config_upsert_values"@,
                "initial_bases"@,
            ]);
            assert(names[2][0] != names[4][0]);
        },
        Operation::Clone { .. } => {
            assert(names =~= seq![
                "is_shallow"@,
                "source_reference"@,
                "source_version"@,
                "source_path"@,
                "branch_name"@,
            ]);
            assert(names[3][0] != names[4][0]);
        },
        Operation::Other { .. } => {
            assert(names =~= seq!["summary"@, "details"@]);
            assert(names[0][0] != names[1][0]);
        },
        _ => {
            assert(names.len() == 1);
        },
    }
    lemma_different(names);
    let parts = member_names(fragment_json_view(fragment));
    assert(parts =~= seq![
        "id"@,
        "physical_rows"@,
        "visible_rows"@,
        "data_files"@,
        "deletion_count"@,
    ]);
    lemma_different(parts);
}

/// Texts that differ in length or in the first character are different.
proof fn lemma_different(texts: Seq<Seq<char>>)
    requires
        forall|i: int, j: int|
            0 <= i < j < texts.len() ==> (#[trigger] texts[i]).len() != (#[trigger] texts[j]).len()
                || texts[i][0] != texts[j][0],
    ensures
        texts.no_duplicates(),
{
}

/// Whether an object has a member of this name and value.
pub open spec fn shows(json: JsonView, name: Seq<char>, value: JsonView) -> bool {
    json matches JsonView::Object(members) && members.contains((name, value))
}

/// An object shows each of its members.
proof fn lemma_shows(json: JsonView, i: int)
    requires
        json is Object,
        0 <= i < json->Object_0.len(),
    ensures
        shows(json, json->Object_0[i].0, json->Object_0[i].1),
{
    let members = json->Object_0;
    assert(members.contains(members[i]));
}

/// An operation shows what it does: each part of it under its own name, and
/// nothing else.
pub proof fn operations_show_what_they_do(operation: Operation)
    ensures
        ({
            let shown = operation_json_view(operation);
            match operation {
                Operation::Append { fragments } => {
                    &&& member_names(shown).len() == 2
                    &&& shows(shown, "fragment_count"@, JsonView::Number(fragments@.len()))
                    &&& shows(shown, "fragments"@, fragments_json_view(fragments@))
                },
                Operation::Delete { updated_fragments, deleted_fragment_ids, predicate } => {
                    &&& member_names(shown).len() == 3
                    &&& shows(shown, "predicate"@, JsonView::Text(predicate@))
                    &&& shows(
                        shown,
                        "updated_fragments"@,
                        fragments_json_view(updated_fragments@),
                    )
                    &&& shows(
                        shown,
                        "deleted_fragment_ids"@,
                        JsonView::List(
                            deleted_fragment_ids@.map_values(|n: u64| JsonView::Number(n as nat)),
                        ),
                    )
                },
                Operation::Overwrite {
                    fragments,
                    schema_fields,
                    config_upsert_values,
                    initial_bases,
                } => {
                    &&& member_names(shown).len() == 5
                    &&& shows(shown, "fragment_count"@, JsonView::Number(fragments@.len()))
                    &&& shows(shown, "fragments"@, fragments_json_view(fragments@))
                    &&& shows(shown, "schema_fields"@, texts_json(schema_fields@))
                    &&& shows(
                        shown,
                        "config_upsert_values"@,
                        match config_upsert_values {
                            Some(pairs) => pairs_json(pairs@),
                            None => JsonView::Null,
                        },
                    )
                    &&& shows(
                        shown,
                        "initial_bases"@,
                        match initial_bases {
                            Some(bases) => JsonView::Text(bases@),
                            None => JsonView::Null,
                        },
                    )
                },
                Operation::Clone { is_shallow, ref_name, ref_version, ref_path, branch_name } => {
                    &&& member_names(shown).len() == 5
                    &&& shows(shown, "is_shallow"@, JsonView::Bool(is_shallow))
                    &&& shows(
                        shown,
                        "source_reference"@,
                        match ref_name {
                            Some(name) => JsonView::Text(name@),
                            None => JsonView::Null,
                        },
                    )
                    &&& shows(shown, "source_version"@, JsonView::Number(ref_version as nat))
                    &&& shows(shown, "source_path"@, JsonView::Text(ref_path@))
                    &&& shows(
                        shown,
                        "branch_name"@,
                        match branch_name {
                            Some(name) => JsonView::Text(name@),
                            None => JsonView::Null,
                        },
                    )
                },
                Operation::Restore { version } => {
                    &&& member_names(shown).len() == 1
                    &&& shows(shown, "restored_version"@, JsonView::Number(version as nat))
                },
                Operation::ReserveFragments { num_fragments } => {
                    &&& member_names(shown).len() == 1
                    &&& shows(
                        shown,
                        "reserved_fragment_count"@,
                        JsonView::Number(num_fragments as nat),
                    )
                },
                Operation::Other { summary, details } => {
                    &&& member_names(shown).len() == 2
                    &&& shows(shown, "summary"@, JsonView::Text(summary@))
                    &&& shows(shown, "details"@, JsonView::Text(details@))
                },
            }
        }),
{
    let shown = operation_json_view(operation);
    let count = shown->Object_0.len();
    lemma_shows(shown, 0);
    if count > 1 {
        lemma_shows(shown, 1);
    }
    if count > 2 {
        lemma_shows(shown, 2);
    }
    if count > 3 {
        lemma_shows(shown, 3);
        lemma_shows(shown, 4);
    }
}

/// A fragment shows its number, its rows, its files and its deleted rows, each
/// under its own name.
pub proof fn fragments_show_what_they_hold(fragment: Fragment)
    ensures
        ({
            let shown = fragment_json_view(fragment);
            &&& member_names(shown).len() == 5
            &&& shows(shown, "id"@, JsonView::Number(fragment.id as nat))
            &&& shows(
                shown,
                "physical_rows"@,
                match fragment.physical_rows {
                    Some(rows) => JsonView::Number(rows as nat),
                    None => JsonView::Null,
                },
            )
            &&& shows(
                shown,
                "visible_rows"@,
                match fragment.visible_rows {
                    Some(rows) => JsonView::Number(rows as nat),
                    None => JsonView::Null,
                },
            )
            &&& shows(shown, "data_files"@, texts_json(fragment.data_files@))
            &&& shows(
                shown,
                "deletion_count"@,
                match fragment.deletion_count {
                    Some(rows) => JsonView::Number(rows as nat),
                    None => JsonView::Null,
                },
            )
        }),
{
    let shown = fragment_json_view(fragment);
    lemma_shows(shown, 0);
    lemma_shows(shown, 1);
    lemma_shows(shown, 2);
    lemma_shows(shown, 3);
    lemma_shows(shown, 4);
}

/// Lists are shown item by item, in their order, and pairs as members under their
/// first texts.
pub proof fn lists_are_shown_item_by_item(
    fragments: Seq<Fragment>,
    texts: Seq<String>,
    pairs: Seq<(String, String)>,
    i: int,
)
    ensures
        fragments_json_view(fragments) is List,
        fragments_json_view(fragments)->List_0.len() == fragments.len(),
        0 <= i < fragments.len() ==> fragments_json_view(fragments)->List_0[i]
            == fragment_json_view(fragments[i]),
        texts_json(texts) is List,
        texts_json(texts)->List_0.len() == texts.len(),
        0 <= i < texts.len() ==> texts_json(texts)->List_0[i] == JsonView::Text(texts[i]@),
        pairs_json(pairs) is Object,
        pairs_json(pairs)->Object_0.len() == pairs.len(),
        0 <= i < pairs.len() ==> pairs_json(pairs)->Object_0[i] == (
            pairs[i].0@,
            JsonView::Text(pairs[i].1@),
        ),
{
}

/// What a JSON value holds is what it is made of, item by item and member by
/// member.
pub proof fn json_values_hold_what_they_are_made_of(
    items: Vec<Json>,
    members: Vec<(String, Json)>,
    text: String,
    n: u64,
    b: bool,
    i: int,
)
    ensures
        Json::Null@ == JsonView::Null,
        Json::Bool(b)@ == JsonView::Bool(b),
        Json::Number(n)@ == JsonView::Number(n as nat),
        Json::Text(text)@ == JsonView::Text(text@),
        Json::List(items)@ is List,
        Json::List(items)@->List_0.len() == items@.len(),
        0 <= i < items@.len() ==> Json::List(items)@->List_0[i] == items@[i]@,
        Json::Object(members)@ is Object,
        Json::Object(members)@->Object_0.len() == members@.len(),
        0 <= i < members@.len() ==> Json::Object(members)@->Object_0[i] == (
            members@[i].0@,
            members@[i].1@,
        ),
{
    lemma_list_view(items);
    lemma_object_view(members);
}

} // verus!
