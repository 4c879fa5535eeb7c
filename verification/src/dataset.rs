//! Datasets: what there is of one, which snapshot is meant, and what is in it.

use vstd::prelude::*;
use vstd::slice::slice_subrange;
use vstd::string::StringExecFns;

use crate::error::ApiError;
use crate::models::{BranchHistory, TagView, VersionView};
use crate::names::{is_sorting, precedes, sort_by_name, sorting_orders_all_entries};
use crate::number::{
    decimal, decimal_reads_back, decimals_have_no_leading_zeros, fault_text, is_digit, number,
    number_fault, only_digits_are_numbers, parse_u64, unsigned_digits, write_decimal,
};
use crate::text::{
    case_is_ignored_letter_by_letter, chars_of, is_blank, is_space, lowered, rfind,
    same_ignoring_case, same_letter, same_text, strip_prefix, text_of, texts, trim, trimmed,
    trimming_both_ends,
};

verus! {

/// The location of a dataset: what was asked for, without white space round it.
pub fn dataset_location(uri: &str) -> (location: Result<String, ApiError>)
    ensures
        (match location {
            Ok(found) => found@ == trimmed(uri@) && found@.len() > 0,
            Err(error) => trimmed(uri@).len() == 0 && error.is_plain(
                "dataset location cannot be empty"@,
            ),
        }),
{
    let chars = chars_of(uri);
    let location = trim(chars.as_slice());
    if location.len() == 0 {
        Err(ApiError::plain("dataset location cannot be empty".to_owned()))
    } else {
        Ok(text_of(location))
    }
}

/// A dataset could not be opened.
pub fn open_failure(uri: &str, root_cause: &str) -> (error: ApiError)
    ensures
        error.is_internal("failed to open Lance dataset "@ + uri@, root_cause@),
{
    let mut context = String::new();
    context.append("failed to open Lance dataset ");
    context.append(uri);
    assert(context@ =~= "failed to open Lance dataset "@ + uri@);
    ApiError::internal(context.as_str(), root_cause)
}

/// What a tag stands for.
#[derive(Debug)]
pub struct TagContents {
    pub branch: Option<String>,
    pub version: u64,
}

/// The name of a branch, where the one without a name is `main`.
pub open spec fn branch_name(branch: Option<String>) -> Seq<char> {
    match branch {
        Some(name) => name@,
        None => "main"@,
    }
}

/// Whether `tag` is the tag of this name.
pub open spec fn is_tag(tag: TagView, entry: (String, TagContents)) -> bool {
    &&& tag.name@ == entry.0@
    &&& tag.branch@ == branch_name(entry.1.branch)
    &&& tag.version == entry.1.version
}

/// Whether `tags` are these tags, in this order.
pub open spec fn are_tags(tags: Seq<TagView>, entries: Seq<(String, TagContents)>) -> bool {
    &&& tags.len() == entries.len()
    &&& forall|i: int| 0 <= i < tags.len() ==> is_tag(#[trigger] tags[i], entries[i])
}

/// Each tag under its name.
pub open spec fn by_tag_name(tags: Seq<TagView>) -> Seq<(String, TagView)> {
    tags.map_values(|tag: TagView| (tag.name, tag))
}

/// The tags of a dataset, sorted by name.
pub fn tag_views(entries: Vec<(String, TagContents)>) -> (tags: Vec<TagView>)
    ensures
        exists|found: Seq<TagView>| #[trigger]
            are_tags(found, entries@) && is_sorting(by_tag_name(tags@), by_tag_name(found)),
{
    let ghost all = entries@;
    let ghost mut found: Seq<TagView> = Seq::empty();
    let mut keyed: Vec<(String, TagView)> = Vec::new();
    assert(keyed@ =~= by_tag_name(found));
    for entry in it: entries
        invariant
            it.seq() == all,
            are_tags(found, all.take(it.index())),
            keyed@ == by_tag_name(found),
    {
        let branch = match entry.1.branch {
            Some(name) => name,
            None => "main".to_owned(),
        };
        let name = entry.0.clone();
        let tag = TagView { name: entry.0, branch, version: entry.1.version };
        proof {
            found = found.push(tag);
        }
        keyed.push((name, tag));
        assert(keyed@ =~= by_tag_name(found));
    }
    assert(all.take(all.len() as int) =~= all);
    let sorted = sort_by_name(keyed);
    let ghost pairs = sorted@;
    let mut tags: Vec<TagView> = Vec::new();
    proof {
        assert forall|i: int| 0 <= i < pairs.len() implies (#[trigger] pairs[i]).0
            == pairs[i].1.name by {
            broadcast use vstd::seq_lib::group_to_multiset_ensures;

            assert(pairs.contains(pairs[i]));
            assert(pairs.to_multiset().count(pairs[i]) > 0);
            assert(by_tag_name(found).contains(pairs[i]));
        }
    }
    for pair in it: sorted
        invariant
            it.seq() == pairs,
            tags@.len() == it.index(),
            forall|i: int| 0 <= i < pairs.len() ==> (#[trigger] pairs[i]).0 == pairs[i].1.name,
            forall|i: int| 0 <= i < it.index() ==> #[trigger] tags@[i] == pairs[i].1,
    {
        tags.push(pair.1);
    }
    assert(by_tag_name(tags@) =~= pairs);
    tags
}

/// Each name, as an entry.
pub open spec fn as_entries(names: Seq<String>) -> Seq<(String, ())> {
    names.map_values(|name: String| (name, ()))
}

/// The branches of a dataset in the order in which they are shown: `main`, and
/// the others by name.
pub fn branch_order(names: Vec<String>) -> (order: Vec<String>)
    ensures
        order@.len() > 0,
        order@[0]@ == "main"@,
        is_sorting(as_entries(order@.skip(1)), as_entries(names@)),
{
    let ghost all = names@;
    let mut keyed: Vec<(String, ())> = Vec::new();
    for name in it: names
        invariant
            it.seq() == all,
            keyed@ == as_entries(all.take(it.index())),
    {
        keyed.push((name, ()));
        assert(keyed@ =~= as_entries(all.take(it.index() + 1)));
    }
    assert(all.take(all.len() as int) =~= all);
    let sorted = sort_by_name(keyed);
    let ghost pairs = sorted@;
    let mut order: Vec<String> = Vec::new();
    order.push("main".to_owned());
    for pair in it: sorted
        invariant
            it.seq() == pairs,
            order@.len() == it.index() + 1,
            order@[0]@ == "main"@,
            forall|i: int| 0 <= i < it.index() ==> #[trigger] order@[i + 1] == pairs[i].0,
    {
        order.push(pair.0);
    }
    assert(as_entries(order@.skip(1)) =~= pairs) by {
        assert forall|i: int| 0 <= i < pairs.len() implies as_entries(order@.skip(1))[i]
            == pairs[i] by {
            assert(order@.skip(1)[i] == order@[i + 1]);
            assert(pairs[i].1 == ());
        }
    }
    order
}

/// A version of a branch, as it is recorded.
#[derive(Debug)]
pub struct VersionRecord {
    pub version: u64,
    pub timestamp: Option<String>,
    /// The number of its rows, as its metadata write it.
    pub total_rows: Option<String>,
}

/// Whether `record` is this version of a branch of which only the loaded version
/// tells its rows.
pub open spec fn is_record(
    record: VersionRecord,
    version: u64,
    loaded_version: u64,
    total_rows: Option<String>,
) -> bool {
    &&& record.version == version
    &&& record.timestamp is None
    &&& version == loaded_version ==> record.total_rows == total_rows
    &&& version != loaded_version ==> record.total_rows is None
}

/// Whether `records` are these versions, in their order.
pub open spec fn are_records(
    records: Seq<VersionRecord>,
    versions: Seq<u64>,
    loaded_version: u64,
    total_rows: Option<String>,
) -> bool {
    &&& records.len() == versions.len()
    &&& forall|i: int|
        0 <= i < versions.len() ==> is_record(
            #[trigger] records[i],
            versions[i],
            loaded_version,
            total_rows,
        )
}

/// The versions of a branch of which only the loaded one tells its rows.
pub fn version_records(
    versions: Vec<u64>,
    loaded_version: u64,
    total_rows: Option<String>,
) -> (records: Vec<VersionRecord>)
    ensures
        records@.len() == versions@.len(),
        forall|i: int|
            0 <= i < versions@.len() ==> {
                &&& (#[trigger] records@[i]).version == versions@[i]
                &&& records@[i].timestamp is None
                &&& records@[i].total_rows == (if versions@[i] == loaded_version {
                    total_rows
                } else {
                    None
                })
            },
        are_records(records@, versions@, loaded_version, total_rows),
{
    let mut records: Vec<VersionRecord> = Vec::new();
    let mut i: usize = 0;
    while i < versions.len()
        invariant
            i <= versions@.len(),
            records@.len() == i,
            forall|j: int|
                0 <= j < i ==> {
                    &&& (#[trigger] records@[j]).version == versions@[j]
                    &&& records@[j].timestamp is None
                    &&& records@[j].total_rows == (if versions@[j] == loaded_version {
                        total_rows
                    } else {
                        None
                    })
                },
        decreases versions@.len() - i,
    {
        let rows = if versions[i] == loaded_version {
            match &total_rows {
                Some(text) => Some(text.clone()),
                None => None,
            }
        } else {
            None
        };
        records.push(VersionRecord { version: versions[i], timestamp: None, total_rows: rows });
        i += 1;
    }
    records
}

/// The names of the tags of one version of a branch, in the order of the tags.
pub open spec fn tags_of(tags: Seq<TagView>, branch: Seq<char>, version: u64) -> Seq<Seq<char>>
    decreases tags.len(),
{
    if tags.len() == 0 {
        Seq::empty()
    } else {
        let before = tags_of(tags.drop_last(), branch, version);
        if tags.last().branch@ == branch && tags.last().version == version {
            before.push(tags.last().name@)
        } else {
            before
        }
    }
}

fn tag_names(tags: &Vec<TagView>, branch: &str, version: u64) -> (names: Vec<String>)
    ensures
        texts(names@) == tags_of(tags@, branch@, version),
{
    let mut names: Vec<String> = Vec::new();
    let mut i: usize = 0;
    assert(tags@.take(0) =~= Seq::empty());
    assert(texts(names@) =~= Seq::empty());
    while i < tags.len()
        invariant
            i <= tags@.len(),
            texts(names@) == tags_of(tags@.take(i as int), branch@, version),
        decreases tags@.len() - i,
    {
        let ghost before = names@;
        assert(tags@.take(i + 1).drop_last() =~= tags@.take(i as int));
        assert(tags@.take(i + 1).last() == tags@[i as int]);
        if same_text(tags[i].branch.as_str(), branch) && tags[i].version == version {
            names.push(tags[i].name.clone());
            assert(texts(names@) =~= texts(before).push(tags@[i as int].name@));
        }
        i += 1;
    }
    assert(tags@.take(i as int) =~= tags@);
    names
}

/// The number of rows that metadata write, where they write a number.
pub open spec fn rows_of(text: Option<String>) -> Option<nat> {
    match text {
        Some(value) => number(value@, u64::MAX as nat),
        None => None,
    }
}

/// Whether `view` shows this version of a branch.
pub open spec fn is_version(
    view: VersionView,
    record: VersionRecord,
    branch: Seq<char>,
    tags: Seq<TagView>,
) -> bool {
    &&& view.version == record.version
    &&& view.timestamp == record.timestamp
    &&& match view.total_rows {
        Some(rows) => rows_of(record.total_rows) == Some(rows as nat),
        None => rows_of(record.total_rows) is None,
    }
    &&& texts(view.tags@) == tags_of(tags, branch, record.version)
}

/// The versions of a branch, each with its tags.
pub fn version_views(branch: &str, records: Vec<VersionRecord>, tags: &Vec<TagView>) -> (views: Vec<
    VersionView,
>)
    ensures
        views@.len() == records@.len(),
        forall|i: int|
            0 <= i < records@.len() ==> is_version(
                #[trigger] views@[i],
                records@[i],
                branch@,
                tags@,
            ),
{
    let ghost all = records@;
    let mut views: Vec<VersionView> = Vec::new();
    for record in it: records
        invariant
            it.seq() == all,
            views@.len() == it.index(),
            forall|i: int|
                0 <= i < it.index() ==> is_version(#[trigger] views@[i], all[i], branch@, tags@),
    {
        let total_rows = match &record.total_rows {
            Some(text) => {
                let chars = chars_of(text.as_str());
                match parse_u64(chars.as_slice()) {
                    Ok(rows) => Some(rows),
                    Err(_) => None,
                }
            },
            None => None,
        };
        let names = tag_names(tags, branch, record.version);
        views.push(
            VersionView {
                version: record.version,
                timestamp: record.timestamp,
                total_rows,
                tags: names,
            },
        );
    }
    views
}

/// What is recorded of a branch other than `main`.
#[derive(Debug)]
pub struct BranchContents {
    pub parent_branch: Option<String>,
    pub parent_version: u64,
}

/// Whether `history` is that of the branch of this name; the contents of `main` are
/// not recorded.
pub open spec fn is_history(
    history: BranchHistory,
    name: Seq<char>,
    contents: Option<BranchContents>,
    records: Seq<VersionRecord>,
    tags: Seq<TagView>,
) -> bool {
    &&& history.name@ == name
    &&& match contents {
        Some(branch) => history.parent_branch == branch.parent_branch && history.parent_version
            == Some(branch.parent_version),
        None => history.parent_branch is None && history.parent_version is None,
    }
    &&& history.versions@.len() == records.len()
    &&& forall|i: int|
        0 <= i < records.len() ==> is_version(
            #[trigger] history.versions@[i],
            records[i],
            name,
            tags,
        )
}

/// The history of a branch; the contents of `main` are not recorded.
pub fn branch_history(
    name: String,
    contents: Option<BranchContents>,
    records: Vec<VersionRecord>,
    tags: &Vec<TagView>,
) -> (history: BranchHistory)
    ensures
        history.name == name,
        (match contents {
            Some(branch) => history.parent_branch == branch.parent_branch && history.parent_version
                == Some(branch.parent_version),
            None => history.parent_branch is None && history.parent_version is None,
        }),
        history.versions@.len() == records@.len(),
        forall|i: int|
            0 <= i < records@.len() ==> is_version(
                #[trigger] history.versions@[i],
                records@[i],
                name@,
                tags@,
            ),
        is_history(history, name@, contents, records@, tags@),
{
    let versions = version_views(name.as_str(), records, tags);
    match contents {
        Some(branch) => BranchHistory {
            name,
            parent_branch: branch.parent_branch,
            parent_version: Some(branch.parent_version),
            versions,
        },
        None => BranchHistory { name, parent_branch: None, parent_version: None, versions },
    }
}

/// A snapshot of a dataset, as it is asked for.
#[derive(Debug)]
pub enum DatasetReference {
    Main,
    Version(u64),
    Branch(String),
    Tag(String),
    BranchVersion(String, u64),
}

/// The reference that is meant: `main` where none is given, or a blank one.
pub open spec fn meant_reference(reference: Option<Seq<char>>) -> Seq<char> {
    match reference {
        Some(text) => if trimmed(text).len() == 0 {
            "main"@
        } else {
            trimmed(text)
        },
        None => "main"@,
    }
}

/// The view of a text that may be missing.
pub open spec fn text_view(text: Option<&str>) -> Option<Seq<char>> {
    match text {
        Some(found) => Some(found@),
        None => None,
    }
}

/// The reference that is meant.
pub fn requested_reference(reference: Option<&str>) -> (meant: String)
    ensures
        meant@ == meant_reference(text_view(reference)),
        meant@.len() > 0,
{
    proof {
        reveal_strlit("main");
    }
    match reference {
        Some(text) => {
            let chars = chars_of(text);
            let trimmed = trim(chars.as_slice());
            if trimmed.len() == 0 {
                "main".to_owned()
            } else {
                text_of(trimmed)
            }
        },
        None => "main".to_owned(),
    }
}

/// What a reference means.
pub enum Reading {
    Main,
    Version(nat),
    Branch(Seq<char>),
    Tag(Seq<char>),
    BranchVersion(Seq<char>, nat),
    BadVersion(Seq<char>),
    Name,
}

/// What a reference means by itself: `main` in any case, a number or
/// `version:` and a number, `branch:` and a name, `tag:` and a name, a branch
/// and a number with a colon between them; anything else is a name.
pub open spec fn reading(reference: Seq<char>) -> Reading {
    let most = u64::MAX as nat;
    if lowered(reference) == lowered("main"@) {
        Reading::Main
    } else if number(reference, most) is Some {
        Reading::Version(number(reference, most)->0)
    } else if "version:"@.is_prefix_of(reference) {
        let version = reference.skip("version:"@.len() as int);
        match number(version, most) {
            Some(n) => Reading::Version(n),
            None => Reading::BadVersion(version),
        }
    } else if "branch:"@.is_prefix_of(reference) {
        Reading::Branch(reference.skip("branch:"@.len() as int))
    } else if "tag:"@.is_prefix_of(reference) {
        Reading::Tag(reference.skip("tag:"@.len() as int))
    } else {
        match reference.index_of_last(':') {
            Some(colon) => match number(reference.skip(colon + 1), most) {
                Some(n) => Reading::BranchVersion(reference.take(colon), n),
                None => Reading::Name,
            },
            None => Reading::Name,
        }
    }
}

impl DatasetReference {
    /// What the reference means.
    pub open spec fn meaning(&self) -> Reading {
        match self {
            DatasetReference::Main => Reading::Main,
            DatasetReference::Version(n) => Reading::Version(*n as nat),
            DatasetReference::Branch(name) => Reading::Branch(name@),
            DatasetReference::Tag(name) => Reading::Tag(name@),
            DatasetReference::BranchVersion(name, n) => Reading::BranchVersion(name@, *n as nat),
        }
    }
}

/// The next step towards the snapshot that a reference means.
#[derive(Debug)]
pub enum ReferenceStep {
    /// The snapshot is known.
    CheckOut(DatasetReference),
    /// Whether it is the name of a branch is to be found out.
    LookUpBranch,
    /// Whether it is the name of a tag is to be found out.
    LookUpTag,
}

/// What a reference means by itself.
pub fn parse_reference(reference: &str) -> (step: Result<ReferenceStep, ApiError>)
    ensures
        (match step {
            Ok(ReferenceStep::CheckOut(target)) => target.meaning() == reading(reference@),
            Ok(ReferenceStep::LookUpBranch) => reading(reference@) is Name,
            Ok(ReferenceStep::LookUpTag) => false,
            Err(error) => {
                &&& reading(reference@) matches Reading::BadVersion(version)
                &&& number_fault(version, u64::MAX as nat) matches Some(fault)
                &&& error.is_internal("invalid version reference "@ + reference@, fault_text(fault))
            },
        }),
{
    let chars = chars_of(reference);
    if same_ignoring_case(chars.as_slice(), "main") {
        return Ok(ReferenceStep::CheckOut(DatasetReference::Main));
    }
    if let Ok(version) = parse_u64(chars.as_slice()) {
        return Ok(ReferenceStep::CheckOut(DatasetReference::Version(version)));
    }
    if let Some(version) = strip_prefix(chars.as_slice(), "version:") {
        return match parse_u64(version) {
            Ok(n) => Ok(ReferenceStep::CheckOut(DatasetReference::Version(n))),
            Err(fault) => {
                let mut context = String::new();
                context.append("invalid version reference ");
                context.append(reference);
                assert(context@ =~= "invalid version reference "@ + reference@);
                Err(ApiError::internal(context.as_str(), fault.text()))
            },
        };
    }
    if let Some(branch) = strip_prefix(chars.as_slice(), "branch:") {
        return Ok(ReferenceStep::CheckOut(DatasetReference::Branch(text_of(branch))));
    }
    if let Some(tag) = strip_prefix(chars.as_slice(), "tag:") {
        return Ok(ReferenceStep::CheckOut(DatasetReference::Tag(text_of(tag))));
    }
    if let Some(colon) = rfind(chars.as_slice(), ':') {
        let count: usize = chars.len();
        let version = slice_subrange(chars.as_slice(), colon + 1, count);
        assert(version@ =~= reference@.skip(colon + 1));
        if let Ok(n) = parse_u64(version) {
            let branch = text_of(slice_subrange(chars.as_slice(), 0, colon));
            assert(branch@ =~= reference@.take(colon as int));
            return Ok(ReferenceStep::CheckOut(DatasetReference::BranchVersion(branch, n)));
        }
    }
    Ok(ReferenceStep::LookUpBranch)
}

/// Whether a name is among these.
fn has_name(names: &Vec<String>, name: &str) -> (found: bool)
    ensures
        found == texts(names@).contains(name@),
{
    let mut i: usize = 0;
    while i < names.len()
        invariant
            i <= names@.len(),
            forall|j: int| 0 <= j < i ==> #[trigger] texts(names@)[j] != name@,
        decreases names@.len() - i,
    {
        assert(texts(names@)[i as int] == names@[i as int]@);
        if same_text(names[i].as_str(), name) {
            return true;
        }
        i += 1;
    }
    false
}

/// Whether `step` is the next one once these are known to be the branches.
pub open spec fn is_branch_step(
    step: ReferenceStep,
    reference: Seq<char>,
    branches: Seq<Seq<char>>,
) -> bool {
    if branches.contains(reference) {
        step matches ReferenceStep::CheckOut(target) && target.meaning() == Reading::Branch(
            reference,
        )
    } else {
        step is LookUpTag
    }
}

/// Goes on once the names of the branches are known.
pub fn after_branches(reference: &str, branches: &Vec<String>) -> (step: ReferenceStep)
    ensures
        (match step {
            ReferenceStep::CheckOut(target) => texts(branches@).contains(reference@)
                && target.meaning() == Reading::Branch(reference@),
            ReferenceStep::LookUpBranch => false,
            ReferenceStep::LookUpTag => !texts(branches@).contains(reference@),
        }),
        is_branch_step(step, reference@, texts(branches@)),
{
    if has_name(branches, reference) {
        ReferenceStep::CheckOut(DatasetReference::Branch(reference.to_owned()))
    } else {
        ReferenceStep::LookUpTag
    }
}

/// What a client reads whose reference is nothing that there is.
pub open spec fn unknown_reference_message(reference: Seq<char>) -> Seq<char> {
    "reference '"@ + reference
        + "' was not found as a branch or tag; use a numeric version, branch:<name>, or tag:<name>"@
}

/// Whether `target` is what is meant once these are known to be the tags.
pub open spec fn is_tag_target(
    target: Result<DatasetReference, ApiError>,
    reference: Seq<char>,
    tags: Seq<Seq<char>>,
) -> bool {
    if tags.contains(reference) {
        target matches Ok(found) && found.meaning() == Reading::Tag(reference)
    } else {
        target matches Err(error) && error.is_plain(unknown_reference_message(reference))
    }
}

/// Goes on once the names of the tags are known too.
pub fn after_tags(reference: &str, tags: &Vec<String>) -> (target: Result<
    DatasetReference,
    ApiError,
>)
    ensures
        (match target {
            Ok(found) => texts(tags@).contains(reference@) && found.meaning() == Reading::Tag(
                reference@,
            ),
            Err(error) => !texts(tags@).contains(reference@) && error.is_plain(
                unknown_reference_message(reference@),
            ),
        }),
        is_tag_target(target, reference@, texts(tags@)),
{
    if has_name(tags, reference) {
        Ok(DatasetReference::Tag(reference.to_owned()))
    } else {
        let mut message = String::new();
        message.append("reference '");
        message.append(reference);
        message.append(
            "' was not found as a branch or tag; use a numeric version, branch:<name>, or tag:<name>",
        );
        assert(message@ =~= unknown_reference_message(reference@));
        Err(ApiError::plain(message))
    }
}

/// How a snapshot is named in a message.
pub open spec fn reference_text(reference: DatasetReference) -> Seq<char> {
    match reference {
        DatasetReference::Main => "main"@,
        DatasetReference::Version(n) => "version "@ + decimal(n as nat),
        DatasetReference::Branch(name) => "branch "@ + name@,
        DatasetReference::Tag(name) => "tag "@ + name@,
        DatasetReference::BranchVersion(name, n) => name@ + " version "@ + decimal(n as nat),
    }
}

impl DatasetReference {
    /// How the snapshot is named in a message.
    pub fn text(&self) -> (text: String)
        ensures
            text@ == reference_text(*self),
    {
        let mut text = String::new();
        match self {
            DatasetReference::Main => text.append("main"),
            DatasetReference::Version(n) => {
                text.append("version ");
                text.append(write_decimal(*n).as_str());
            },
            DatasetReference::Branch(name) => {
                text.append("branch ");
                text.append(name.as_str());
            },
            DatasetReference::Tag(name) => {
                text.append("tag ");
                text.append(name.as_str());
            },
            DatasetReference::BranchVersion(name, n) => {
                text.append(name.as_str());
                text.append(" version ");
                text.append(write_decimal(*n).as_str());
            },
        }
        assert(text@ =~= reference_text(*self));
        text
    }

    /// The snapshot could not be checked out.
    pub fn checkout_failure(&self, root_cause: &str) -> (error: ApiError)
        ensures
            error.is_internal("failed to check out "@ + reference_text(*self), root_cause@),
    {
        let mut context = String::new();
        context.append("failed to check out ");
        context.append(self.text().as_str());
        assert(context@ =~= "failed to check out "@ + reference_text(*self));
        ApiError::internal(context.as_str(), root_cause)
    }
}

/// A text that starts with another character than a sign or a digit is no
/// number.
proof fn lemma_not_a_number(text: Seq<char>, max: nat)
    requires
        text.len() > 0,
        text[0] != '+',
        !is_digit(text[0]),
    ensures
        number(text, max) is None,
{
    assert(unsigned_digits(text) == text);
}

/// A reference that says what it is means that: a number, `version:` and a
/// number, `branch:` and a name, `tag:` and a name.
pub proof fn references_say_what_they_mean(version: u64, name: Seq<char>)
    ensures
        reading(decimal(version as nat)) == Reading::Version(version as nat),
        reading("version:"@ + decimal(version as nat)) == Reading::Version(version as nat),
        reading("branch:"@ + name) == Reading::Branch(name),
        reading("tag:"@ + name) == Reading::Tag(name),
{
    reveal_strlit("main");
    reveal_strlit("version:");
    reveal_strlit("branch:");
    reveal_strlit("tag:");
    let most = u64::MAX as nat;
    decimal_reads_back(version as nat, most);
    let plain = decimal(version as nat);
    assert(plain.len() > 0 && (plain[0] == '+' || is_digit(plain[0]))) by {
        if plain.len() > 0 && plain[0] != '+' {
            assert(unsigned_digits(plain) == plain);
        }
    }
    assert(lowered(plain) != lowered("main"@)) by {
        assert(lowered(plain)[0] != lowered("main"@)[0]);
    }
    let numbered = "version:"@ + plain;
    assert(lowered(numbered)[0] != lowered("main"@)[0]);
    lemma_not_a_number(numbered, most);
    assert("version:"@ =~= numbered.take("version:"@.len() as int));
    assert("version:"@.is_prefix_of(numbered));
    assert(numbered.skip("version:"@.len() as int) =~= plain);
    let branch = "branch:"@ + name;
    assert(lowered(branch)[0] != lowered("main"@)[0]);
    lemma_not_a_number(branch, most);
    assert(branch[0] != "version:"@[0]);
    assert(!"version:"@.is_prefix_of(branch)) by {
        if "version:"@.is_prefix_of(branch) {
            assert("version:"@[0] == branch[0]);
        }
    }
    assert("branch:"@ =~= branch.take("branch:"@.len() as int));
    assert("branch:"@.is_prefix_of(branch));
    assert(branch.skip("branch:"@.len() as int) =~= name);
    let tag = "tag:"@ + name;
    assert(lowered(tag)[0] != lowered("main"@)[0]);
    lemma_not_a_number(tag, most);
    assert(!"version:"@.is_prefix_of(tag)) by {
        if "version:"@.is_prefix_of(tag) {
            assert("version:"@[0] == tag[0]);
        }
    }
    assert(!"branch:"@.is_prefix_of(tag)) by {
        if "branch:"@.is_prefix_of(tag) {
            assert("branch:"@[0] == tag[0]);
        }
    }
    assert("tag:"@ =~= tag.take("tag:"@.len() as int));
    assert("tag:"@.is_prefix_of(tag));
    assert(tag.skip("tag:"@.len() as int) =~= name);
}

/// A reference means `main` exactly where it is that word, in whatever case each
/// of its four letters is.
pub proof fn main_is_the_word_in_any_case(reference: Seq<char>)
    ensures
        reading(reference) is Main <==> {
            &&& reference.len() == 4
            &&& reference[0] == 'm' || reference[0] == 'M'
            &&& reference[1] == 'a' || reference[1] == 'A'
            &&& reference[2] == 'i' || reference[2] == 'I'
            &&& reference[3] == 'n' || reference[3] == 'N'
        },
{
    reveal_strlit("main");
    let main = "main"@;
    case_is_ignored_letter_by_letter(reference, main);
    if reading(reference) is Main {
        assert(same_letter(reference[0], main[0]));
        assert(same_letter(reference[1], main[1]));
        assert(same_letter(reference[2], main[2]));
        assert(same_letter(reference[3], main[3]));
    }
    if reference.len() == 4 && (reference[0] == 'm' || reference[0] == 'M') && (reference[1] == 'a'
        || reference[1] == 'A') && (reference[2] == 'i' || reference[2] == 'I') && (reference[3]
        == 'n' || reference[3] == 'N') {
        assert forall|i: int| 0 <= i < reference.len() implies same_letter(
            #[trigger] reference[i],
            main[i],
        ) by {}
    }
}

/// A text with a colon in it is neither `main` nor a number.
proof fn lemma_colon(text: Seq<char>, at: int)
    requires
        0 <= at < text.len(),
        text[at] == ':',
    ensures
        !(reading(text) is Main),
        number(text, u64::MAX as nat) is None,
{
    main_is_the_word_in_any_case(text);
    only_digits_are_numbers(text, u64::MAX as nat);
    if number(text, u64::MAX as nat) is Some && text[0] == '+' && at > 0 {
        assert(text.skip(1)[at - 1] == ':');
    }
}

/// A word with a colon behind it begins a text with a colon in it where that word
/// stands before the colon, or begins what stands before the colon.
proof fn lemma_prefix(word: Seq<char>, name: Seq<char>, rest: Seq<char>)
    requires
        !word.contains(':'),
        name != word,
        !word.push(':').is_prefix_of(name),
    ensures
        !word.push(':').is_prefix_of(name + seq![':'] + rest),
{
    let prefix = word.push(':');
    let text = name + seq![':'] + rest;
    if prefix.is_prefix_of(text) {
        assert forall|i: int| 0 <= i < prefix.len() implies prefix[i] == text[i] by {
            assert(text.take(prefix.len() as int)[i] == text[i]);
        }
        if name.len() > word.len() {
            assert(prefix =~= name.take(prefix.len() as int));
        } else if name.len() == word.len() {
            assert forall|i: int| 0 <= i < word.len() implies name[i] == word[i] by {
                assert(prefix[i] == text[i]);
            }
            assert(name =~= word);
        } else {
            assert(text[name.len() as int] == ':');
            assert(prefix[name.len() as int] == ':');
            assert(word[name.len() as int] == ':');
        }
    }
}

/// The prefixes as words with a colon behind them.
proof fn lemma_prefixes()
    ensures
        "version:"@ == "version"@.push(':'),
        "branch:"@ == "branch"@.push(':'),
        "tag:"@ == "tag"@.push(':'),
        !"version"@.contains(':'),
        !"branch"@.contains(':'),
        !"tag"@.contains(':'),
{
    reveal_strlit("version:");
    reveal_strlit("branch:");
    reveal_strlit("tag:");
    reveal_strlit("version");
    reveal_strlit("branch");
    reveal_strlit("tag");
    assert("version:"@ =~= "version"@.push(':'));
    assert("branch:"@ =~= "branch"@.push(':'));
    assert("tag:"@ =~= "tag"@.push(':'));
}

/// A name, a colon and a number without a colon mean that version of the branch
/// of that name; where no number stands behind the last colon, all of it is a
/// name.
pub proof fn numbered_branches_are_read(branch: Seq<char>, version: Seq<char>)
    requires
        branch != "version"@,
        branch != "branch"@,
        branch != "tag"@,
        !"version:"@.is_prefix_of(branch),
        !"branch:"@.is_prefix_of(branch),
        !"tag:"@.is_prefix_of(branch),
        !version.contains(':'),
    ensures
        reading(branch + seq![':'] + version) == (match number(version, u64::MAX as nat) {
            Some(n) => Reading::BranchVersion(branch, n),
            None => Reading::Name,
        }),
{
    let text = branch + seq![':'] + version;
    let colon = branch.len() as int;
    assert(text[colon] == ':');
    lemma_colon(text, colon);
    lemma_prefixes();
    lemma_prefix("version"@, branch, version);
    lemma_prefix("branch"@, branch, version);
    lemma_prefix("tag"@, branch, version);
    text.index_of_last_ensures(':');
    assert(text.contains(':'));
    let last = text.index_of_last(':')->0;
    assert(last == colon) by {
        if last > colon {
            assert(text[last] == version[last - colon - 1]);
            assert(version.contains(':'));
        }
    }
    assert(text.take(colon) =~= branch);
    assert(text.skip(colon + 1) =~= version);
}

/// Every version of every branch can be asked for by its number, written in
/// decimal behind the name of the branch and a colon.
pub proof fn every_version_of_a_branch_can_be_named(branch: Seq<char>, n: u64)
    requires
        branch != "version"@,
        branch != "branch"@,
        branch != "tag"@,
        !"version:"@.is_prefix_of(branch),
        !"branch:"@.is_prefix_of(branch),
        !"tag:"@.is_prefix_of(branch),
    ensures
        reading(branch + seq![':'] + decimal(n as nat)) == Reading::BranchVersion(
            branch,
            n as nat,
        ),
{
    decimal_reads_back(n as nat, u64::MAX as nat);
    decimals_have_no_leading_zeros(n as nat);
    assert(!decimal(n as nat).contains(':'));
    numbered_branches_are_read(branch, decimal(n as nat));
}

/// A text without a colon means a number where it is one, `main` where it is that
/// word, and a name otherwise.
pub proof fn texts_without_a_colon_are_read(reference: Seq<char>)
    requires
        !reference.contains(':'),
    ensures
        (match reading(reference) {
            Reading::Version(n) => number(reference, u64::MAX as nat) == Some(n),
            Reading::Name => number(reference, u64::MAX as nat) is None,
            Reading::Main => reference.len() == 4,
            _ => false,
        }),
{
    lemma_prefixes();
    reference.index_of_last_ensures(':');
    main_is_the_word_in_any_case(reference);
    assert forall|word: Seq<char>| !word.contains(':') implies !(#[trigger] word.push(
        ':',
    )).is_prefix_of(reference) by {
        if word.push(':').is_prefix_of(reference) {
            assert(word.push(':')[word.len() as int] == ':');
            assert(reference.take(word.len() as int + 1)[word.len() as int] == reference[word.len() as int]);
        }
    }
    assert(!"version"@.push(':').is_prefix_of(reference));
    assert(!"branch"@.push(':').is_prefix_of(reference));
    assert(!"tag"@.push(':').is_prefix_of(reference));
}

/// What a reference is taken for is what it is written as.
pub proof fn readings_are_written_so(reference: Seq<char>)
    ensures
        (match reading(reference) {
            Reading::Main => reference.len() == 4,
            Reading::Version(n) => number(reference, u64::MAX as nat) == Some(n) || exists|
                version: Seq<char>,
            |
                reference == #[trigger] ("version:"@ + version) && number(version, u64::MAX as nat)
                    == Some(n),
            Reading::BadVersion(version) => reference == "version:"@ + version && number(
                version,
                u64::MAX as nat,
            ) is None,
            Reading::Branch(name) => reference == "branch:"@ + name,
            Reading::Tag(name) => reference == "tag:"@ + name,
            Reading::BranchVersion(name, n) => exists|version: Seq<char>|
                reference == #[trigger] (name + seq![':'] + version) && !version.contains(':')
                    && number(version, u64::MAX as nat) == Some(n),
            Reading::Name => number(reference, u64::MAX as nat) is None,
        }),
{
    main_is_the_word_in_any_case(reference);
    reference.index_of_last_ensures(':');
    let most = u64::MAX as nat;
    match reading(reference) {
        Reading::Version(n) => if number(reference, most) is None {
            let version = reference.skip("version:"@.len() as int);
            assert(reference == "version:"@ + version);
            assert(number(version, most) == Some(n));
        },
        Reading::BadVersion(version) => {
            assert(reference == "version:"@ + version);
        },
        Reading::Branch(name) => {
            assert(reference == "branch:"@ + name);
        },
        Reading::Tag(name) => {
            assert(reference == "tag:"@ + name);
        },
        Reading::BranchVersion(name, n) => {
            let colon = reference.index_of_last(':')->0;
            let version = reference.skip(colon + 1);
            assert(reference == name + seq![':'] + version);
            assert(!version.contains(':')) by {
                if version.contains(':') {
                    let k = version.index_of(':');
                    assert(reference[colon + 1 + k] == ':');
                }
            }
        },
        _ => {},
    }
}

/// What stands behind `version:` is the version where it is a number, and a fault
/// otherwise.
pub proof fn versions_are_read_behind_their_prefix(version: Seq<char>)
    ensures
        reading("version:"@ + version) == (match number(version, u64::MAX as nat) {
            Some(n) => Reading::Version(n),
            None => Reading::BadVersion(version),
        }),
{
    reveal_strlit("version:");
    let text = "version:"@ + version;
    assert(text[7] == ':');
    lemma_colon(text, 7);
    assert("version:"@ =~= text.take("version:"@.len() as int));
    assert("version:"@.is_prefix_of(text));
    assert(text.skip("version:"@.len() as int) =~= version);
}

/// A reference is taken without the white space round it, and a blank one, or
/// none, is `main`.
pub proof fn blank_references_mean_main(before: Seq<char>, text: Seq<char>, after: Seq<char>)
    requires
        is_blank(before),
        is_blank(after),
        text.len() > 0 ==> !is_space(text[0]) && !is_space(text.last()),
    ensures
        meant_reference(None) == "main"@,
        meant_reference(Some(before + text + after)) == (if text.len() == 0 {
            "main"@
        } else {
            text
        }),
{
    trimming_both_ends(before, text, after);
}

/// The tags of one list put behind another are shown behind those of the other,
/// and one tag is shown where it is a tag of the branch and of the version.
pub proof fn tags_are_shown_one_by_one(
    first: Seq<TagView>,
    second: Seq<TagView>,
    tag: TagView,
    branch: Seq<char>,
    version: u64,
)
    ensures
        tags_of(first + second, branch, version) == tags_of(first, branch, version) + tags_of(
            second,
            branch,
            version,
        ),
        tag.branch@ == branch && tag.version == version ==> tags_of(seq![tag], branch, version)
            == seq![tag.name@],
        tag.branch@ != branch || tag.version != version ==> tags_of(
            seq![tag],
            branch,
            version,
        ).len() == 0,
    decreases second.len(),
{
    assert(seq![tag].drop_last() =~= Seq::<TagView>::empty());
    assert(tags_of(seq![tag].drop_last(), branch, version) =~= Seq::<Seq<char>>::empty());
    if second.len() == 0 {
        assert(first + second =~= first);
        assert(tags_of(first, branch, version) + tags_of(second, branch, version) =~= tags_of(
            first,
            branch,
            version,
        ));
    } else {
        tags_are_shown_one_by_one(first, second.drop_last(), tag, branch, version);
        assert((first + second).drop_last() =~= first + second.drop_last());
        assert((first + second).last() == second.last());
        assert(tags_of(first + second, branch, version) =~= tags_of(first, branch, version)
            + tags_of(second, branch, version));
    }
}

proof fn lemma_tags_of(tags: Seq<TagView>, branch: Seq<char>, version: u64, name: Seq<char>)
    ensures
        tags_of(tags, branch, version).contains(name) <==> exists|i: int|
            0 <= i < tags.len() && (#[trigger] tags[i]).name@ == name && tags[i].branch@ == branch
                && tags[i].version == version,
    decreases tags.len(),
{
    if tags.len() > 0 {
        let before = tags.drop_last();
        let earlier = tags_of(before, branch, version);
        let now = tags_of(tags, branch, version);
        lemma_tags_of(before, branch, version, name);
        if now.contains(name) {
            let k = now.index_of(name);
            if k < earlier.len() {
                assert(earlier[k] == name);
                let i = choose|i: int|
                    0 <= i < before.len() && (#[trigger] before[i]).name@ == name
                        && before[i].branch@ == branch && before[i].version == version;
                assert(tags[i] == before[i]);
            } else {
                assert(tags[tags.len() - 1].name@ == name);
            }
        }
        if exists|i: int|
            0 <= i < tags.len() && (#[trigger] tags[i]).name@ == name && tags[i].branch@ == branch
                && tags[i].version == version {
            let i = choose|i: int|
                0 <= i < tags.len() && (#[trigger] tags[i]).name@ == name && tags[i].branch@
                    == branch && tags[i].version == version;
            if i < before.len() {
                assert(before[i] == tags[i]);
                let k = earlier.index_of(name);
                assert(now[k] == name);
            } else {
                assert(now[now.len() - 1] == name);
            }
        }
    }
}

/// A version of a branch shows a name among its tags exactly where there is a tag
/// of that name, of that branch and of that version.
pub proof fn tags_are_shown_on_their_version(
    view: VersionView,
    record: VersionRecord,
    branch: Seq<char>,
    tags: Seq<TagView>,
    name: Seq<char>,
)
    requires
        is_version(view, record, branch, tags),
    ensures
        texts(view.tags@).contains(name) <==> exists|i: int|
            0 <= i < tags.len() && (#[trigger] tags[i]).name@ == name && tags[i].branch@ == branch
                && tags[i].version == record.version,
{
    lemma_tags_of(tags, branch, record.version, name);
}

/// Where no two tags have the same name, a name is shown on one version of one
/// branch only.
pub proof fn a_tag_is_shown_once(
    one: (VersionView, VersionRecord, Seq<char>),
    other: (VersionView, VersionRecord, Seq<char>),
    tags: Seq<TagView>,
    name: Seq<char>,
)
    requires
        is_version(one.0, one.1, one.2, tags),
        is_version(other.0, other.1, other.2, tags),
        forall|i: int, j: int|
            0 <= i < j < tags.len() ==> (#[trigger] tags[i]).name@ != (#[trigger] tags[j]).name@,
        texts(one.0.tags@).contains(name),
        texts(other.0.tags@).contains(name),
    ensures
        one.0.version == other.0.version,
        one.2 == other.2,
{
    lemma_tags_of(tags, one.2, one.1.version, name);
    lemma_tags_of(tags, other.2, other.1.version, name);
}

/// A version is shown with its own number and time, and with its rows where what
/// is recorded of them is a number.
pub proof fn versions_are_shown_as_recorded(
    view: VersionView,
    record: VersionRecord,
    branch: Seq<char>,
    tags: Seq<TagView>,
    rows: u64,
)
    requires
        is_version(view, record, branch, tags),
    ensures
        view.version == record.version,
        view.timestamp == record.timestamp,
        record.total_rows is None ==> view.total_rows is None,
        record.total_rows matches Some(text) ==> {
            &&& text@ == decimal(rows as nat) ==> view.total_rows == Some(rows)
            &&& number(text@, u64::MAX as nat) is None ==> view.total_rows is None
            &&& view.total_rows matches Some(shown) ==> number(text@, u64::MAX as nat) == Some(
                shown as nat,
            )
        },
{
    decimal_reads_back(rows as nat, u64::MAX as nat);
}

/// The tags of a dataset are all shown, each with its own branch and version, a
/// tag without a branch as one of `main`, in the order of their names.
pub proof fn every_tag_is_shown(
    tags: Seq<TagView>,
    found: Seq<TagView>,
    entries: Seq<(String, TagContents)>,
    i: int,
)
    requires
        are_tags(found, entries),
        is_sorting(by_tag_name(tags), by_tag_name(found)),
        0 <= i < entries.len(),
    ensures
        tags.len() == entries.len(),
        exists|k: int|
            0 <= k < tags.len() && (#[trigger] tags[k]).name@ == entries[i].0@ && tags[k].version
                == entries[i].1.version && tags[k].branch@ == (match entries[i].1.branch {
                Some(branch) => branch@,
                None => "main"@,
            }),
        forall|a: int, b: int|
            0 <= a < b < tags.len() ==> (#[trigger] tags[a]).name@ == (#[trigger] tags[b]).name@
                || precedes(tags[a].name@, tags[b].name@),
{
    let list = by_tag_name(tags);
    let all = by_tag_name(found);
    sorting_orders_all_entries(list, all, all[i]);
    assert(all.contains(all[i]));
    let k = list.index_of(all[i]);
    assert(list[k] == all[i]);
    assert(tags[k] == found[i]);
    assert(is_tag(found[i], entries[i]));
    assert forall|a: int, b: int| 0 <= a < b < tags.len() implies (#[trigger] tags[a]).name@ == (
    #[trigger] tags[b]).name@ || precedes(tags[a].name@, tags[b].name@) by {
        assert(list[a].0 == tags[a].name);
        assert(list[b].0 == tags[b].name);
    }
}

/// The branches are all shown, in the order of their names.
pub proof fn every_branch_is_shown(order: Seq<String>, names: Seq<String>, i: int)
    requires
        is_sorting(as_entries(order), as_entries(names)),
        0 <= i < names.len(),
    ensures
        order.len() == names.len(),
        order.contains(names[i]),
        forall|a: int, b: int|
            0 <= a < b < order.len() ==> (#[trigger] order[a])@ == (#[trigger] order[b])@
                || precedes(order[a]@, order[b]@),
{
    let list = as_entries(order);
    let all = as_entries(names);
    sorting_orders_all_entries(list, all, all[i]);
    assert(all.contains(all[i]));
    let k = list.index_of(all[i]);
    assert(list[k] == all[i]);
    assert(order[k] == names[i]);
    assert forall|a: int, b: int| 0 <= a < b < order.len() implies (#[trigger] order[a])@ == (
    #[trigger] order[b])@ || precedes(order[a]@, order[b]@) by {
        assert(list[a].0 == order[a]);
        assert(list[b].0 == order[b]);
    }
}

/// A snapshot is named by what it is.
pub proof fn snapshots_are_named(name: String, version: u64, reference: Seq<char>)
    ensures
        reference_text(DatasetReference::Main) == "main"@,
        reference_text(DatasetReference::Version(version)) == "version "@ + decimal(
            version as nat,
        ),
        reference_text(DatasetReference::Branch(name)) == "branch "@ + name@,
        reference_text(DatasetReference::Tag(name)) == "tag "@ + name@,
        reference_text(DatasetReference::BranchVersion(name, version)) == name@ + " version "@
            + decimal(version as nat),
        unknown_reference_message(reference) == "reference '"@ + reference
            + "' was not found as a branch or tag; use a numeric version, branch:<name>, or tag:<name>"@,
{
}

/// A snapshot that is to be checked out is the one that was read.
pub proof fn snapshots_mean_what_was_read(name: String, version: u64)
    ensures
        DatasetReference::Main.meaning() is Main,
        DatasetReference::Version(version).meaning() == Reading::Version(version as nat),
        DatasetReference::Branch(name).meaning() == Reading::Branch(name@),
        DatasetReference::Tag(name).meaning() == Reading::Tag(name@),
        DatasetReference::BranchVersion(name, version).meaning() == Reading::BranchVersion(
            name@,
            version as nat,
        ),
{
}

/// Only the version that is loaded tells its rows.
pub proof fn only_the_loaded_version_tells_its_rows(
    records: Seq<VersionRecord>,
    versions: Seq<u64>,
    loaded_version: u64,
    total_rows: Option<String>,
    i: int,
)
    requires
        are_records(records, versions, loaded_version, total_rows),
        0 <= i < versions.len(),
    ensures
        records.len() == versions.len(),
        records[i].version == versions[i],
        records[i].timestamp is None,
        versions[i] == loaded_version ==> records[i].total_rows == total_rows,
        versions[i] != loaded_version ==> records[i].total_rows is None,
{
    assert(is_record(records[i], versions[i], loaded_version, total_rows));
}

/// A name that is a branch means that branch; any other is looked up among the
/// tags, and means that tag, or nothing.
pub proof fn branches_come_before_tags(
    step: ReferenceStep,
    target: Result<DatasetReference, ApiError>,
    reference: Seq<char>,
    branches: Seq<String>,
    tags: Seq<String>,
)
    requires
        is_branch_step(step, reference, texts(branches)),
        is_tag_target(target, reference, texts(tags)),
    ensures
        (exists|i: int| 0 <= i < branches.len() && (#[trigger] branches[i])@ == reference) ==> (
        step matches ReferenceStep::CheckOut(found) && (found matches DatasetReference::Branch(name)
            && name@ == reference)),
        (forall|i: int| 0 <= i < branches.len() ==> (#[trigger] branches[i])@ != reference) ==> step
            is LookUpTag,
        (exists|i: int| 0 <= i < tags.len() && (#[trigger] tags[i])@ == reference) ==> (
        target matches Ok(found) && (found matches DatasetReference::Tag(name) && name@
            == reference)),
        (forall|i: int| 0 <= i < tags.len() ==> (#[trigger] tags[i])@ != reference) ==> target
            is Err,
{
    if exists|i: int| 0 <= i < branches.len() && (#[trigger] branches[i])@ == reference {
        let i = choose|i: int| 0 <= i < branches.len() && (#[trigger] branches[i])@ == reference;
        assert(texts(branches)[i] == reference);
    }
    if exists|i: int| 0 <= i < tags.len() && (#[trigger] tags[i])@ == reference {
        let i = choose|i: int| 0 <= i < tags.len() && (#[trigger] tags[i])@ == reference;
        assert(texts(tags)[i] == reference);
    }
    if texts(branches).contains(reference) {
        let i = texts(branches).index_of(reference);
        assert(branches[i]@ == reference);
    }
    if texts(tags).contains(reference) {
        let i = texts(tags).index_of(reference);
        assert(tags[i]@ == reference);
    }
}

/// The history of a branch names it and where it comes from, and shows its
/// versions in their order.
pub proof fn histories_are_shown_as_recorded(
    history: BranchHistory,
    name: Seq<char>,
    contents: Option<BranchContents>,
    records: Seq<VersionRecord>,
    tags: Seq<TagView>,
    i: int,
)
    requires
        is_history(history, name, contents, records, tags),
    ensures
        history.name@ == name,
        contents is None ==> history.parent_branch is None && history.parent_version is None,
        contents matches Some(branch) ==> history.parent_branch == branch.parent_branch
            && history.parent_version == Some(branch.parent_version),
        history.versions@.len() == records.len(),
        0 <= i < records.len() ==> history.versions@[i].version == records[i].version,
{
    if 0 <= i < records.len() {
        assert(is_version(history.versions@[i], records[i], name, tags));
    }
}

} // verus!
