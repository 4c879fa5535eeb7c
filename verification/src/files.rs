//! The files of a dataset: paths, kinds, listings and previews.

use vstd::arithmetic::power::{lemma_pow0, lemma_pow1, lemma_pow_adds, pow};
use vstd::prelude::*;
use vstd::slice::slice_subrange;
use vstd::string::StringExecFns;
use vstd::utf8::{decode_utf8, valid_utf8};

use crate::error::{ApiError, RequestError};
use crate::models::{FileEntry, FilePreview, FilesPage};
use crate::names::{is_sorting, precedes, sort_by_name, sorting_orders_all_entries};
use crate::number::{
    decimal, digit_char, numeral, padded_digits_stand_at_their_places, write_decimal, write_hex,
    zero_padded,
};
use crate::text::{
    chars_of, ends_with, is_run, is_text, joined, lemma_parts_not_empty, parts, runs, split,
    splitting_keeps_the_text, splitting_undoes_joining, strip_prefix, taking_a_run_off_the_end,
    taking_a_run_off_the_start, text_of, trim_leading, trim_trailing, without_leading,
    without_trailing,
};

verus! {

/// Bytes of a file that a preview shows at most.
pub const FILE_PREVIEW_BYTES: usize = 65_536;

/// Files on a page whose request omits its limit.
pub const DEFAULT_FILES_PAGE_SIZE: usize = 500;

/// Files on a page at most.
pub const MAX_FILES_PAGE_SIZE: usize = 1_000;

/// What a file is for, by its path within the dataset.
pub open spec fn file_kind(path: Seq<char>) -> Seq<char> {
    let segments = parts(path, '/');
    if ".manifest"@.is_suffix_of(path) {
        "manifest"@
    } else if ".lance"@.is_suffix_of(path) {
        "data"@
    } else if segments.contains("_deletions"@) {
        "deletion"@
    } else if segments.contains("_indices"@) {
        "index"@
    } else if segments.contains("_transactions"@) {
        "transaction"@
    } else {
        "file"@
    }
}

/// Whether one of the pieces is `wanted`.
fn has_segment(pieces: &Vec<Vec<char>>, wanted: &str) -> (found: bool)
    ensures
        found == runs(pieces@).contains(wanted@),
{
    let mut i: usize = 0;
    while i < pieces.len()
        invariant
            i <= pieces@.len(),
            forall|j: int| 0 <= j < i ==> #[trigger] runs(pieces@)[j] != wanted@,
        decreases pieces@.len() - i,
    {
        assert(runs(pieces@)[i as int] == pieces@[i as int]@);
        if is_text(pieces[i].as_slice(), wanted) {
            return true;
        }
        i += 1;
    }
    false
}

/// What a file is for, by its path within the dataset.
pub fn classify_file(path: &str) -> (kind: &'static str)
    ensures
        kind@ == file_kind(path@),
{
    let chars = chars_of(path);
    let segments = split(chars.as_slice(), '/');
    if ends_with(chars.as_slice(), ".manifest") {
        "manifest"
    } else if ends_with(chars.as_slice(), ".lance") {
        "data"
    } else if has_segment(&segments, "_deletions") {
        "deletion"
    } else if has_segment(&segments, "_indices") {
        "index"
    } else if has_segment(&segments, "_transactions") {
        "transaction"
    } else {
        "file"
    }
}

/// Whether `path` names something below the directory that it starts from:
/// its segments are not empty and none leads upwards.
pub open spec fn is_relative_path(path: Seq<char>) -> bool {
    let segments = parts(path, '/');
    forall|i: int|
        0 <= i < segments.len() ==> (#[trigger] segments[i]).len() > 0 && segments[i] != ".."@
}

/// A path that is empty, or that starts at the root, has an empty segment.
proof fn lemma_empty_segments(path: Seq<char>)
    ensures
        path.len() == 0 || path[0] == '/' ==> !is_relative_path(path),
    decreases path.len(),
{
    let segments = parts(path, '/');
    if path.len() == 0 {
        assert(segments[0].len() == 0);
    } else if path[0] == '/' {
        lemma_first_segment(path);
        assert(segments[0].len() == 0);
    }
}

proof fn lemma_first_segment(path: Seq<char>)
    requires
        path.len() > 0,
        path[0] == '/',
    ensures
        parts(path, '/').len() >= 2,
        parts(path, '/')[0].len() == 0,
    decreases path.len(),
{
    let before = path.drop_last();
    lemma_parts_not_empty(before, '/');
    if path.len() == 1 {
        assert(before.len() == 0);
    } else {
        assert(before[0] == '/');
        lemma_first_segment(before);
    }
}

/// Checks that `path` names something below the dataset's directory.
pub fn validate_relative_path(path: &str) -> (checked: Result<(), ApiError>)
    ensures
        checked is Ok <==> is_relative_path(path@),
        checked matches Err(error) ==> error.is_plain("invalid dataset-relative path"@),
{
    let chars = chars_of(path);
    let segments = split(chars.as_slice(), '/');
    proof {
        lemma_empty_segments(path@);
    }
    let mut valid = chars.len() > 0 && chars[0] != '/';
    let mut i: usize = 0;
    while valid && i < segments.len()
        invariant
            i <= segments@.len(),
            runs(segments@) == parts(path@, '/'),
            valid ==> forall|j: int|
                0 <= j < i ==> (#[trigger] runs(segments@)[j]).len() > 0 && runs(segments@)[j]
                    != ".."@,
            !valid ==> !is_relative_path(path@),
        decreases segments@.len() - i,
    {
        assert(runs(segments@)[i as int] == segments@[i as int]@);
        if segments[i].len() == 0 || is_text(segments[i].as_slice(), "..") {
            valid = false;
        }
        i += 1;
    }
    if valid {
        Ok(())
    } else {
        Err(ApiError::plain("invalid dataset-relative path".to_owned()))
    }
}

/// Whether `result` comes of joining `pieces` to `base`, one after the other.
pub open spec fn joins_to<T, F: Fn(T, &str) -> T>(
    join: F,
    base: T,
    pieces: Seq<Seq<char>>,
    result: T,
) -> bool
    decreases pieces.len(),
{
    if pieces.len() == 0 {
        result == base
    } else {
        exists|before: T, segment: &str|
            {
                &&& segment@ == pieces.last()
                &&& joins_to(join, base, pieces.drop_last(), before)
                &&& #[trigger] call_ensures(join, (before, segment), result)
            }
    }
}

/// Joins the segments of a dataset-relative path to `base`.
pub fn validated_dataset_path<T, F: Fn(T, &str) -> T>(base: T, path: &str, join: F) -> (full: Result<
    T,
    ApiError,
>)
    requires
        forall|at: T, segment: &str| #[trigger] call_requires(join, (at, segment)),
    ensures
        full is Ok <==> is_relative_path(path@),
        full matches Ok(result) ==> joins_to(join, base, parts(path@, '/'), result),
        full matches Err(error) ==> error.is_plain("invalid dataset-relative path"@),
{
    match validate_relative_path(path) {
        Err(error) => Err(error),
        Ok(()) => {
            let chars = chars_of(path);
            let segments = split(chars.as_slice(), '/');
            let ghost pieces = parts(path@, '/');
            let mut at = base;
            let mut i: usize = 0;
            assert(pieces.take(0) =~= Seq::empty());
            while i < segments.len()
                invariant
                    i <= segments@.len(),
                    runs(segments@) == pieces,
                    joins_to(join, base, pieces.take(i as int), at),
                    forall|at: T, segment: &str| #[trigger] call_requires(join, (at, segment)),
                decreases segments@.len() - i,
            {
                let segment = text_of(segments[i].as_slice());
                let ghost before = at;
                at = join(at, segment.as_str());
                proof {
                    let now = pieces.take(i + 1);
                    assert(runs(segments@)[i as int] == segments@[i as int]@);
                    assert(now.drop_last() =~= pieces.take(i as int));
                    assert(now.last() == segment@);
                }
                i += 1;
            }
            assert(pieces.take(i as int) =~= pieces);
            Ok(at)
        },
    }
}

/// `base` with the pieces below it, each behind a slash.
pub open spec fn below(base: Seq<char>, pieces: Seq<Seq<char>>) -> Seq<char>
    decreases pieces.len(),
{
    if pieces.len() == 0 {
        base
    } else {
        below(base, pieces.drop_last()) + seq!['/'] + pieces.last()
    }
}

proof fn lemma_below_joined(base: Seq<char>, pieces: Seq<Seq<char>>)
    requires
        pieces.len() > 0,
    ensures
        below(base, pieces) == base + seq!['/'] + joined(pieces, seq!['/']),
    decreases pieces.len(),
{
    if pieces.len() == 1 {
        assert(below(base, pieces.drop_last()) == base);
        assert(below(base, pieces) =~= base + seq!['/'] + joined(pieces, seq!['/']));
    } else {
        lemma_below_joined(base, pieces.drop_last());
        assert(below(base, pieces) =~= base + seq!['/'] + joined(pieces, seq!['/']));
    }
}

/// Joining the segments of a path to a base, each behind a slash, gives the
/// path as it was written, below the base.
pub proof fn segments_lead_below_the_base(base: Seq<char>, path: Seq<char>)
    ensures
        below(base, parts(path, '/')) == base + seq!['/'] + path,
{
    lemma_parts_not_empty(path, '/');
    lemma_below_joined(base, parts(path, '/'));
    splitting_keeps_the_text(path, '/');
}

/// An object in the store of a dataset.
#[derive(Debug)]
pub struct StoredObject {
    pub location: String,
    pub size: u64,
    pub modified: String,
}

/// The path of an object within the directory `base`.
pub open spec fn path_within(base: Seq<char>, location: Seq<char>) -> Seq<char> {
    let directory = without_trailing(base, '/');
    let rest = if directory.is_prefix_of(location) {
        location.skip(directory.len() as int)
    } else {
        location
    };
    without_leading(rest, '/')
}

/// Whether `entry` is the file that `object` is in the directory `base`.
pub open spec fn is_entry_of(entry: FileEntry, base: Seq<char>, object: StoredObject) -> bool {
    &&& entry.path@ == path_within(base, object.location@)
    &&& entry.size == object.size
    &&& entry.kind@ == file_kind(entry.path@)
    &&& entry.modified == object.modified
}

/// The file that an object in the directory `base` is; the directory itself is
/// none.
pub fn file_entry(base: &str, object: StoredObject) -> (entry: Option<FileEntry>)
    ensures
        entry is Some <==> path_within(base@, object.location@).len() > 0,
        entry matches Some(file) ==> is_entry_of(file, base@, object),
{
    let base_chars = chars_of(base);
    let directory = text_of(trim_trailing(base_chars.as_slice(), '/'));
    let location = chars_of(object.location.as_str());
    let rest = match strip_prefix(location.as_slice(), directory.as_str()) {
        Some(tail) => tail,
        None => location.as_slice(),
    };
    let relative = trim_leading(rest, '/');
    if relative.len() == 0 {
        return None;
    }
    let path = text_of(relative);
    let kind = classify_file(path.as_str());
    Some(FileEntry { path, size: object.size, kind, modified: object.modified })
}

/// The objects that are files in the directory `base`.
pub open spec fn file_objects(base: Seq<char>, objects: Seq<StoredObject>) -> Seq<StoredObject>
    decreases objects.len(),
{
    if objects.len() == 0 {
        Seq::empty()
    } else {
        let before = file_objects(base, objects.drop_last());
        if path_within(base, objects.last().location@).len() > 0 {
            before.push(objects.last())
        } else {
            before
        }
    }
}

/// Whether `files` are the files among `objects`, in their order.
pub open spec fn are_entries_of(
    files: Seq<FileEntry>,
    base: Seq<char>,
    objects: Seq<StoredObject>,
) -> bool {
    let found = file_objects(base, objects);
    &&& files.len() == found.len()
    &&& forall|i: int| 0 <= i < found.len() ==> is_entry_of(#[trigger] files[i], base, found[i])
}

/// Each file under its path.
pub open spec fn by_path(files: Seq<FileEntry>) -> Seq<(String, FileEntry)> {
    files.map_values(|file: FileEntry| (file.path, file))
}

/// The files of the directory `base`, sorted by path.
pub fn list_files(base: &str, objects: Vec<StoredObject>) -> (files: Vec<FileEntry>)
    ensures
        exists|found: Seq<FileEntry>| #[trigger]
            are_entries_of(found, base@, objects@) && is_sorting(by_path(files@), by_path(found)),
{
    let ghost all = objects@;
    let ghost mut found: Seq<FileEntry> = Seq::empty();
    let mut keyed: Vec<(String, FileEntry)> = Vec::new();
    assert(keyed@ =~= by_path(found));
    for object in it: objects
        invariant
            it.seq() == all,
            are_entries_of(found, base@, all.take(it.index())),
            keyed@ == by_path(found),
    {
        assert(all.take(it.index() + 1).drop_last() =~= all.take(it.index()));
        if let Some(file) = file_entry(base, object) {
            let path = file.path.clone();
            proof {
                found = found.push(file);
            }
            keyed.push((path, file));
            assert(keyed@ =~= by_path(found));
        }
    }
    assert(all.take(all.len() as int) =~= all);
    let sorted = sort_by_name(keyed);
    let ghost pairs = sorted@;
    let mut files: Vec<FileEntry> = Vec::new();
    proof {
        assert forall|i: int| 0 <= i < pairs.len() implies (#[trigger] pairs[i]).0
            == pairs[i].1.path by {
            broadcast use vstd::seq_lib::group_to_multiset_ensures;

            assert(pairs.contains(pairs[i]));
            assert(pairs.to_multiset().count(pairs[i]) > 0);
            assert(by_path(found).contains(pairs[i]));
        }
    }
    for pair in it: sorted
        invariant
            it.seq() == pairs,
            files@.len() == it.index(),
            forall|i: int| 0 <= i < pairs.len() ==> (#[trigger] pairs[i]).0 == pairs[i].1.path,
            forall|i: int| 0 <= i < it.index() ==> #[trigger] files@[i] == pairs[i].1,
    {
        files.push(pair.1);
    }
    assert(by_path(files@) =~= pairs);
    files
}

/// The number of files on a page, by the limit that was asked for.
pub fn files_page_size(limit: Option<usize>) -> (size: usize)
    ensures
        size == page_size_of(limit),
        1 <= size <= MAX_FILES_PAGE_SIZE,
{
    let wanted: usize = match limit {
        Some(n) => n,
        None => DEFAULT_FILES_PAGE_SIZE,
    };
    if wanted < 1 {
        1
    } else if wanted > MAX_FILES_PAGE_SIZE {
        MAX_FILES_PAGE_SIZE
    } else {
        wanted
    }
}

/// The number of files on a page, by the limit that was asked for: at least
/// one, and no more than the maximum.
pub open spec fn page_size_of(limit: Option<usize>) -> usize {
    let wanted = match limit {
        Some(n) => n,
        None => DEFAULT_FILES_PAGE_SIZE,
    };
    if wanted < 1 {
        1
    } else if wanted > MAX_FILES_PAGE_SIZE {
        MAX_FILES_PAGE_SIZE
    } else {
        wanted
    }
}

/// How far a listing has been read. The files to come are received beside it.
#[derive(Debug)]
pub struct FileListing {
    /// The file that was received ahead of its page.
    pub pending: Option<FileEntry>,
    pub next_offset: usize,
    pub last_offset: Option<usize>,
    pub last_page: Option<FilesPage>,
}

/// A page that is being filled.
#[derive(Debug)]
pub struct FilesDraft {
    pub offset: usize,
    pub limit: usize,
    pub entries: Vec<FileEntry>,
    /// The first file of the page after this one.
    pub ahead: Option<FileEntry>,
    /// Whether there are no more files to receive.
    pub ended: bool,
}

/// What a request for a page of files comes to.
pub enum FilesRequest {
    /// The page was handed out before.
    Replay(FilesPage),
    /// Another page is next.
    OutOfOrder(RequestError),
    /// The page is to be filled.
    Fill(FilesDraft),
}

/// Which answer a request for a page of files gets.
pub enum FilesAnswer {
    Replay,
    OutOfOrder,
    Fill,
}

/// What a client reads that asks for another page of files than the next.
pub open spec fn offset_message(expected: usize, received: usize) -> Seq<char> {
    "expected file offset "@ + decimal(expected as nat) + ", received "@ + decimal(received as nat)
}

/// Whether a draft has use for another file: one more than the page has room
/// for is received, to know whether there is another page.
pub open spec fn wants_file(entries: nat, limit: int, ahead: bool, ended: bool) -> bool {
    !ended && !ahead && entries <= limit
}

/// A listing is started by the request for its first page, and by no other.
pub fn may_start_listing(offset: usize) -> (allowed: Result<(), RequestError>)
    ensures
        allowed is Ok <==> offset == 0,
        allowed matches Err(error) ==> error matches RequestError::InvalidRequest(message)
            && message@ == "the first file page must start at offset 0"@,
{
    if offset != 0 {
        Err(RequestError::InvalidRequest("the first file page must start at offset 0".to_owned()))
    } else {
        Ok(())
    }
}

impl FileListing {
    /// A listing of which nothing has been read.
    pub fn new() -> (listing: Self)
        ensures
            listing == (FileListing {
                pending: None,
                next_offset: 0,
                last_offset: None,
                last_page: None,
            }),
            listing.valid(),
    {
        FileListing { pending: None, next_offset: 0, last_offset: None, last_page: None }
    }

    /// The page at the last offset is kept.
    pub open spec fn valid(&self) -> bool {
        self.last_offset is Some ==> self.last_page is Some
    }

    /// The answer to a request for the page at `offset`.
    pub open spec fn answer(&self, offset: usize) -> FilesAnswer {
        if self.last_offset == Some(offset) {
            FilesAnswer::Replay
        } else if offset != self.next_offset {
            FilesAnswer::OutOfOrder
        } else {
            FilesAnswer::Fill
        }
    }

    /// Takes up a request for the page at `offset`. Asking again for the last
    /// page gives that page; otherwise only the next page can be filled, and
    /// the file that was received ahead is its first.
    pub fn begin_page(&mut self, offset: usize, limit: usize) -> (request: FilesRequest)
        requires
            old(self).valid(),
        ensures
            (match request {
                FilesRequest::Replay(page) => {
                    &&& old(self).answer(offset) is Replay
                    &&& old(self).last_page->0.same(page)
                    &&& *final(self) == *old(self)
                },
                FilesRequest::OutOfOrder(error) => {
                    &&& old(self).answer(offset) is OutOfOrder
                    &&& error matches RequestError::InvalidRequest(message) && message@
                        == offset_message(old(self).next_offset, offset)
                    &&& *final(self) == *old(self)
                },
                FilesRequest::Fill(draft) => {
                    &&& old(self).answer(offset) is Fill
                    &&& draft.offset == offset
                    &&& draft.limit == limit
                    &&& draft.entries@ == held(old(self).pending)
                    &&& draft.ahead is None
                    &&& !draft.ended
                    &&& *final(self) == (FileListing { pending: None, ..*old(self) })
                },
            }),
    {
        if let (Some(last), Some(page)) = (self.last_offset, &self.last_page) {
            if last == offset {
                return FilesRequest::Replay(page.clone());
            }
        }
        if offset != self.next_offset {
            let mut message = String::new();
            message.append("expected file offset ");
            message.append(write_decimal(self.next_offset as u64).as_str());
            message.append(", received ");
            message.append(write_decimal(offset as u64).as_str());
            assert(message@ =~= offset_message(self.next_offset, offset));
            return FilesRequest::OutOfOrder(RequestError::InvalidRequest(message));
        }
        let mut entries: Vec<FileEntry> = Vec::new();
        let ghost pending = self.pending;
        if let Some(entry) = self.pending.take() {
            entries.push(entry);
        }
        assert(entries@ =~= held(pending));
        FilesRequest::Fill(FilesDraft { offset, limit, entries, ahead: None, ended: false })
    }

    /// Whether `next` is this listing once it has handed out `page`, filled as
    /// `draft` says.
    pub open spec fn handed_out(&self, draft: FilesDraft, page: FilesPage, next: Self) -> bool {
        let end = draft.offset + draft.entries@.len();
        &&& page.entries@ == draft.entries@
        &&& page.next_offset == (if draft.ahead is Some {
            Some(end as usize)
        } else {
            None
        })
        &&& next.pending == draft.ahead
        &&& next.next_offset == end
        &&& next.last_offset == Some(draft.offset)
        &&& next.last_page matches Some(last) && page.same(last)
    }

    /// Hands out the page that was filled, and keeps it for a retry.
    pub fn finish_page(&mut self, draft: FilesDraft) -> (page: FilesPage)
        requires
            draft.offset + draft.entries@.len() <= usize::MAX,
            !draft.wants(),
        ensures
            old(self).handed_out(draft, page, *final(self)),
            final(self).valid(),
    {
        let end: usize = draft.offset + draft.entries.len();
        let next_offset = if draft.ahead.is_some() {
            Some(end)
        } else {
            None
        };
        let page = FilesPage { entries: draft.entries, next_offset };
        self.pending = draft.ahead;
        self.next_offset = end;
        self.last_offset = Some(draft.offset);
        self.last_page = Some(page.clone());
        page
    }
}

/// The file that is held back, if there is one.
pub open spec fn held(pending: Option<FileEntry>) -> Seq<FileEntry> {
    match pending {
        Some(entry) => seq![entry],
        None => Seq::empty(),
    }
}

impl FilesDraft {
    /// Whether another file is to be received.
    pub open spec fn wants(&self) -> bool {
        wants_file(self.entries@.len(), self.limit as int, self.ahead is Some, self.ended)
    }

    /// Whether another file is to be received.
    pub fn wants_more(&self) -> (more: bool)
        ensures
            more == self.wants(),
    {
        !self.ended && self.ahead.is_none() && self.entries.len() <= self.limit
    }

    /// Whether `next` is this draft once it has received a file.
    pub open spec fn received(&self, entry: FileEntry, next: Self) -> bool {
        &&& next.offset == self.offset
        &&& next.limit == self.limit
        &&& next.ended == self.ended
        &&& if self.entries@.len() < self.limit {
            next.entries@ == self.entries@.push(entry) && next.ahead is None
        } else {
            next.entries@ == self.entries@ && next.ahead == Some(entry)
        }
    }

    /// A file was received: it goes on the page, or waits for the next one.
    pub fn receive(&mut self, entry: FileEntry)
        requires
            old(self).wants(),
        ensures
            *final(self) == (FilesDraft {
                entries: final(self).entries,
                ahead: final(self).ahead,
                ..*old(self)
            }),
            old(self).entries@.len() < old(self).limit ==> final(self).entries@ == old(
                self,
            ).entries@.push(entry) && final(self).ahead is None,
            old(self).entries@.len() >= old(self).limit ==> final(self).entries@ == old(
                self,
            ).entries@ && final(self).ahead == Some(entry),
            old(self).received(entry, *final(self)),
    {
        if self.entries.len() < self.limit {
            self.entries.push(entry);
        } else {
            self.ahead = Some(entry);
        }
    }

    /// There are no more files.
    pub fn end(&mut self)
        ensures
            *final(self) == (FilesDraft { ended: true, ..*old(self) }),
    {
        self.ended = true;
    }

    /// Receiving files failed: the page cannot be filled.
    pub fn fail(self, cause: &str) -> (error: ApiError)
        ensures
            error.is_plain("failed to list dataset files: "@ + cause@),
    {
        let mut message = String::new();
        message.append("failed to list dataset files: ");
        message.append(cause);
        assert(message@ =~= "failed to list dataset files: "@ + cause@);
        ApiError::plain(message)
    }
}

/// A listing is given up with the first page of it that cannot be handed out.
pub fn keep_unless_failed(listing: &mut Option<FileListing>, page: &Result<FilesPage, ApiError>)
    ensures
        *final(listing) == (if page is Ok {
            *old(listing)
        } else {
            None
        }),
{
    if page.is_err() {
        *listing = None;
    }
}

/// What is on a page that starts with `entries`, which file is received ahead,
/// and which files are left to receive, where `stream` is to come.
pub open spec fn filled(
    entries: Seq<FileEntry>,
    ahead: Option<FileEntry>,
    limit: int,
    stream: Seq<FileEntry>,
) -> (Seq<FileEntry>, Option<FileEntry>, Seq<FileEntry>)
    decreases stream.len(),
{
    if !wants_file(entries.len(), limit, ahead is Some, false) || stream.len() == 0 {
        (entries, ahead, stream)
    } else if entries.len() < limit {
        filled(entries.push(stream[0]), ahead, limit, stream.drop_first())
    } else {
        filled(entries, Some(stream[0]), limit, stream.drop_first())
    }
}

/// A page takes the next files, in their order, until it is full or none is
/// left; one more is received ahead where there is one, and nothing is lost.
pub proof fn page_takes_the_next_files(
    pending: Option<FileEntry>,
    limit: int,
    stream: Seq<FileEntry>,
)
    requires
        limit >= 1,
    ensures
        ({
            let left = held(pending) + stream;
            let (page, ahead, rest) = filled(held(pending), None, limit, stream);
            let taken = if left.len() <= limit {
                left.len() as int
            } else {
                limit
            };
            &&& page == left.take(taken)
            &&& held(ahead) + rest == left.skip(taken)
            &&& ahead is Some <==> left.len() > limit
        }),
{
    lemma_filled(held(pending), limit, stream);
    let left = held(pending) + stream;
    let (page, ahead, rest) = filled(held(pending), None, limit, stream);
    let taken = if left.len() <= limit {
        left.len() as int
    } else {
        limit
    };
    assert(page =~= left.take(taken));
    assert(held(ahead) + rest =~= left.skip(taken));
}

proof fn lemma_filled(entries: Seq<FileEntry>, limit: int, stream: Seq<FileEntry>)
    requires
        entries.len() <= limit,
    ensures
        ({
            let room = limit - entries.len();
            let (page, ahead, rest) = filled(entries, None, limit, stream);
            if stream.len() <= room {
                &&& page == entries + stream
                &&& ahead is None
                &&& rest.len() == 0
            } else {
                &&& page == entries + stream.take(room)
                &&& ahead == Some(stream[room])
                &&& rest == stream.skip(room + 1)
            }
        }),
    decreases stream.len(),
{
    let room = limit - entries.len();
    let (page, ahead, rest) = filled(entries, None, limit, stream);
    if stream.len() == 0 {
        assert(page =~= entries + stream);
    } else if entries.len() < limit {
        lemma_filled(entries.push(stream[0]), limit, stream.drop_first());
        if stream.len() <= room {
            assert(page =~= entries + stream);
        } else {
            assert(page =~= entries + stream.take(room));
            assert(rest =~= stream.skip(room + 1));
        }
    } else {
        assert(filled(entries, Some(stream[0]), limit, stream.drop_first()) == (
            entries,
            Some(stream[0]),
            stream.drop_first(),
        ));
        assert(page =~= entries + stream.take(0));
        assert(rest =~= stream.skip(1));
    }
}

/// The files that pages of the given sizes hold together, the file received
/// ahead and the files left to receive.
pub open spec fn files_read(files: Seq<FileEntry>, limits: Seq<int>) -> (
    Seq<FileEntry>,
    Option<FileEntry>,
    Seq<FileEntry>,
)
    decreases limits.len(),
{
    if limits.len() == 0 {
        (Seq::empty(), None, files)
    } else {
        let (before, pending, stream) = files_read(files, limits.drop_last());
        let (page, ahead, rest) = filled(held(pending), None, limits.last(), stream);
        (before + page, ahead, rest)
    }
}

/// The pages of a listing, put together, are its files in their order, from the
/// first on, none twice and none left out.
pub proof fn file_pages_are_the_files(files: Seq<FileEntry>, limits: Seq<int>)
    requires
        forall|i: int| 0 <= i < limits.len() ==> #[trigger] limits[i] >= 1,
    ensures
        ({
            let (pages, pending, stream) = files_read(files, limits);
            &&& pages == files.take(pages.len() as int)
            &&& held(pending) + stream == files.skip(pages.len() as int)
            &&& pages.len() <= files.len()
        }),
    decreases limits.len(),
{
    if limits.len() > 0 {
        let (before, pending, stream) = files_read(files, limits.drop_last());
        file_pages_are_the_files(files, limits.drop_last());
        let limit = limits[limits.len() - 1];
        page_takes_the_next_files(pending, limit, stream);
        let left = held(pending) + stream;
        let (page, ahead, rest) = filled(held(pending), None, limit, stream);
        let n = before.len() as int;
        assert(left == files.skip(n));
        assert(before + page =~= files.take(n + page.len()));
        assert(held(ahead) + rest =~= files.skip(n + page.len()));
    } else {
        assert(files.take(0) =~= Seq::empty());
        assert(held(None) + files =~= files.skip(0));
    }
}

/// Asking again for the page of files that was handed out last gives it again.
pub proof fn a_retry_gives_the_files_again(
    listing: FileListing,
    draft: FilesDraft,
    page: FilesPage,
    next: FileListing,
)
    requires
        listing.handed_out(draft, page, next),
    ensures
        next.answer(draft.offset) is Replay,
        page.same(next.last_page->0),
{
}

/// The next page of files starts where the last one ended, and no other can be
/// had but the last one again.
pub proof fn file_pages_are_read_in_order(
    listing: FileListing,
    draft: FilesDraft,
    page: FilesPage,
    next: FileListing,
    offset: usize,
)
    requires
        draft.offset + draft.entries@.len() <= usize::MAX,
        listing.handed_out(draft, page, next),
        page.entries@.len() > 0,
    ensures
        next.answer(offset) is Fill <==> offset == draft.offset + page.entries@.len(),
        page.next_offset matches Some(n) ==> next.answer(n) is Fill,
        next.answer(offset) is Replay <==> offset == draft.offset,
{
}

/// The bytes of a file of `size` bytes that a preview shows.
pub fn preview_size(size: usize) -> (shown: usize)
    ensures
        shown == shown_bytes(size as int),
{
    if size < FILE_PREVIEW_BYTES {
        size
    } else {
        FILE_PREVIEW_BYTES
    }
}

/// How many bytes of a file of `size` bytes a preview shows.
pub open spec fn shown_bytes(size: int) -> int {
    if size < FILE_PREVIEW_BYTES {
        size
    } else {
        FILE_PREVIEW_BYTES as int
    }
}

/// `str::from_utf8` gives the text that the bytes encode, and an error where
/// they are not UTF-8.
#[verifier::external_body]
fn read_text(bytes: &[u8]) -> (text: Option<&str>)
    ensures
        text is Some <==> valid_utf8(bytes@),
        text matches Some(found) ==> found@ == decode_utf8(bytes@),
{
    std::str::from_utf8(bytes).ok()
}

/// Each byte as two hexadecimal digits.
pub open spec fn hex_bytes(bytes: Seq<u8>) -> Seq<Seq<char>> {
    bytes.map_values(|byte: u8| zero_padded(numeral(byte as nat, 16), 2))
}

/// Bytes in a line of a dump.
pub const DUMP_WIDTH: usize = 16;

/// A line of a dump: the offset of its first byte, and its bytes.
pub open spec fn dump_line(offset: nat, bytes: Seq<u8>) -> Seq<char> {
    zero_padded(numeral(offset, 16), 8) + "  "@ + joined(hex_bytes(bytes), " "@)
}

/// The lines of the dump of `bytes`.
pub open spec fn dump_lines(bytes: Seq<u8>) -> Seq<Seq<char>> {
    let full = bytes.len() / DUMP_WIDTH as nat;
    let count = if full * DUMP_WIDTH < bytes.len() {
        full + 1
    } else {
        full
    };
    Seq::new(
        count,
        |i: int|
            {
                let start = i * DUMP_WIDTH;
                let end = if start + DUMP_WIDTH <= bytes.len() {
                    start + DUMP_WIDTH
                } else {
                    bytes.len() as int
                };
                dump_line(start as nat, bytes.subrange(start, end))
            },
    )
}

/// A dump of `bytes`.
pub open spec fn hex_dump(bytes: Seq<u8>) -> Seq<char> {
    joined(dump_lines(bytes), "\n"@)
}

fn write_hex_bytes(bytes: &[u8]) -> (text: String)
    ensures
        text@ == joined(hex_bytes(bytes@), " "@),
{
    let mut text = String::new();
    let mut i: usize = 0;
    assert(hex_bytes(bytes@.take(0)) =~= Seq::empty());
    while i < bytes.len()
        invariant
            i <= bytes@.len(),
            text@ == joined(hex_bytes(bytes@.take(i as int)), " "@),
        decreases bytes@.len() - i,
    {
        let ghost before = hex_bytes(bytes@.take(i as int));
        let ghost now = hex_bytes(bytes@.take(i + 1));
        let byte = write_hex(bytes[i] as u64, 2);
        assert(now =~= before.push(byte@));
        assert(now.drop_last() =~= before);
        let ghost had = text@;
        if i > 0 {
            text.append(" ");
        }
        text.append(byte.as_str());
        assert(text@ =~= joined(now, " "@));
        i += 1;
    }
    assert(bytes@.take(bytes@.len() as int) =~= bytes@);
    text
}

/// A dump of `bytes`.
pub fn write_dump(bytes: &[u8]) -> (text: String)
    ensures
        text@ == hex_dump(bytes@),
{
    let mut text = String::new();
    let mut start: usize = 0;
    let ghost lines = dump_lines(bytes@);
    let ghost mut count: int = 0;
    assert(lines.take(0) =~= Seq::empty());
    while start < bytes.len()
        invariant
            start <= bytes@.len(),
            lines == dump_lines(bytes@),
            0 <= count <= lines.len(),
            start == bytes@.len() || start == count * DUMP_WIDTH,
            start == bytes@.len() ==> count == lines.len(),
            text@ == joined(lines.take(count), "\n"@),
        decreases bytes@.len() - start,
    {
        let end: usize = if bytes.len() - start >= DUMP_WIDTH {
            start + DUMP_WIDTH
        } else {
            bytes.len()
        };
        let offset = write_hex(start as u64, 8);
        let shown = write_hex_bytes(slice_subrange(bytes, start, end));
        let ghost now = lines.take(count + 1);
        assert(count < lines.len());
        assert(lines[count] == dump_line(start as nat, bytes@.subrange(start as int, end as int)));
        assert(now.drop_last() =~= lines.take(count));
        if start > 0 {
            text.append("\n");
        }
        text.append(offset.as_str());
        text.append("  ");
        text.append(shown.as_str());
        assert(text@ =~= joined(now, "\n"@));
        start = end;
        proof {
            count = count + 1;
        }
    }
    assert(lines.take(lines.len() as int) =~= lines);
    text
}

/// Whether `preview` shows a file of `size` bytes that starts with `bytes`.
pub open spec fn is_preview(
    preview: FilePreview,
    path: Seq<char>,
    size: usize,
    bytes: Seq<u8>,
) -> bool {
    &&& preview.path@ == path
    &&& preview.size == size
    &&& preview.truncated == (size > shown_bytes(size as int))
    &&& if valid_utf8(bytes) {
        preview.format@ == "text"@ && preview.content@ == decode_utf8(bytes)
    } else {
        preview.format@ == "hex"@ && preview.content@ == hex_dump(bytes)
    }
}

/// The preview of a file of `size` bytes that starts with `bytes`.
pub fn preview_file(path: &str, size: usize, bytes: &[u8]) -> (preview: FilePreview)
    ensures
        preview.path@ == path@,
        preview.size == size,
        preview.truncated == (size > shown_bytes(size as int)),
        if valid_utf8(bytes@) {
            preview.format@ == "text"@ && preview.content@ == decode_utf8(bytes@)
        } else {
            preview.format@ == "hex"@ && preview.content@ == hex_dump(bytes@)
        },
        is_preview(preview, path@, size, bytes@),
{
    let (format, content) = match read_text(bytes) {
        Some(text) => ("text", text.to_owned()),
        None => ("hex", write_dump(bytes)),
    };
    FilePreview {
        path: path.to_owned(),
        size,
        format,
        content,
        truncated: size > preview_size(size),
    }
}

/// A text file is shown as it is: what is encoded is read back.
pub proof fn text_is_shown_as_it_is(text: Seq<char>)
    ensures
        valid_utf8(vstd::utf8::encode_utf8(text)),
        decode_utf8(vstd::utf8::encode_utf8(text)) == text,
{
    vstd::utf8::encode_utf8_valid_utf8(text);
    vstd::utf8::encode_utf8_decode_utf8(text);
}

/// What a file is for is told by the end of its path, and otherwise by the
/// directories on it.
pub proof fn files_are_known_by_their_paths(path: Seq<char>, segments: Seq<Seq<char>>)
    requires
        segments.len() > 0,
        forall|i: int| 0 <= i < segments.len() ==> !(#[trigger] segments[i]).contains('/'),
        path == joined(segments, seq!['/']),
    ensures
        ({
            let manifest = ".manifest"@.is_suffix_of(path);
            let data = ".lance"@.is_suffix_of(path);
            let plain = !manifest && !data;
            let deletion = segments.contains("_deletions"@);
            let index = segments.contains("_indices"@);
            let transaction = segments.contains("_transactions"@);
            &&& manifest ==> file_kind(path) == "manifest"@
            &&& !manifest && data ==> file_kind(path) == "data"@
            &&& plain && deletion ==> file_kind(path) == "deletion"@
            &&& plain && !deletion && index ==> file_kind(path) == "index"@
            &&& plain && !deletion && !index && transaction ==> file_kind(path) == "transaction"@
            &&& plain && !deletion && !index && !transaction ==> file_kind(path) == "file"@
        }),
{
    splitting_undoes_joining(segments, '/');
}

/// A path stays below the directory that it starts from exactly where each of its
/// segments is there and none of them is two dots.
pub proof fn paths_stay_below_their_directory(segments: Seq<Seq<char>>)
    requires
        segments.len() > 0,
        forall|i: int| 0 <= i < segments.len() ==> !(#[trigger] segments[i]).contains('/'),
    ensures
        is_relative_path(joined(segments, seq!['/'])) <==> forall|i: int|
            0 <= i < segments.len() ==> (#[trigger] segments[i]).len() > 0 && segments[i] != seq![
                '.', '.',
            ],
{
    reveal_strlit("..");
    assert(".."@ =~= seq!['.', '.']);
    splitting_undoes_joining(segments, '/');
}

proof fn lemma_joins_below<T, F: Fn(T, &str) -> T>(
    join: F,
    base: T,
    pieces: Seq<Seq<char>>,
    result: T,
    text: spec_fn(T) -> Seq<char>,
)
    requires
        joins_to(join, base, pieces, result),
        forall|at: T, segment: &str, to: T| #[trigger]
            call_ensures(join, (at, segment), to) ==> text(to) == text(at) + seq!['/'] + segment@,
    ensures
        text(result) == below(text(base), pieces),
    decreases pieces.len(),
{
    if pieces.len() > 0 {
        let (before, segment) = choose|before: T, segment: &str|
            {
                &&& segment@ == pieces.last()
                &&& joins_to(join, base, pieces.drop_last(), before)
                &&& #[trigger] call_ensures(join, (before, segment), result)
            };
        lemma_joins_below(join, base, pieces.drop_last(), before, text);
    }
}

/// What the segments of a path are joined to, each behind a slash, is the path
/// below the base.
pub proof fn paths_are_joined_in_full<T, F: Fn(T, &str) -> T>(
    join: F,
    base: T,
    path: Seq<char>,
    result: T,
    text: spec_fn(T) -> Seq<char>,
)
    requires
        joins_to(join, base, parts(path, '/'), result),
        forall|at: T, segment: &str, to: T| #[trigger]
            call_ensures(join, (at, segment), to) ==> text(to) == text(at) + seq!['/'] + segment@,
    ensures
        text(result) == text(base) + seq!['/'] + path,
{
    lemma_joins_below(join, base, parts(path, '/'), result, text);
    segments_lead_below_the_base(text(base), path);
}

/// The path of an object is what stands behind its directory and the slashes
/// there, however many the directory itself ends with; where an object does not
/// stand there, it is all of its location.
pub proof fn paths_are_taken_within_the_directory(
    directory: Seq<char>,
    slashes: Seq<char>,
    between: Seq<char>,
    path: Seq<char>,
)
    requires
        directory.len() > 0 ==> directory.last() != '/',
        is_run(slashes, '/'),
        is_run(between, '/'),
        path.len() > 0 ==> path[0] != '/',
    ensures
        path_within(directory + slashes, directory + between + path) == path,
        !directory.is_prefix_of(between + path) ==> path_within(directory + slashes, between + path)
            == path,
{
    taking_a_run_off_the_end(directory, slashes, '/');
    taking_a_run_off_the_start(between, path, '/');
    let location = directory + between + path;
    assert(directory =~= location.take(directory.len() as int));
    assert(location.skip(directory.len() as int) =~= between + path);
}

/// Objects are files one by one: each that has a path within the directory is
/// one, in the order in which they stand.
pub proof fn objects_are_files_one_by_one(
    base: Seq<char>,
    first: Seq<StoredObject>,
    second: Seq<StoredObject>,
    object: StoredObject,
)
    ensures
        file_objects(base, first + second) == file_objects(base, first) + file_objects(
            base,
            second,
        ),
        path_within(base, object.location@).len() > 0 ==> file_objects(base, seq![object]) == seq![
            object,
        ],
        path_within(base, object.location@).len() == 0 ==> file_objects(
            base,
            seq![object],
        ).len() == 0,
    decreases second.len(),
{
    let one = seq![object];
    assert(one.drop_last() =~= Seq::<StoredObject>::empty());
    assert(file_objects(base, one.drop_last()) =~= Seq::<StoredObject>::empty());
    assert(one.last() == object);
    if second.len() == 0 {
        assert(first + second =~= first);
        assert(file_objects(base, first) + file_objects(base, second) =~= file_objects(
            base,
            first,
        ));
    } else {
        objects_are_files_one_by_one(base, first, second.drop_last(), object);
        assert((first + second).drop_last() =~= first + second.drop_last());
        assert((first + second).last() == second.last());
        assert(file_objects(base, first + second) =~= file_objects(base, first) + file_objects(
            base,
            second,
        ));
    }
}

/// A file shows the path, the size and the time of the object that it is, and what
/// it is for.
pub proof fn files_show_their_object(entry: FileEntry, base: Seq<char>, object: StoredObject)
    requires
        is_entry_of(entry, base, object),
    ensures
        entry.path@ == path_within(base, object.location@),
        entry.size == object.size,
        entry.modified == object.modified,
        entry.kind@ == file_kind(entry.path@),
{
}

/// The files of a directory are listed in the order of their paths, each of them
/// as often as it is there.
pub proof fn every_file_is_listed(
    files: Seq<FileEntry>,
    found: Seq<FileEntry>,
    base: Seq<char>,
    objects: Seq<StoredObject>,
    i: int,
)
    requires
        are_entries_of(found, base, objects),
        is_sorting(by_path(files), by_path(found)),
        0 <= i < found.len(),
    ensures
        files.len() == file_objects(base, objects).len(),
        files.contains(found[i]),
        is_entry_of(found[i], base, file_objects(base, objects)[i]),
        forall|a: int, b: int|
            0 <= a < b < files.len() ==> (#[trigger] files[a]).path@ == (#[trigger] files[b]).path@
                || precedes(files[a].path@, files[b].path@),
{
    let list = by_path(files);
    let all = by_path(found);
    sorting_orders_all_entries(list, all, all[i]);
    assert(all.contains(all[i]));
    let k = list.index_of(all[i]);
    assert(list[k] == all[i]);
    assert(files[k] == found[i]);
    assert forall|a: int, b: int| 0 <= a < b < files.len() implies (#[trigger] files[a]).path@ == (
    #[trigger] files[b]).path@ || precedes(files[a].path@, files[b].path@) by {
        assert(list[a].0 == files[a].path);
        assert(list[b].0 == files[b].path);
    }
}

/// A page has as many files as are asked for, but at least one and no more than a
/// thousand, and five hundred where nothing is asked for.
pub proof fn pages_have_the_files_asked_for(limit: usize)
    ensures
        1 <= limit <= 1_000 ==> page_size_of(Some(limit)) == limit,
        limit == 0 ==> page_size_of(Some(limit)) == 1,
        limit > 1_000 ==> page_size_of(Some(limit)) == 1_000,
        page_size_of(None) == 500,
{
}

/// A preview shows all of a file up to 65536 bytes, and that many of a longer one.
pub proof fn previews_show_the_start_of_a_file(size: nat)
    ensures
        size <= 65_536 ==> shown_bytes(size as int) == size,
        size > 65_536 ==> shown_bytes(size as int) == 65_536,
{
}

/// A page of files carries what it was filled with. It says where the next one
/// starts exactly where a file was received for that one, which is kept for it.
pub proof fn pages_say_whether_there_are_more(
    listing: FileListing,
    draft: FilesDraft,
    page: FilesPage,
    next: FileListing,
)
    requires
        listing.handed_out(draft, page, next),
        draft.offset + draft.entries@.len() <= usize::MAX,
    ensures
        page.entries@ == draft.entries@,
        draft.ahead is Some ==> page.next_offset is Some && page.next_offset->0 == draft.offset
            + draft.entries@.len(),
        draft.ahead is None ==> page.next_offset is None,
        next.pending == draft.ahead,
        next.next_offset == draft.offset + draft.entries@.len(),
{
}

/// A draft that receives what it wants fills its page as it would have been
/// filled, and one that wants nothing more is filled.
pub proof fn receiving_fills_the_page(draft: FilesDraft, stream: Seq<FileEntry>)
    requires
        !draft.ended,
    ensures
        draft.wants() <==> draft.ahead is None && draft.entries@.len() <= draft.limit,
        !draft.wants() ==> filled(draft.entries@, draft.ahead, draft.limit as int, stream) == (
            draft.entries@,
            draft.ahead,
            stream,
        ),
        draft.wants() && stream.len() > 0 && draft.entries@.len() < draft.limit ==> filled(
            draft.entries@,
            draft.ahead,
            draft.limit as int,
            stream,
        ) == filled(
            draft.entries@.push(stream[0]),
            None,
            draft.limit as int,
            stream.drop_first(),
        ),
        draft.wants() && stream.len() > 0 && draft.entries@.len() >= draft.limit ==> filled(
            draft.entries@,
            draft.ahead,
            draft.limit as int,
            stream,
        ) == filled(draft.entries@, Some(stream[0]), draft.limit as int, stream.drop_first()),
{
}

/// A byte is written as its two hexadecimal digits, the higher one first.
proof fn lemma_hex_byte(byte: u8)
    ensures
        zero_padded(numeral(byte as nat, 16), 2) == seq![
            digit_char((byte / 16) as nat),
            digit_char((byte % 16) as nat),
        ],
{
    lemma_pow0(16);
    lemma_pow1(16);
    lemma_pow_adds(16, 1, 1);
    assert(pow(16, 2) == 256);
    let shown = zero_padded(numeral(byte as nat, 16), 2);
    padded_digits_stand_at_their_places(byte as nat, 16, 2, 0);
    padded_digits_stand_at_their_places(byte as nat, 16, 2, 1);
    assert(shown =~= seq![digit_char((byte / 16) as nat), digit_char((byte % 16) as nat)]);
}

proof fn lemma_hex_line(bytes: Seq<u8>)
    requires
        bytes.len() > 0,
    ensures
        ({
            let line = joined(hex_bytes(bytes), " "@);
            &&& line.len() == 3 * bytes.len() - 1
            &&& forall|k: int|
                0 <= k < bytes.len() ==> {
                    &&& line[3 * k] == digit_char((#[trigger] bytes[k] / 16) as nat)
                    &&& line[3 * k + 1] == digit_char((bytes[k] % 16) as nat)
                    &&& k < bytes.len() - 1 ==> line[3 * k + 2] == ' '
                }
        }),
    decreases bytes.len(),
{
    reveal_strlit(" ");
    let pieces = hex_bytes(bytes);
    let line = joined(pieces, " "@);
    lemma_hex_byte(bytes.last());
    assert(pieces.last() == zero_padded(numeral(bytes.last() as nat, 16), 2));
    if bytes.len() == 1 {
        assert(line == pieces[0]);
    } else {
        let before = bytes.drop_last();
        lemma_hex_line(before);
        assert(pieces.drop_last() =~= hex_bytes(before));
        let earlier = joined(hex_bytes(before), " "@);
        assert(line == earlier + " "@ + pieces.last());
        assert forall|k: int| 0 <= k < bytes.len() implies {
            &&& line[3 * k] == digit_char((#[trigger] bytes[k] / 16) as nat)
            &&& line[3 * k + 1] == digit_char((bytes[k] % 16) as nat)
            &&& k < bytes.len() - 1 ==> line[3 * k + 2] == ' '
        } by {
            if k < before.len() {
                assert(before[k] == bytes[k]);
                assert(line[3 * k] == earlier[3 * k]);
                assert(line[3 * k + 1] == earlier[3 * k + 1]);
                if k < before.len() - 1 {
                    assert(line[3 * k + 2] == earlier[3 * k + 2]);
                } else {
                    assert(line[3 * k + 2] == " "@[0]);
                }
            } else {
                assert(line[3 * k] == pieces.last()[0]);
                assert(line[3 * k + 1] == pieces.last()[1]);
            }
        }
    }
}

/// A dump shows every byte: the line of each sixteen bytes has the place of the
/// first of them, in eight hexadecimal digits, and behind two spaces the two
/// hexadecimal digits of each byte at its own place, with spaces between them.
pub proof fn dumps_show_every_byte(bytes: Seq<u8>, k: int)
    requires
        0 <= k < bytes.len() <= 0x1_0000_0000,
    ensures
        dump_lines(bytes).len() == (bytes.len() + 15) / 16,
        hex_dump(bytes) == joined(dump_lines(bytes), seq!['\n']),
        ({
            let line = dump_lines(bytes)[k / 16];
            let column = 10 + 3 * (k % 16);
            &&& line[column] == digit_char((bytes[k] / 16) as nat)
            &&& line[column + 1] == digit_char((bytes[k] % 16) as nat)
            &&& k % 16 < 15 && k + 1 < bytes.len() ==> line[column + 2] == ' '
            &&& k % 16 == 15 || k + 1 == bytes.len() ==> line.len() == column + 2
            &&& line[8] == ' ' && line[9] == ' '
            &&& forall|j: nat|
                j < 8 ==> #[trigger] line[7 - j] == digit_char(
                    ((16 * (k / 16)) / pow(16, j) % 16) as nat,
                )
        }),
{
    reveal_strlit("  ");
    reveal_strlit("\n");
    assert("\n"@ =~= seq!['\n']);
    let row = k / 16;
    let start = row * 16;
    let end = if start + 16 <= bytes.len() {
        start + 16
    } else {
        bytes.len() as int
    };
    let part = bytes.subrange(start, end);
    let line = dump_lines(bytes)[row];
    assert(line == dump_line(start as nat, part));
    lemma_hex_line(part);
    assert(part[k - start] == bytes[k]);
    lemma_pow0(16);
    lemma_pow1(16);
    lemma_pow_adds(16, 1, 1);
    lemma_pow_adds(16, 2, 2);
    lemma_pow_adds(16, 4, 4);
    assert(pow(16, 2) == 256);
    assert(pow(16, 4) == 65_536) by (nonlinear_arith)
        requires
            pow(16, 2) == 256,
            pow(16, 4) == pow(16, 2) * pow(16, 2),
    ;
    assert(pow(16, 8) == 0x1_0000_0000) by (nonlinear_arith)
        requires
            pow(16, 4) == 65_536,
            pow(16, 8) == pow(16, 4) * pow(16, 4),
    ;
    let place = zero_padded(numeral(start as nat, 16), 8);
    padded_digits_stand_at_their_places(start as nat, 16, 8, 0);
    assert(place.len() == 8);
    assert forall|j: nat| j < 8 implies #[trigger] line[7 - j] == digit_char(
        ((16 * (k / 16)) / pow(16, j) % 16) as nat,
    ) by {
        padded_digits_stand_at_their_places(start as nat, 16, 8, j);
        assert(line[7 - j] == place[7 - j]);
    }
    let shown = joined(hex_bytes(part), " "@);
    let at = 3 * (k - start);
    assert(line[10 + at] == shown[at]);
    assert(line[10 + at + 1] == shown[at + 1]);
    if k % 16 < 15 && k + 1 < bytes.len() {
        assert(line[10 + at + 2] == shown[at + 2]);
    }
}

/// A client that asks for another page of files than the next reads where the next
/// one starts, and where theirs would.
pub proof fn the_next_offset_is_named(expected: usize, received: usize)
    ensures
        offset_message(expected, received) == "expected file offset "@ + decimal(expected as nat)
            + ", received "@ + decimal(received as nat),
{
}

/// A preview shows a file as the text that its bytes are, and as a dump where they
/// are none, and says whether the file goes on.
pub proof fn previews_show_text_or_a_dump(
    preview: FilePreview,
    path: Seq<char>,
    size: usize,
    bytes: Seq<u8>,
    text: Seq<char>,
)
    requires
        is_preview(preview, path, size, bytes),
    ensures
        preview.path@ == path,
        preview.size == size,
        preview.truncated <==> size > 65_536,
        bytes == vstd::utf8::encode_utf8(text) ==> preview.format@ == "text"@ && preview.content@
            == text,
        !valid_utf8(bytes) ==> preview.format@ == "hex"@ && preview.content@ == hex_dump(bytes),
{
    text_is_shown_as_it_is(text);
}

/// A draft that receives a file puts it behind those that it has while the page has
/// room, and otherwise keeps it for the next page; nothing is lost, and the page
/// is filled as it would have been.
pub proof fn no_file_is_lost(
    draft: FilesDraft,
    next: FilesDraft,
    stream: Seq<FileEntry>,
)
    requires
        draft.wants(),
        stream.len() > 0,
        draft.received(stream[0], next),
    ensures
        next.entries@ + held(next.ahead) == draft.entries@.push(stream[0]),
        next.entries@.len() <= draft.limit || next.entries@ == draft.entries@,
        next.offset == draft.offset && next.limit == draft.limit && !next.ended,
        filled(draft.entries@, draft.ahead, draft.limit as int, stream) == filled(
            next.entries@,
            next.ahead,
            next.limit as int,
            stream.drop_first(),
        ),
{
    assert(next.entries@ + held(next.ahead) =~= draft.entries@.push(stream[0]));
}

} // verus!
