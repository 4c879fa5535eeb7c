//! Serving media: byte ranges, and the answers that carry them.

use axum::http::HeaderValue;
use vstd::prelude::*;
use vstd::slice::{slice_subrange, slice_to_vec};
use vstd::string::StringExecFns;

use crate::blob::{
    depth_message, detect_media_type, is_index_path, leads_along, leads_to_blob, list_fault,
    list_value, media_type_in, null_error, null_message, outside_error, outside_message,
    parse_index_path, BlobArray,
};
use crate::error::{ApiError, RequestError};
use crate::number::{
    all_digits, decimal, decimal_reads_back, decimals_have_no_leading_zeros, number, parse_u64,
    signed_decimal, write_decimal, write_signed,
};
use crate::schema::{holds_blob, holds_blob_array, is_blob_array_field, is_blob_field, Field};
use crate::text::{chars_of, find, starts_with, strip_prefix};

verus! {

/// Whether a byte is one of a visible character, a space or a tab.
pub open spec fn is_visible(byte: u8) -> bool {
    32 <= byte < 127 || byte == 9
}

/// The characters with these codes.
pub open spec fn characters(bytes: Seq<u8>) -> Seq<char> {
    bytes.map_values(|byte: u8| byte as char)
}

/// `HeaderValue::to_str` gives the text of a header whose bytes are those of
/// visible ASCII characters, spaces and tabs, and an error for any other;
/// `HeaderValue::from_bytes` accepts at least the former.
#[verifier::external_body]
fn header_text(bytes: &[u8]) -> (text: Option<String>)
    ensures
        text is Some <==> (forall|i: int| 0 <= i < bytes@.len() ==> is_visible(#[trigger] bytes@[i])),
        text matches Some(found) ==> found@ == characters(bytes@),
{
    let value = HeaderValue::from_bytes(bytes).ok()?;
    value.to_str().ok().map(|text| text.to_string())
}

/// What a range header asks for, of `size` bytes: where it starts, where it
/// ends, and that it is a part; or why it cannot be served.
pub open spec fn range_of(value: Seq<char>, size: u64) -> Result<(u64, u64, bool), Seq<char>> {
    let spec_start = "bytes="@.len() as int;
    let range = value.skip(spec_start);
    if !"bytes="@.is_prefix_of(value) {
        Err("unsupported range header"@)
    } else {
        match range.index_of_first('-') {
            None => Err("invalid range header"@),
            Some(dash) => bounds_of(range.take(dash), range.skip(dash + 1), size),
        }
    }
}

/// The bytes between two written bounds: the last `end` bytes where no start is
/// given, all from `start` on where no end is given.
pub open spec fn bounds_of(start: Seq<char>, end: Seq<char>, size: u64) -> Result<
    (u64, u64, bool),
    Seq<char>,
> {
    if start.len() == 0 {
        match number(end, u64::MAX as nat) {
            None => Err("invalid suffix range"@),
            Some(length) => if length == 0 || size == 0 {
                Err("requested range is outside the blob"@)
            } else {
                Ok(
                    (
                        if length < size {
                            (size - length) as u64
                        } else {
                            0
                        },
                        size,
                        true,
                    ),
                )
            },
        }
    } else {
        match number(start, u64::MAX as nat) {
            None => Err("invalid range start"@),
            Some(first) => if first >= size {
                Err("requested range is outside the blob"@)
            } else if end.len() == 0 {
                Ok((first as u64, size, true))
            } else {
                match number(end, u64::MAX as nat) {
                    None => Err("invalid range end"@),
                    Some(last) => if last < first {
                        Err("range end precedes range start"@)
                    } else {
                        Ok(
                            (
                                first as u64,
                                if last < size {
                                    (last + 1) as u64
                                } else {
                                    size
                                },
                                true,
                            ),
                        )
                    },
                }
            },
        }
    }
}

/// What a request asks for, of `size` bytes: all of them where it has no range
/// header, which is no part.
pub open spec fn requested_range(header: Option<Seq<u8>>, size: u64) -> Result<
    (u64, u64, bool),
    Seq<char>,
> {
    match header {
        None => Ok((0, size, false)),
        Some(bytes) => if forall|i: int| 0 <= i < bytes.len() ==> is_visible(#[trigger] bytes[i]) {
            range_of(characters(bytes), size)
        } else {
            Err("range header is not valid ASCII"@)
        },
    }
}

/// The view of a header.
pub open spec fn header_view(header: Option<&[u8]>) -> Option<Seq<u8>> {
    match header {
        Some(bytes) => Some(bytes@),
        None => None,
    }
}

fn range_error(message: &str, size: u64) -> (error: RequestError)
    ensures
        error matches RequestError::RangeNotSatisfiable { size: found, message: text } && found
            == size && text@ == message@,
{
    RequestError::RangeNotSatisfiable { size, message: message.to_owned() }
}

/// Reads a range header.
pub fn parse_range(header: Option<&[u8]>, size: u64) -> (range: Result<(u64, u64, bool), RequestError>)
    ensures
        (match range {
            Ok(found) => requested_range(header_view(header), size) == Ok::<(u64, u64, bool), Seq<char>>(
                found,
            ),
            Err(error) => {
                &&& requested_range(header_view(header), size) matches Err(reason)
                &&& error matches RequestError::RangeNotSatisfiable { size: found, message }
                &&& found == size
                &&& message@ == reason
            },
        }),
{
    let bytes = match header {
        None => {
            return Ok((0, size, false));
        },
        Some(bytes) => bytes,
    };
    let text = match header_text(bytes) {
        None => {
            return Err(range_error("range header is not valid ASCII", size));
        },
        Some(text) => text,
    };
    let value = chars_of(text.as_str());
    let range = match strip_prefix(value.as_slice(), "bytes=") {
        None => {
            return Err(range_error("unsupported range header", size));
        },
        Some(range) => range,
    };
    let dash: usize = match find(range, '-') {
        None => {
            return Err(range_error("invalid range header", size));
        },
        Some(dash) => dash,
    };
    let count: usize = range.len();
    let start = slice_subrange(range, 0, dash);
    let end = slice_subrange(range, dash + 1, count);
    assert(start@ =~= range@.take(dash as int));
    assert(end@ =~= range@.skip(dash + 1));
    if start.len() == 0 {
        return match parse_u64(end) {
            Err(_) => Err(range_error("invalid suffix range", size)),
            Ok(length) => if length == 0 || size == 0 {
                Err(range_error("requested range is outside the blob", size))
            } else {
                let first: u64 = if length < size {
                    size - length
                } else {
                    0
                };
                Ok((first, size, true))
            },
        };
    }
    let first: u64 = match parse_u64(start) {
        Err(_) => {
            return Err(range_error("invalid range start", size));
        },
        Ok(first) => first,
    };
    if first >= size {
        return Err(range_error("requested range is outside the blob", size));
    }
    if end.len() == 0 {
        return Ok((first, size, true));
    }
    match parse_u64(end) {
        Err(_) => Err(range_error("invalid range end", size)),
        Ok(last) => if last < first {
            Err(range_error("range end precedes range start", size))
        } else {
            let end: u64 = if last < size {
                last + 1
            } else {
                size
            };
            Ok((first, end, true))
        },
    }
}

/// A range that is served lies within the bytes that there are, and a part is
/// never empty.
pub proof fn served_ranges_lie_within(header: Option<Seq<u8>>, size: u64)
    ensures
        requested_range(header, size) matches Ok((start, end, partial)) ==> {
            &&& start <= end <= size
            &&& partial ==> start < end
            &&& partial <==> header is Some
        },
{
}

/// A media answer.
#[derive(Debug)]
pub struct MediaResponse {
    pub status: u16,
    pub content_type: String,
    pub accept_ranges: &'static str,
    pub content_length: String,
    pub content_range: Option<String>,
    pub body: Vec<u8>,
}

/// Whether a header may hold `text`: it has no control characters but tabs.
pub open spec fn fits_header(text: Seq<char>) -> bool {
    forall|i: int|
        0 <= i < text.len() ==> {
            let code = #[trigger] text[i] as u32;
            (code >= 32 && code != 127) || code == 9
        }
}

/// `HeaderValue::from_str` accepts a text without control characters but tabs.
#[verifier::external_body]
fn is_header_text(text: &str) -> (fits: bool)
    ensures
        fits == fits_header(text@),
{
    HeaderValue::from_str(text).is_ok()
}

/// Where a part stands among `size` bytes, as a header tells it.
pub open spec fn content_range_text(start: u64, end: u64, size: u64) -> Seq<char> {
    "bytes "@ + decimal(start as nat) + "-"@ + decimal((end - 1) as nat) + "/"@ + decimal(
        size as nat,
    )
}

/// Whether `response` carries these bytes of `size` as what `mime` says. A
/// request for the headers alone gets them as if the bytes were sent.
pub open spec fn is_media_answer(
    response: MediaResponse,
    bytes: Seq<u8>,
    mime: Seq<char>,
    range: (u64, u64, bool),
    size: u64,
    head: bool,
) -> bool {
    let (start, end, partial) = range;
    let length = if head {
        if start <= end {
            end - start
        } else {
            0
        }
    } else {
        bytes.len() as int
    };
    &&& response.status == (if partial {
        206u16
    } else {
        200u16
    })
    &&& response.content_type@ == mime
    &&& response.accept_ranges@ == "bytes"@
    &&& response.content_length@ == decimal(length as nat)
    &&& response.content_range is Some <==> partial
    &&& response.content_range matches Some(text) ==> text@ == content_range_text(
        start,
        end,
        size,
    )
    &&& response.body@ == (if head {
        Seq::empty()
    } else {
        bytes
    })
}

/// Answers with bytes of a blob.
pub fn media_response(
    bytes: Vec<u8>,
    mime: &str,
    start: u64,
    end: u64,
    size: u64,
    partial: bool,
    head: bool,
) -> (response: Result<MediaResponse, ApiError>)
    requires
        partial ==> end >= 1,
    ensures
        response is Ok <==> fits_header(mime@),
        response matches Ok(answer) ==> is_media_answer(answer, bytes@, mime@, (start, end, partial), size, head),
        response matches Err(error) ==> error.is_plain("failed to parse header value"@),
{
    let length: u64 = if head {
        if start <= end {
            end - start
        } else {
            0
        }
    } else {
        bytes.len() as u64
    };
    if !is_header_text(mime) {
        return Err(ApiError::plain("failed to parse header value".to_owned()));
    }
    let content_range = if partial {
        let mut text = String::new();
        text.append("bytes ");
        text.append(write_decimal(start).as_str());
        text.append("-");
        text.append(write_decimal(end - 1).as_str());
        text.append("/");
        text.append(write_decimal(size).as_str());
        assert(text@ =~= content_range_text(start, end, size));
        Some(text)
    } else {
        None
    };
    let body = if head {
        Vec::new()
    } else {
        bytes
    };
    Ok(
        MediaResponse {
            status: if partial {
                206
            } else {
                200
            },
            content_type: mime.to_owned(),
            accept_ranges: "bytes",
            content_length: write_decimal(length),
            content_range,
            body,
        },
    )
}

/// A field of a dataset, and its number.
#[derive(Debug)]
pub struct SourceField {
    pub id: i32,
    pub field: Field,
}

/// Whether the field at `at` is the first of this number.
pub open spec fn is_first_with_id(fields: Seq<SourceField>, id: i32, at: int) -> bool {
    &&& 0 <= at < fields.len()
    &&& fields[at].id == id
    &&& forall|j: int| 0 <= j < at ==> (#[trigger] fields[j]).id != id
}

/// What a client reads that asks for media of a column that holds none.
pub open spec fn not_blob_message(column: Seq<char>) -> Seq<char> {
    "column "@ + column + " is not a Lance blob column"@
}

/// The field that media are asked for of, and whether it holds lists of blobs.
pub fn media_source(fields: &Vec<SourceField>, field_id: i32) -> (source: Result<
    (usize, bool),
    ApiError,
>)
    ensures
        (match source {
            Ok((at, array)) => {
                &&& is_first_with_id(fields@, field_id, at as int)
                &&& array == holds_blob_array(fields@[at as int].field)
                &&& array || holds_blob(fields@[at as int].field)
            },
            Err(error) => {
                ||| {
                    &&& forall|j: int| 0 <= j < fields@.len() ==> (#[trigger] fields@[j]).id
                        != field_id
                    &&& error.is_plain("unknown source field id "@ + signed_decimal(field_id as int))
                }
                ||| exists|at: int|
                    {
                        &&& #[trigger] is_first_with_id(fields@, field_id, at)
                        &&& !holds_blob_array(fields@[at].field)
                        &&& !holds_blob(fields@[at].field)
                        &&& error.is_plain(not_blob_message(fields@[at].field.name@))
                    }
            },
        }),
{
    let mut i: usize = 0;
    while i < fields.len()
        invariant
            i <= fields@.len(),
            forall|j: int| 0 <= j < i ==> (#[trigger] fields@[j]).id != field_id,
        decreases fields@.len() - i,
    {
        if fields[i].id == field_id {
            let field = &fields[i].field;
            let array = is_blob_array_field(field);
            assert(is_first_with_id(fields@, field_id, i as int));
            if !array && !is_blob_field(field) {
                let mut message = String::new();
                message.append("column ");
                message.append(field.name.as_str());
                message.append(" is not a Lance blob column");
                assert(message@ =~= not_blob_message(field.name@));
                return Err(ApiError::plain(message));
            }
            return Ok((i, array));
        }
        i += 1;
    }
    let mut message = String::new();
    message.append("unknown source field id ");
    message.append(write_signed(field_id as i64).as_str());
    assert(message@ =~= "unknown source field id "@ + signed_decimal(field_id as int));
    Err(ApiError::plain(message))
}

/// What media are asked for: the blob of a row, or one in the lists of a row.
#[derive(Debug)]
pub enum MediaTarget {
    Blob,
    Item(Vec<usize>),
}

/// What an index asks for, in a column of blobs or in one of lists of them. An
/// index is owed for the latter and out of place for the former.
pub fn media_target(blob_array: bool, index: Option<&str>) -> (target: Result<
    MediaTarget,
    ApiError,
>)
    ensures
        (match target {
            Ok(MediaTarget::Blob) => !blob_array && index is None,
            Ok(MediaTarget::Item(path)) => {
                &&& blob_array
                &&& is_index_path(index, Ok::<Vec<usize>, ApiError>(path))
            },
            Err(error) => if blob_array {
                is_index_path(index, Err::<Vec<usize>, ApiError>(error))
            } else {
                &&& index is Some
                &&& error.is_plain("blob index is only valid for blob array columns"@)
            },
        }),
{
    if blob_array {
        match parse_index_path(index) {
            Ok(path) => Ok(MediaTarget::Item(path)),
            Err(error) => Err(error),
        }
    } else if index.is_some() {
        Err(ApiError::plain("blob index is only valid for blob array columns".to_owned()))
    } else {
        Ok(MediaTarget::Blob)
    }
}

/// What is to be read of a blob for an answer.
#[derive(Debug, Clone, Copy, PartialEq, Eq, Structural)]
pub struct BlobPlan {
    pub size: u64,
    pub start: u64,
    pub end: u64,
    pub partial: bool,
    /// Whether the headers alone are asked for.
    pub head: bool,
}

/// Bytes at the start of a blob by which its type is told.
pub const PREFIX_BYTES: u64 = 32;

impl BlobPlan {
    /// Whether the plan is one for a request that can be served.
    pub open spec fn valid(&self) -> bool {
        &&& self.start <= self.end <= self.size
        &&& self.partial ==> self.start < self.end
    }

    /// Whether the plan is one for this request for a blob of `size` bytes.
    pub open spec fn is_plan(&self, header: Option<Seq<u8>>, size: u64, head: bool) -> bool {
        &&& requested_range(header, size) == Ok::<(u64, u64, bool), Seq<char>>(
            (self.start, self.end, self.partial),
        )
        &&& self.size == size
        &&& self.head == head
    }

    /// The end of the bytes by which the type of the blob is told.
    pub open spec fn prefix(&self) -> u64 {
        if self.size < PREFIX_BYTES {
            self.size
        } else {
            PREFIX_BYTES
        }
    }

    /// The end of the bytes by which the type of the blob is told.
    pub fn prefix_end(&self) -> (end: u64)
        ensures
            end == self.prefix(),
            end == (if self.size < PREFIX_BYTES {
                self.size
            } else {
                PREFIX_BYTES
            }),
    {
        if self.size < PREFIX_BYTES {
            self.size
        } else {
            PREFIX_BYTES
        }
    }

    /// The bytes to be read for the body, if it has one.
    pub fn body_range(&self) -> (range: Option<(u64, u64)>)
        ensures
            range == (if self.head {
                None
            } else {
                Some((self.start, self.end))
            }),
    {
        if self.head {
            None
        } else {
            Some((self.start, self.end))
        }
    }

    /// Answers with the bytes of the body, as what the first bytes of the blob
    /// tell.
    pub fn answer(&self, prefix: &[u8], body: Vec<u8>) -> (response: Result<
        MediaResponse,
        ApiError,
    >)
        requires
            self.valid(),
        ensures
            response is Ok <==> fits_header(media_type_in(prefix@)),
            response matches Ok(answer) ==> is_media_answer(
                answer,
                body@,
                media_type_in(prefix@),
                (self.start, self.end, self.partial),
                self.size,
                self.head,
            ),
            response matches Err(error) ==> error.is_plain("failed to parse header value"@),
    {
        let mime = detect_media_type(prefix);
        media_response(
            body,
            mime.as_str(),
            self.start,
            self.end,
            self.size,
            self.partial,
            self.head,
        )
    }
}

/// Plans what to read of a blob of `size` bytes.
pub fn plan_blob(header: Option<&[u8]>, size: u64, head: bool) -> (plan: Result<BlobPlan, ApiError>)
    ensures
        (match plan {
            Ok(found) => {
                &&& requested_range(header_view(header), size) == Ok::<
                    (u64, u64, bool),
                    Seq<char>,
                >((found.start, found.end, found.partial))
                &&& found.size == size
                &&& found.head == head
                &&& found.valid()
                &&& found.is_plan(header_view(header), size, head)
            },
            Err(error) => requested_range(header_view(header), size) matches Err(reason)
                && error.is_range_fault(size, reason),
        }),
{
    proof {
        served_ranges_lie_within(header_view(header), size);
    }
    match parse_range(header, size) {
        Ok((start, end, partial)) => Ok(BlobPlan { size, start, end, partial, head }),
        Err(error) => Err(ApiError::from_request(error)),
    }
}

/// What a client reads whose blobs were not read as bytes.
pub open spec fn not_binary_message(column: Seq<char>) -> Seq<char> {
    "blob array column "@ + column + " did not materialize as binary values"@
}

/// The bytes of the blob that `path` leads to, slot by slot, or why there are
/// none.
pub open spec fn blob_at(array: BlobArray, path: Seq<usize>, column: Seq<char>) -> Result<
    Seq<u8>,
    Seq<char>,
>
    decreases path.len(),
{
    if path.len() == 0 {
        Err(Seq::empty())
    } else if path.len() == 1 {
        let index = path[0] as int;
        match array {
            BlobArray::Binaries(slots) => if index >= slots@.len() {
                Err(outside_message(index as nat, column, slots@.len()))
            } else {
                match slots@[index] {
                    Some(bytes) => Ok(bytes@),
                    None => Err(null_message(index as nat)),
                }
            },
            _ => Err(not_binary_message(column)),
        }
    } else {
        match list_fault(array, path[0] as int, column) {
            Some(message) => Err(message),
            None => blob_at(array->Lists_0@[path[0] as int]->0, path.skip(1), column),
        }
    }
}

/// Whatever lists lead along the path, the bytes in the slot that it names are
/// found.
proof fn lemma_slots_are_found(array: BlobArray, path: Seq<usize>, column: Seq<char>)
    requires
        path.len() > 0,
    ensures
        forall|chain: Seq<BlobArray>|
            #![trigger leads_along(chain, seq![0usize] + path)]
            leads_along(chain, seq![0usize] + path) && chain[0] == array ==> (
            chain.last() matches BlobArray::Binaries(slots) ==> (path.last() < slots@.len()
                && slots@[path.last() as int] is Some ==> blob_at(
                array,
                seq![0usize] + path,
                column,
            ) == Ok::<Seq<u8>, Seq<char>>(slots@[path.last() as int]->0@))),
{
    let whole = seq![0usize] + path;
    assert(whole.last() == path.last());
    assert forall|chain: Seq<BlobArray>|
        #![trigger leads_along(chain, whole)]
        leads_along(chain, whole) && chain[0] == array implies (
    chain.last() matches BlobArray::Binaries(slots) ==> (path.last() < slots@.len()
        && slots@[path.last() as int] is Some ==> blob_at(array, whole, column) == Ok::<
        Seq<u8>,
        Seq<char>,
    >(slots@[path.last() as int]->0@))) by {
        the_bytes_in_the_named_slot_are_found(chain, whole, column);
    }
}

/// The bytes of the blob that `path` leads to, in a row that stands alone in its
/// column.
pub fn find_blob<'a>(array: &'a BlobArray, index_path: &[usize], column: &str) -> (found: Result<
    &'a Vec<u8>,
    ApiError,
>)
    requires
        index_path@.len() > 0,
    ensures
        (match found {
            Ok(bytes) => blob_at(*array, seq![0usize] + index_path@, column@) == Ok::<
                Seq<u8>,
                Seq<char>,
            >(bytes@),
            Err(error) => blob_at(*array, seq![0usize] + index_path@, column@) matches Err(message)
                && error.is_plain(message),
        }),
        forall|chain: Seq<BlobArray>|
            #![trigger leads_along(chain, seq![0usize] + index_path@)]
            leads_along(chain, seq![0usize] + index_path@) && chain[0] == *array ==> (
            chain.last() matches BlobArray::Binaries(slots) ==> (index_path@.last() < slots@.len()
                && slots@[index_path@.last() as int] is Some ==> (found matches Ok(bytes) && bytes@
                == slots@[index_path@.last() as int]->0@))),
{
    let ghost whole = seq![0usize] + index_path@;
    proof {
        lemma_slots_are_found(*array, index_path@, column@);
    }
    let mut values = match list_value(array, 0, column) {
        Ok(values) => values,
        Err(error) => {
            return Err(error);
        },
    };
    assert(whole.skip(1) =~= index_path@.skip(0));
    let mut i: usize = 0;
    while i < index_path.len() - 1
        invariant
            index_path@.len() > 0,
            i <= index_path@.len() - 1,
            whole == seq![0usize] + index_path@,
            blob_at(*values, index_path@.skip(i as int), column@) == blob_at(*array, whole, column@),
        decreases index_path@.len() - i,
    {
        let ghost rest = index_path@.skip(i as int);
        assert(rest.skip(1) =~= index_path@.skip(i + 1));
        values = match list_value(values, index_path[i], column) {
            Ok(values) => values,
            Err(error) => {
                proof {
                    lemma_slots_are_found(*array, index_path@, column@);
                }
                return Err(error);
            },
        };
        i += 1;
    }
    let index: usize = index_path[index_path.len() - 1];
    assert(index_path@.skip(i as int)[0] == index);
    match values {
        BlobArray::Binaries(slots) => {
            if index >= slots.len() {
                return Err(outside_error(index, column, slots.len()));
            }
            match &slots[index] {
                Some(bytes) => Ok(bytes),
                None => Err(null_error(index)),
            }
        },
        _ => {
            let mut message = String::new();
            message.append("blob array column ");
            message.append(column);
            message.append(" did not materialize as binary values");
            assert(message@ =~= not_binary_message(column@));
            Err(ApiError::plain(message))
        },
    }
}

/// Whether `response` answers a request for a blob of which this was found: it
/// carries the bytes that are asked for, as what the bytes tell, or tells why not.
pub open spec fn is_blob_answer(
    response: Result<MediaResponse, ApiError>,
    found: Result<Seq<u8>, Seq<char>>,
    header: Option<Seq<u8>>,
    head: bool,
) -> bool {
    match found {
        Err(message) => response matches Err(error) && error.is_plain(message),
        Ok(bytes) => match requested_range(header, bytes.len() as u64) {
            Err(reason) => response matches Err(error) && error.is_range_fault(
                bytes.len() as u64,
                reason,
            ),
            Ok((start, end, partial)) => {
                &&& response is Ok <==> fits_header(media_type_in(bytes))
                &&& response matches Ok(answer) ==> is_media_answer(
                    answer,
                    bytes.subrange(start as int, end as int),
                    media_type_in(bytes),
                    (start, end, partial),
                    bytes.len() as u64,
                    head,
                )
                &&& response matches Err(error) ==> error.is_plain("failed to parse header value"@)
            },
        },
    }
}

/// Answers a request for a blob in the lists of a row: the blob that the path
/// leads to, or the part of it that is asked for, as what its bytes tell.
pub fn read_blob_array_media(
    array: &BlobArray,
    column: &str,
    index_path: &[usize],
    header: Option<&[u8]>,
    head: bool,
) -> (response: Result<MediaResponse, ApiError>)
    requires
        index_path@.len() > 0,
    ensures
        (match blob_at(*array, seq![0usize] + index_path@, column@) {
            Err(message) => response matches Err(error) && error.is_plain(message),
            Ok(bytes) => match requested_range(header_view(header), bytes.len() as u64) {
                Err(reason) => response matches Err(error) && error.is_range_fault(
                    bytes.len() as u64,
                    reason,
                ),
                Ok((start, end, partial)) => {
                    &&& response is Ok <==> fits_header(media_type_in(bytes))
                    &&& response matches Ok(answer) ==> is_media_answer(
                        answer,
                        bytes.subrange(start as int, end as int),
                        media_type_in(bytes),
                        (start, end, partial),
                        bytes.len() as u64,
                        head,
                    )
                    &&& response matches Err(error) ==> error.is_plain(
                        "failed to parse header value"@,
                    )
                },
            },
        }),
        is_blob_answer(
            response,
            blob_at(*array, seq![0usize] + index_path@, column@),
            header_view(header),
            head,
        ),
{
    let bytes = match find_blob(array, index_path, column) {
        Ok(bytes) => bytes,
        Err(error) => {
            return Err(error);
        },
    };
    let size: u64 = bytes.len() as u64;
    let plan = match plan_blob(header, size, head) {
        Ok(plan) => plan,
        Err(error) => {
            return Err(error);
        },
    };
    let body = if head {
        Vec::new()
    } else {
        slice_to_vec(slice_subrange(bytes.as_slice(), plan.start as usize, plan.end as usize))
    };
    assert(!head ==> body@ =~= bytes@.subrange(plan.start as int, plan.end as int));
    plan.answer(bytes.as_slice(), body)
}

/// Whether media may be served as what a client asks for.
pub open spec fn may_serve_as(mime: Seq<char>) -> bool {
    ||| "image/"@.is_prefix_of(mime)
    ||| "audio/"@.is_prefix_of(mime)
    ||| "video/"@.is_prefix_of(mime)
    ||| mime == "application/octet-stream"@
}

/// The media type to serve as, where a client may ask for one.
pub open spec fn served_as(mime: Option<Seq<char>>) -> Seq<char> {
    match mime {
        Some(wanted) => if may_serve_as(wanted) {
            wanted
        } else {
            "application/octet-stream"@
        },
        None => "application/octet-stream"@,
    }
}

/// The media type to serve as, where a client may ask for one.
pub fn requested_media_type(mime: Option<String>) -> (served: String)
    ensures
        served@ == (match mime {
            Some(wanted) => if may_serve_as(wanted@) {
                wanted@
            } else {
                "application/octet-stream"@
            },
            None => "application/octet-stream"@,
        }),
        served@ == served_as(
            match mime {
                Some(wanted) => Some(wanted@),
                None => None,
            },
        ),
{
    match mime {
        Some(wanted) => {
            let chars = chars_of(wanted.as_str());
            let allowed = starts_with(chars.as_slice(), "image/") || starts_with(
                chars.as_slice(),
                "audio/",
            ) || starts_with(chars.as_slice(), "video/") || crate::text::is_text(
                chars.as_slice(),
                "application/octet-stream",
            );
            if allowed {
                wanted
            } else {
                "application/octet-stream".to_owned()
            }
        },
        None => "application/octet-stream".to_owned(),
    }
}

/// Whether `loaded` holds the bytes of the blobs that `described` describes: the
/// same lists, with bytes for each description that is not null.
pub open spec fn loads(described: BlobArray, loaded: BlobArray) -> bool
    decreases described,
{
    match (described, loaded) {
        (BlobArray::Lists(left), BlobArray::Lists(right)) => {
            &&& left@.len() == right@.len()
            &&& forall|i: int|
                0 <= i < left@.len() ==> match (#[trigger] left@[i], right@[i]) {
                    (Some(a), Some(b)) => loads(a, b),
                    (None, None) => true,
                    _ => false,
                }
        },
        (BlobArray::Descriptors(left), BlobArray::Binaries(right)) => {
            &&& left@.len() == right@.len()
            &&& forall|i: int|
                0 <= i < left@.len() ==> (#[trigger] left@[i] == Some(false) <==> right@[i] is Some)
        },
        _ => false,
    }
}

/// The blobs that can be fetched are those that a row lists: a path leads to
/// bytes where it leads to a description that is not null, and nowhere else.
pub proof fn listed_items_can_be_fetched(
    described: BlobArray,
    loaded: BlobArray,
    row: usize,
    path: Seq<usize>,
    column: Seq<char>,
)
    requires
        loads(described, loaded),
    ensures
        leads_to_blob(described, row as int, path) <==> blob_at(loaded, seq![row] + path, column)
            is Ok,
    decreases path.len(),
{
    let whole = seq![row] + path;
    assert(whole[0] == row);
    if path.len() > 0 {
        assert(whole.skip(1) =~= path);
        assert(path =~= seq![path[0]] + path.skip(1));
        match (described, loaded) {
            (BlobArray::Lists(left), BlobArray::Lists(right)) => if row < left@.len() {
                match (left@[row as int], right@[row as int]) {
                    (Some(a), Some(b)) => {
                        listed_items_can_be_fetched(a, b, path[0], path.skip(1), column);
                    },
                    _ => {},
                }
            },
            _ => {},
        }
    } else {
        assert(whole.len() == 1);
    }
}

/// The bytes that are found for a path are those in the slot that it names: where
/// the lists lead along the path to an array of bytes, what stands there in the
/// last slot is found.
pub proof fn the_bytes_in_the_named_slot_are_found(
    chain: Seq<BlobArray>,
    path: Seq<usize>,
    column: Seq<char>,
)
    requires
        leads_along(chain, path),
        chain.len() > 0,
    ensures
        chain.last() matches BlobArray::Binaries(slots) ==> {
            let last = path.last() as int;
            &&& last < slots@.len() && slots@[last] is Some ==> blob_at(chain[0], path, column)
                == Ok::<Seq<u8>, Seq<char>>(slots@[last]->0@)
            &&& last < slots@.len() && slots@[last] is None ==> blob_at(chain[0], path, column)
                == Err::<Seq<u8>, Seq<char>>(null_message(last as nat))
            &&& last >= slots@.len() ==> blob_at(chain[0], path, column) == Err::<
                Seq<u8>,
                Seq<char>,
            >(outside_message(last as nat, column, slots@.len()))
        },
        !(chain.last() is Binaries) ==> blob_at(chain[0], path, column) == Err::<
            Seq<u8>,
            Seq<char>,
        >(not_binary_message(column)),
    decreases chain.len(),
{
    if chain.len() > 1 {
        let rest = chain.skip(1);
        let way = path.skip(1);
        assert forall|i: int| 0 <= i < rest.len() - 1 implies (rest[i] matches BlobArray::Lists(
            slots,
        ) && #[trigger] way[i] < slots@.len() && slots@[way[i] as int] == Some(rest[i + 1])) by {
            assert(way[i] == path[i + 1]);
            assert(rest[i] == chain[i + 1]);
            assert(rest[i + 1] == chain[i + 2]);
        }
        the_bytes_in_the_named_slot_are_found(rest, way, column);
        assert(path[0] < chain[0]->Lists_0@.len());
        assert(rest[0] == chain[1]);
        assert(rest.last() == chain.last());
        assert(way.last() == path.last());
    }
}

/// Where bytes are found for a path, the lists lead along it to an array of bytes
/// that has them in its last slot.
pub proof fn found_bytes_stand_in_the_named_slot(
    array: BlobArray,
    path: Seq<usize>,
    column: Seq<char>,
) -> (chain: Seq<BlobArray>)
    requires
        blob_at(array, path, column) is Ok,
    ensures
        leads_along(chain, path),
        chain.len() > 0,
        chain[0] == array,
        chain.last() matches BlobArray::Binaries(slots) && path.last() < slots@.len()
            && slots@[path.last() as int] is Some && blob_at(array, path, column) == Ok::<
            Seq<u8>,
            Seq<char>,
        >(slots@[path.last() as int]->0@),
    decreases path.len(),
{
    if path.len() == 1 {
        let chain = seq![array];
        assert(chain.last() == array);
        chain
    } else {
        let values = array->Lists_0@[path[0] as int]->0;
        let way = path.skip(1);
        let rest = found_bytes_stand_in_the_named_slot(values, way, column);
        let chain = seq![array] + rest;
        assert forall|i: int| 0 <= i < chain.len() - 1 implies (chain[i] matches BlobArray::Lists(
            slots,
        ) && #[trigger] path[i] < slots@.len() && slots@[path[i] as int] == Some(chain[i + 1])) by {
            if i == 0 {
                assert(chain[1] == rest[0]);
            } else {
                assert(path[i] == way[i - 1]);
                assert(chain[i] == rest[i - 1]);
                assert(chain[i + 1] == rest[i]);
            }
        }
        assert(chain.last() == rest.last());
        assert(way.last() == path.last());
        chain
    }
}

/// A path that cannot be followed says where: at a slot that is not there, at one
/// that is null, or at one that holds no list. Otherwise what is found is what is
/// found further along.
pub proof fn paths_are_followed_slot_by_slot(
    array: BlobArray,
    slot: usize,
    rest: Seq<usize>,
    column: Seq<char>,
)
    requires
        rest.len() > 0,
    ensures
        slot >= array.slots() ==> blob_at(array, seq![slot] + rest, column) == Err::<
            Seq<u8>,
            Seq<char>,
        >(outside_message(slot as nat, column, array.slots())),
        slot < array.slots() && array.null_at(slot as int) ==> blob_at(
            array,
            seq![slot] + rest,
            column,
        ) == Err::<Seq<u8>, Seq<char>>(null_message(slot as nat)),
        slot < array.slots() && !array.null_at(slot as int) && !(array is Lists) ==> blob_at(
            array,
            seq![slot] + rest,
            column,
        ) == Err::<Seq<u8>, Seq<char>>(depth_message(column)),
        array matches BlobArray::Lists(slots) ==> (slot < slots@.len() && slots@[slot as int] is Some
            ==> blob_at(array, seq![slot] + rest, column) == blob_at(
            slots@[slot as int]->0,
            rest,
            column,
        )),
{
    let path = seq![slot] + rest;
    assert(path[0] == slot);
    assert(path.skip(1) =~= rest);
}

/// A text as the bytes of a header.
pub open spec fn ascii_bytes(text: Seq<char>) -> Seq<u8> {
    text.map_values(|c: char| c as u8)
}

/// The range header with these bounds.
pub open spec fn range_header(start: Seq<char>, end: Seq<char>) -> Seq<u8> {
    ascii_bytes("bytes="@ + start + seq!['-'] + end)
}

/// Decimal bounds are read from a range header as they are written.
proof fn lemma_range_header(start: Seq<char>, end: Seq<char>, size: u64)
    requires
        all_digits(start),
        all_digits(end),
    ensures
        requested_range(Some(range_header(start, end)), size) == bounds_of(start, end, size),
{
    reveal_strlit("bytes=");
    let value = "bytes="@ + start + seq!['-'] + end;
    let bytes = range_header(start, end);
    assert forall|i: int| 0 <= i < value.len() implies value[i] as u32 == (value[i] as u8) as u32
        && is_visible(value[i] as u8) by {
        if i < 6 {
            assert(value[i] == "bytes="@[i]);
        } else if i < 6 + start.len() {
            assert(value[i] == start[i - 6]);
        } else if i == 6 + start.len() {
            assert(value[i] == '-');
        } else {
            assert(value[i] == end[i - 7 - start.len()]);
        }
    }
    assert forall|i: int| 0 <= i < bytes.len() implies is_visible(#[trigger] bytes[i]) by {
        assert(bytes[i] == value[i] as u8);
    }
    assert forall|i: int| 0 <= i < value.len() implies characters(bytes)[i] == value[i] by {
        assert(bytes[i] == value[i] as u8);
        assert(characters(bytes)[i] as u32 == value[i] as u32);
    }
    assert(characters(bytes) =~= value);
    assert("bytes="@ =~= value.take(6));
    let range = value.skip(6);
    assert(range =~= start + seq!['-'] + end);
    range.index_of_first_ensures('-');
    let dash = start.len() as int;
    assert(range[dash] == '-');
    assert(range.contains('-'));
    let first = range.index_of_first('-')->0;
    assert(first == dash) by {
        if first < dash {
            assert(range[first] == start[first]);
        }
    }
    assert(range.take(dash) =~= start);
    assert(range.skip(dash + 1) =~= end);
}

/// A range of bytes is served as it is asked for: from the first to the last byte
/// that it names, both of them with it, or to the end where there are fewer; it
/// cannot be served where it starts beyond the end or ends before it starts.
pub proof fn ranges_are_served_as_asked_for(first: u64, last: u64, size: u64)
    ensures
        ({
            let served = requested_range(
                Some(range_header(decimal(first as nat), decimal(last as nat))),
                size,
            );
            &&& first < size && first <= last ==> served == Ok::<(u64, u64, bool), Seq<char>>(
                (
                    first,
                    if last < size {
                        (last + 1) as u64
                    } else {
                        size
                    },
                    true,
                ),
            )
            &&& first >= size ==> served == Err::<(u64, u64, bool), Seq<char>>(
                "requested range is outside the blob"@,
            )
            &&& first < size && last < first ==> served == Err::<(u64, u64, bool), Seq<char>>(
                "range end precedes range start"@,
            )
        }),
{
    decimals_have_no_leading_zeros(first as nat);
    decimals_have_no_leading_zeros(last as nat);
    decimal_reads_back(first as nat, u64::MAX as nat);
    decimal_reads_back(last as nat, u64::MAX as nat);
    lemma_range_header(decimal(first as nat), decimal(last as nat), size);
}

/// A range without an end is served from its first byte to the last one that there
/// is.
pub proof fn ranges_without_an_end_are_served(first: u64, size: u64)
    ensures
        requested_range(Some(range_header(decimal(first as nat), Seq::empty())), size) == (
        if first < size {
            Ok::<(u64, u64, bool), Seq<char>>((first, size, true))
        } else {
            Err::<(u64, u64, bool), Seq<char>>("requested range is outside the blob"@)
        }),
{
    decimals_have_no_leading_zeros(first as nat);
    decimal_reads_back(first as nat, u64::MAX as nat);
    lemma_range_header(decimal(first as nat), Seq::empty(), size);
}

/// A range without a start is that many of the last bytes, or all where there are
/// fewer; none of them cannot be served, and neither can any of no bytes.
pub proof fn ranges_without_a_start_are_served(length: u64, size: u64)
    ensures
        requested_range(Some(range_header(Seq::empty(), decimal(length as nat))), size) == (
        if length == 0 || size == 0 {
            Err::<(u64, u64, bool), Seq<char>>("requested range is outside the blob"@)
        } else {
            Ok::<(u64, u64, bool), Seq<char>>(
                (
                    if length <= size {
                        (size - length) as u64
                    } else {
                        0
                    },
                    size,
                    true,
                ),
            )
        }),
{
    decimals_have_no_leading_zeros(length as nat);
    decimal_reads_back(length as nat, u64::MAX as nat);
    lemma_range_header(Seq::empty(), decimal(length as nat), size);
}

/// Without a range header all bytes are served, as no part.
pub proof fn all_bytes_are_served_without_a_range(size: u64)
    ensures
        requested_range(None, size) == Ok::<(u64, u64, bool), Seq<char>>((0, size, false)),
{
}

/// A header that does not begin with the unit, or has no hyphen behind it, or has
/// bytes that no header text has, is refused.
pub proof fn other_range_headers_are_refused(bytes: Seq<u8>, size: u64)
    ensures
        (exists|i: int|
            0 <= i < bytes.len() && !(32 <= #[trigger] bytes[i] < 127) && bytes[i] != 9)
            ==> requested_range(Some(bytes), size) == Err::<(u64, u64, bool), Seq<char>>(
            "range header is not valid ASCII"@,
        ),
        requested_range(Some(bytes), size) is Ok ==> "bytes="@.is_prefix_of(characters(bytes))
            && characters(bytes).skip("bytes="@.len() as int).contains('-'),
{
    if exists|i: int| 0 <= i < bytes.len() && !(32 <= #[trigger] bytes[i] < 127) && bytes[i] != 9 {
        let i = choose|i: int|
            0 <= i < bytes.len() && !(32 <= #[trigger] bytes[i] < 127) && bytes[i] != 9;
        assert(!is_visible(bytes[i]));
    }
    characters(bytes).skip("bytes="@.len() as int).index_of_first_ensures('-');
}

/// An answer to a request for the headers alone has the headers of the answer that
/// carries the bytes, and no body.
pub proof fn headers_do_not_depend_on_the_body(
    full: MediaResponse,
    head: MediaResponse,
    bytes: Seq<u8>,
    given: Seq<u8>,
    mime: Seq<char>,
    range: (u64, u64, bool),
    size: u64,
)
    requires
        range.0 <= range.1,
        bytes.len() == range.1 - range.0,
        is_media_answer(full, bytes, mime, range, size, false),
        is_media_answer(head, given, mime, range, size, true),
    ensures
        head.status == full.status,
        head.content_type@ == full.content_type@,
        head.accept_ranges@ == full.accept_ranges@,
        head.content_length@ == full.content_length@,
        head.content_range is Some <==> full.content_range is Some,
        head.content_range is Some ==> head.content_range->0@ == full.content_range->0@,
        head.body@.len() == 0,
        full.body@ == bytes,
{
}

/// An answer with bytes carries them and says how many they are; a part says which
/// of how many it is, the last byte with it.
pub proof fn answers_say_what_they_carry(
    answer: MediaResponse,
    bytes: Seq<u8>,
    mime: Seq<char>,
    range: (u64, u64, bool),
    size: u64,
)
    requires
        is_media_answer(answer, bytes, mime, range, size, false),
        range.2 ==> range.1 >= 1,
    ensures
        answer.body@ == bytes,
        answer.content_length@ == decimal(bytes.len()),
        answer.content_type@ == mime,
        answer.accept_ranges@ == "bytes"@,
        range.2 ==> answer.status == 206 && answer.content_range is Some
            && answer.content_range->0@ == "bytes "@ + decimal(range.0 as nat) + "-"@ + decimal(
            (range.1 - 1) as nat,
        ) + "/"@ + decimal(size as nat),
        !range.2 ==> answer.status == 200 && answer.content_range is None,
{
}

/// Media are served as what a client asks for where that is an image, audio, video
/// or plain bytes, and in no other case.
pub proof fn clients_may_ask_for_media_only(subtype: Seq<char>, mime: Seq<char>)
    ensures
        may_serve_as("image/"@ + subtype),
        may_serve_as("audio/"@ + subtype),
        may_serve_as("video/"@ + subtype),
        may_serve_as("application/octet-stream"@),
        may_serve_as(mime) ==> {
            ||| mime == "image/"@ + mime.skip("image/"@.len() as int)
            ||| mime == "audio/"@ + mime.skip("audio/"@.len() as int)
            ||| mime == "video/"@ + mime.skip("video/"@.len() as int)
            ||| mime == "application/octet-stream"@
        },
{
    assert("image/"@ =~= ("image/"@ + subtype).take("image/"@.len() as int));
    assert("audio/"@ =~= ("audio/"@ + subtype).take("audio/"@.len() as int));
    assert("video/"@ =~= ("video/"@ + subtype).take("video/"@.len() as int));
    if "image/"@.is_prefix_of(mime) {
        assert(mime =~= "image/"@ + mime.skip("image/"@.len() as int));
    }
    if "audio/"@.is_prefix_of(mime) {
        assert(mime =~= "audio/"@ + mime.skip("audio/"@.len() as int));
    }
    if "video/"@.is_prefix_of(mime) {
        assert(mime =~= "video/"@ + mime.skip("video/"@.len() as int));
    }
}

/// All of a blob is served where no part of it is asked for: its own bytes, as
/// what they tell.
pub proof fn whole_blobs_are_served(answer: MediaResponse, bytes: Seq<u8>)
    requires
        is_blob_answer(Ok::<MediaResponse, ApiError>(answer), Ok(bytes), None, false),
        bytes.len() <= u64::MAX,
    ensures
        answer.body@ == bytes,
        answer.status == 200,
        answer.content_type@ == media_type_in(bytes),
        answer.content_length@ == decimal(bytes.len()),
        answer.content_range is None,
{
    assert(bytes.subrange(0, bytes.len() as int) =~= bytes);
}

/// A part of a blob is served byte for byte: those that are asked for, from the
/// first to the last, and where they stand in the blob.
pub proof fn parts_of_blobs_are_served(
    answer: MediaResponse,
    bytes: Seq<u8>,
    first: u64,
    last: u64,
    i: int,
)
    requires
        is_blob_answer(
            Ok::<MediaResponse, ApiError>(answer),
            Ok(bytes),
            Some(range_header(decimal(first as nat), decimal(last as nat))),
            false,
        ),
        first <= last < bytes.len() <= u64::MAX,
    ensures
        answer.body@.len() == last - first + 1,
        0 <= i < answer.body@.len() ==> answer.body@[i] == bytes[first + i],
        answer.status == 206,
        answer.content_type@ == media_type_in(bytes),
        answer.content_length@ == decimal((last - first + 1) as nat),
        answer.content_range matches Some(text) && text@ == "bytes "@ + decimal(first as nat)
            + "-"@ + decimal(last as nat) + "/"@ + decimal(bytes.len()),
{
    ranges_are_served_as_asked_for(first, last, bytes.len() as u64);
}

/// Nothing is served where nothing is found, or where the range cannot be served.
pub proof fn only_what_is_found_is_served(
    response: Result<MediaResponse, ApiError>,
    found: Result<Seq<u8>, Seq<char>>,
    header: Option<Seq<u8>>,
    head: bool,
)
    requires
        is_blob_answer(response, found, header, head),
    ensures
        response is Ok ==> found is Ok && requested_range(header, found->Ok_0.len() as u64) is Ok,
        found is Err ==> response is Err && response->Err_0.is_plain(found->Err_0),
{
}

/// What a client reads names what was asked for and what there is.
pub proof fn faults_of_paths_are_named(column: Seq<char>)
    ensures
        not_blob_message(column) == "column "@ + column + " is not a Lance blob column"@,
        not_binary_message(column) == "blob array column "@ + column
            + " did not materialize as binary values"@,
{
}

/// A client is served what they may ask for, and plain bytes otherwise.
pub proof fn media_types_are_served_as_allowed(mime: Seq<char>)
    ensures
        may_serve_as(mime) ==> served_as(Some(mime)) == mime,
        !may_serve_as(mime) ==> served_as(Some(mime)) == "application/octet-stream"@,
        served_as(None) == "application/octet-stream"@,
        may_serve_as(served_as(Some(mime))),
{
}

/// A part of a blob is planned as it is asked for, and the type of a blob is told
/// by its first thirty-two bytes, or by all where there are fewer.
pub proof fn blobs_are_planned_as_asked_for(plan: BlobPlan, first: u64, last: u64, size: u64)
    ensures
        plan.is_plan(
            Some(range_header(decimal(first as nat), decimal(last as nat))),
            size,
            plan.head,
        ) && first <= last < size ==> plan.start == first && plan.end == last + 1 && plan.partial
            && plan.size == size,
        plan.is_plan(None, size, plan.head) ==> plan.start == 0 && plan.end == size && !plan.partial
            && plan.size == size,
        plan.size <= 32 ==> plan.prefix() == plan.size,
        plan.size > 32 ==> plan.prefix() == 32,
{
    ranges_are_served_as_asked_for(first, last, size);
}

} // verus!
