//! SQL cursors: one query's rows, page by page.

use vstd::prelude::*;
use vstd::string::StringExecFns;

use crate::error::RequestError;
use crate::number::{decimal, write_decimal};

verus! {

/// Rows pulled from a SQL cursor per page.
pub const SQL_PAGE_ROWS: usize = 20;

/// Hard cap on rows retained and returned by one SQL query.
pub const MAX_SQL_RESULT_ROWS: usize = 10_000;

/// SQL cursors expire after this many nanoseconds without access.
pub const QUERY_IDLE_TTL: u64 = 600_000_000_000;

/// One page of the rows of a query.
#[derive(Debug)]
pub struct SqlPageResponse<R> {
    pub sequence: u64,
    pub rows: Vec<R>,
    pub done: bool,
    pub truncated: bool,
}

/// Whether `copies` are clones of `rows`, one by one.
pub open spec fn cloned_rows<R: Clone>(rows: Seq<R>, copies: Seq<R>) -> bool {
    &&& copies.len() == rows.len()
    &&& forall|i: int| 0 <= i < rows.len() ==> cloned(#[trigger] rows[i], #[trigger] copies[i])
}

/// Whether `copy` is a clone of `page`.
pub open spec fn cloned_page<R: Clone>(page: SqlPageResponse<R>, copy: SqlPageResponse<R>) -> bool {
    &&& copy.sequence == page.sequence
    &&& cloned_rows(page.rows@, copy.rows@)
    &&& copy.done == page.done
    &&& copy.truncated == page.truncated
}

impl<R: Clone> Clone for SqlPageResponse<R> {
    fn clone(&self) -> (copy: Self)
        ensures
            cloned_page(*self, copy),
    {
        SqlPageResponse {
            sequence: self.sequence,
            rows: self.rows.clone(),
            done: self.done,
            truncated: self.truncated,
        }
    }
}

/// How long ago `last` was at `now`; nothing where the clock stood still or
/// went back.
pub open spec fn elapsed(last: u64, now: u64) -> int {
    if now >= last {
        now - last
    } else {
        0
    }
}

/// The state of a cursor: what of its query has been handed out, and what is
/// at hand. The stream of record batches, and the batch that is at hand, are
/// kept beside it by whoever reads the stream.
pub struct QueryCursor<R> {
    pub connection_id: u128,
    /// How many rows a page has at most.
    pub page_rows: usize,
    /// How many rows of the batch at hand have not been handed out; `None`
    /// where no batch is at hand.
    pub pending: Option<usize>,
    pub next_sequence: u64,
    pub rows_returned: usize,
    pub last_page: Option<SqlPageResponse<R>>,
    pub last_accessed: u64,
    /// Whether the stream has ended, or nothing more of it is wanted.
    pub done: bool,
}

/// What a request for a page comes to.
pub enum PageRequest<R> {
    /// The cursor does not answer this request and is to be removed.
    Gone,
    /// The page was handed out before.
    Replay(SqlPageResponse<R>),
    /// Another page is next.
    OutOfOrder(RequestError),
    /// A page of at most so many rows is to be read.
    Read(usize),
}

/// Which answer a request gets.
pub enum Answer {
    Gone,
    Replay,
    OutOfOrder,
    Read,
}

/// What is to be done next for a page.
#[derive(Debug, Clone, Copy, PartialEq, Eq, Structural)]
pub enum PageStep {
    /// Take so many rows off the front of the batch at hand.
    Take(usize),
    /// Read the next batch of the stream.
    Fetch,
    /// Hand the page out.
    Finish,
}

/// The next step for a page that has `collected` of its `page_size` rows.
pub open spec fn page_step(
    collected: int,
    page_size: int,
    pending: Option<usize>,
    done: bool,
) -> PageStep {
    if collected >= page_size {
        PageStep::Finish
    } else {
        match pending {
            Some(left) => PageStep::Take(
                if left <= page_size - collected {
                    left
                } else {
                    (page_size - collected) as usize
                },
            ),
            None => if done {
                PageStep::Finish
            } else {
                PageStep::Fetch
            },
        }
    }
}

/// What is left of the batch at hand after a step.
pub open spec fn pending_after(step: PageStep, pending: Option<usize>) -> Option<usize> {
    match (step, pending) {
        (PageStep::Take(n), Some(left)) => if n < left {
            Some((left - n) as usize)
        } else {
            None
        },
        _ => pending,
    }
}

/// The number of rows of the next page, at most.
pub open spec fn next_page_size(page_rows: int, rows_returned: int) -> int {
    let remaining = if rows_returned < MAX_SQL_RESULT_ROWS {
        MAX_SQL_RESULT_ROWS - rows_returned
    } else {
        0
    };
    if page_rows <= remaining {
        page_rows
    } else {
        remaining
    }
}

/// What a client reads that asks for another page than the next.
pub open spec fn sequence_message(expected: u64, received: u64) -> Seq<char> {
    "expected SQL page sequence "@ + decimal(expected as nat) + ", received "@ + decimal(
        received as nat,
    )
}

impl<R> QueryCursor<R> {
    /// A cursor of which nothing has been read.
    pub fn new(connection_id: u128, page_rows: usize, now: u64) -> (cursor: Self)
        ensures
            cursor == (QueryCursor::<R> {
                connection_id,
                page_rows,
                pending: None,
                next_sequence: 0,
                rows_returned: 0,
                last_page: None,
                last_accessed: now,
                done: false,
            }),
    {
        QueryCursor {
            connection_id,
            page_rows,
            pending: None,
            next_sequence: 0,
            rows_returned: 0,
            last_page: None,
            last_accessed: now,
            done: false,
        }
    }

    /// Whether a request of `connection_id` at `now` is one for this cursor.
    pub open spec fn answers(&self, connection_id: u128, now: u64) -> bool {
        self.connection_id == connection_id && elapsed(self.last_accessed, now) < QUERY_IDLE_TTL
    }

    /// The answer to a request of `connection_id` at `now` for the page
    /// `sequence`.
    pub open spec fn answer(&self, connection_id: u128, sequence: u64, now: u64) -> Answer {
        if !self.answers(connection_id, now) {
            Answer::Gone
        } else if self.last_page matches Some(last) && last.sequence == sequence {
            Answer::Replay
        } else if sequence != self.next_sequence {
            Answer::OutOfOrder
        } else {
            Answer::Read
        }
    }

    /// Whether `next` is this cursor once it has handed out `page`.
    pub open spec fn handed_out(&self, page: SqlPageResponse<R>, next: Self) -> bool where
        R: Clone,
     {
        let returned = self.rows_returned + page.rows@.len();
        &&& page.sequence == self.next_sequence
        &&& page.truncated == (returned >= MAX_SQL_RESULT_ROWS)
        &&& page.done == (page.truncated || (self.done && self.pending is None))
        &&& next.last_page matches Some(last) && cloned_page(page, last)
        &&& next == (QueryCursor {
            pending: if page.truncated {
                None
            } else {
                self.pending
            },
            next_sequence: (self.next_sequence + 1) as u64,
            rows_returned: returned as usize,
            last_page: next.last_page,
            done: self.done || page.truncated,
            ..*self
        })
    }

    /// Whether the cursor is one of this connection, which alone may cancel it.
    pub fn belongs_to(&self, connection_id: u128) -> (own: bool)
        ensures
            own == (self.connection_id == connection_id),
    {
        self.connection_id == connection_id
    }

    /// Takes up a request for the page `sequence`. A request of another
    /// connection, or after too long a pause, finds the cursor gone; asking
    /// again for the last page gives that page; otherwise only the next page
    /// can be read.
    pub fn begin_page(&mut self, connection_id: u128, sequence: u64, now: u64) -> (request:
        PageRequest<R>) where R: Clone
        ensures
            *final(self) == (if old(self).answers(connection_id, now) {
                QueryCursor { last_accessed: now, ..*old(self) }
            } else {
                *old(self)
            }),
            (match request {
                PageRequest::Gone => old(self).answer(connection_id, sequence, now) is Gone,
                PageRequest::Replay(page) => {
                    &&& old(self).answer(connection_id, sequence, now) is Replay
                    &&& cloned_page(old(self).last_page->0, page)
                },
                PageRequest::OutOfOrder(error) => {
                    &&& old(self).answer(connection_id, sequence, now) is OutOfOrder
                    &&& error matches RequestError::InvalidRequest(message) && message@
                        == sequence_message(old(self).next_sequence, sequence)
                },
                PageRequest::Read(size) => {
                    &&& old(self).answer(connection_id, sequence, now) is Read
                    &&& size == next_page_size(
                        old(self).page_rows as int,
                        old(self).rows_returned as int,
                    )
                },
            }),
    {
        let idle: u64 = if now >= self.last_accessed {
            now - self.last_accessed
        } else {
            0
        };
        if self.connection_id != connection_id || idle >= QUERY_IDLE_TTL {
            return PageRequest::Gone;
        }
        self.last_accessed = now;
        if let Some(page) = &self.last_page {
            if page.sequence == sequence {
                return PageRequest::Replay(page.clone());
            }
        }
        if sequence != self.next_sequence {
            let mut message = String::new();
            message.append("expected SQL page sequence ");
            message.append(write_decimal(self.next_sequence).as_str());
            message.append(", received ");
            message.append(write_decimal(sequence).as_str());
            assert(message@ =~= sequence_message(self.next_sequence, sequence));
            return PageRequest::OutOfOrder(RequestError::InvalidRequest(message));
        }
        let remaining: usize = if self.rows_returned < MAX_SQL_RESULT_ROWS {
            MAX_SQL_RESULT_ROWS - self.rows_returned
        } else {
            0
        };
        PageRequest::Read(
            if self.page_rows <= remaining {
                self.page_rows
            } else {
                remaining
            },
        )
    }

    /// The next step for a page that has `collected` of its `page_size` rows.
    /// Rows to be taken are counted as taken.
    pub fn next_step(&mut self, collected: usize, page_size: usize) -> (step: PageStep)
        ensures
            step == page_step(
                collected as int,
                page_size as int,
                old(self).pending,
                old(self).done,
            ),
            *final(self) == (QueryCursor {
                pending: pending_after(step, old(self).pending),
                ..*old(self)
            }),
            step matches PageStep::Take(n) ==> collected + n <= page_size,
    {
        if collected >= page_size {
            return PageStep::Finish;
        }
        match self.pending {
            Some(left) => {
                let room: usize = page_size - collected;
                let take: usize = if left <= room {
                    left
                } else {
                    room
                };
                self.pending = if take < left {
                    Some(left - take)
                } else {
                    None
                };
                PageStep::Take(take)
            },
            None => if self.done {
                PageStep::Finish
            } else {
                PageStep::Fetch
            },
        }
    }

    /// A batch of `rows` rows has been read.
    pub fn batch_read(&mut self, rows: usize)
        ensures
            *final(self) == (QueryCursor { pending: Some(rows), ..*old(self) }),
    {
        self.pending = Some(rows);
    }

    /// The stream has ended.
    pub fn stream_ended(&mut self)
        ensures
            *final(self) == (QueryCursor { done: true, ..*old(self) }),
    {
        self.done = true;
    }

    /// Reading or writing rows failed: nothing more of the query is wanted,
    /// and the cursor is to be removed.
    pub fn fail(&mut self, cause: &str) -> (error: RequestError)
        ensures
            *final(self) == (QueryCursor { done: true, ..*old(self) }),
            error matches RequestError::QueryExecutionFailed(text) && text@ == cause@,
    {
        self.done = true;
        RequestError::QueryExecutionFailed(cause.to_owned())
    }

    /// Hands out the page that was asked for, and keeps it for a retry.
    pub fn finish_page(&mut self, rows: Vec<R>) -> (page: SqlPageResponse<R>) where R: Clone
        requires
            old(self).next_sequence < u64::MAX,
            old(self).rows_returned + rows@.len() <= usize::MAX,
        ensures
            page.rows == rows,
            old(self).handed_out(page, *final(self)),
    {
        self.rows_returned = self.rows_returned + rows.len();
        let capped = self.rows_returned >= MAX_SQL_RESULT_ROWS;
        let done = capped || (self.done && self.pending.is_none());
        if capped {
            self.done = true;
            self.pending = None;
        }
        let page = SqlPageResponse {
            sequence: self.next_sequence,
            rows,
            done,
            truncated: capped,
        };
        self.next_sequence = self.next_sequence + 1;
        self.last_page = Some(page.clone());
        page
    }
}

/// The rows behind a cursor: those handed out, those of the batch at hand, and
/// the batches that the stream has yet to give.
pub struct Reading<A> {
    pub handed_out: Seq<A>,
    pub hand: Option<Seq<A>>,
    pub stream: Seq<Seq<A>>,
    pub done: bool,
}

/// The number of rows at hand.
pub open spec fn hand_size<A>(hand: Option<Seq<A>>) -> Option<usize> {
    match hand {
        Some(rows) => Some(rows.len() as usize),
        None => None,
    }
}

/// All rows in the batches, in their order.
pub open spec fn all_rows<A>(batches: Seq<Seq<A>>) -> Seq<A>
    decreases batches.len(),
{
    if batches.len() == 0 {
        Seq::empty()
    } else {
        batches[0] + all_rows(batches.drop_first())
    }
}

/// Whether every batch is one that a machine can hold.
pub open spec fn batches_fit<A>(batches: Seq<Seq<A>>) -> bool {
    forall|i: int| 0 <= i < batches.len() ==> (#[trigger] batches[i]).len() <= usize::MAX
}

impl<A> Reading<A> {
    /// The rows that have not been handed out.
    pub open spec fn left(&self) -> Seq<A> {
        let rest = all_rows(self.stream);
        match self.hand {
            Some(rows) => rows + rest,
            None => rest,
        }
    }

    /// A stream that was found to have ended has nothing more to give, and no
    /// batch is larger than a machine can hold.
    pub open spec fn valid(&self) -> bool {
        &&& self.done ==> self.stream.len() == 0
        &&& self.hand matches Some(rows) ==> rows.len() <= usize::MAX
        &&& batches_fit(self.stream)
    }

    /// What one page of at most `page_size` rows collects, step by step, after
    /// `collected` rows: those rows and the reading that is left. The rows of
    /// the page are not yet among those handed out.
    pub open spec fn collect(self, collected: Seq<A>, page_size: int) -> (Seq<A>, Self)
        decreases
                self.stream.len(),
                if self.done {
                    0int
                } else {
                    1
                },
                page_size - collected.len(),
                if self.hand is Some {
                    1int
                } else {
                    0
                },
    {
        let size = hand_size(self.hand);
        match page_step(collected.len() as int, page_size, size, self.done) {
            PageStep::Finish => (collected, self),
            PageStep::Take(n) => {
                let rows = self.hand->0;
                let rest = if pending_after(PageStep::Take(n), size) is Some {
                    Some(rows.skip(n as int))
                } else {
                    None
                };
                if n <= rows.len() {
                    (Reading { hand: rest, ..self }).collect(
                        collected + rows.take(n as int),
                        page_size,
                    )
                } else {
                    (collected, self)
                }
            },
            PageStep::Fetch => if self.stream.len() == 0 {
                (Reading { done: true, ..self }).collect(collected, page_size)
            } else {
                (Reading {
                    hand: Some(self.stream[0]),
                    stream: self.stream.drop_first(),
                    ..self
                }).collect(collected, page_size)
            },
        }
    }

    /// The reading after one more page of at most `page_rows` rows.
    pub open spec fn after_page(self, page_rows: int) -> Self {
        let size = next_page_size(page_rows, self.handed_out.len() as int);
        let (page, rest) = self.collect(Seq::empty(), size);
        let handed_out = self.handed_out + page;
        if handed_out.len() >= MAX_SQL_RESULT_ROWS {
            Reading { handed_out, hand: None, stream: Seq::empty(), done: true }
        } else {
            Reading { handed_out, ..rest }
        }
    }

    /// The reading after `pages` pages.
    pub open spec fn after_pages(self, page_rows: int, pages: nat) -> Self
        decreases pages,
    {
        if pages == 0 {
            self
        } else {
            self.after_pages(page_rows, (pages - 1) as nat).after_page(page_rows)
        }
    }
}

impl<R> QueryCursor<R> {
    /// Whether the cursor is at the same point as a reading of its rows.
    pub open spec fn stands_at<A>(&self, reading: Reading<A>) -> bool {
        &&& self.pending == hand_size(reading.hand)
        &&& self.done == reading.done
        &&& self.rows_returned == reading.handed_out.len()
    }
}

/// A cursor of which nothing has been read stands before the first row.
pub proof fn a_new_cursor_stands_at_the_start<R, A>(cursor: QueryCursor<R>, batches: Seq<Seq<A>>)
    requires
        cursor.pending is None,
        !cursor.done,
        cursor.rows_returned == 0,
        batches_fit(batches),
    ensures
        ({
            let start = Reading { handed_out: Seq::empty(), hand: None, stream: batches, done: false };
            start.valid() && cursor.stands_at(start)
        }),
{
}

/// Where the next step is to take rows, the batch at hand has them. With those
/// rows the page collects what it would have collected, and the cursor stands
/// where the reading goes on.
pub proof fn taking_rows_follows_the_reading<R, A>(
    cursor: QueryCursor<R>,
    reading: Reading<A>,
    collected: Seq<A>,
    page_size: usize,
    n: usize,
)
    requires
        cursor.stands_at(reading),
        reading.valid(),
        page_step(collected.len() as int, page_size as int, cursor.pending, cursor.done)
            == PageStep::Take(n),
    ensures
        ({
            let rows = reading.hand->0;
            let after = QueryCursor {
                pending: pending_after(PageStep::Take(n), cursor.pending),
                ..cursor
            };
            let rest = Reading {
                hand: if n < rows.len() {
                    Some(rows.skip(n as int))
                } else {
                    None
                },
                ..reading
            };
            &&& reading.hand is Some
            &&& n <= rows.len()
            &&& rest.valid()
            &&& after.stands_at(rest)
            &&& reading.collect(collected, page_size as int) == rest.collect(
                collected + rows.take(n as int),
                page_size as int,
            )
        }),
{
}

/// Where the next step is to read a batch and the stream gives one, the page
/// collects what it would have collected, and the cursor that is told the size
/// of the batch stands where the reading goes on.
pub proof fn reading_a_batch_follows_the_reading<R, A>(
    cursor: QueryCursor<R>,
    reading: Reading<A>,
    collected: Seq<A>,
    page_size: usize,
)
    requires
        cursor.stands_at(reading),
        reading.valid(),
        page_step(collected.len() as int, page_size as int, cursor.pending, cursor.done)
            == PageStep::Fetch,
        reading.stream.len() > 0,
    ensures
        ({
            let batch = reading.stream[0];
            let after = QueryCursor { pending: Some(batch.len() as usize), ..cursor };
            let rest = Reading {
                hand: Some(batch),
                stream: reading.stream.drop_first(),
                ..reading
            };
            &&& rest.valid()
            &&& after.stands_at(rest)
            &&& reading.collect(collected, page_size as int) == rest.collect(
                collected,
                page_size as int,
            )
        }),
{
    let rest = reading.stream.drop_first();
    assert forall|i: int| 0 <= i < rest.len() implies (#[trigger] rest[i]).len() <= usize::MAX by {
        assert(rest[i] == reading.stream[i + 1]);
    }
}

/// Where the next step is to read a batch and the stream has ended, the page
/// collects what it would have collected, and the cursor that is told so stands
/// where the reading goes on.
pub proof fn the_end_of_the_stream_follows_the_reading<R, A>(
    cursor: QueryCursor<R>,
    reading: Reading<A>,
    collected: Seq<A>,
    page_size: usize,
)
    requires
        cursor.stands_at(reading),
        reading.valid(),
        page_step(collected.len() as int, page_size as int, cursor.pending, cursor.done)
            == PageStep::Fetch,
        reading.stream.len() == 0,
    ensures
        ({
            let after = QueryCursor { done: true, ..cursor };
            let rest = Reading { done: true, ..reading };
            &&& rest.valid()
            &&& after.stands_at(rest)
            &&& reading.collect(collected, page_size as int) == rest.collect(
                collected,
                page_size as int,
            )
        }),
{
}

/// Where the next step is to hand the page out, it has collected all that the
/// reading gives it.
pub proof fn finishing_follows_the_reading<R, A>(
    cursor: QueryCursor<R>,
    reading: Reading<A>,
    collected: Seq<A>,
    page_size: usize,
)
    requires
        cursor.stands_at(reading),
        page_step(collected.len() as int, page_size as int, cursor.pending, cursor.done)
            == PageStep::Finish,
    ensures
        reading.collect(collected, page_size as int) == (collected, reading),
{
}

/// A cursor that hands out the page which a reading gives stands, from then on,
/// where that reading is after the page. The page is the last one exactly where
/// nothing more is read.
pub proof fn a_page_follows_the_reading<R: Clone, A>(
    reading: Reading<A>,
    cursor: QueryCursor<R>,
    page: SqlPageResponse<R>,
    next: QueryCursor<R>,
)
    requires
        reading.valid(),
        ({
            let size = next_page_size(cursor.page_rows as int, reading.handed_out.len() as int);
            let (collected, rest) = reading.collect(Seq::empty(), size);
            cursor.stands_at(rest) && page.rows@.len() == collected.len()
        }),
        cursor.rows_returned + page.rows@.len() <= usize::MAX,
        cursor.handed_out(page, next),
    ensures
        next.stands_at(reading.after_page(cursor.page_rows as int)),
        reading.after_page(cursor.page_rows as int).valid(),
        page.done <==> reading.after_page(cursor.page_rows as int).done && reading.after_page(
            cursor.page_rows as int,
        ).hand is None,
{
    let size = next_page_size(cursor.page_rows as int, reading.handed_out.len() as int);
    page_takes_the_next_rows(reading, Seq::empty(), size);
}

/// A page collects the next rows that are left, in their order, until it is
/// full or no row is left; what it does not collect is left for the next page.
pub proof fn page_takes_the_next_rows<A>(reading: Reading<A>, collected: Seq<A>, page_size: int)
    requires
        reading.valid(),
        0 <= page_size <= usize::MAX,
        collected.len() <= page_size,
    ensures
        ({
            let (page, rest) = reading.collect(collected, page_size);
            let room = page_size - collected.len();
            let left = reading.left();
            let taken = if left.len() <= room {
                left.len() as int
            } else {
                room
            };
            &&& page == collected + left.take(taken)
            &&& rest.left() == left.skip(taken)
            &&& rest.valid()
            &&& rest.handed_out == reading.handed_out
            &&& page.len() < page_size ==> rest.done && rest.hand is None
        }),
    decreases
            reading.stream.len(),
            if reading.done {
                0int
            } else {
                1
            },
            page_size - collected.len(),
            if reading.hand is Some {
                1int
            } else {
                0
            },
{
    let size = hand_size(reading.hand);
    let left = reading.left();
    match page_step(collected.len() as int, page_size, size, reading.done) {
        PageStep::Finish => {
            assert(collected + left.take(0) =~= collected);
            assert(left.skip(0) =~= left);
        },
        PageStep::Take(n) => {
            let rows = reading.hand->0;
            let rest = if pending_after(PageStep::Take(n), size) is Some {
                Some(rows.skip(n as int))
            } else {
                None
            };
            let next = Reading { hand: rest, ..reading };
            let now = collected + rows.take(n as int);
            page_takes_the_next_rows(next, now, page_size);
            assert(next.left() =~= left.skip(n as int));
            let room = page_size - now.len();
            let k = if next.left().len() <= room {
                next.left().len() as int
            } else {
                room
            };
            assert(now + next.left().take(k) =~= collected + left.take(n + k));
            assert(next.left().skip(k) =~= left.skip(n + k));
        },
        PageStep::Fetch => if reading.stream.len() == 0 {
            page_takes_the_next_rows(Reading { done: true, ..reading }, collected, page_size);
        } else {
            let next = Reading {
                hand: Some(reading.stream[0]),
                stream: reading.stream.drop_first(),
                ..reading
            };
            assert(batches_fit(next.stream)) by {
                assert forall|i: int| 0 <= i < next.stream.len() implies (
                #[trigger] next.stream[i]).len() <= usize::MAX by {
                    assert(next.stream[i] == reading.stream[i + 1]);
                }
            }
            page_takes_the_next_rows(next, collected, page_size);
            assert(next.left() =~= left);
        },
    }
}

/// The pages of a query, put together, are its rows in their order, from the
/// first on, none twice and none left out, until the cap is reached.
pub proof fn pages_are_the_rows<A>(batches: Seq<Seq<A>>, page_rows: int, pages: nat)
    requires
        batches_fit(batches),
        0 <= page_rows <= usize::MAX,
    ensures
        ({
            let start = Reading { handed_out: Seq::empty(), hand: None, stream: batches, done: false };
            let rows = all_rows(batches);
            let wanted = pages * page_rows;
            let end = if wanted <= MAX_SQL_RESULT_ROWS {
                wanted
            } else {
                MAX_SQL_RESULT_ROWS as int
            };
            let read = start.after_pages(page_rows, pages);
            &&& read.handed_out == rows.take(
                if rows.len() <= end {
                    rows.len() as int
                } else {
                    end
                },
            )
            &&& read.handed_out.len() < MAX_SQL_RESULT_ROWS ==> read.left() == rows.skip(
                read.handed_out.len() as int,
            )
            &&& read.valid()
        }),
    decreases pages,
{
    let start = Reading { handed_out: Seq::empty(), hand: None, stream: batches, done: false };
    let rows = all_rows(batches);
    if pages == 0 {
        assert(0 * page_rows == 0) by (nonlinear_arith);
        assert(rows.take(0) =~= Seq::empty());
        assert(rows.skip(0) =~= rows);
    } else {
        let before = (pages - 1) as nat;
        pages_are_the_rows(batches, page_rows, before);
        assert(pages * page_rows == before * page_rows + page_rows) by (nonlinear_arith)
            requires
                pages == before + 1,
        ;
        assert(before * page_rows >= 0) by (nonlinear_arith)
            requires
                page_rows >= 0,
        ;
        let read = start.after_pages(page_rows, before);
        let done = read.handed_out.len() as int;
        let size = next_page_size(page_rows, done);
        page_takes_the_next_rows(read, Seq::empty(), size);
        let (page, rest) = read.collect(Seq::empty(), size);
        if done < MAX_SQL_RESULT_ROWS {
            let k = page.len() as int;
            assert(read.left() == rows.skip(done));
            assert(page =~= rows.skip(done).take(k));
            assert(rows.take(done) + page =~= rows.take(done + k));
            assert(rows.skip(done).skip(k) =~= rows.skip(done + k));
        } else {
            assert(page.len() == 0);
            assert(read.handed_out + page =~= read.handed_out);
        }
    }
}

/// A page with fewer rows than it has room for ends the query: the stream has
/// ended and no row is left.
pub proof fn a_short_page_is_the_last<A>(reading: Reading<A>, page_size: int)
    requires
        reading.valid(),
        0 <= page_size <= usize::MAX,
        reading.collect(Seq::empty(), page_size).0.len() < page_size,
    ensures
        reading.collect(Seq::empty(), page_size).1.done,
        reading.collect(Seq::empty(), page_size).1.left() == Seq::<A>::empty(),
{
    page_takes_the_next_rows(reading, Seq::empty(), page_size);
    assert(reading.collect(Seq::empty(), page_size).1.left() =~= Seq::<A>::empty());
}

/// Asking again for the page that was handed out last gives that page, and
/// leaves the cursor as it is but for the time of the access.
pub proof fn a_retry_gives_the_page_again<R: Clone>(
    cursor: QueryCursor<R>,
    page: SqlPageResponse<R>,
    next: QueryCursor<R>,
    now: u64,
)
    requires
        cursor.handed_out(page, next),
        elapsed(next.last_accessed, now) < QUERY_IDLE_TTL,
    ensures
        next.answer(cursor.connection_id, page.sequence, now) is Replay,
        cloned_page(page, next.last_page->0),
{
}

/// Once a page has been handed out the next one can be read, and no other.
pub proof fn pages_are_read_in_order<R: Clone>(
    cursor: QueryCursor<R>,
    page: SqlPageResponse<R>,
    next: QueryCursor<R>,
    sequence: u64,
    now: u64,
)
    requires
        cursor.next_sequence < u64::MAX,
        cursor.handed_out(page, next),
        elapsed(next.last_accessed, now) < QUERY_IDLE_TTL,
    ensures
        next.answer(cursor.connection_id, sequence, now) is Read <==> sequence == page.sequence + 1,
        next.answer(cursor.connection_id, sequence, now) is OutOfOrder <==> sequence
            != page.sequence && sequence != page.sequence + 1,
{
}

/// A cursor is gone for other connections, and once it has not been used for ten
/// minutes. Otherwise the page that was handed out last is given again, the next
/// one is read, and any other is refused.
pub proof fn requests_are_answered_by_their_page<R>(
    cursor: QueryCursor<R>,
    connection_id: u128,
    sequence: u64,
    now: u64,
)
    ensures
        ({
            let answer = cursor.answer(connection_id, sequence, now);
            let gone = cursor.connection_id != connection_id || now - cursor.last_accessed
                >= 600_000_000_000;
            let last = cursor.last_page is Some && cursor.last_page->0.sequence == sequence;
            &&& answer is Gone <==> gone
            &&& answer is Replay <==> !gone && last
            &&& answer is Read <==> !gone && !last && sequence == cursor.next_sequence
            &&& answer is OutOfOrder <==> !gone && !last && sequence != cursor.next_sequence
        }),
{
}

/// A page has room for as many rows as are asked for, or for those that are left
/// of ten thousand.
pub proof fn pages_have_room_up_to_the_cap(page_rows: nat, rows_returned: nat)
    ensures
        page_rows + rows_returned <= 10_000 ==> next_page_size(
            page_rows as int,
            rows_returned as int,
        ) == page_rows,
        page_rows + rows_returned >= 10_000 && rows_returned <= 10_000 ==> next_page_size(
            page_rows as int,
            rows_returned as int,
        ) + rows_returned == 10_000,
        rows_returned >= 10_000 ==> next_page_size(page_rows as int, rows_returned as int) == 0,
{
}

/// A page says that rows were cut off once ten thousand have been handed out, and
/// that it is the last one then, or where the stream has ended and nothing is left
/// at hand. The rows that were handed out are counted.
pub proof fn pages_say_whether_they_are_the_last<R: Clone>(
    cursor: QueryCursor<R>,
    page: SqlPageResponse<R>,
    next: QueryCursor<R>,
)
    requires
        cursor.handed_out(page, next),
        cursor.next_sequence < u64::MAX,
        cursor.rows_returned + page.rows@.len() <= usize::MAX,
    ensures
        page.sequence == cursor.next_sequence,
        next.next_sequence == cursor.next_sequence + 1,
        next.rows_returned == cursor.rows_returned + page.rows@.len(),
        page.truncated <==> cursor.rows_returned + page.rows@.len() >= 10_000,
        page.done <==> page.truncated || (cursor.done && cursor.pending is None),
        page.truncated ==> next.done && next.pending is None,
        !page.truncated ==> next.done == cursor.done && next.pending == cursor.pending,
        next.connection_id == cursor.connection_id,
        next.page_rows == cursor.page_rows,
        next.last_accessed == cursor.last_accessed,
{
}

/// Rows are taken off the batch at hand as far as the page has room for them, and
/// a batch is read only where none is at hand and the stream goes on.
pub proof fn steps_fill_the_page(
    collected: nat,
    page_size: nat,
    pending: Option<usize>,
    done: bool,
)
    requires
        page_size <= usize::MAX,
    ensures
        ({
            let step = page_step(collected as int, page_size as int, pending, done);
            &&& step is Finish <==> collected >= page_size || (pending is None && done)
            &&& step is Fetch <==> collected < page_size && pending is None && !done
            &&& step matches PageStep::Take(n) ==> {
                &&& pending matches Some(left) && (n == left || collected + n == page_size) && n
                    <= left
                &&& collected + n <= page_size
                &&& pending_after(step, pending) == (if n < pending->0 {
                    Some((pending->0 - n) as usize)
                } else {
                    None
                })
            }
        }),
{
}

/// A copy of a page of rows is the same page: its number, its rows in their order,
/// and what it says of those to come.
pub proof fn copies_of_pages_are_the_same<R: Clone>(
    page: SqlPageResponse<R>,
    copy: SqlPageResponse<R>,
    i: int,
)
    requires
        cloned_page(page, copy),
    ensures
        copy.sequence == page.sequence,
        copy.done == page.done,
        copy.truncated == page.truncated,
        copy.rows@.len() == page.rows@.len(),
        0 <= i < page.rows@.len() ==> cloned(page.rows@[i], copy.rows@[i]),
{
    if 0 <= i < page.rows@.len() {
        assert(cloned(page.rows@[i], copy.rows@[i]));
    }
}

/// A client that asks for another page than the next reads which one is next, and
/// which one they asked for.
pub proof fn the_next_page_is_named(expected: u64, received: u64)
    ensures
        sequence_message(expected, received) == "expected SQL page sequence "@ + decimal(
            expected as nat,
        ) + ", received "@ + decimal(received as nat),
{
}

/// Pages of the usual size have twenty rows until ten thousand rows have been
/// handed out.
pub proof fn pages_have_twenty_rows(rows_returned: nat)
    ensures
        rows_returned <= 9_980 ==> next_page_size(SQL_PAGE_ROWS as int, rows_returned as int) == 20,
        9_980 <= rows_returned <= 10_000 ==> next_page_size(
            SQL_PAGE_ROWS as int,
            rows_returned as int,
        ) == 10_000 - rows_returned,
{
}

} // verus!
