//! What the server keeps between requests: sessions, discoveries, cursors and
//! slots for blob lists, each a bounded number and for a bounded time.

use vstd::prelude::*;

use crate::cache::{
    distinct_keys, has_key, holds_at, lemma_place, lookup_keeps_values, place_of, removal_is_local, store_is_read_back,
    stored,
    touched, value_of, without_key, BoundedCache,
};
use crate::cursor::elapsed;
use crate::error::RequestError;
use crate::models::DatasetInfo;
use crate::slots::BlobSlots;

verus! {

/// Client sessions that are kept at most.
pub const MAX_CONNECTIONS: usize = 256;

/// Discovered datasets that are kept at most while clients choose snapshots.
pub const MAX_DISCOVERIES: usize = 256;

/// Cursors that are kept at most.
pub const MAX_QUERY_CURSORS: usize = 256;

/// Rows of blob lists that are kept at most.
pub const MAX_BLOB_ARRAY_ROWS: usize = 8;

/// Sessions expire after this many nanoseconds without access.
pub const CONNECTION_IDLE_TTL: u64 = 3_600_000_000_000;

/// Discoveries expire after this many nanoseconds without access.
pub const DISCOVERY_IDLE_TTL: u64 = 3_600_000_000_000;

/// A value that expires when it is not used.
#[derive(Debug)]
pub struct IdleEntry<T> {
    pub value: T,
    pub last_accessed: u64,
}

impl<T> IdleEntry<T> {
    /// A value that is used at `now`.
    pub fn new(value: T, now: u64) -> (entry: Self)
        ensures
            entry == (IdleEntry { value, last_accessed: now }),
    {
        IdleEntry { value, last_accessed: now }
    }

    /// Whether the value has not expired at `now`.
    pub open spec fn alive(&self, now: u64, ttl: u64) -> bool {
        elapsed(self.last_accessed, now) < ttl
    }

    /// The value, unless it has expired; it is then used at `now`.
    pub fn access(&mut self, now: u64, ttl: u64) -> (value: Option<T>) where T: Clone
        ensures
            (match value {
                Some(copy) => {
                    &&& old(self).alive(now, ttl)
                    &&& cloned(old(self).value, copy)
                    &&& *final(self) == (IdleEntry { last_accessed: now, ..*old(self) })
                },
                None => !old(self).alive(now, ttl) && *final(self) == *old(self),
            }),
    {
        let idle: u64 = if now >= self.last_accessed {
            now - self.last_accessed
        } else {
            0
        };
        if idle >= ttl {
            return None;
        }
        self.last_accessed = now;
        Some(self.value.clone())
    }
}

/// Entries once the one under `id` has been asked for: it is used, or dropped
/// where it has expired.
pub open spec fn accessed<T>(
    entries: Seq<(u128, IdleEntry<T>)>,
    id: u128,
    now: u64,
    ttl: u64,
) -> Seq<(u128, IdleEntry<T>)> {
    match value_of(entries, id) {
        None => entries,
        Some(entry) => if entry.alive(now, ttl) {
            touched(entries, id).update(0, (id, IdleEntry { last_accessed: now, ..entry }))
        } else {
            without_key(entries, id)
        },
    }
}

/// Whether something is kept under `id` that has not expired.
pub open spec fn is_kept<T>(
    entries: Seq<(u128, IdleEntry<T>)>,
    id: u128,
    now: u64,
    ttl: u64,
) -> bool {
    value_of(entries, id) matches Some(entry) && entry.alive(now, ttl)
}

/// Dropping an entry that was just used leaves the others as they were.
proof fn lemma_drop_used<T>(entries: Seq<(u128, T)>, id: u128)
    requires
        distinct_keys(entries),
        has_key(entries, id),
    ensures
        without_key(touched(entries, id), id) == without_key(entries, id),
{
    let at = place_of(entries, id);
    assert(holds_at(entries, id, at));
    let rest = without_key(entries, id);
    let used = touched(entries, id);
    removal_is_local(entries, id, id);
    assert(holds_at(used, id, 0));
    let i = place_of(used, id);
    assert(holds_at(used, id, i));
    assert(i == 0) by {
        if i > 0 {
            assert(used[i] == rest[i - 1]);
            assert(holds_at(rest, id, i - 1));
        }
    }
    assert(used.remove(0) =~= rest);
}

/// What is kept under `id`, unless it has expired; what has expired is dropped.
fn access_or_drop<T: Clone>(
    cache: &mut BoundedCache<IdleEntry<T>>,
    id: u128,
    now: u64,
    ttl: u64,
) -> (value: Option<T>)
    requires
        old(cache).valid(),
    ensures
        final(cache).valid(),
        final(cache).limit() == old(cache).limit(),
        final(cache)@ == accessed(old(cache)@, id, now, ttl),
        (match value {
            Some(copy) => is_kept(old(cache)@, id, now, ttl) && cloned(
                value_of(old(cache)@, id)->0.value,
                copy,
            ),
            None => !is_kept(old(cache)@, id, now, ttl),
        }),
{
    let ghost before = cache@;
    proof {
        cache.bounded();
    }
    let value = match cache.get_mut(&id) {
        None => {
            return None;
        },
        Some(entry) => entry.access(now, ttl),
    };
    if value.is_some() {
        return value;
    }
    proof {
        let entry = value_of(before, id)->0;
        let used = touched(before, id);
        assert(used[0] == (id, entry));
        assert(cache@ =~= used);
        lemma_drop_used(before, id);
    }
    cache.remove(&id);
    None
}

/// A dataset that a client has opened.
#[derive(Debug)]
pub struct ConnectedDataset<D> {
    pub dataset: D,
    pub info: std::sync::Arc<DatasetInfo>,
    /// The number under which blob lists of this connection are kept.
    pub blob_cache_namespace: u128,
}

/// What the server keeps: sessions `S`, discoveries `D`, cursors `Q` and blob
/// lists `B`.
pub struct AppState<S, D, Q, B> {
    connections: BoundedCache<IdleEntry<S>>,
    discoveries: BoundedCache<IdleEntry<D>>,
    queries: BoundedCache<Q>,
    blob_arrays: BlobSlots<B>,
}

impl<S, D, Q, B> AppState<S, D, Q, B> {
    /// The sessions, the most recently used first.
    pub closed spec fn sessions(&self) -> Seq<(u128, IdleEntry<S>)> {
        self.connections@
    }

    /// The discoveries, the most recently used first.
    pub closed spec fn roots(&self) -> Seq<(u128, IdleEntry<D>)> {
        self.discoveries@
    }

    /// The cursors, the most recently used first.
    pub closed spec fn cursors(&self) -> Seq<(u128, Q)> {
        self.queries@
    }

    /// The blob lists, the most recently used first.
    pub closed spec fn blob_lists(&self) -> Seq<((u128, Seq<char>, u64), B)> {
        self.blob_arrays@
    }

    /// No more is kept of anything than its maximum.
    pub closed spec fn valid(&self) -> bool {
        &&& self.connections.valid() && self.connections.limit() == MAX_CONNECTIONS
        &&& self.discoveries.valid() && self.discoveries.limit() == MAX_DISCOVERIES
        &&& self.queries.valid() && self.queries.limit() == MAX_QUERY_CURSORS
        &&& self.blob_arrays.valid() && self.blob_arrays.limit() == MAX_BLOB_ARRAY_ROWS
    }

    /// No more is kept of anything than its maximum, and nothing twice.
    pub proof fn bounded(&self)
        requires
            self.valid(),
        ensures
            self.sessions().len() <= MAX_CONNECTIONS,
            self.roots().len() <= MAX_DISCOVERIES,
            self.cursors().len() <= MAX_QUERY_CURSORS,
            self.blob_lists().len() <= MAX_BLOB_ARRAY_ROWS,
            distinct_keys(self.sessions()),
            distinct_keys(self.roots()),
            distinct_keys(self.cursors()),
            distinct_keys(self.blob_lists()),
    {
        self.connections.bounded();
        self.discoveries.bounded();
        self.queries.bounded();
        self.blob_arrays.bounded();
    }

    /// Nothing is kept.
    pub fn new() -> (state: Self)
        ensures
            state.valid(),
            state.sessions() == Seq::<(u128, IdleEntry<S>)>::empty(),
            state.roots() == Seq::<(u128, IdleEntry<D>)>::empty(),
            state.cursors() == Seq::<(u128, Q)>::empty(),
            state.blob_lists() == Seq::<((u128, Seq<char>, u64), B)>::empty(),
    {
        AppState {
            connections: BoundedCache::new(MAX_CONNECTIONS),
            discoveries: BoundedCache::new(MAX_DISCOVERIES),
            queries: BoundedCache::new(MAX_QUERY_CURSORS),
            blob_arrays: BlobSlots::new(MAX_BLOB_ARRAY_ROWS),
        }
    }

    /// Keeps a session.
    pub fn connect(&mut self, connection_id: u128, session: S, now: u64)
        requires
            old(self).valid(),
        ensures
            final(self).valid(),
            final(self).sessions() == stored(
                old(self).sessions(),
                MAX_CONNECTIONS as nat,
                connection_id,
                (IdleEntry { value: session, last_accessed: now }),
            ),
            final(self).roots() == old(self).roots(),
            final(self).cursors() == old(self).cursors(),
            final(self).blob_lists() == old(self).blob_lists(),
    {
        self.connections.insert(connection_id, IdleEntry::new(session, now));
    }

    /// The session of a connection. One that was not used for too long is
    /// dropped, and is as unknown as one that never was.
    pub fn connected(&mut self, connection_id: u128, now: u64) -> (session: Result<
        S,
        RequestError,
    >) where S: Clone
        requires
            old(self).valid(),
        ensures
            final(self).valid(),
            final(self).sessions() == accessed(
                old(self).sessions(),
                connection_id,
                now,
                CONNECTION_IDLE_TTL,
            ),
            (match session {
                Ok(copy) => is_kept(
                    old(self).sessions(),
                    connection_id,
                    now,
                    CONNECTION_IDLE_TTL,
                ) && cloned(value_of(old(self).sessions(), connection_id)->0.value, copy),
                Err(error) => !is_kept(
                    old(self).sessions(),
                    connection_id,
                    now,
                    CONNECTION_IDLE_TTL,
                ) && error == RequestError::UnknownConnection(connection_id),
            }),
            final(self).roots() == old(self).roots(),
            final(self).cursors() == old(self).cursors(),
            final(self).blob_lists() == old(self).blob_lists(),
    {
        match access_or_drop(&mut self.connections, connection_id, now, CONNECTION_IDLE_TTL) {
            Some(session) => Ok(session),
            None => Err(RequestError::UnknownConnection(connection_id)),
        }
    }

    /// Keeps a discovered dataset.
    pub fn discover(&mut self, discovery_id: u128, root: D, now: u64)
        requires
            old(self).valid(),
        ensures
            final(self).valid(),
            final(self).roots() == stored(
                old(self).roots(),
                MAX_DISCOVERIES as nat,
                discovery_id,
                (IdleEntry { value: root, last_accessed: now }),
            ),
            final(self).sessions() == old(self).sessions(),
            final(self).cursors() == old(self).cursors(),
            final(self).blob_lists() == old(self).blob_lists(),
    {
        self.discoveries.insert(discovery_id, IdleEntry::new(root, now));
    }

    /// A dataset that was discovered. One that was not used for too long is
    /// dropped, and is as unknown as one that never was.
    pub fn discovered(&mut self, discovery_id: u128, now: u64) -> (root: Result<
        D,
        RequestError,
    >) where D: Clone
        requires
            old(self).valid(),
        ensures
            final(self).valid(),
            final(self).roots() == accessed(
                old(self).roots(),
                discovery_id,
                now,
                DISCOVERY_IDLE_TTL,
            ),
            (match root {
                Ok(copy) => is_kept(old(self).roots(), discovery_id, now, DISCOVERY_IDLE_TTL)
                    && cloned(value_of(old(self).roots(), discovery_id)->0.value, copy),
                Err(error) => !is_kept(old(self).roots(), discovery_id, now, DISCOVERY_IDLE_TTL)
                    && error == RequestError::UnknownDiscovery(discovery_id),
            }),
            final(self).sessions() == old(self).sessions(),
            final(self).cursors() == old(self).cursors(),
            final(self).blob_lists() == old(self).blob_lists(),
    {
        match access_or_drop(&mut self.discoveries, discovery_id, now, DISCOVERY_IDLE_TTL) {
            Some(root) => Ok(root),
            None => Err(RequestError::UnknownDiscovery(discovery_id)),
        }
    }

    /// Keeps a cursor.
    pub fn open_query(&mut self, cursor_id: u128, cursor: Q)
        requires
            old(self).valid(),
        ensures
            final(self).valid(),
            final(self).cursors() == stored(
                old(self).cursors(),
                MAX_QUERY_CURSORS as nat,
                cursor_id,
                cursor,
            ),
            final(self).sessions() == old(self).sessions(),
            final(self).roots() == old(self).roots(),
            final(self).blob_lists() == old(self).blob_lists(),
    {
        self.queries.insert(cursor_id, cursor);
    }

    /// A cursor.
    pub fn query(&mut self, cursor_id: u128) -> (cursor: Result<Q, RequestError>) where Q: Clone
        requires
            old(self).valid(),
        ensures
            final(self).valid(),
            final(self).cursors() == touched(old(self).cursors(), cursor_id),
            (match cursor {
                Ok(copy) => has_key(old(self).cursors(), cursor_id) && cloned(
                    value_of(old(self).cursors(), cursor_id)->0,
                    copy,
                ),
                Err(error) => !has_key(old(self).cursors(), cursor_id) && error
                    == RequestError::UnknownQueryCursor(cursor_id),
            }),
            final(self).sessions() == old(self).sessions(),
            final(self).roots() == old(self).roots(),
            final(self).blob_lists() == old(self).blob_lists(),
    {
        match self.queries.get(&cursor_id) {
            Some(cursor) => Ok(cursor),
            None => Err(RequestError::UnknownQueryCursor(cursor_id)),
        }
    }

    /// Drops a cursor.
    pub fn close_query(&mut self, cursor_id: u128)
        requires
            old(self).valid(),
        ensures
            final(self).valid(),
            final(self).cursors() == without_key(old(self).cursors(), cursor_id),
            final(self).sessions() == old(self).sessions(),
            final(self).roots() == old(self).roots(),
            final(self).blob_lists() == old(self).blob_lists(),
    {
        self.queries.remove(&cursor_id);
    }

    /// The slot for the blob lists in a row of a column, for one connection
    /// alone.
    pub fn blob_array_slot<T, F: FnOnce() -> B>(
        &mut self,
        connection: &ConnectedDataset<T>,
        column: &str,
        row_address: u64,
        create: F,
    ) -> (slot: B) where B: Clone
        requires
            old(self).valid(),
            create.requires(()),
        ensures
            final(self).valid(),
            has_key(
                old(self).blob_lists(),
                (connection.blob_cache_namespace, column@, row_address),
            ) ==> {
                let key = (connection.blob_cache_namespace, column@, row_address);
                &&& final(self).blob_lists() == touched(old(self).blob_lists(), key)
                &&& cloned(value_of(old(self).blob_lists(), key)->0, slot)
            },
            !has_key(
                old(self).blob_lists(),
                (connection.blob_cache_namespace, column@, row_address),
            ) ==> {
                let key = (connection.blob_cache_namespace, column@, row_address);
                &&& create.ensures((), slot)
                &&& exists|copy: B| #[trigger]
                    cloned(slot, copy) && final(self).blob_lists() == stored(
                        old(self).blob_lists(),
                        MAX_BLOB_ARRAY_ROWS as nat,
                        key,
                        copy,
                    )
            },
            final(self).sessions() == old(self).sessions(),
            final(self).roots() == old(self).roots(),
            final(self).cursors() == old(self).cursors(),
    {
        self.blob_arrays.slot(connection.blob_cache_namespace, column, row_address, create)
    }
}

/// Asking for one entry leaves what is kept under any other id as it is.
pub proof fn sessions_are_isolated<T>(
    entries: Seq<(u128, IdleEntry<T>)>,
    id: u128,
    other: u128,
    now: u64,
    ttl: u64,
)
    requires
        distinct_keys(entries),
        other != id,
    ensures
        value_of(accessed(entries, id, now, ttl), other) == value_of(entries, other),
{
    if has_key(entries, id) {
        let entry = value_of(entries, id)->0;
        if entry.alive(now, ttl) {
            lookup_keeps_values(entries, id, other);
            let used = touched(entries, id);
            let after = accessed(entries, id, now, ttl);
            lemma_update_first(used, (id, IdleEntry { last_accessed: now, ..entry }), other);
        } else {
            removal_is_local(entries, id, other);
        }
    }
}

/// Changing the value of the first entry leaves the values of other keys.
proof fn lemma_update_first<T>(entries: Seq<(u128, T)>, first: (u128, T), other: u128)
    requires
        distinct_keys(entries),
        entries.len() > 0,
        entries[0].0 == first.0,
        first.0 != other,
    ensures
        value_of(entries.update(0, first), other) == value_of(entries, other),
{
    let after = entries.update(0, first);
    assert(distinct_keys(after)) by {
        assert forall|i: int, j: int| 0 <= i < j < after.len() implies (#[trigger] after[i]).0 != (
        #[trigger] after[j]).0 by {
            assert(entries[i].0 != entries[j].0);
        }
    }
    if has_key(entries, other) {
        let i = place_of(entries, other);
        assert(holds_at(entries, other, i));
        assert(holds_at(after, other, i));
        lemma_place(after, other, i);
    }
    if has_key(after, other) {
        let i = place_of(after, other);
        assert(holds_at(after, other, i));
        assert(holds_at(entries, other, i));
    }
}

/// What has expired is gone for good, and what has not is used at `now`.
pub proof fn expiry_is_final<T>(
    entries: Seq<(u128, IdleEntry<T>)>,
    id: u128,
    now: u64,
    ttl: u64,
)
    requires
        distinct_keys(entries),
    ensures
        !is_kept(entries, id, now, ttl) ==> !has_key(accessed(entries, id, now, ttl), id),
        is_kept(entries, id, now, ttl) ==> accessed(entries, id, now, ttl)[0] == (
            id,
            (IdleEntry { last_accessed: now, ..value_of(entries, id)->0 }),
        ),
{
    if has_key(entries, id) {
        lookup_keeps_values(entries, id, id);
        removal_is_local(entries, id, id);
    }
}

/// What was just kept is found, until it has not been used for too long.
pub proof fn a_new_session_is_found<T>(
    entries: Seq<(u128, IdleEntry<T>)>,
    limit: nat,
    id: u128,
    value: T,
    then_at: u64,
    now: u64,
    ttl: u64,
)
    requires
        distinct_keys(entries),
        0 < limit,
        entries.len() <= limit,
    ensures
        ({
            let after = stored(entries, limit, id, (IdleEntry { value, last_accessed: then_at }));
            &&& is_kept(after, id, now, ttl) <==> elapsed(then_at, now) < ttl
            &&& value_of(after, id) matches Some(entry) && entry.value == value
        }),
{
    store_is_read_back(entries, limit, id, IdleEntry { value, last_accessed: then_at }, id);
}

/// Connections do not share blob lists: what one keeps is never found by
/// another, though it may take the place of the list used least recently.
pub proof fn connections_do_not_share_blob_lists<B>(
    entries: Seq<((u128, Seq<char>, u64), B)>,
    limit: nat,
    key: (u128, Seq<char>, u64),
    value: B,
    other: (u128, Seq<char>, u64),
)
    requires
        distinct_keys(entries),
        0 < limit,
        entries.len() <= limit,
        key.0 != other.0,
    ensures
        value_of(touched(entries, key), other) == value_of(entries, other),
        value_of(stored(entries, limit, key, value), other) == value_of(entries, other) || (
        value_of(stored(entries, limit, key, value), other) is None && entries.len() == limit
            && entries.last().0 == other),
{
    lookup_keeps_values(entries, key, other);
    store_is_read_back(entries, limit, key, value, other);
    if has_key(entries, other) {
        let i = place_of(entries, other);
        assert(holds_at(entries, other, i));
    }
}

/// A session or a discovery is alive until it has not been used for an hour.
pub proof fn sessions_live_for_an_hour<T>(entry: IdleEntry<T>, now: u64)
    ensures
        entry.alive(now, CONNECTION_IDLE_TTL) <==> now - entry.last_accessed < 3_600_000_000_000,
        entry.alive(now, DISCOVERY_IDLE_TTL) <==> now - entry.last_accessed < 3_600_000_000_000,
{
}

/// What is asked for in time is there, and using it gives it its time anew; what
/// is asked for too late, or was never kept, is not.
pub proof fn entries_are_kept_while_they_are_used<T>(
    entries: Seq<(u128, IdleEntry<T>)>,
    id: u128,
    now: u64,
    later: u64,
    ttl: u64,
)
    requires
        distinct_keys(entries),
        ttl > 0,
    ensures
        is_kept(entries, id, now, ttl) <==> (value_of(entries, id) matches Some(entry) && now
            - entry.last_accessed < ttl),
        is_kept(entries, id, now, ttl) ==> {
            let after = accessed(entries, id, now, ttl);
            &&& value_of(after, id) matches Some(entry) && entry.value == value_of(
                entries,
                id,
            )->0.value
            &&& is_kept(after, id, later, ttl) <==> later - now < ttl
        },
{
    if is_kept(entries, id, now, ttl) {
        expiry_is_final(entries, id, now, ttl);
        lookup_keeps_values(entries, id, id);
        let entry = value_of(entries, id)->0;
        let used = touched(entries, id);
        let after = accessed(entries, id, now, ttl);
        assert(distinct_keys(after)) by {
            assert forall|i: int, j: int| 0 <= i < j < after.len() implies (#[trigger] after[i]).0
                != (#[trigger] after[j]).0 by {
                assert(used[i].0 != used[j].0);
                assert(after[i].0 == used[i].0);
                assert(after[j].0 == used[j].0);
            }
        }
        assert(used.len() > 0) by {
            let at = place_of(entries, id);
            assert(holds_at(entries, id, at));
        }
        assert(holds_at(after, id, 0));
        lemma_place(after, id, 0);
    }
}

/// At most 256 sessions, discoveries and cursors are kept, and at most eight rows
/// of blob lists.
pub proof fn what_is_kept_is_bounded<S, D, Q, B>(state: AppState<S, D, Q, B>)
    requires
        state.valid(),
    ensures
        state.sessions().len() <= 256,
        state.roots().len() <= 256,
        state.cursors().len() <= 256,
        state.blob_lists().len() <= 8,
{
    state.bounded();
}

/// A new session, discovery or cursor displaces another one only where 256 are
/// kept, and a new row of blob lists only where eight are; what is displaced is
/// what was used least recently.
pub proof fn nothing_is_displaced_without_need<K, T>(
    entries: Seq<(K, T)>,
    key: K,
    value: T,
    other: K,
)
    requires
        distinct_keys(entries),
        other != key,
        has_key(entries, other),
    ensures
        entries.len() < 256 ==> value_of(
            stored(entries, MAX_CONNECTIONS as nat, key, value),
            other,
        ) == value_of(entries, other),
        entries.len() < 256 ==> value_of(
            stored(entries, MAX_DISCOVERIES as nat, key, value),
            other,
        ) == value_of(entries, other),
        entries.len() < 256 ==> value_of(
            stored(entries, MAX_QUERY_CURSORS as nat, key, value),
            other,
        ) == value_of(entries, other),
        entries.len() < 8 ==> value_of(
            stored(entries, MAX_BLOB_ARRAY_ROWS as nat, key, value),
            other,
        ) == value_of(entries, other),
        entries.len() == 256 && entries.last().0 != other ==> value_of(
            stored(entries, MAX_CONNECTIONS as nat, key, value),
            other,
        ) == value_of(entries, other),
{
    if entries.len() <= 256 {
        store_is_read_back(entries, MAX_CONNECTIONS as nat, key, value, other);
        store_is_read_back(entries, MAX_DISCOVERIES as nat, key, value, other);
        store_is_read_back(entries, MAX_QUERY_CURSORS as nat, key, value, other);
    }
    if entries.len() <= 8 {
        store_is_read_back(entries, MAX_BLOB_ARRAY_ROWS as nat, key, value, other);
    }
}

} // verus!
