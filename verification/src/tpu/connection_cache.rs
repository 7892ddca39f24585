//! Open connections, kept for the next message to the same address.
//!
//! A connection is known by a number; who opens connections keeps the connections
//! themselves under their numbers, and knows which of them have closed.

use crate::concurrent::{table_get, table_insert, table_keys, table_len, table_remove, Table};
use crate::net::PeerAddr;
use vstd::prelude::*;

verus! {

/// Maximum number of cached QUIC connections to prevent unbounded growth.
pub const MAX_CACHED_CONNECTIONS: usize = 256;

/// A connection, and when it was last used.
#[derive(Clone, Copy, Debug, PartialEq, Eq)]
pub struct CacheEntry {
    pub conn: u64,
    /// Logical timestamp from the cache's clock; higher = more recently used.
    pub last_used: u64,
}

impl CacheEntry {
    fn copied(&self) -> (r: CacheEntry)
        ensures
            r == *self,
    {
        *self
    }
}

/// The connections by address.
pub type ConnectionTable = dashmap::DashMap<PeerAddr, CacheEntry>;

/// What the table of connections holds.
pub uninterp spec fn connection_table_rows(table: ConnectionTable) -> Map<PeerAddr, CacheEntry>;

impl Table<PeerAddr, CacheEntry> for ConnectionTable {
    open spec fn rows(&self) -> Map<PeerAddr, CacheEntry> {
        connection_table_rows(*self)
    }
}

/// `DashMap::new`: a table without connections.
#[verifier::external_body]
fn new_connection_table() -> (table: ConnectionTable)
    ensures
        connection_table_rows(table).dom() == Set::<PeerAddr>::empty(),
{
    dashmap::DashMap::new()
}

/// The clock's next reading.
pub open spec fn next_tick(clock: u64) -> u64 {
    if clock == u64::MAX {
        0
    } else {
        (clock + 1) as u64
    }
}

/// Without the connections that have closed.
pub open spec fn open_only(rows: Map<PeerAddr, CacheEntry>, closed: Seq<u64>) -> Map<
    PeerAddr,
    CacheEntry,
> {
    Map::new(
        |a: PeerAddr| rows.contains_key(a) && !closed.contains(rows[a].conn),
        |a: PeerAddr| rows[a],
    )
}

/// Nothing in the table was used less recently.
pub open spec fn least_recent(rows: Map<PeerAddr, CacheEntry>, victim: PeerAddr) -> bool {
    rows.contains_key(victim) && forall|a: PeerAddr| #[trigger]
        rows.contains_key(a) ==> rows[victim].last_used <= rows[a].last_used
}

/// Without one of the least recently used, if there is any.
pub open spec fn lru_evicted(
    before: Map<PeerAddr, CacheEntry>,
    after: Map<PeerAddr, CacheEntry>,
) -> bool {
    if before.dom().len() == 0 {
        after == before
    } else {
        exists|victim: PeerAddr| #[trigger]
            least_recent(before, victim) && after == before.remove(victim)
    }
}

/// With room for one more: as it was, or without what has closed, or without that and one
/// of the least recently used.
pub open spec fn made_room(
    before: Map<PeerAddr, CacheEntry>,
    closed: Seq<u64>,
    after: Map<PeerAddr, CacheEntry>,
) -> bool {
    if before.dom().len() < MAX_CACHED_CONNECTIONS {
        after == before
    } else if open_only(before, closed).dom().len() < MAX_CACHED_CONNECTIONS {
        after == open_only(before, closed)
    } else {
        lru_evicted(open_only(before, closed), after)
    }
}

/// A connection put in for an address, which comes into a place of its own or takes that of
/// the one before.
pub open spec fn inserted(
    rows: Map<PeerAddr, CacheEntry>,
    time: u64,
    addr: PeerAddr,
    conn: u64,
    closed: Seq<u64>,
    after: Map<PeerAddr, CacheEntry>,
) -> bool {
    let e = CacheEntry { conn, last_used: time };
    if rows.contains_key(addr) {
        after == rows.insert(addr, e)
    } else {
        exists|room: Map<PeerAddr, CacheEntry>| #[trigger]
            made_room(rows, closed, room) && after == room.insert(addr, e)
    }
}

/// The connection of an address used once more.
pub open spec fn used(rows: Map<PeerAddr, CacheEntry>, time: u64, addr: PeerAddr) -> Map<
    PeerAddr,
    CacheEntry,
> {
    rows.insert(addr, CacheEntry { conn: rows[addr].conn, last_used: time })
}

pub struct ConnectionCache {
    entries: ConnectionTable,
    /// Logical clock; incremented on each access/insert.
    clock: u64,
    entry_count: usize,
}

impl ConnectionCache {
    /// What is cached.
    pub closed spec fn rows(&self) -> Map<PeerAddr, CacheEntry> {
        self.entries.rows()
    }

    /// The clock's reading.
    pub closed spec fn time(&self) -> u64 {
        self.clock
    }

    /// There are not too many connections.
    pub closed spec fn well_formed(&self) -> bool {
        &&& self.entries.rows().dom().finite()
        &&& self.entry_count == self.entries.rows().dom().len()
        &&& self.entry_count <= MAX_CACHED_CONNECTIONS
    }

    pub fn new() -> (r: Self)
        ensures
            r.well_formed(),
            r.rows() == Map::<PeerAddr, CacheEntry>::empty(),
            r.time() == 0,
    {
        let r = ConnectionCache { entries: new_connection_table(), clock: 0, entry_count: 0 };
        assert(r.rows() =~= Map::<PeerAddr, CacheEntry>::empty());
        r
    }

    fn tick(&mut self) -> (r: u64)
        ensures
            r == old(self).time(),
            final(self).time() == next_tick(old(self).time()),
            final(self).entries == old(self).entries,
            final(self).entry_count == old(self).entry_count,
    {
        let now: u64 = self.clock;
        self.clock = if now == u64::MAX {
            0
        } else {
            now + 1
        };
        now
    }

    /// Get a cached connection, updating its last-used timestamp.
    pub fn get(&mut self, addr: &PeerAddr) -> (r: Option<u64>)
        requires
            old(self).well_formed(),
        ensures
            final(self).well_formed(),
            match r {
                Some(conn) => {
                    &&& old(self).rows().contains_key(*addr)
                    &&& conn == old(self).rows()[*addr].conn
                    &&& final(self).rows() == used(old(self).rows(), old(self).time(), *addr)
                    &&& final(self).time() == next_tick(old(self).time())
                },
                None => {
                    &&& !old(self).rows().contains_key(*addr)
                    &&& final(self).rows() == old(self).rows()
                    &&& final(self).time() == old(self).time()
                },
            },
    {
        match table_get(&self.entries, addr, CacheEntry::copied) {
            Some(e) => {
                let now: u64 = self.tick();
                proof {
                    let rows = self.entries.rows();
                    assert(rows.insert(
                        *addr,
                        CacheEntry { conn: e.conn, last_used: now },
                    ).dom() =~= rows.dom());
                }
                let _ = table_insert(
                    &mut self.entries,
                    *addr,
                    CacheEntry { conn: e.conn, last_used: now },
                );
                Some(e.conn)
            },
            None => None,
        }
    }

    /// Get a cached connection that has not closed. One that has closed is removed.
    pub fn get_open(&mut self, addr: &PeerAddr, closed: &[u64]) -> (r: Option<u64>)
        requires
            old(self).well_formed(),
        ensures
            final(self).well_formed(),
            final(self).time() == if old(self).rows().contains_key(*addr) {
                next_tick(old(self).time())
            } else {
                old(self).time()
            },
            ({
                let rows = old(self).rows();
                if !rows.contains_key(*addr) {
                    r is None && final(self).rows() == rows
                } else if closed@.contains(rows[*addr].conn) {
                    r is None && final(self).rows() == rows.remove(*addr)
                } else {
                    &&& r == Some(rows[*addr].conn)
                    &&& final(self).rows() == used(rows, old(self).time(), *addr)
                }
            }),
    {
        let ghost rows = self.rows();
        match self.get(addr) {
            Some(conn) => {
                if is_among(closed, conn) {
                    self.remove(addr);
                    assert(self.rows() =~= rows.remove(*addr));
                    None
                } else {
                    Some(conn)
                }
            },
            None => None,
        }
    }

    /// Insert or update a connection. If the cache is full, the connections that have
    /// closed make way, and if none has, one of the least recently used.
    pub fn insert(&mut self, addr: PeerAddr, conn: u64, closed: &[u64])
        requires
            old(self).well_formed(),
        ensures
            final(self).well_formed(),
            final(self).time() == next_tick(old(self).time()),
            inserted(old(self).rows(), old(self).time(), addr, conn, closed@, final(self).rows()),
    {
        let ghost rows = self.rows();
        let known = table_get(&self.entries, &addr, CacheEntry::copied).is_some();
        if !known {
            if self.entry_count >= MAX_CACHED_CONNECTIONS {
                // Try to free a slot, then re-check.
                self.prune_closed(closed);
                if self.entry_count >= MAX_CACHED_CONNECTIONS {
                    self.evict_lru();
                }
            }
        }
        let ghost room = self.rows();
        assert(!known ==> made_room(rows, closed@, room));
        let now: u64 = self.tick();
        let e = CacheEntry { conn, last_used: now };
        proof {
            assert(room.insert(addr, e).dom() =~= room.dom().insert(addr));
            if known {
                assert(room.dom().insert(addr) =~= room.dom());
            }
        }
        let _ = table_insert(&mut self.entries, addr, e);
        if !known {
            self.entry_count = self.entry_count + 1;
        }
    }

    /// Remove a connection (e.g. on error).
    pub fn remove(&mut self, addr: &PeerAddr)
        requires
            old(self).well_formed(),
        ensures
            final(self).well_formed(),
            final(self).rows() == old(self).rows().remove(*addr),
            final(self).time() == old(self).time(),
    {
        let ghost rows = self.entries.rows();
        match table_remove(&mut self.entries, addr) {
            Some(_) => {
                assert(rows.remove(*addr).dom() =~= rows.dom().remove(*addr));
                self.entry_count = self.entry_count - 1;
            },
            None => {
                assert(rows.remove(*addr) =~= rows);
            },
        }
    }

    /// Remove entries whose underlying connection has closed.
    pub fn prune_closed(&mut self, closed: &[u64])
        requires
            old(self).well_formed(),
        ensures
            final(self).well_formed(),
            final(self).rows() == open_only(old(self).rows(), closed@),
            final(self).rows().dom().len() <= old(self).rows().dom().len(),
            final(self).time() == old(self).time(),
    {
        let keys: Vec<PeerAddr> = table_keys(&self.entries);
        let ghost start = self.rows();
        let n: usize = keys.len();
        let mut i: usize = 0;
        while i < n
            invariant
                i <= n == keys@.len(),
                keys@.to_set() == start.dom(),
                start == old(self).rows(),
                self.well_formed(),
                self.time() == old(self).time(),
                self.rows().dom().len() <= start.dom().len(),
                forall|a: PeerAddr| #[trigger]
                    self.rows().contains_key(a) <==> start.contains_key(a) && !(closed@.contains(
                        start[a].conn,
                    ) && exists|j: int| 0 <= j < i && #[trigger] keys@[j] == a),
                forall|a: PeerAddr| #[trigger]
                    self.rows().contains_key(a) ==> self.rows()[a] == start[a],
            decreases n - i,
        {
            let addr: PeerAddr = keys[i];
            let ghost here = self.rows();
            assert(keys@[i as int] == addr);
            assert(keys@.to_set().contains(addr));
            if let Some(e) = table_get(&self.entries, &addr, CacheEntry::copied) {
                assert(e == start[addr]);
                if is_among(closed, e.conn) {
                    assert(here.remove(addr).dom() =~= here.dom().remove(addr));
                    self.remove(&addr);
                }
            }
            assert forall|a: PeerAddr| #[trigger]
                self.rows().contains_key(a) <==> start.contains_key(a) && !(closed@.contains(
                    start[a].conn,
                ) && exists|j: int| 0 <= j < i + 1 && #[trigger] keys@[j] == a) by {
                let _ = here.contains_key(a);
            }
            i = i + 1;
        }
        proof {
            assert forall|a: PeerAddr| #[trigger] self.rows().contains_key(a) <==> start.contains_key(
                a,
            ) && !closed@.contains(start[a].conn) by {
                if start.contains_key(a) {
                    assert(keys@.to_set().contains(a));
                    let j = choose|j: int| 0 <= j < keys@.len() && keys@[j] == a;
                    assert(keys@[j] == a);
                }
            }
            assert(self.rows() =~= open_only(start, closed@));
        }
    }

    /// Evict the least-recently-used entry.
    fn evict_lru(&mut self)
        requires
            old(self).well_formed(),
        ensures
            final(self).well_formed(),
            lru_evicted(old(self).rows(), final(self).rows()),
            final(self).rows().dom().len() < MAX_CACHED_CONNECTIONS,
            final(self).time() == old(self).time(),
    {
        let keys: Vec<PeerAddr> = table_keys(&self.entries);
        let n: usize = keys.len();
        let ghost rows = self.rows();
        if n == 0 {
            assert(keys@ =~= Seq::empty());
            assert(rows.dom() =~= Set::empty());
            return;
        }
        let mut victim: Option<(PeerAddr, u64)> = None;
        let mut i: usize = 0;
        while i < n
            invariant
                i <= n == keys@.len(),
                rows == self.rows(),
                keys@.to_set() == rows.dom(),
                i > 0 ==> victim is Some,
                victim matches Some(v) ==> rows.contains_key(v.0) && rows[v.0].last_used == v.1,
                forall|j: int|
                    0 <= j < i ==> victim is Some && (victim->0).1 <= rows[#[trigger] keys@[j]].last_used,
            decreases n - i,
        {
            let addr: PeerAddr = keys[i];
            assert(keys@.to_set().contains(addr));
            if let Some(e) = table_get(&self.entries, &addr, CacheEntry::copied) {
                match victim {
                    Some(v) => {
                        if e.last_used < v.1 {
                            victim = Some((addr, e.last_used));
                        }
                    },
                    None => {
                        victim = Some((addr, e.last_used));
                    },
                }
            }
            i = i + 1;
        }
        if let Some(v) = victim {
            proof {
                assert forall|a: PeerAddr| #[trigger] rows.contains_key(a) implies rows[v.0].last_used
                    <= rows[a].last_used by {
                    assert(keys@.to_set().contains(a));
                    let j = choose|j: int| 0 <= j < keys@.len() && keys@[j] == a;
                    assert(keys@[j] == a);
                }
                assert(least_recent(rows, v.0));
                assert(rows.remove(v.0).dom() =~= rows.dom().remove(v.0));
                assert(rows.dom().len() > 0) by {
                    if rows.dom().len() == 0 {
                        assert(rows.dom() =~= Set::empty());
                    }
                }
            }
            self.remove(&v.0);
        }
    }

    pub fn len(&self) -> (r: usize)
        ensures
            r == self.rows().dom().len(),
    {
        table_len(&self.entries)
    }

    pub fn is_empty(&self) -> (r: bool)
        ensures
            r == (self.rows().dom().len() == 0),
    {
        self.len() == 0
    }

    /// The numbers of the connections that are cached, one for each address.
    pub fn connections(&self) -> (r: Vec<u64>)
        ensures
            forall|conn: u64| #[trigger]
                r@.contains(conn) <==> exists|a: PeerAddr| #[trigger]
                    self.rows().contains_key(a) && self.rows()[a].conn == conn,
    {
        let keys: Vec<PeerAddr> = table_keys(&self.entries);
        let ghost rows = self.rows();
        let n: usize = keys.len();
        let mut out: Vec<u64> = Vec::new();
        let mut i: usize = 0;
        while i < n
            invariant
                i <= n == keys@.len(),
                rows == self.rows(),
                keys@.to_set() == rows.dom(),
                out@.len() == i,
                forall|j: int| 0 <= j < i ==> out@[j] == rows[#[trigger] keys@[j]].conn,
            decreases n - i,
        {
            let addr: PeerAddr = keys[i];
            assert(keys@.to_set().contains(addr));
            if let Some(e) = table_get(&self.entries, &addr, CacheEntry::copied) {
                out.push(e.conn);
            }
            i = i + 1;
        }
        proof {
            assert forall|conn: u64| #[trigger]
                out@.contains(conn) <==> exists|a: PeerAddr| #[trigger]
                    rows.contains_key(a) && rows[a].conn == conn by {
                if out@.contains(conn) {
                    let j = choose|j: int| 0 <= j < out@.len() && out@[j] == conn;
                    assert(keys@.to_set().contains(keys@[j]));
                    assert(rows.contains_key(keys@[j]));
                }
                if exists|a: PeerAddr| #[trigger] rows.contains_key(a) && rows[a].conn == conn {
                    let a = choose|a: PeerAddr| #[trigger]
                        rows.contains_key(a) && rows[a].conn == conn;
                    assert(keys@.to_set().contains(a));
                    let j = choose|j: int| 0 <= j < keys@.len() && keys@[j] == a;
                    assert(rows[keys@[j]].conn == conn);
                    assert(out@[j] == conn);
                }
            }
        }
        out
    }
}

fn is_among(list: &[u64], x: u64) -> (r: bool)
    ensures
        r == list@.contains(x),
{
    let n: usize = list.len();
    let mut i: usize = 0;
    while i < n
        invariant
            i <= n == list@.len(),
            forall|j: int| 0 <= j < i ==> list@[j] != x,
        decreases n - i,
    {
        if list[i] == x {
            return true;
        }
        i = i + 1;
    }
    false
}

/// A connection that was put in is found under its address, and is the most recently used. No
/// more than 256 are kept. Nothing makes way for one that has its place or finds room. In a full
/// cache what has closed makes way, all of it, and nothing that is open; and where nothing has
/// closed, a single connection does than which none was used less recently. What is kept is
/// kept as it was.
pub proof fn insertion_evicts_closed_then_least_recent(
    rows: Map<PeerAddr, CacheEntry>,
    time: u64,
    addr: PeerAddr,
    conn: u64,
    closed: Seq<u64>,
    after: Map<PeerAddr, CacheEntry>,
)
    requires
        rows.dom().finite(),
        rows.dom().len() <= 256,
        inserted(rows, time, addr, conn, closed, after),
    ensures
        after.contains_key(addr) && after[addr].conn == conn && after[addr].last_used == time,
        after.dom().finite() && after.dom().len() <= 256,
        forall|a: PeerAddr| #[trigger]
            after.contains_key(a) && a != addr ==> rows.contains_key(a) && after[a] == rows[a],
        rows.contains_key(addr) || rows.dom().len() < 256 ==> forall|a: PeerAddr| #[trigger]
            rows.contains_key(a) ==> after.contains_key(a),
        !rows.contains_key(addr) && rows.dom().len() == 256 ==> {
            let some_closed = exists|a: PeerAddr| #[trigger]
                rows.contains_key(a) && closed.contains(rows[a].conn);
            &&& some_closed ==> forall|a: PeerAddr| #[trigger]
                rows.contains_key(a) ==> after.contains_key(a) == !closed.contains(rows[a].conn)
            &&& !some_closed ==> exists|victim: PeerAddr|
                #![trigger rows.contains_key(victim)]
                {
                    &&& rows.contains_key(victim)
                    &&& !after.contains_key(victim)
                    &&& forall|a: PeerAddr| #[trigger]
                        rows.contains_key(a) ==> rows[victim].last_used <= rows[a].last_used && (a
                            != victim ==> after.contains_key(a))
                }
        },
{
    let e = CacheEntry { conn, last_used: time };
    if rows.contains_key(addr) {
        assert(after.dom() =~= rows.dom());
    } else {
        let room = choose|room: Map<PeerAddr, CacheEntry>| #[trigger]
            made_room(rows, closed, room) && after == room.insert(addr, e);
        assert(after.dom() =~= room.dom().insert(addr));
        if rows.dom().len() == 256 {
            let left = open_only(rows, closed);
            vstd::set_lib::lemma_len_subset(left.dom(), rows.dom());
            if left.dom().len() < 256 {
                assert(exists|a: PeerAddr| #[trigger]
                    rows.contains_key(a) && closed.contains(rows[a].conn)) by {
                    if forall|a: PeerAddr| #[trigger]
                        rows.contains_key(a) ==> !closed.contains(rows[a].conn) {
                        assert(left.dom() =~= rows.dom());
                    }
                }
            } else {
                vstd::set_lib::lemma_subset_equality(left.dom(), rows.dom());
                assert(left =~= rows) by {
                    assert forall|a: PeerAddr| #[trigger] rows.contains_key(
                        a,
                    ) implies left.contains_key(a) by {
                        assert(left.dom().contains(a));
                    }
                }
                assert forall|a: PeerAddr| #[trigger] rows.contains_key(a) implies !closed.contains(
                    rows[a].conn,
                ) by {
                    assert(left.dom().contains(a));
                }
                let victim = choose|victim: PeerAddr| #[trigger]
                    least_recent(left, victim) && room == left.remove(victim);
                assert(rows.contains_key(victim));
                assert(room.dom() =~= rows.dom().remove(victim));
            }
        }
    }
}

/// A use changes when the connection was last used, and nothing else. As long as the clock has
/// not run over, every connection was last used before the clock's reading, and so it stays.
pub proof fn use_is_noted(rows: Map<PeerAddr, CacheEntry>, time: u64, addr: PeerAddr)
    requires
        rows.contains_key(addr),
        time < u64::MAX,
        forall|a: PeerAddr| #[trigger] rows.contains_key(a) ==> rows[a].last_used < time,
    ensures
        used(rows, time, addr).dom() == rows.dom(),
        used(rows, time, addr)[addr].conn == rows[addr].conn,
        forall|a: PeerAddr| #[trigger]
            rows.contains_key(a) && a != addr ==> used(rows, time, addr)[a] == rows[a]
                && used(rows, time, addr)[a].last_used < used(rows, time, addr)[addr].last_used,
        next_tick(time) == time + 1,
        forall|a: PeerAddr| #[trigger]
            rows.contains_key(a) ==> used(rows, time, addr)[a].last_used < next_tick(time),
{
    assert(used(rows, time, addr).dom() =~= rows.dom());
}

/// A connection that was just used does not make way for the next one, unless it has closed.
pub proof fn just_used_is_kept(
    rows: Map<PeerAddr, CacheEntry>,
    time: u64,
    addr: PeerAddr,
    other: PeerAddr,
    conn: u64,
    closed: Seq<u64>,
    after: Map<PeerAddr, CacheEntry>,
)
    requires
        rows.dom().finite(),
        1 < rows.dom().len() <= 256,
        rows.contains_key(addr),
        !closed.contains(rows[addr].conn),
        time < u64::MAX,
        forall|a: PeerAddr| #[trigger] rows.contains_key(a) ==> rows[a].last_used < time,
        inserted(used(rows, time, addr), next_tick(time), other, conn, closed, after),
    ensures
        after.contains_key(addr),
        other != addr ==> after[addr].conn == rows[addr].conn,
{
    let fresh = used(rows, time, addr);
    use_is_noted(rows, time, addr);
    insertion_evicts_closed_then_least_recent(fresh, next_tick(time), other, conn, closed, after);
    if !after.contains_key(addr) {
        assert(fresh.contains_key(addr));
        let rest = rows.dom().remove(addr);
        assert(rest.len() > 0);
        let x = rest.choose();
        assert(rest.contains(x));
        assert(rows.contains_key(x) && fresh.contains_key(x));
    }
}

/// Without what has closed: every other connection stays as it is.
pub proof fn pruning_keeps_open_connections(
    rows: Map<PeerAddr, CacheEntry>,
    closed: Seq<u64>,
    addr: PeerAddr,
)
    ensures
        open_only(rows, closed).contains_key(addr) <==> rows.contains_key(addr) && forall|i: int|
            0 <= i < closed.len() ==> #[trigger] closed[i] != rows[addr].conn,
        open_only(rows, closed).contains_key(addr) ==> open_only(rows, closed)[addr] == rows[addr],
{
    if closed.contains(rows[addr].conn) {
        let i = choose|i: int| 0 <= i < closed.len() && closed[i] == rows[addr].conn;
        assert(closed[i] == rows[addr].conn);
    }
}

} // verus!
