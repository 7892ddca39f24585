//! Limits on what each address, and all together, may send per second.
//!
//! Time is given in nanoseconds since some fixed moment.

use crate::concurrent::{table_get, table_insert, table_keys, table_remove, Table};
use crate::net::Ip;
use crate::tpu::error::{LimitReason, TpuError};
use vstd::prelude::*;

verus! {

pub const MAX_TX_PER_SECOND_PER_IP: u64 = 100;

pub const MAX_TX_PER_SECOND_GLOBAL: u64 = 50000;

pub const MAX_CONNECTIONS_PER_IP: u64 = 8;

/// Maximum number of IP entries to prevent unbounded growth.
pub const MAX_RATE_LIMITER_ENTRIES: usize = 100_000;

/// What is kept of an address: the transactions of its current second, its open
/// connections, and when the second began.
#[derive(Clone, Copy, Debug, PartialEq, Eq)]
pub struct IpState {
    pub tx_count: u64,
    pub connection_count: u64,
    pub window_start: u64,
}

/// Whole seconds from one moment to another, none if they are out of order.
pub open spec fn whole_seconds(from: u64, to: u64) -> nat {
    if to >= from {
        (to - from) as nat / 1_000_000_000
    } else {
        0
    }
}

fn seconds_between(from: u64, to: u64) -> (r: u64)
    ensures
        r == whole_seconds(from, to),
{
    if to >= from {
        (to - from) / 1_000_000_000
    } else {
        0
    }
}

// ---------------------------------------------------------------------------
// All addresses together
// ---------------------------------------------------------------------------

/// The count of all requests in the current second.
///
/// Layout of the state:
///   - high 32 bits: window epoch (seconds elapsed since `anchor`, truncated to u32)
///   - low  32 bits: request count within that epoch
pub struct GlobalWindow {
    anchor: u64,
    state: u64,
}

pub open spec fn unpacked_epoch(state: u64) -> u32 {
    (state >> 32) as u32
}

pub open spec fn unpacked_count(state: u64) -> u64 {
    state & 0xFFFF_FFFF
}

proof fn lemma_packing(epoch: u32, count: u64)
    requires
        count <= 0xFFFF_FFFF,
    ensures
        unpacked_epoch((epoch as u64) << 32 | count) == epoch,
        unpacked_count((epoch as u64) << 32 | count) == count,
{
    let e = epoch as u64;
    assert((((e << 32) | count) >> 32) as u32 == e as u32 && ((e << 32) | count) & 0xFFFF_FFFF
        == count) by (bit_vector)
        requires
            count <= 0xFFFF_FFFF,
            e <= 0xFFFF_FFFF,
    ;
}

impl GlobalWindow {
    pub closed spec fn origin(&self) -> u64 {
        self.anchor
    }

    /// The second that the count is for.
    pub closed spec fn epoch(&self) -> u32 {
        unpacked_epoch(self.state)
    }

    /// The requests of that second.
    pub closed spec fn count(&self) -> nat {
        unpacked_count(self.state) as nat
    }

    /// The second that a moment belongs to.
    pub open spec fn epoch_at(&self, now: u64) -> u32 {
        whole_seconds(self.origin(), now) as u32
    }

    /// The requests so far of the second that a moment belongs to.
    pub open spec fn used_at(&self, now: u64) -> nat {
        if self.epoch() == self.epoch_at(now) {
            self.count()
        } else {
            0
        }
    }

    pub fn new(anchor: u64) -> (r: Self)
        ensures
            r.origin() == anchor,
            r.epoch() == 0,
            r.count() == 0,
    {
        assert((0u64 >> 32) as u32 == 0 && 0u64 & 0xFFFF_FFFF == 0) by (bit_vector);
        GlobalWindow { anchor, state: 0 }
    }

    /// Try to consume `n` tokens from the global window.
    ///
    /// Returns `true` if all `n` tokens were granted, `false` otherwise.
    pub fn try_consume(&mut self, n: u64, limit: u64, now: u64) -> (r: bool)
        requires
            limit <= u32::MAX,
        ensures
            final(self).origin() == old(self).origin(),
            r == (old(self).used_at(now) + n <= limit),
            0 <= now - old(self).origin() < 0x1_0000_0000 * 1_000_000_000 ==> r == if old(
                self,
            ).epoch() == (now - old(self).origin()) / 1_000_000_000 {
                old(self).count() + n <= limit
            } else {
                n <= limit
            },
            r ==> {
                &&& final(self).epoch() == old(self).epoch_at(now)
                &&& final(self).count() == old(self).used_at(now) + n
            },
            !r ==> *final(self) == *old(self),
    {
        let seconds: u64 = seconds_between(self.anchor, now);
        #[verifier::truncate]
        let now_epoch: u32 = seconds as u32;
        let old_state: u64 = self.state;
        #[verifier::truncate]
        let old_epoch: u32 = (old_state >> 32) as u32;
        let old_count: u64 = old_state & 0xFFFF_FFFF;
        assert(old_state & 0xFFFF_FFFF <= 0xFFFF_FFFF) by (bit_vector);
        if n > limit {
            return false;
        }
        let next: u64 = if old_epoch == now_epoch {
            old_count + n
        } else {
            n
        };
        if next > limit {
            return false;
        }
        proof {
            lemma_packing(now_epoch, next);
        }
        self.state = ((now_epoch as u64) << 32) | next;
        true
    }
}

// ---------------------------------------------------------------------------
// Each address
// ---------------------------------------------------------------------------

/// The addresses that are kept count of.
pub type IpTable = dashmap::DashMap<Ip, IpState>;

/// What the table of addresses holds.
pub uninterp spec fn ip_table_rows(table: IpTable) -> Map<Ip, IpState>;

impl Table<Ip, IpState> for IpTable {
    open spec fn rows(&self) -> Map<Ip, IpState> {
        ip_table_rows(*self)
    }
}

/// `DashMap::new`: a table without addresses.
#[verifier::external_body]
fn new_ip_table() -> (table: IpTable)
    ensures
        ip_table_rows(table).dom() == Set::<Ip>::empty(),
{
    dashmap::DashMap::new()
}

impl IpState {
    fn copied(&self) -> (r: IpState)
        ensures
            r == *self,
    {
        *self
    }
}

/// The state of an address that is new at `now`.
pub open spec fn fresh(now: u64) -> IpState {
    IpState { tx_count: 0, connection_count: 0, window_start: now }
}

/// The state of an address, its count begun anew if its second is over.
pub open spec fn rolled(s: IpState, now: u64) -> IpState {
    if whole_seconds(s.window_start, now) >= 1 {
        IpState { tx_count: 0, window_start: now, ..s }
    } else {
        s
    }
}

/// The addresses, with the given one among them if there is room; `None` if there is not.
pub open spec fn with_ip(rows: Map<Ip, IpState>, ip: Ip, now: u64) -> Option<Map<Ip, IpState>> {
    if rows.contains_key(ip) {
        Some(rows)
    } else if rows.dom().len() >= MAX_RATE_LIMITER_ENTRIES {
        None
    } else {
        Some(rows.insert(ip, fresh(now)))
    }
}

/// An address is forgotten once it has no connections and its second is long over.
pub open spec fn is_expired(s: IpState, now: u64) -> bool {
    s.connection_count == 0 && whole_seconds(s.window_start, now) >= 2
}

pub struct RateLimiter {
    ip_states: IpTable,
    global: GlobalWindow,
    max_tx_per_sec_per_ip: u64,
    max_tx_per_sec_global: u64,
    max_connections_per_ip: u64,
    /// How many addresses are kept count of.
    entry_count: usize,
}

pub open spec fn limited(reason: LimitReason) -> Result<(), TpuError> {
    Err(TpuError::RateLimited { reason })
}

impl RateLimiter {
    /// What is kept of each address.
    pub closed spec fn states(&self) -> Map<Ip, IpState> {
        self.ip_states.rows()
    }

    /// The count of all requests together.
    pub closed spec fn window(&self) -> GlobalWindow {
        self.global
    }

    pub closed spec fn ip_limit(&self) -> u64 {
        self.max_tx_per_sec_per_ip
    }

    pub closed spec fn global_limit(&self) -> u64 {
        self.max_tx_per_sec_global
    }

    pub closed spec fn connection_limit(&self) -> u64 {
        self.max_connections_per_ip
    }

    pub closed spec fn counts_entries(&self) -> bool {
        self.ip_states.rows().dom().finite() && self.entry_count
            == self.ip_states.rows().dom().len()
    }

    /// No address is over its limits, and there are not too many of them.
    pub open spec fn well_formed(&self) -> bool {
        &&& self.counts_entries()
        &&& self.states().dom().len() <= MAX_RATE_LIMITER_ENTRIES
        &&& self.global_limit() <= u32::MAX
        &&& self.window().count() <= self.global_limit()
        &&& forall|ip: Ip| #[trigger]
            self.states().contains_key(ip) ==> self.states()[ip].tx_count <= self.ip_limit()
                && self.states()[ip].connection_count <= self.connection_limit()
    }

    pub open spec fn same_limits(&self, other: &Self) -> bool {
        &&& self.ip_limit() == other.ip_limit()
        &&& self.global_limit() == other.global_limit()
        &&& self.connection_limit() == other.connection_limit()
    }

    pub fn new(now: u64) -> (r: Self)
        ensures
            r.well_formed(),
            r.states() == Map::<Ip, IpState>::empty(),
            r.window().count() == 0,
            r.window().origin() == now,
            r.ip_limit() == MAX_TX_PER_SECOND_PER_IP,
            r.global_limit() == MAX_TX_PER_SECOND_GLOBAL,
            r.connection_limit() == MAX_CONNECTIONS_PER_IP,
    {
        let r = RateLimiter {
            ip_states: new_ip_table(),
            global: GlobalWindow::new(now),
            max_tx_per_sec_per_ip: MAX_TX_PER_SECOND_PER_IP,
            max_tx_per_sec_global: MAX_TX_PER_SECOND_GLOBAL,
            max_connections_per_ip: MAX_CONNECTIONS_PER_IP,
            entry_count: 0,
        };
        assert(r.states() =~= Map::<Ip, IpState>::empty());
        r
    }

    /// A limiter with other limits.
    pub fn with_limits(
        now: u64,
        max_tx_per_sec_per_ip: u64,
        max_tx_per_sec_global: u64,
        max_connections_per_ip: u64,
    ) -> (r: Self)
        requires
            max_tx_per_sec_global <= u32::MAX,
        ensures
            r.well_formed(),
            r.states() == Map::<Ip, IpState>::empty(),
            r.window().count() == 0,
            r.window().origin() == now,
            r.ip_limit() == max_tx_per_sec_per_ip,
            r.global_limit() == max_tx_per_sec_global,
            r.connection_limit() == max_connections_per_ip,
    {
        let r = RateLimiter {
            ip_states: new_ip_table(),
            global: GlobalWindow::new(now),
            max_tx_per_sec_per_ip,
            max_tx_per_sec_global,
            max_connections_per_ip,
            entry_count: 0,
        };
        assert(r.states() =~= Map::<Ip, IpState>::empty());
        r
    }

    /// How many addresses are kept count of.
    pub fn entries(&self) -> (r: usize)
        requires
            self.well_formed(),
        ensures
            r == self.states().dom().len(),
    {
        self.entry_count
    }

    /// The state of an address, which is taken up first if it is new and there is room.
    fn admit_ip(&mut self, ip: Ip, now: u64) -> (r: Option<IpState>)
        requires
            old(self).well_formed(),
        ensures
            final(self).well_formed(),
            final(self).same_limits(old(self)),
            final(self).window() == old(self).window(),
            match (r, with_ip(old(self).states(), ip, now)) {
                (Some(s), Some(rows)) => final(self).states() == rows && rows.contains_key(ip)
                    && rows[ip] == s,
                (None, None) => final(self).states() == old(self).states(),
                _ => false,
            },
    {
        match table_get(&self.ip_states, &ip, IpState::copied) {
            Some(s) => Some(s),
            None => {
                if self.entry_count >= MAX_RATE_LIMITER_ENTRIES {
                    return None;
                }
                let s = IpState { tx_count: 0, connection_count: 0, window_start: now };
                proof {
                    let rows = self.ip_states.rows();
                    assert(rows.insert(ip, s).dom() =~= rows.dom().insert(ip));
                }
                let _ = table_insert(&mut self.ip_states, ip, s);
                self.entry_count = self.entry_count + 1;
                Some(s)
            },
        }
    }

    /// Write the state of an address back.
    fn update_ip(&mut self, ip: Ip, s: IpState)
        requires
            old(self).well_formed(),
            old(self).states().contains_key(ip),
            s.tx_count <= old(self).ip_limit(),
            s.connection_count <= old(self).connection_limit(),
        ensures
            final(self).well_formed(),
            final(self).same_limits(old(self)),
            final(self).window() == old(self).window(),
            final(self).states() == old(self).states().insert(ip, s),
    {
        proof {
            let rows = self.ip_states.rows();
            assert(rows.insert(ip, s).dom() =~= rows.dom());
        }
        let _ = table_insert(&mut self.ip_states, ip, s);
    }

    /// Remove IP entries whose rate windows have expired and have no active connections.
    pub fn purge_expired(&mut self, now: u64)
        requires
            old(self).well_formed(),
        ensures
            final(self).well_formed(),
            final(self).same_limits(old(self)),
            final(self).window() == old(self).window(),
            purged(old(self).states(), final(self).states(), now),
    {
        let keys: Vec<Ip> = table_keys(&self.ip_states);
        let ghost start = self.states();
        let n: usize = keys.len();
        let mut i: usize = 0;
        while i < n
            invariant
                i <= n == keys@.len(),
                keys@.no_duplicates(),
                keys@.to_set() == start.dom(),
                start == old(self).states(),
                self.well_formed(),
                self.same_limits(old(self)),
                self.window() == old(self).window(),
                forall|ip: Ip| #[trigger]
                    self.states().contains_key(ip) <==> start.contains_key(ip) && !(is_expired(
                        start[ip],
                        now,
                    ) && keys@.take(i as int).contains(ip)),
                forall|ip: Ip| #[trigger]
                    self.states().contains_key(ip) ==> self.states()[ip] == start[ip],
            decreases n - i,
        {
            let ip: Ip = keys[i];
            let ghost seen = keys@.take(i as int);
            let ghost rows = self.ip_states.rows();
            proof {
                assert(keys@.take(i + 1) =~= seen.push(ip));
                assert(!seen.contains(ip)) by {
                    if seen.contains(ip) {
                        let j = choose|j: int| 0 <= j < seen.len() && seen[j] == ip;
                        assert(keys@[j] == keys@[i as int]);
                    }
                }
                assert(keys@.to_set().contains(ip));
                assert(self.states().contains_key(ip));
                assert forall|x: Ip| #[trigger] seen.push(ip).contains(x) == (seen.contains(x) || x
                    == ip) by {
                    if seen.contains(x) {
                        let j = choose|j: int| 0 <= j < seen.len() && seen[j] == x;
                        assert(seen.push(ip)[j] == x);
                    }
                    if x == ip {
                        assert(seen.push(ip)[seen.len() as int] == x);
                    }
                }
                assert(rows.remove(ip).dom() =~= rows.dom().remove(ip));
            }
            if let Some(s) = table_get(&self.ip_states, &ip, IpState::copied) {
                if s.connection_count == 0 && seconds_between(s.window_start, now) >= 2 {
                    let _ = table_remove(&mut self.ip_states, &ip);
                    self.entry_count = self.entry_count - 1;
                }
            }
            i = i + 1;
        }
        proof {
            assert(keys@.take(n as int) =~= keys@);
            assert forall|ip: Ip| #[trigger]
                self.states().contains_key(ip) <==> start.contains_key(ip) && !is_expired(
                    start[ip],
                    now,
                ) by {
                assert(keys@.contains(ip) == keys@.to_set().contains(ip));
            }
        }
    }

    /// Check if a single transaction from `ip` is allowed.
    pub fn check_rate_limit(&mut self, ip: Ip, now: u64) -> (r: Result<(), TpuError>)
        requires
            old(self).well_formed(),
        ensures
            final(self).well_formed(),
            final(self).same_limits(old(self)),
            checked(old(self), final(self), ip, 1, now, r),
    {
        self.check_rate_limit_n(ip, 1, now)
    }

    /// Check if `n` transactions from `ip` are allowed, consuming all n tokens at once.
    ///
    /// Order: per-IP capacity check, global check, per-IP increment. A per-IP rejection
    /// leaves the global count alone, and a global rejection leaves the address's count.
    pub fn check_rate_limit_n(&mut self, ip: Ip, n: u64, now: u64) -> (r: Result<(), TpuError>)
        requires
            old(self).well_formed(),
        ensures
            final(self).well_formed(),
            final(self).same_limits(old(self)),
            checked(old(self), final(self), ip, n as nat, now, r),
    {
        let mut s: IpState = match self.admit_ip(ip, now) {
            Some(s) => s,
            None => {
                return Err(TpuError::RateLimited { reason: LimitReason::AtCapacity });
            },
        };
        // Window reset if the 1-second slot has elapsed.
        if seconds_between(s.window_start, now) >= 1 {
            s.tx_count = 0;
            s.window_start = now;
        }
        self.update_ip(ip, s);
        if n > self.max_tx_per_sec_per_ip - s.tx_count {
            return Err(TpuError::RateLimited { reason: LimitReason::PerIp(ip) });
        }
        if !self.global.try_consume(n, self.max_tx_per_sec_global, now) {
            return Err(TpuError::RateLimited { reason: LimitReason::Global });
        }
        // Both checks passed: commit the per-IP token consumption.
        s.tx_count = s.tx_count + n;
        self.update_ip(ip, s);
        proof {
            let rows = with_ip(old(self).states(), ip, now)->0;
            assert(self.states() =~= rows.insert(ip, s));
        }
        Ok(())
    }

    /// Check the connection limit and add one connection if allowed.
    /// Also enforces the entry-count capacity guard to prevent unbounded growth.
    pub fn try_add_connection(&mut self, ip: Ip, now: u64) -> (r: Result<(), TpuError>)
        requires
            old(self).well_formed(),
        ensures
            final(self).well_formed(),
            final(self).same_limits(old(self)),
            final(self).window() == old(self).window(),
            connected(old(self), final(self), ip, now, r),
    {
        let mut s: IpState = match self.admit_ip(ip, now) {
            Some(s) => s,
            None => {
                return Err(TpuError::RateLimited { reason: LimitReason::AtCapacity });
            },
        };
        if s.connection_count >= self.max_connections_per_ip {
            return Err(TpuError::RateLimited { reason: LimitReason::Connections(ip) });
        }
        s.connection_count = s.connection_count + 1;
        self.update_ip(ip, s);
        Ok(())
    }

    /// Track a connection close from an IP.
    pub fn remove_connection(&mut self, ip: Ip)
        requires
            old(self).well_formed(),
        ensures
            final(self).well_formed(),
            final(self).same_limits(old(self)),
            final(self).window() == old(self).window(),
            final(self).states() == disconnected(old(self).states(), ip),
    {
        if let Some(s) = table_get(&self.ip_states, &ip, IpState::copied) {
            let mut t: IpState = s;
            if t.connection_count > 0 {
                t.connection_count = t.connection_count - 1;
            }
            self.update_ip(ip, t);
        }
    }
}

/// One connection fewer, if there was one.
pub open spec fn closed_one(s: IpState) -> IpState {
    if s.connection_count > 0 {
        IpState { connection_count: (s.connection_count - 1) as u64, ..s }
    } else {
        s
    }
}

/// The addresses after a connection of one of them was closed.
pub open spec fn disconnected(rows: Map<Ip, IpState>, ip: Ip) -> Map<Ip, IpState> {
    if rows.contains_key(ip) {
        rows.insert(ip, closed_one(rows[ip]))
    } else {
        rows
    }
}

/// What asking for a connection does, and what comes of it.
pub open spec fn connected(
    was: &RateLimiter,
    is: &RateLimiter,
    ip: Ip,
    now: u64,
    r: Result<(), TpuError>,
) -> bool {
    match with_ip(was.states(), ip, now) {
        None => r == limited(LimitReason::AtCapacity) && is.states() == was.states(),
        Some(rows) => if rows[ip].connection_count >= was.connection_limit() {
            r == limited(LimitReason::Connections(ip)) && is.states() == rows
        } else {
            r is Ok && is.states() == rows.insert(
                ip,
                IpState { connection_count: (rows[ip].connection_count + 1) as u64, ..rows[ip] },
            )
        },
    }
}

/// The addresses that are left when the expired ones are forgotten.
pub open spec fn purged(was: Map<Ip, IpState>, is: Map<Ip, IpState>, now: u64) -> bool {
    &&& forall|ip: Ip| #[trigger]
        is.contains_key(ip) <==> was.contains_key(ip) && !is_expired(was[ip], now)
    &&& forall|ip: Ip| #[trigger] is.contains_key(ip) ==> is[ip] == was[ip]
}

/// What asking for `n` tokens does, and what comes of it.
pub open spec fn checked(
    was: &RateLimiter,
    is: &RateLimiter,
    ip: Ip,
    n: nat,
    now: u64,
    r: Result<(), TpuError>,
) -> bool {
    match with_ip(was.states(), ip, now) {
        None => {
            &&& r == limited(LimitReason::AtCapacity)
            &&& is.states() == was.states()
            &&& is.window() == was.window()
        },
        Some(rows) => {
            let s = rolled(rows[ip], now);
            if s.tx_count + n > was.ip_limit() {
                &&& r == limited(LimitReason::PerIp(ip))
                &&& is.states() == rows.insert(ip, s)
                &&& is.window() == was.window()
            } else if was.window().used_at(now) + n > was.global_limit() {
                &&& r == limited(LimitReason::Global)
                &&& is.states() == rows.insert(ip, s)
                &&& is.window() == was.window()
            } else {
                &&& r is Ok
                &&& is.states() == rows.insert(
                    ip,
                    IpState { tx_count: (s.tx_count + n) as u64, ..s },
                )
                &&& is.window().origin() == was.window().origin()
                &&& is.window().epoch() == was.window().epoch_at(now)
                &&& is.window().count() == was.window().used_at(now) + n
            }
        },
    }
}

/// What one address does leaves the counts of all others as they were.
pub proof fn addresses_are_independent(
    was: RateLimiter,
    is: RateLimiter,
    ip: Ip,
    n: nat,
    now: u64,
    r: Result<(), TpuError>,
    other: Ip,
)
    requires
        checked(&was, &is, ip, n, now, r),
        other != ip,
    ensures
        is.states().contains_key(other) == was.states().contains_key(other),
        was.states().contains_key(other) ==> is.states()[other] == was.states()[other],
{
}

/// A refusal takes no token from anyone.
pub proof fn refusal_takes_no_tokens(
    was: RateLimiter,
    is: RateLimiter,
    ip: Ip,
    n: nat,
    now: u64,
    r: Result<(), TpuError>,
)
    requires
        checked(&was, &is, ip, n, now, r),
        r is Err,
    ensures
        is.window() == was.window(),
        was.states().contains_key(ip) ==> is.states()[ip] == was.states()[ip] || is.states()[ip]
            == rolled(was.states()[ip], now),
{
}

/// The transactions that the limits still leave to an address at a moment: all of its limit if
/// it is new, or if a second or more has passed since its window began.
pub open spec fn left_to(rows: Map<Ip, IpState>, ip: Ip, limit: u64, now: u64) -> int {
    if rows.contains_key(ip) && now - rows[ip].window_start < 1_000_000_000 {
        limit - rows[ip].tx_count
    } else {
        limit as int
    }
}

/// Once a second has passed since its window began, an address has its whole limit again,
/// whatever was counted before: up to as many transactions are let in as the limit says, if
/// all addresses together leave room for them, and they are what is counted from then on.
/// Its connections stay.
pub proof fn new_second_gives_the_whole_limit(
    was: RateLimiter,
    is: RateLimiter,
    ip: Ip,
    n: nat,
    now: u64,
    r: Result<(), TpuError>,
)
    requires
        was.well_formed(),
        checked(&was, &is, ip, n, now, r),
        was.states().contains_key(ip),
        now >= was.states()[ip].window_start + 1_000_000_000,
    ensures
        n <= was.ip_limit() && was.window().count() + n <= was.global_limit() ==> r is Ok,
        n > was.ip_limit() ==> r is Err,
        is.states().contains_key(ip),
        is.states()[ip].tx_count == if r is Ok {
            n
        } else {
            0
        },
        is.states()[ip].window_start == now,
        is.states()[ip].connection_count == was.states()[ip].connection_count,
{
}

/// Within its second an address may send what it has not sent yet: what was let in and what
/// is asked for must not come to more than its limit. What is let in is added to the count,
/// and the second goes on.
pub proof fn one_second_holds_one_limit(
    was: RateLimiter,
    is: RateLimiter,
    ip: Ip,
    n: nat,
    now: u64,
    r: Result<(), TpuError>,
)
    requires
        was.well_formed(),
        checked(&was, &is, ip, n, now, r),
        was.states().contains_key(ip),
        now < was.states()[ip].window_start + 1_000_000_000,
    ensures
        was.states()[ip].tx_count + n > was.ip_limit() ==> r == Err::<(), TpuError>(
            TpuError::RateLimited { reason: LimitReason::PerIp(ip) },
        ),
        was.states()[ip].tx_count + n <= was.ip_limit() && was.window().count() + n
            <= was.global_limit() ==> r is Ok,
        r is Ok ==> is.states()[ip].tx_count == was.states()[ip].tx_count + n,
        r is Err ==> is.states()[ip] == was.states()[ip],
        is.states()[ip].window_start == was.states()[ip].window_start,
        is.states()[ip].connection_count == was.states()[ip].connection_count,
{
}

/// An address that is not known yet is taken up with its whole limit, unless there is no room
/// for another one; one that is known is never refused for want of room.
pub proof fn new_address_is_taken_up(
    was: RateLimiter,
    is: RateLimiter,
    ip: Ip,
    n: nat,
    now: u64,
    r: Result<(), TpuError>,
)
    requires
        was.well_formed(),
        checked(&was, &is, ip, n, now, r),
    ensures
        r == Err::<(), TpuError>(TpuError::RateLimited { reason: LimitReason::AtCapacity }) <==>
            !was.states().contains_key(ip) && was.states().dom().len() == 100_000,
        !was.states().contains_key(ip) && was.states().dom().len() < 100_000 ==> {
            &&& n <= was.ip_limit() && was.window().count() + n <= was.global_limit() ==> r is Ok
            &&& n > was.ip_limit() ==> r is Err
            &&& is.states().contains_key(ip)
            &&& is.states()[ip].window_start == now
            &&& is.states()[ip].connection_count == 0
            &&& is.states()[ip].tx_count == if r is Ok {
                n
            } else {
                0
            }
        },
{
}

/// Two askings in a row, of any two addresses, the first of which was granted. In the same
/// second of the limiter's clock they share the global limit; in different seconds the second
/// asking has all of it. Nothing but the limits of the address and this one refuses.
pub proof fn global_limit_is_shared_per_second(
    was: RateLimiter,
    mid: RateLimiter,
    is: RateLimiter,
    ip: Ip,
    n: nat,
    now: u64,
    r: Result<(), TpuError>,
    other: Ip,
    k: nat,
    later: u64,
    s: Result<(), TpuError>,
)
    requires
        was.well_formed(),
        mid.well_formed(),
        mid.same_limits(&was),
        checked(&was, &mid, ip, n, now, r),
        r is Ok,
        checked(&mid, &is, other, k, later, s),
        was.window().origin() <= now <= later,
        later - was.window().origin() < 0x1_0000_0000 * 1_000_000_000,
        mid.states().contains_key(other) || mid.states().dom().len() < 100_000,
        k <= left_to(mid.states(), other, mid.ip_limit(), later),
    ensures
        n <= mid.window().count() <= mid.global_limit(),
        (now - was.window().origin()) / 1_000_000_000 == (later - was.window().origin())
            / 1_000_000_000 ==> (s is Ok <==> mid.window().count() + k <= mid.global_limit()),
        (now - was.window().origin()) / 1_000_000_000 != (later - was.window().origin())
            / 1_000_000_000 ==> (s is Ok <==> k <= mid.global_limit()),
        s is Err ==> s == Err::<(), TpuError>(
            TpuError::RateLimited { reason: LimitReason::Global },
        ) && is.window() == mid.window(),
        s is Ok ==> is.window().count() == if (now - was.window().origin()) / 1_000_000_000 == (later
            - was.window().origin()) / 1_000_000_000 {
            mid.window().count() + k
        } else {
            k
        },
{
    let a = (now - was.window().origin()) / 1_000_000_000;
    let b = (later - was.window().origin()) / 1_000_000_000;
    assert(0 <= a <= b < 0x1_0000_0000);
    assert(mid.window().epoch() == a as u32);
    assert(mid.window().epoch_at(later) == b as u32);
    assert(whole_seconds(mid.states()[other].window_start, later) >= 1 <==> later
        - mid.states()[other].window_start >= 1_000_000_000);
}

/// An address gets a connection if it has fewer than its limit, and if it is known or there is
/// room for it. The connection is counted, and nothing else of it changes; a refusal changes
/// nothing of a known address.
pub proof fn connections_are_counted_to_the_limit(
    was: RateLimiter,
    is: RateLimiter,
    ip: Ip,
    now: u64,
    r: Result<(), TpuError>,
)
    requires
        was.well_formed(),
        connected(&was, &is, ip, now, r),
    ensures
        was.states().contains_key(ip) ==> {
            &&& r is Ok <==> was.states()[ip].connection_count < was.connection_limit()
            &&& r is Err ==> r == Err::<(), TpuError>(
                TpuError::RateLimited { reason: LimitReason::Connections(ip) },
            )
            &&& is.states()[ip].connection_count == was.states()[ip].connection_count + if r is Ok {
                1int
            } else {
                0int
            }
            &&& is.states()[ip].tx_count == was.states()[ip].tx_count
            &&& is.states()[ip].window_start == was.states()[ip].window_start
        },
        !was.states().contains_key(ip) && was.states().dom().len() == 100_000 ==> r == Err::<
            (),
            TpuError,
        >(TpuError::RateLimited { reason: LimitReason::AtCapacity }) && is.states() == was.states(),
        !was.states().contains_key(ip) && was.states().dom().len() < 100_000 ==> {
            &&& r is Ok <==> was.connection_limit() > 0
            &&& is.states().contains_key(ip)
            &&& is.states()[ip].tx_count == 0
            &&& is.states()[ip].window_start == now
            &&& is.states()[ip].connection_count == if r is Ok {
                1int
            } else {
                0int
            }
        },
        forall|other: Ip|
            other != ip ==> is.states().contains_key(other) == was.states().contains_key(other) && (
            #[trigger] was.states().contains_key(other) ==> is.states()[other]
                == was.states()[other]),
{
}

/// Closing a connection undoes opening it: the address has as many as before, and every other
/// address is as it was. Closing none that is open changes no count.
pub proof fn closing_undoes_connecting(
    was: RateLimiter,
    is: RateLimiter,
    ip: Ip,
    now: u64,
    r: Result<(), TpuError>,
)
    requires
        was.well_formed(),
        was.states().contains_key(ip),
        connected(&was, &is, ip, now, r),
    ensures
        r is Ok ==> disconnected(is.states(), ip) == was.states(),
        was.states()[ip].connection_count == 0 ==> disconnected(was.states(), ip) == was.states(),
        forall|other: Ip|
            !was.states().contains_key(other) ==> #[trigger] disconnected(was.states(), other)
                == was.states(),
{
    if r is Ok {
        assert(disconnected(is.states(), ip) =~= was.states());
    }
    assert(was.states()[ip].connection_count == 0 ==> disconnected(was.states(), ip)
        =~= was.states());
}

/// A purge forgets the addresses without connections whose window began two seconds ago or
/// more, and keeps all others as they are.
pub proof fn purge_forgets_idle_addresses(
    was: Map<Ip, IpState>,
    is: Map<Ip, IpState>,
    now: u64,
    ip: Ip,
)
    requires
        purged(was, is, now),
    ensures
        is.contains_key(ip) <==> was.contains_key(ip) && (was[ip].connection_count > 0 || now
            - was[ip].window_start < 2_000_000_000),
        is.contains_key(ip) ==> is[ip] == was[ip],
{
    let _ = is.contains_key(ip);
}

/// What a purge forgets made no difference to what an address may send: one that is forgotten
/// has its whole limit before and after.
pub proof fn purge_takes_no_tokens(
    was: Map<Ip, IpState>,
    is: Map<Ip, IpState>,
    now: u64,
    ip: Ip,
    limit: u64,
)
    requires
        purged(was, is, now),
    ensures
        left_to(is, ip, limit, now) == left_to(was, ip, limit, now),
{
    let _ = is.contains_key(ip);
}

} // verus!
