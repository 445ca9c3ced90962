//! The decisions of a connection pool: which pooled connection a call
//! reuses, which ones are dropped, when a dial is reserved and when it is
//! refused.
//!
//! A pool keys connections by `(host, port, GIOP version, negotiated char
//! codeset)`: the endpoint plus everything agreed once per connection. The
//! object key is not part of it, because one connection serves every object
//! behind an endpoint.
//!
//! The sockets themselves belong to whoever runs the pool. Here a pooled
//! connection is an identifier filed under its key, and what the pool reads
//! from a connection when it decides (whether it is usable, whether it
//! multiplexes, how many calls are on it, how long it has been idle) is
//! handed in as a [`ConnState`] per filed connection.
//!
//! One lookup is three steps, and only the middle one dials: **look**
//! (sweep the faulted and the idle, reuse a connection if one suits, else
//! make room and reserve a slot or refuse), **dial** (outside), **file** (the
//! new connection under the key it reached, and the reservation returned).
//! The reservation counts against [`Limits::max_total`] while nothing is
//! filed yet, so two dials cannot both take the last slot.

use vstd::prelude::*;

use crate::giop::{version_lt, Error, Forward, Version};
use crate::ior::{alternate_endpoints, endpoints_from_wire, IiopProfile, Ior, IorView, ProfileView};
use crate::text::lossy_text;

verus! {

/// Default ceiling on connections held across every endpoint.
pub const DEFAULT_MAX_TOTAL: usize = 64;

/// Default ceiling on connections to any one endpoint.
pub const DEFAULT_MAX_PER_ENDPOINT: usize = 4;

/// Default number of calls on one connection before another is preferred.
pub const DEFAULT_SOFT_IN_FLIGHT: usize = 8;

/// Default idle period, in milliseconds, after which a pooled connection is
/// dropped.
pub const DEFAULT_MAX_IDLE_MS: u64 = 20_000;

/// How long a pooled dial waits for the socket, in milliseconds.
pub const DEFAULT_CONNECT_TIMEOUT_MS: u64 = 10_000;

/// What a pool will and will not hold.
#[derive(Debug, Clone, Copy, PartialEq, Eq)]
pub struct Limits {
    /// Connections across all endpoints.
    pub max_total: usize,
    /// Connections to any one endpoint.
    pub max_per_endpoint: usize,
    /// Calls on one connection before another is preferred.
    pub soft_in_flight: usize,
    /// Idle period after which a connection is dropped.
    pub max_idle: core::time::Duration,
    /// Timeout for a pooled dial.
    pub connect_timeout: core::time::Duration,
}

impl Default for Limits {
    fn default() -> (r: Limits)
        ensures
            r.max_total == DEFAULT_MAX_TOTAL,
            r.max_per_endpoint == DEFAULT_MAX_PER_ENDPOINT,
            r.soft_in_flight == DEFAULT_SOFT_IN_FLIGHT,
            r.max_idle == crate::orb::config::millis_duration(DEFAULT_MAX_IDLE_MS),
            r.connect_timeout == crate::orb::config::millis_duration(DEFAULT_CONNECT_TIMEOUT_MS),
    {
        Limits {
            max_total: DEFAULT_MAX_TOTAL,
            max_per_endpoint: DEFAULT_MAX_PER_ENDPOINT,
            soft_in_flight: DEFAULT_SOFT_IN_FLIGHT,
            max_idle: crate::orb::config::duration_from_millis(DEFAULT_MAX_IDLE_MS),
            connect_timeout: crate::orb::config::duration_from_millis(DEFAULT_CONNECT_TIMEOUT_MS),
        }
    }
}

/// What makes two references able to share a connection.
#[derive(Debug, Clone, PartialEq, Eq, Hash)]
pub struct Key {
    /// Host as the profile spells it; two spellings of one address are two
    /// keys.
    pub host: String,
    /// TCP port.
    pub port: u16,
    /// The version the connection speaks, negotiated down from the profile's.
    pub version: Version,
    /// The negotiated `char` codeset, or `None` for the default.
    pub codeset: Option<u32>,
}

/// A key as values.
pub struct KeyView {
    pub host: Seq<char>,
    pub port: u16,
    pub version: Version,
    pub codeset: Option<u32>,
}

impl View for Key {
    type V = KeyView;

    open spec fn view(&self) -> KeyView {
        KeyView { host: self.host@, port: self.port, version: self.version, codeset: self.codeset }
    }
}

/// The version a connection to a profile advertising `v` speaks.
pub open spec fn negotiated(v: Version) -> Version {
    if version_lt(v, Version { major: 1, minor: 2 }) {
        v
    } else {
        Version { major: 1, minor: 2 }
    }
}

/// The key a connection dialed for `profile` at `host:port` lands under.
pub open spec fn key_of(profile: crate::ior::ProfileView, host: Seq<char>, port: u16) -> KeyView {
    KeyView {
        host,
        port,
        version: negotiated(profile.version),
        codeset: crate::codeset::agreed_char_codeset(profile),
    }
}

impl Key {
    /// The key a connection dialed for `profile` at `host:port` lands under:
    /// the version and the `char` code set a connection to that profile
    /// negotiates are part of it; the object key plays no part.
    pub fn of(profile: &IiopProfile, host: &str, port: u16) -> (r: Key)
        ensures
            r@ == key_of(profile@, host@, port),
    {
        Key {
            host: host.to_owned(),
            port,
            version: Version::negotiate(profile.version),
            codeset: crate::codeset::agreed_codeset(profile),
        }
    }

    /// A copy with the same fields.
    pub fn duplicate(&self) -> (r: Key)
        ensures
            r@ == self@,
    {
        Key {
            host: self.host.clone(),
            port: self.port,
            version: self.version,
            codeset: self.codeset,
        }
    }
}

/// Whether two keys are the same.
fn same_key(a: &Key, b: &Key) -> (r: bool)
    ensures
        r == (a@ == b@),
{
    let same_codeset = match (a.codeset, b.codeset) {
        (None, None) => true,
        (Some(x), Some(y)) => x == y,
        _ => false,
    };
    a.host == b.host && a.port == b.port && a.version == b.version && same_codeset
}

/// Counters, so a claim about reuse can be checked rather than asserted.
#[derive(Debug, Clone, Copy, PartialEq, Eq)]
pub struct PoolStats {
    /// Connections dialed and filed.
    pub dialed: u64,
    /// Times a filed connection was handed out instead of dialing.
    pub reused: u64,
    /// Connections dropped because they had gone idle.
    pub idle_evicted: u64,
    /// Connections dropped because they had faulted.
    pub faulted_evicted: u64,
    /// Connections dropped to make room under `max_total`.
    pub pressure_evicted: u64,
    /// Calls re-sent on a fresh connection.
    pub retried: u64,
    /// Dials refused because the pool was full and nothing was evictable.
    pub refused: u64,
}

impl Default for PoolStats {
    fn default() -> (r: PoolStats)
        ensures
            r == zero_stats(),
    {
        PoolStats {
            dialed: 0,
            reused: 0,
            idle_evicted: 0,
            faulted_evicted: 0,
            pressure_evicted: 0,
            retried: 0,
            refused: 0,
        }
    }
}

pub open spec fn zero_stats() -> PoolStats {
    PoolStats {
        dialed: 0,
        reused: 0,
        idle_evicted: 0,
        faulted_evicted: 0,
        pressure_evicted: 0,
        retried: 0,
        refused: 0,
    }
}

/// `a + b`, held at `u64::MAX`.
pub open spec fn sat(a: u64, b: int) -> u64 {
    if a + b > u64::MAX {
        u64::MAX
    } else {
        (a + b) as u64
    }
}

fn sat_add(a: u64, b: usize) -> (r: u64)
    ensures
        r == sat(a, b as int),
{
    let b64: u64 = if b as u128 > u64::MAX as u128 { u64::MAX } else { b as u64 };
    a.saturating_add(b64)
}

/// What the pool reads from one filed connection when it decides.
#[derive(Debug, Clone, Copy, PartialEq, Eq)]
pub struct ConnState {
    /// The connection can still be framed.
    pub usable: bool,
    /// The connection carries more than one call at once.
    pub multiplexes: bool,
    /// Calls on it now.
    pub in_flight: usize,
    /// Milliseconds since its last call finished.
    pub idle_ms: u64,
}

/// What a lookup decided.
#[derive(Debug, Clone, Copy, PartialEq, Eq)]
pub enum Look {
    /// Use this filed connection.
    Reuse(u64),
    /// A slot is reserved: dial, then file or give the slot back.
    Dial,
    /// The pool is full and nothing could be evicted.
    Refuse { limit: usize },
}

// ─────────────────────────────────────────────────────────────────────────────
// The decisions, as definitions
// ─────────────────────────────────────────────────────────────────────────────

/// Idle: nothing in flight, and idle for longer than the limit.
pub open spec fn is_idle(s: ConnState, max_idle_ms: u64) -> bool {
    s.in_flight == 0 && s.idle_ms > max_idle_ms
}

/// A connection a sweep keeps: usable and not idle.
pub open spec fn kept(s: ConnState, max_idle_ms: u64) -> bool {
    s.usable && !is_idle(s, max_idle_ms)
}

/// The filed connections a sweep keeps, with their states, in order.
pub open spec fn sweep(live: Seq<(KeyView, u64)>, st: Seq<ConnState>, max_idle_ms: u64) -> (
    Seq<(KeyView, u64)>,
    Seq<ConnState>,
)
    decreases live.len(),
{
    if live.len() == 0 || st.len() == 0 {
        (Seq::empty(), Seq::empty())
    } else {
        let (l, s) = sweep(live.drop_last(), st.drop_last(), max_idle_ms);
        if kept(st.last(), max_idle_ms) {
            (l.push(live.last()), s.push(st.last()))
        } else {
            (l, s)
        }
    }
}

/// The connections a sweep drops, in order.
pub open spec fn swept_out(live: Seq<(KeyView, u64)>, st: Seq<ConnState>, max_idle_ms: u64) -> Seq<u64>
    decreases live.len(),
{
    if live.len() == 0 || st.len() == 0 {
        Seq::empty()
    } else {
        let d = swept_out(live.drop_last(), st.drop_last(), max_idle_ms);
        if kept(st.last(), max_idle_ms) {
            d
        } else {
            d.push(live.last().1)
        }
    }
}

/// How many of `st` are faulted.
pub open spec fn count_faulted(st: Seq<ConnState>) -> nat
    decreases st.len(),
{
    if st.len() == 0 {
        0
    } else {
        count_faulted(st.drop_last()) + if !st.last().usable {
            1nat
        } else {
            0nat
        }
    }
}

/// How many of `st` are usable but idle.
pub open spec fn count_idle(st: Seq<ConnState>, max_idle_ms: u64) -> nat
    decreases st.len(),
{
    if st.len() == 0 {
        0
    } else {
        count_idle(st.drop_last(), max_idle_ms) + if st.last().usable && is_idle(
            st.last(),
            max_idle_ms,
        ) {
            1nat
        } else {
            0nat
        }
    }
}

/// How many filed connections are under `key`.
pub open spec fn count_key(live: Seq<(KeyView, u64)>, key: KeyView) -> nat
    decreases live.len(),
{
    if live.len() == 0 {
        0
    } else {
        count_key(live.drop_last(), key) + if live.last().0 == key {
            1nat
        } else {
            0nat
        }
    }
}

/// The least loaded usable connection under `key`: the first of the least
/// loaded, as an index.
pub open spec fn least_loaded(live: Seq<(KeyView, u64)>, st: Seq<ConnState>, key: KeyView) -> Option<int>
    decreases live.len(),
{
    if live.len() == 0 {
        None
    } else {
        let b = least_loaded(live.drop_last(), st, key);
        let i = live.len() - 1;
        if live[i].0 == key && st[i].usable && (b is None || st[i].in_flight < st[b->Some_0].in_flight) {
            Some(i)
        } else {
            b
        }
    }
}

/// The connection a call for `key` reuses, or `None` to dial. The least
/// loaded usable one is taken if it multiplexes or is free, unless it is at
/// the soft limit while the endpoint still has room for another connection.
pub open spec fn pick(live: Seq<(KeyView, u64)>, st: Seq<ConnState>, key: KeyView, limits: Limits) -> Option<u64> {
    match least_loaded(live, st, key) {
        None => None,
        Some(i) => if !(st[i].multiplexes || st[i].in_flight == 0) {
            None
        } else if st[i].in_flight >= limits.soft_in_flight && count_key(live, key)
            < limits.max_per_endpoint {
            None
        } else {
            Some(live[i].1)
        },
    }
}

/// The first key, in dial order, with a connection to reuse.
pub open spec fn first_pick(keys: Seq<KeyView>, live: Seq<(KeyView, u64)>, st: Seq<ConnState>, limits: Limits) -> Option<u64>
    decreases keys.len(),
{
    if keys.len() == 0 {
        None
    } else {
        match pick(live, st, keys[0], limits) {
            Some(id) => Some(id),
            None => first_pick(keys.drop_first(), live, st, limits),
        }
    }
}

/// The longest idle connection with nothing in flight: the first of the
/// longest idle, as an index.
pub open spec fn oldest(st: Seq<ConnState>) -> Option<int>
    decreases st.len(),
{
    if st.len() == 0 {
        None
    } else {
        let b = oldest(st.drop_last());
        let i = st.len() - 1;
        if st[i].in_flight == 0 && (b is None || st[i].idle_ms > st[b->Some_0].idle_ms) {
            Some(i)
        } else {
            b
        }
    }
}

/// Up to `want` connections dropped to make room, longest idle first; a
/// connection with a call on it is never taken.
pub open spec fn evict(live: Seq<(KeyView, u64)>, st: Seq<ConnState>, want: nat) -> (
    Seq<(KeyView, u64)>,
    Seq<ConnState>,
    Seq<u64>,
)
    decreases want,
{
    if want == 0 {
        (live, st, Seq::empty())
    } else {
        match oldest(st) {
            None => (live, st, Seq::empty()),
            Some(i) => {
                let (l, s, d) = evict(live.remove(i), st.remove(i), (want - 1) as nat);
                (l, s, seq![live[i].1] + d)
            },
        }
    }
}

/// The pool's book as values.
pub struct BookView {
    pub live: Seq<(KeyView, u64)>,
    pub reserved: nat,
    pub stats: PoolStats,
}

/// What a lookup does: the book after it, its decision, and the connections
/// it dropped (for the caller to close outside any lock).
pub open spec fn look_spec(b: BookView, keys: Seq<KeyView>, st: Seq<ConnState>, limits: Limits, max_idle_ms: u64) -> (
    BookView,
    Look,
    Seq<u64>,
) {
    let (l1, s1) = sweep(b.live, st, max_idle_ms);
    let d1 = swept_out(b.live, st, max_idle_ms);
    let stats1 = PoolStats {
        faulted_evicted: sat(b.stats.faulted_evicted, count_faulted(st) as int),
        idle_evicted: sat(b.stats.idle_evicted, count_idle(st, max_idle_ms) as int),
        ..b.stats
    };
    match first_pick(keys, l1, s1, limits) {
        Some(id) => (
            BookView {
                live: l1,
                reserved: b.reserved,
                stats: PoolStats { reused: sat(stats1.reused, 1), ..stats1 },
            },
            Look::Reuse(id),
            d1,
        ),
        None => if l1.len() + b.reserved >= limits.max_total {
            let want = if l1.len() + b.reserved + 1 - limits.max_total > usize::MAX {
                usize::MAX as nat
            } else {
                (l1.len() + b.reserved + 1 - limits.max_total) as nat
            };
            let (l2, s2, d2) = evict(l1, s1, want);
            let stats2 = PoolStats {
                pressure_evicted: sat(stats1.pressure_evicted, d2.len() as int),
                ..stats1
            };
            if l2.len() + b.reserved >= limits.max_total {
                (
                    BookView {
                        live: l2,
                        reserved: b.reserved,
                        stats: PoolStats { refused: sat(stats2.refused, 1), ..stats2 },
                    },
                    Look::Refuse { limit: limits.max_total },
                    d1 + d2,
                )
            } else {
                (BookView { live: l2, reserved: b.reserved + 1, stats: stats2 }, Look::Dial, d1 + d2)
            }
        } else {
            (BookView { live: l1, reserved: b.reserved + 1, stats: stats1 }, Look::Dial, d1)
        },
    }
}


proof fn lemma_least_loaded_range(live: Seq<(KeyView, u64)>, st: Seq<ConnState>, key: KeyView)
    ensures
        least_loaded(live, st, key) matches Some(i) ==> 0 <= i < live.len(),
    decreases live.len(),
{
    if live.len() > 0 {
        lemma_least_loaded_range(live.drop_last(), st, key);
    }
}

proof fn lemma_oldest_range(st: Seq<ConnState>)
    ensures
        oldest(st) matches Some(i) ==> 0 <= i < st.len(),
    decreases st.len(),
{
    if st.len() > 0 {
        lemma_oldest_range(st.drop_last());
    }
}

proof fn lemma_sweep_aligned(live: Seq<(KeyView, u64)>, st: Seq<ConnState>, max_idle_ms: u64)
    requires
        live.len() == st.len(),
    ensures
        sweep(live, st, max_idle_ms).0.len() == sweep(live, st, max_idle_ms).1.len(),
    decreases live.len(),
{
    if live.len() > 0 {
        lemma_sweep_aligned(live.drop_last(), st.drop_last(), max_idle_ms);
    }
}

pub open spec fn keys_view(keys: Seq<Key>) -> Seq<KeyView> {
    keys.map_values(|k: Key| k@)
}

pub open spec fn live_view(live: Seq<(Key, u64)>) -> Seq<(KeyView, u64)> {
    live.map_values(|e: (Key, u64)| (e.0@, e.1))
}

/// The filed connections without `id`.
pub open spec fn without_id(live: Seq<(KeyView, u64)>, id: u64) -> Seq<(KeyView, u64)>
    decreases live.len(),
{
    if live.len() == 0 {
        live
    } else if live.last().1 == id {
        without_id(live.drop_last(), id)
    } else {
        without_id(live.drop_last(), id).push(live.last())
    }
}

/// The pool's book: each filed connection under its key, the dials in
/// progress, and the counters.
#[derive(Debug)]
pub struct PoolBook {
    live: Vec<(Key, u64)>,
    reserved: usize,
    stats: PoolStats,
}

impl View for PoolBook {
    type V = BookView;

    closed spec fn view(&self) -> BookView {
        BookView { live: live_view(self.live@), reserved: self.reserved as nat, stats: self.stats }
    }
}

fn sweep_exec(live: &Vec<(Key, u64)>, st: &[ConnState], max_idle_ms: u64) -> (r: (
    Vec<(Key, u64)>,
    Vec<ConnState>,
    Vec<u64>,
    usize,
    usize,
))
    requires
        st@.len() == live@.len(),
    ensures
        (live_view(r.0@), r.1@) == sweep(live_view(live@), st@, max_idle_ms),
        r.2@ == swept_out(live_view(live@), st@, max_idle_ms),
        r.3 == count_faulted(st@),
        r.4 == count_idle(st@, max_idle_ms),
{
    let ghost lv = live_view(live@);
    let mut l: Vec<(Key, u64)> = Vec::new();
    let mut s: Vec<ConnState> = Vec::new();
    let mut d: Vec<u64> = Vec::new();
    let mut faulted: usize = 0;
    let mut idle: usize = 0;
    let mut i: usize = 0;
    while i < live.len()
        invariant
            i <= live@.len(),
            st@.len() == live@.len(),
            lv == live_view(live@),
            (live_view(l@), s@) == sweep(lv.take(i as int), st@.take(i as int), max_idle_ms),
            d@ == swept_out(lv.take(i as int), st@.take(i as int), max_idle_ms),
            faulted == count_faulted(st@.take(i as int)),
            idle == count_idle(st@.take(i as int), max_idle_ms),
            faulted <= i,
            idle <= i,
        decreases live.len() - i,
    {
        let c = st[i];
        proof {
            assert(lv.take(i + 1).drop_last() =~= lv.take(i as int));
            assert(st@.take(i + 1).drop_last() =~= st@.take(i as int));
            assert(lv.take(i + 1).last() == lv[i as int]);
            assert(st@.take(i + 1).last() == c);
            assert(lv[i as int] == (live@[i as int].0@, live@[i as int].1));
        }
        let keep = c.usable && !(c.in_flight == 0 && c.idle_ms > max_idle_ms);
        if keep {
            let ghost before = live_view(l@);
            l.push((live[i].0.duplicate(), live[i].1));
            s.push(c);
            assert(live_view(l@) =~= before.push(lv[i as int]));
        } else {
            d.push(live[i].1);
            if !c.usable {
                faulted = faulted + 1;
            } else {
                idle = idle + 1;
            }
        }
        i = i + 1;
    }
    assert(lv.take(live@.len() as int) =~= lv);
    assert(st@.take(live@.len() as int) =~= st@);
    (l, s, d, faulted, idle)
}

fn least_loaded_exec(live: &Vec<(Key, u64)>, st: &Vec<ConnState>, key: &Key) -> (r: Option<usize>)
    requires
        st@.len() == live@.len(),
    ensures
        least_loaded(live_view(live@), st@, key@) == match r {
            Some(x) => Some(x as int),
            None => None::<int>,
        },
        r matches Some(i) ==> i < live@.len(),
{
    let ghost lv = live_view(live@);
    let mut best: Option<usize> = None;
    let mut j: usize = 0;
    while j < live.len()
        invariant
            j <= live@.len(),
            st@.len() == live@.len(),
            lv == live_view(live@),
            match least_loaded(lv.take(j as int), st@, key@) {
                Some(i) => best == Some(i as usize),
                None => best is None,
            },
            best matches Some(i) ==> i < j,
        decreases live.len() - j,
    {
        proof {
            assert(lv.take(j + 1).drop_last() =~= lv.take(j as int));
            assert(lv.take(j + 1)[j as int] == lv[j as int]);
            assert(lv[j as int] == (live@[j as int].0@, live@[j as int].1));
            lemma_least_loaded_range(lv.take(j as int), st@, key@);
            lemma_least_loaded_range(lv.take(j + 1), st@, key@);
        }
        let better = match best {
            None => true,
            Some(b) => st[j].in_flight < st[b].in_flight,
        };
        if same_key(&live[j].0, key) && st[j].usable && better {
            best = Some(j);
        }
        j = j + 1;
    }
    assert(lv.take(live@.len() as int) =~= lv);
    proof {
        lemma_least_loaded_range(lv, st@, key@);
    }
    best
}

fn count_key_exec(live: &Vec<(Key, u64)>, key: &Key) -> (r: usize)
    ensures
        r == count_key(live_view(live@), key@),
{
    let ghost lv = live_view(live@);
    let mut n: usize = 0;
    let mut j: usize = 0;
    while j < live.len()
        invariant
            j <= live@.len(),
            lv == live_view(live@),
            n == count_key(lv.take(j as int), key@),
            n <= j,
        decreases live.len() - j,
    {
        proof {
            assert(lv.take(j + 1).drop_last() =~= lv.take(j as int));
            assert(lv.take(j + 1).last() == lv[j as int]);
            assert(lv[j as int] == (live@[j as int].0@, live@[j as int].1));
        }
        if same_key(&live[j].0, key) {
            n = n + 1;
        }
        j = j + 1;
    }
    assert(lv.take(live@.len() as int) =~= lv);
    n
}

fn pick_exec(live: &Vec<(Key, u64)>, st: &Vec<ConnState>, key: &Key, limits: &Limits) -> (r: Option<u64>)
    requires
        st@.len() == live@.len(),
    ensures
        r == pick(live_view(live@), st@, key@, *limits),
{
    match least_loaded_exec(live, st, key) {
        None => None,
        Some(i) => {
            let c = st[i];
            assert(live_view(live@)[i as int].1 == live@[i as int].1);
            if !(c.multiplexes || c.in_flight == 0) {
                None
            } else if c.in_flight >= limits.soft_in_flight && count_key_exec(live, key)
                < limits.max_per_endpoint {
                None
            } else {
                Some(live[i].1)
            }
        },
    }
}

fn first_pick_exec(keys: &[Key], live: &Vec<(Key, u64)>, st: &Vec<ConnState>, limits: &Limits) -> (r: Option<u64>)
    requires
        st@.len() == live@.len(),
    ensures
        r == first_pick(keys_view(keys@), live_view(live@), st@, *limits),
{
    let ghost kv = keys_view(keys@);
    let mut k: usize = 0;
    assert(kv.skip(0) =~= kv);
    while k < keys.len()
        invariant
            k <= keys@.len(),
            st@.len() == live@.len(),
            kv == keys_view(keys@),
            first_pick(kv, live_view(live@), st@, *limits) == first_pick(
                kv.skip(k as int),
                live_view(live@),
                st@,
                *limits,
            ),
        decreases keys.len() - k,
    {
        assert(kv.skip(k as int)[0] == keys@[k as int]@);
        match pick_exec(live, st, &keys[k], limits) {
            Some(id) => return Some(id),
            None => {},
        }
        assert(kv.skip(k as int).drop_first() =~= kv.skip(k + 1));
        k = k + 1;
    }
    None
}

fn oldest_exec(st: &Vec<ConnState>) -> (r: Option<usize>)
    ensures
        oldest(st@) == match r {
            Some(x) => Some(x as int),
            None => None::<int>,
        },
        r matches Some(i) ==> i < st@.len(),
{
    let mut best: Option<usize> = None;
    let mut j: usize = 0;
    while j < st.len()
        invariant
            j <= st@.len(),
            match oldest(st@.take(j as int)) {
                Some(i) => best == Some(i as usize),
                None => best is None,
            },
            best matches Some(i) ==> i < j,
        decreases st.len() - j,
    {
        proof {
            assert(st@.take(j + 1).drop_last() =~= st@.take(j as int));
            assert(st@.take(j + 1)[j as int] == st@[j as int]);
            lemma_oldest_range(st@.take(j as int));
            lemma_oldest_range(st@.take(j + 1));
            match best {
                Some(b) => assert(st@.take(j + 1)[b as int] == st@[b as int]),
                None => {},
            }
        }
        let better = match best {
            None => true,
            Some(b) => st[j].idle_ms > st[b].idle_ms,
        };
        if st[j].in_flight == 0 && better {
            best = Some(j);
        }
        j = j + 1;
    }
    assert(st@.take(st@.len() as int) =~= st@);
    proof {
        lemma_oldest_range(st@);
    }
    best
}

fn evict_exec(l: &mut Vec<(Key, u64)>, s: &mut Vec<ConnState>, want: usize, d: &mut Vec<u64>)
    requires
        old(s)@.len() == old(l)@.len(),
    ensures
        final(s)@.len() == final(l)@.len(),
        live_view(final(l)@) == evict(live_view(old(l)@), old(s)@, want as nat).0,
        final(s)@ == evict(live_view(old(l)@), old(s)@, want as nat).1,
        final(d)@ == old(d)@ + evict(live_view(old(l)@), old(s)@, want as nat).2,
    decreases want,
{
    if want == 0 {
        assert(old(d)@ + Seq::<u64>::empty() =~= old(d)@);
        return ;
    }
    match oldest_exec(s) {
        None => {
            assert(old(d)@ + Seq::<u64>::empty() =~= old(d)@);
        },
        Some(i) => {
            let ghost lv0 = live_view(l@);
            let ghost s0 = s@;
            let ghost d0 = d@;
            assert(lv0[i as int].1 == l@[i as int].1);
            let e = l.remove(i);
            s.remove(i);
            d.push(e.1);
            assert(live_view(l@) =~= lv0.remove(i as int));
            evict_exec(l, s, want - 1, d);
            proof {
                let rest = evict(lv0.remove(i as int), s0.remove(i as int), (want - 1) as nat);
                assert(d@ =~= d0 + (seq![e.1] + rest.2));
            }
        },
    }
}

impl PoolBook {
    /// An empty book.
    pub fn new() -> (r: PoolBook)
        ensures
            r@.live.len() == 0,
            r@.reserved == 0,
            r@.stats == zero_stats(),
    {
        PoolBook { live: Vec::new(), reserved: 0, stats: PoolStats::default() }
    }

    /// The filed connections, in the order their states are to be given.
    pub fn ids(&self) -> (r: Vec<u64>)
        ensures
            r@.len() == self@.live.len(),
            forall|i: int| 0 <= i < r@.len() ==> r@[i] == #[trigger] self@.live[i].1,
    {
        let mut out: Vec<u64> = Vec::new();
        let mut i: usize = 0;
        while i < self.live.len()
            invariant
                i <= self.live@.len(),
                out@.len() == i,
                forall|j: int| 0 <= j < i ==> out@[j] == #[trigger] live_view(self.live@)[j].1,
            decreases self.live.len() - i,
        {
            out.push(self.live[i].1);
            assert(live_view(self.live@)[i as int].1 == self.live@[i as int].1);
            i = i + 1;
        }
        out
    }

    /// One lookup's first step, for a call whose reference names `keys` in
    /// dial order, `states[i]` being what the `i`th filed connection reads
    /// as now.
    pub fn look(&mut self, keys: &[Key], states: &[ConnState], limits: &Limits, max_idle_ms: u64) -> (r: (
        Look,
        Vec<u64>,
    ))
        requires
            states@.len() == old(self)@.live.len(),
        ensures
            (final(self)@, r.0, r.1@) == look_spec(
                old(self)@,
                keys_view(keys@),
                states@,
                *limits,
                max_idle_ms,
            ),
    {
        let (l1, s1, d1, faulted, idle) = sweep_exec(&self.live, states, max_idle_ms);
        let mut stats = self.stats;
        stats.faulted_evicted = sat_add(stats.faulted_evicted, faulted);
        stats.idle_evicted = sat_add(stats.idle_evicted, idle);
        proof {
            lemma_sweep_aligned(live_view(self.live@), states@, max_idle_ms);
        }
        match first_pick_exec(keys, &l1, &s1, limits) {
            Some(id) => {
                stats.reused = sat_add(stats.reused, 1);
                self.live = l1;
                self.stats = stats;
                (Look::Reuse(id), d1)
            },
            None => {
                let sum: u128 = l1.len() as u128 + self.reserved as u128;
                if sum >= limits.max_total as u128 {
                    let w: u128 = sum + 1 - limits.max_total as u128;
                    let want: usize = if w > usize::MAX as u128 {
                        usize::MAX
                    } else {
                        w as usize
                    };
                    let n1 = d1.len();
                    let mut l2 = l1;
                    let mut s2 = s1;
                    let mut d = d1;
                    evict_exec(&mut l2, &mut s2, want, &mut d);
                    let evicted = d.len() - n1;
                    stats.pressure_evicted = sat_add(stats.pressure_evicted, evicted);
                    self.live = l2;
                    if self.live.len() as u128 + self.reserved as u128 >= limits.max_total as u128 {
                        stats.refused = sat_add(stats.refused, 1);
                        self.stats = stats;
                        (Look::Refuse { limit: limits.max_total }, d)
                    } else {
                        self.reserved = self.reserved + 1;
                        self.stats = stats;
                        (Look::Dial, d)
                    }
                } else {
                    self.reserved = self.reserved + 1;
                    self.live = l1;
                    self.stats = stats;
                    (Look::Dial, d1)
                }
            },
        }
    }
}


/// The book after the dial it reserved for: the reservation returned and,
/// when the reached endpoint has a key, the new connection filed under it.
pub open spec fn file_spec(b: BookView, key: Option<KeyView>, id: u64) -> BookView {
    let reserved = if b.reserved > 0 {
        (b.reserved - 1) as nat
    } else {
        0nat
    };
    match key {
        None => BookView { live: b.live, reserved, stats: b.stats },
        Some(k) => BookView {
            live: b.live.push((k, id)),
            reserved,
            stats: PoolStats { dialed: sat(b.stats.dialed, 1), ..b.stats },
        },
    }
}

proof fn lemma_sweep_shrinks(live: Seq<(KeyView, u64)>, st: Seq<ConnState>, max_idle_ms: u64)
    ensures
        sweep(live, st, max_idle_ms).0.len() <= live.len(),
        sweep(live, st, max_idle_ms).0.len() == sweep(live, st, max_idle_ms).1.len(),
    decreases live.len(),
{
    if live.len() > 0 && st.len() > 0 {
        lemma_sweep_shrinks(live.drop_last(), st.drop_last(), max_idle_ms);
    }
}

proof fn lemma_evict_shrinks(live: Seq<(KeyView, u64)>, st: Seq<ConnState>, want: nat)
    requires
        live.len() == st.len(),
    ensures
        evict(live, st, want).0.len() <= live.len(),
    decreases want,
{
    if want > 0 {
        lemma_oldest_range(st);
        if let Some(i) = oldest(st) {
            lemma_evict_shrinks(live.remove(i), st.remove(i), (want - 1) as nat);
        }
    }
}

proof fn lemma_without_id_len(live: Seq<(KeyView, u64)>, id: u64)
    ensures
        without_id(live, id).len() <= live.len(),
    decreases live.len(),
{
    if live.len() > 0 {
        lemma_without_id_len(live.drop_last(), id);
    }
}

impl PoolBook {
    /// Step three of a lookup: the reservation is returned and, when `key`
    /// names the endpoint reached, the connection `id` is filed under it. A
    /// connection whose endpoint has no key still serves its call, unfiled.
    pub fn file(&mut self, key: Option<Key>, id: u64)
        ensures
            final(self)@ == file_spec(
                old(self)@,
                match key {
                    Some(k) => Some(k@),
                    None => None,
                },
                id,
            ),
    {
        self.reserved = self.reserved.saturating_sub(1);
        match key {
            None => {},
            Some(k) => {
                let ghost before = live_view(self.live@);
                let ghost kv = k@;
                self.stats.dialed = sat_add(self.stats.dialed, 1);
                self.live.push((k, id));
                assert(live_view(self.live@) =~= before.push((kv, id)));
            },
        }
    }

    /// A dial that failed: the reservation is returned.
    pub fn give_back(&mut self)
        ensures
            final(self)@ == (BookView {
                live: old(self)@.live,
                reserved: if old(self)@.reserved > 0 {
                    (old(self)@.reserved - 1) as nat
                } else {
                    0nat
                },
                stats: old(self)@.stats,
            }),
    {
        self.reserved = self.reserved.saturating_sub(1);
    }

    /// Drops connection `id` from the book; holders keep using it, but
    /// nobody new gets it. Answers how many entries went.
    pub fn discard(&mut self, id: u64) -> (r: usize)
        ensures
            final(self)@ == (BookView {
                live: without_id(old(self)@.live, id),
                reserved: old(self)@.reserved,
                stats: old(self)@.stats,
            }),
            r == old(self)@.live.len() - without_id(old(self)@.live, id).len(),
    {
        let ghost lv = live_view(self.live@);
        let mut kept: Vec<(Key, u64)> = Vec::new();
        let mut i: usize = 0;
        while i < self.live.len()
            invariant
                i <= self.live@.len(),
                lv == live_view(self.live@),
                live_view(kept@) == without_id(lv.take(i as int), id),
            decreases self.live.len() - i,
        {
            proof {
                assert(lv.take(i + 1).drop_last() =~= lv.take(i as int));
                assert(lv.take(i + 1).last() == lv[i as int]);
                assert(lv[i as int] == (self.live@[i as int].0@, self.live@[i as int].1));
            }
            if self.live[i].1 != id {
                let ghost before = live_view(kept@);
                kept.push((self.live[i].0.duplicate(), self.live[i].1));
                assert(live_view(kept@) =~= before.push(lv[i as int]));
            }
            i = i + 1;
        }
        assert(lv.take(self.live@.len() as int) =~= lv);
        proof {
            lemma_without_id_len(lv, id);
        }
        let n = self.live.len() - kept.len();
        self.live = kept;
        n
    }

    /// Drops every connection; answers them, in order.
    pub fn clear(&mut self) -> (r: Vec<u64>)
        ensures
            final(self)@.live.len() == 0,
            final(self)@.reserved == old(self)@.reserved,
            final(self)@.stats == old(self)@.stats,
            r@.len() == old(self)@.live.len(),
            forall|i: int| 0 <= i < r@.len() ==> r@[i] == #[trigger] old(self)@.live[i].1,
    {
        let ids = self.ids();
        self.live = Vec::new();
        assert(live_view(self.live@) =~= Seq::<(KeyView, u64)>::empty());
        ids
    }

    /// Counts a call re-sent on a fresh connection.
    pub fn note_retry(&mut self)
        ensures
            final(self)@ == (BookView {
                live: old(self)@.live,
                reserved: old(self)@.reserved,
                stats: PoolStats { retried: sat(old(self)@.stats.retried, 1), ..old(self)@.stats },
            }),
    {
        self.stats.retried = sat_add(self.stats.retried, 1);
    }

    /// The counters.
    pub fn stats(&self) -> (r: PoolStats)
        ensures
            r == self@.stats,
    {
        self.stats
    }

    /// How many connections are held or being dialed, held at `usize::MAX`.
    pub fn size(&self) -> (r: usize)
        ensures
            r == if self@.live.len() + self@.reserved > usize::MAX {
                usize::MAX as int
            } else {
                (self@.live.len() + self@.reserved) as int
            },
    {
        self.live.len().saturating_add(self.reserved)
    }
}

// ─────────────────────────────────────────────────────────────────────────────
// Keys of a reference
// ─────────────────────────────────────────────────────────────────────────────

/// Every endpoint of a profile, in dial order: its own address, then each
/// alternate that decodes.
pub open spec fn endpoint_texts(p: ProfileView) -> Seq<(Seq<char>, u16)> {
    seq![(p.host, p.port)] + alternate_endpoints(p.components).map_values(
        |w: (Seq<u8>, u16)| (lossy_text(w.0), w.1),
    )
}

/// The keys of one profile's endpoints.
pub open spec fn profile_keys(p: ProfileView) -> Seq<KeyView> {
    endpoint_texts(p).map_values(|e: (Seq<char>, u16)| key_of(p, e.0, e.1))
}

/// Every key a reference names, profile by profile, in dial order.
pub open spec fn reference_keys(ps: Seq<ProfileView>) -> Seq<KeyView>
    decreases ps.len(),
{
    if ps.len() == 0 {
        Seq::empty()
    } else {
        reference_keys(ps.drop_last()) + profile_keys(ps.last())
    }
}

/// The key of the endpoint reached: under the first profile that names it.
pub open spec fn reached_key(ps: Seq<ProfileView>, host: Seq<char>, port: u16) -> Option<KeyView>
    decreases ps.len(),
{
    if ps.len() == 0 {
        None
    } else if endpoint_texts(ps[0]).contains((host, port)) {
        Some(key_of(ps[0], host, port))
    } else {
        reached_key(ps.drop_first(), host, port)
    }
}

/// The endpoints of `p`, as text.
fn endpoint_list(p: &IiopProfile) -> (r: Vec<(String, u16)>)
    ensures
        r@.map_values(|e: (String, u16)| (e.0@, e.1)) == endpoint_texts(p@),
{
    let r = p.endpoints();
    proof {
        let v = r@.map_values(|e: (String, u16)| (e.0@, e.1));
        let ws = alternate_endpoints(p@.components);
        let es = r@.subrange(1, r@.len() as int);
        assert(endpoints_from_wire(es, ws));
        assert forall|j: int| 0 <= j < v.len() implies #[trigger] v[j] == endpoint_texts(p@)[j] by {
            if j > 0 {
                assert(es[j - 1] == r@[j]);
                assert(crate::cdr::lossy_text_exact(ws[j - 1].0, es[j - 1].0@));
            }
        }
        assert(v =~= endpoint_texts(p@));
    }
    r
}

/// Every key `ior` names, in dial order; a reference naming no
/// endpoint at all is refused before anything is dialled.
pub fn reference_key_list(ior: &Ior) -> (r: Result<Vec<Key>, Error>)
    ensures
        reference_keys(ior@.profiles).len() == 0 ==> r matches Err(Error::NoIiopProfile),
        reference_keys(ior@.profiles).len() > 0 ==> (r matches Ok(v) && keys_view(v@)
            == reference_keys(ior@.profiles)),
{
    let ghost ps = ior@.profiles;
    let mut out: Vec<Key> = Vec::new();
    let mut i: usize = 0;
    while i < ior.profiles.len()
        invariant
            i <= ps.len(),
            ps == ior@.profiles,
            keys_view(out@) == reference_keys(ps.take(i as int)),
        decreases ior.profiles.len() - i,
    {
        let p = &ior.profiles[i];
        assert(ps[i as int] == p@);
        let eps = endpoint_list(p);
        let ghost base = keys_view(out@);
        let ghost ev = eps@.map_values(|e: (String, u16)| (e.0@, e.1));
        let mut j: usize = 0;
        while j < eps.len()
            invariant
                j <= eps@.len(),
                ev == eps@.map_values(|e: (String, u16)| (e.0@, e.1)),
                ev == endpoint_texts(p@),
                keys_view(out@) == base + profile_keys(p@).take(j as int),
            decreases eps.len() - j,
        {
            let ghost before = keys_view(out@);
            let k = Key::of(p, eps[j].0.as_str(), eps[j].1);
            out.push(k);
            proof {
                assert(ev[j as int] == (eps@[j as int].0@, eps@[j as int].1));
                assert(profile_keys(p@).take(j + 1) =~= profile_keys(p@).take(j as int).push(k@));
                assert(keys_view(out@) =~= before.push(k@));
            }
            j = j + 1;
        }
        proof {
            assert(profile_keys(p@).take(eps@.len() as int) =~= profile_keys(p@));
            assert(ps.take(i + 1).drop_last() =~= ps.take(i as int));
            assert(ps.take(i + 1).last() == p@);
        }
        i = i + 1;
    }
    assert(ps.take(ps.len() as int) =~= ps);
    if out.len() == 0 {
        return Err(Error::NoIiopProfile);
    }
    Ok(out)
}

/// The key to file a dialed connection under: that of the first profile of
/// `ior` naming the endpoint reached, or `None` if none does.
pub fn reached_key_of(ior: &Ior, host: &str, port: u16) -> (r: Option<Key>)
    ensures
        match reached_key(ior@.profiles, host@, port) {
            Some(k) => r matches Some(x) && x@ == k,
            None => r is None,
        },
{
    let ghost ps = ior@.profiles;
    let wanted = host.to_owned();
    let mut i: usize = 0;
    assert(ps.skip(0) =~= ps);
    while i < ior.profiles.len()
        invariant
            i <= ps.len(),
            ps == ior@.profiles,
            wanted@ == host@,
            reached_key(ps, host@, port) == reached_key(ps.skip(i as int), host@, port),
        decreases ior.profiles.len() - i,
    {
        let p = &ior.profiles[i];
        assert(ps.skip(i as int)[0] == p@);
        let eps = endpoint_list(p);
        let ghost ev = eps@.map_values(|e: (String, u16)| (e.0@, e.1));
        let mut j: usize = 0;
        let mut found = false;
        while j < eps.len()
            invariant
                j <= eps@.len(),
                wanted@ == host@,
                ev == eps@.map_values(|e: (String, u16)| (e.0@, e.1)),
                found ==> ev.contains((host@, port)),
                !found ==> forall|q: int| 0 <= q < j ==> ev[q] != (host@, port),
            decreases eps.len() - j,
        {
            assert(ev[j as int] == (eps@[j as int].0@, eps@[j as int].1));
            if eps[j].0 == wanted && eps[j].1 == port {
                found = true;
                assert(ev[j as int] == (host@, port));
            }
            j = j + 1;
        }
        if found {
            return Some(Key::of(p, host, port));
        }
        assert(ps.skip(i as int).drop_first() =~= ps.skip(i + 1));
        i = i + 1;
    }
    None
}

// ─────────────────────────────────────────────────────────────────────────────
// Forwards: one call's chain, and what a reference keeps of it
// ─────────────────────────────────────────────────────────────────────────────

/// A redirect as values: whether it is permanent, and where it points.
pub open spec fn forward_view(f: Forward) -> (bool, IorView) {
    (f is Permanent, crate::giop::forward_target(f)@)
}

/// What the forwards one call followed came to: the last permanent hop
/// (what the reference re-points to), the forwarding information in force
/// at the end (the last temporary hop, only while no permanent hop came
/// after it), and the last hop of any kind.
#[derive(Debug)]
pub struct Chain {
    pub repoint: Option<Ior>,
    pub via: Option<Ior>,
    pub last: Option<Forward>,
}

/// A chain as values.
pub struct ChainView {
    pub repoint: Option<IorView>,
    pub via: Option<IorView>,
    pub last: Option<(bool, IorView)>,
}

pub open spec fn opt_ior_view(o: Option<Ior>) -> Option<IorView> {
    match o {
        Some(i) => Some(i@),
        None => None,
    }
}

pub open spec fn opt_forward_view(o: Option<Forward>) -> Option<(bool, IorView)> {
    match o {
        Some(f) => Some(forward_view(f)),
        None => None,
    }
}

impl View for Chain {
    type V = ChainView;

    open spec fn view(&self) -> ChainView {
        ChainView {
            repoint: opt_ior_view(self.repoint),
            via: opt_ior_view(self.via),
            last: opt_forward_view(self.last),
        }
    }
}

/// The chain of a call that was answered where it was sent.
pub open spec fn empty_chain() -> ChainView {
    ChainView { repoint: None, via: None, last: None }
}

/// One hop: a temporary one becomes the forwarding information; a permanent
/// one re-points and drops the forwarding information it supersedes.
pub open spec fn hop_spec(c: ChainView, f: (bool, IorView)) -> ChainView {
    if f.0 {
        ChainView { repoint: Some(f.1), via: None, last: Some(f) }
    } else {
        ChainView { via: Some(f.1), last: Some(f), ..c }
    }
}

/// The chain of a call that followed `hops`, in order.
pub open spec fn chain_of(hops: Seq<(bool, IorView)>) -> ChainView
    decreases hops.len(),
{
    if hops.len() == 0 {
        empty_chain()
    } else {
        hop_spec(chain_of(hops.drop_last()), hops.last())
    }
}

fn copy_forward(f: &Forward) -> (r: Forward)
    ensures
        forward_view(r) == forward_view(*f),
{
    match f {
        Forward::Temporary(i) => Forward::Temporary(i.duplicate()),
        Forward::Permanent(i) => Forward::Permanent(i.duplicate()),
    }
}

impl Chain {
    /// No hop yet.
    pub fn new() -> (r: Chain)
        ensures
            r@ == empty_chain(),
    {
        Chain { repoint: None, via: None, last: None }
    }

    /// Takes one hop.
    pub fn hop(&mut self, forward: Forward)
        ensures
            final(self)@ == hop_spec(old(self)@, forward_view(forward)),
    {
        match &forward {
            Forward::Temporary(to) => {
                self.via = Some(to.duplicate());
            },
            Forward::Permanent(to) => {
                self.repoint = Some(to.duplicate());
                self.via = None;
            },
        }
        self.last = Some(forward);
    }
}

/// Hopping is following one more forward.
pub proof fn lemma_chain_push(hops: Seq<(bool, IorView)>, f: (bool, IorView))
    ensures
        chain_of(hops.push(f)) == hop_spec(chain_of(hops), f),
{
    assert(hops.push(f).drop_last() =~= hops);
}

/// What one reference handle routes by: the address it calls (shared with
/// its clones, and moved only by a permanent forward), the forwarding
/// information a temporary forward left, and the redirect in force.
#[derive(Debug)]
pub struct Routing {
    ior: Ior,
    via: Option<Ior>,
    forwarded: Option<Forward>,
}

/// A handle's routing as values.
pub struct RoutingView {
    pub ior: IorView,
    pub via: Option<IorView>,
    pub forwarded: Option<(bool, IorView)>,
}

impl View for Routing {
    type V = RoutingView;

    closed spec fn view(&self) -> RoutingView {
        RoutingView {
            ior: self.ior@,
            via: opt_ior_view(self.via),
            forwarded: opt_forward_view(self.forwarded),
        }
    }
}

/// What recording a call's chain does: re-point first, then cache, so a
/// temporary hop that came after a permanent one is forwarding information
/// for the re-pointed reference. An empty chain changes nothing.
pub open spec fn note_spec(r: RoutingView, c: ChainView) -> RoutingView {
    let r1 = match c.repoint {
        Some(to) => RoutingView { ior: to, via: None, ..r },
        None => r,
    };
    let r2 = match c.via {
        Some(to) => RoutingView { via: Some(to), ..r1 },
        None => r1,
    };
    match c.last {
        Some(f) => RoutingView { forwarded: Some(f), ..r2 },
        None => r2,
    }
}

/// Taking up where the object now is: a move drops the forwarding
/// information about the address it left.
pub open spec fn refresh_spec(r: RoutingView, at: IorView) -> RoutingView {
    if at != r.ior {
        RoutingView { ior: at, via: None, forwarded: None }
    } else {
        r
    }
}

/// Where a two-way call is sent: the forwarding information while there is
/// some, else the reference itself.
pub open spec fn target_spec(r: RoutingView) -> IorView {
    match r.via {
        Some(v) => v,
        None => r.ior,
    }
}

impl Routing {
    /// A handle on `ior` that has followed nothing yet.
    pub fn new(ior: Ior) -> (r: Routing)
        ensures
            r@ == (RoutingView { ior: ior@, via: None, forwarded: None }),
    {
        Routing { ior, via: None, forwarded: None }
    }

    /// The reference being called.
    pub fn ior(&self) -> (r: &Ior)
        ensures
            r@ == self@.ior,
    {
        &self.ior
    }

    /// The redirect in force, and whether the servant said it was for good.
    pub fn forwarded(&self) -> (r: Option<&Forward>)
        ensures
            match r {
                Some(f) => self@.forwarded == Some(forward_view(*f)),
                None => self@.forwarded is None,
            },
    {
        self.forwarded.as_ref()
    }

    /// Where the next two-way call goes.
    pub fn target(&self) -> (r: &Ior)
        ensures
            r@ == target_spec(self@),
    {
        match &self.via {
            Some(v) => v,
            None => &self.ior,
        }
    }

    /// Whether the next two-way call goes to forwarding information rather
    /// than to the reference itself.
    pub fn has_via(&self) -> (r: bool)
        ensures
            r == (self@.via is Some),
    {
        self.via.is_some()
    }

    /// Takes up the address every clone shares.
    pub fn refresh(&mut self, at: &Ior)
        ensures
            final(self)@ == refresh_spec(old(self)@, at@),
    {
        if !at.same_as(&self.ior) {
            self.ior = at.duplicate();
            self.via = None;
            self.forwarded = None;
        }
    }

    /// The forwarding information failed and the request did not run: the
    /// location process restarts at the reference as it now stands.
    pub fn restart(&mut self)
        ensures
            final(self)@ == (RoutingView { via: None, forwarded: None, ..old(self)@ }),
    {
        self.via = None;
        self.forwarded = None;
    }

    /// Records what a two-way call's chain came to. Answers the new address
    /// when the chain re-pointed the reference, for every clone to take up.
    pub fn note(&mut self, chain: Chain) -> (r: Option<Ior>)
        ensures
            final(self)@ == note_spec(old(self)@, chain@),
            r matches Some(i) ==> chain@.repoint == Some(i@),
            r is None ==> chain@.repoint is None,
    {
        let Chain { repoint, via, last } = chain;
        let mut moved: Option<Ior> = None;
        if let Some(to) = repoint {
            moved = Some(to.duplicate());
            self.ior = to;
            self.via = None;
        }
        if let Some(to) = via {
            self.via = Some(to);
        }
        if last.is_some() {
            self.forwarded = last;
        }
        moved
    }
}

/// A copy of a handle: the same address, and this handle's routing state
/// as of now.
impl Routing {
    pub fn duplicate(&self) -> (r: Routing)
        ensures
            r@ == self@,
    {
        let via = match &self.via {
            Some(v) => Some(v.duplicate()),
            None => None,
        };
        let forwarded = match &self.forwarded {
            Some(f) => Some(copy_forward(f)),
            None => None,
        };
        Routing { ior: self.ior.duplicate(), via, forwarded }
    }
}

// ─────────────────────────────────────────────────────────────────────────────
// One pooled call, hop by hop
// ─────────────────────────────────────────────────────────────────────────────

/// How one try of a pooled call ended.
#[derive(Debug)]
pub enum Tried {
    /// The target answered.
    Replied,
    /// The target moved.
    Forwarded(Forward),
    /// No connection could be had; nothing was written.
    NoConnection,
    /// The call failed; `unsent` when the peer provably did not process it.
    Failed { unsent: bool },
}

/// What to do next.
#[derive(Debug, Clone, Copy, PartialEq, Eq, Structural)]
pub enum Then {
    /// Call the current target (again, or anew after a hop).
    Call,
    /// The call is answered.
    Answered,
    /// The call failed and that is the answer; `unsent` as it came.
    GiveUp { unsent: bool },
    /// Tries ran out on the forward limit.
    TooManyForwards,
}

/// One pooled call under way: where it is going, what it followed, whether
/// its one re-send is spent, and how many tries of `max` it has begun.
#[derive(Debug)]
pub struct Attempt {
    target: Ior,
    chain: Chain,
    retried: bool,
    tries: u16,
    max: u16,
}

/// A call under way as values.
pub struct AttemptView {
    pub target: IorView,
    pub chain: ChainView,
    pub retried: bool,
    pub tries: nat,
    pub max: nat,
}

impl View for Attempt {
    type V = AttemptView;

    closed spec fn view(&self) -> AttemptView {
        AttemptView {
            target: self.target@,
            chain: self.chain@,
            retried: self.retried,
            tries: self.tries as nat,
            max: self.max as nat,
        }
    }
}

/// Another try begun if fewer than the limit have been, else the forward
/// limit is what the call ends on.
pub open spec fn next_try(a: AttemptView) -> (AttemptView, Then) {
    if a.tries < a.max {
        (AttemptView { tries: a.tries + 1, ..a }, Then::Call)
    } else {
        (a, Then::TooManyForwards)
    }
}

/// The decision after one try: an answer ends the call; a forward is
/// followed; a failure that provably did not run is re-sent once, on the
/// same target; anything else is the answer. Every re-send and every hop
/// counts against the forward limit.
pub open spec fn step_spec(a: AttemptView, t: Tried) -> (AttemptView, Then) {
    match t {
        Tried::Replied => (a, Then::Answered),
        Tried::NoConnection => (a, Then::GiveUp { unsent: true }),
        Tried::Forwarded(f) => next_try(
            AttemptView {
                target: forward_view(f).1,
                chain: hop_spec(a.chain, forward_view(f)),
                ..a
            },
        ),
        Tried::Failed { unsent } => if unsent && !a.retried {
            next_try(AttemptView { retried: true, ..a })
        } else {
            (a, Then::GiveUp { unsent })
        },
    }
}

impl Attempt {
    /// A call to `ior` allowed `max_hops` tries; the first decision is
    /// whether there is a try at all.
    pub fn start(ior: Ior, max_hops: u8) -> (r: (Attempt, Then))
        ensures
            r.0@ == (AttemptView {
                target: ior@,
                chain: empty_chain(),
                retried: false,
                tries: if max_hops > 0 { 1 } else { 0 },
                max: max_hops as nat,
            }),
            r.1 == (if max_hops > 0 {
                Then::Call
            } else {
                Then::TooManyForwards
            }),
    {
        let tries: u16 = if max_hops > 0 {
            1
        } else {
            0
        };
        let a = Attempt {
            target: ior,
            chain: Chain::new(),
            retried: false,
            tries,
            max: max_hops as u16,
        };
        if max_hops > 0 {
            (a, Then::Call)
        } else {
            (a, Then::TooManyForwards)
        }
    }

    /// Where the next try goes.
    pub fn target(&self) -> (r: &Ior)
        ensures
            r@ == self@.target,
    {
        &self.target
    }

    /// Whether the one re-send has been spent.
    pub fn retried(&self) -> (r: bool)
        ensures
            r == self@.retried,
    {
        self.retried
    }

    /// Decides after one try.
    pub fn step(&mut self, t: Tried) -> (r: Then)
        requires
            old(self)@.tries <= old(self)@.max,
        ensures
            (final(self)@, r) == step_spec(old(self)@, t),
            final(self)@.tries <= final(self)@.max,
    {
        match t {
            Tried::Replied => Then::Answered,
            Tried::NoConnection => Then::GiveUp { unsent: true },
            Tried::Forwarded(f) => {
                self.target = f.ior().duplicate();
                self.chain.hop(f);
                self.next_try()
            },
            Tried::Failed { unsent } => {
                if unsent && !self.retried {
                    self.retried = true;
                    self.next_try()
                } else {
                    Then::GiveUp { unsent }
                }
            },
        }
    }

    fn next_try(&mut self) -> (r: Then)
        requires
            old(self)@.tries <= old(self)@.max,
        ensures
            (final(self)@, r) == next_try(old(self)@),
    {
        if self.tries < self.max {
            self.tries = self.tries + 1;
            Then::Call
        } else {
            Then::TooManyForwards
        }
    }

    /// The chain the call followed.
    pub fn into_chain(self) -> (r: Chain)
        ensures
            r@ == self@.chain,
    {
        self.chain
    }
}

/// A call answered where it was sent changes nothing a handle routes by: a
/// cached temporary forward stays cached, a re-pointed reference stays
/// re-pointed.
pub proof fn law_empty_chain_changes_nothing(r: RoutingView)
    ensures
        note_spec(r, empty_chain()) == r,
{
}

/// A permanent hop re-points and clears the forwarding information it
/// supersedes, whatever came before it.
pub proof fn law_permanent_hop_clears_forwarding(hops: Seq<(bool, IorView)>, to: IorView)
    ensures
        chain_of(hops.push((true, to))) == (ChainView {
            repoint: Some(to),
            via: None,
            last: Some((true, to)),
        }),
{
    lemma_chain_push(hops, (true, to));
}

/// A temporary hop caches forwarding information and leaves the re-pointing
/// of the hops before it as it was.
pub proof fn law_temporary_hop_keeps_the_repoint(hops: Seq<(bool, IorView)>, to: IorView)
    ensures
        chain_of(hops.push((false, to))).repoint == chain_of(hops).repoint,
        chain_of(hops.push((false, to))).via == Some(to),
{
    lemma_chain_push(hops, (false, to));
}

/// Temporary then permanent ends re-pointed at the permanent hop with
/// nothing cached; permanent then temporary re-points at the permanent hop
/// and caches the temporary one relative to it.
pub proof fn law_hop_order_decides_the_routing(r: RoutingView, a: IorView, b: IorView)
    ensures
        note_spec(r, chain_of(seq![(false, a), (true, b)])) == (RoutingView {
            ior: b,
            via: None,
            forwarded: Some((true, b)),
        }),
        note_spec(r, chain_of(seq![(true, a), (false, b)])) == (RoutingView {
            ior: a,
            via: Some(b),
            forwarded: Some((false, b)),
        }),
{
    lemma_chain_push(seq![(false, a)], (true, b));
    lemma_chain_push(Seq::<(bool, IorView)>::empty(), (false, a));
    assert(seq![(false, a), (true, b)] =~= seq![(false, a)].push((true, b)));
    assert(seq![(false, a)] =~= Seq::<(bool, IorView)>::empty().push((false, a)));
    lemma_chain_push(seq![(true, a)], (false, b));
    lemma_chain_push(Seq::<(bool, IorView)>::empty(), (true, a));
    assert(seq![(true, a), (false, b)] =~= seq![(true, a)].push((false, b)));
    assert(seq![(true, a)] =~= Seq::<(bool, IorView)>::empty().push((true, a)));
}

/// The index of the last hop in `hops` that is permanent (`permanent`) or
/// temporary (`!permanent`).
pub open spec fn last_hop_of(hops: Seq<(bool, IorView)>, permanent: bool) -> Option<int>
    decreases hops.len(),
{
    if hops.len() == 0 {
        None
    } else if hops.last().0 == permanent {
        Some(hops.len() - 1)
    } else {
        last_hop_of(hops.drop_last(), permanent)
    }
}

/// A whole run of hops: the chain remembers the last hop taken; it is
/// re-pointed at the last permanent hop, if any; and it goes via the last
/// temporary hop, unless a permanent one came after it.
pub proof fn law_chain_of_a_run(hops: Seq<(bool, IorView)>)
    ensures
        chain_of(hops).last == (if hops.len() == 0 {
            None
        } else {
            Some(hops.last())
        }),
        chain_of(hops).repoint == (match last_hop_of(hops, true) {
            Some(i) => Some(hops[i].1),
            None => None,
        }),
        chain_of(hops).via == (match last_hop_of(hops, false) {
            Some(j) => if last_hop_of(hops, true) matches Some(i) && i > j {
                None
            } else {
                Some(hops[j].1)
            },
            None => None,
        }),
        last_hop_of(hops, true) matches Some(i) ==> 0 <= i < hops.len() && hops[i].0,
        last_hop_of(hops, false) matches Some(j) ==> 0 <= j < hops.len() && !hops[j].0,
    decreases hops.len(),
{
    if hops.len() > 0 {
        law_chain_of_a_run(hops.drop_last());
    }
}

/// Taking up a move is done once: the next call after it goes to the new
/// address, and taking it up again changes nothing.
pub proof fn law_refresh_settles(r: RoutingView, at: IorView)
    ensures
        target_spec(refresh_spec(r, at)) == at || refresh_spec(r, at) == r,
        refresh_spec(refresh_spec(r, at), at) == refresh_spec(r, at),
{
}

/// The one re-send is spent once: a call that has re-sent and fails again
/// unsent gives up.
pub proof fn law_one_resend(a: AttemptView)
    requires
        a.retried,
    ensures
        step_spec(a, Tried::Failed { unsent: true }).1 == (Then::GiveUp { unsent: true }),
{
}

/// A failure whose completion is unknown is never re-sent.
pub proof fn law_no_resend_after_processing(a: AttemptView)
    ensures
        step_spec(a, Tried::Failed { unsent: false }) == (a, Then::GiveUp { unsent: false }),
{
}

/// The pool never holds more than its bound: a lookup reserves a dial only
/// where there is room for it and adds nothing else, and filing the dialed
/// connection takes the place of its reservation.
pub proof fn law_the_bound_holds(
    b: BookView,
    keys: Seq<KeyView>,
    st: Seq<ConnState>,
    limits: Limits,
    max_idle_ms: u64,
    reached: Option<KeyView>,
    id: u64,
)
    requires
        b.live.len() + b.reserved <= limits.max_total,
        st.len() == b.live.len(),
    ensures
        ({
            let (after, look, _) = look_spec(b, keys, st, limits, max_idle_ms);
            &&& after.live.len() + after.reserved <= limits.max_total
            &&& look is Dial ==> {
                let filed = file_spec(after, reached, id);
                filed.live.len() + filed.reserved <= limits.max_total
            }
        }),
{
    let (l1, s1) = sweep(b.live, st, max_idle_ms);
    lemma_sweep_shrinks(b.live, st, max_idle_ms);
    if first_pick(keys, l1, s1, limits) is None && l1.len() + b.reserved >= limits.max_total {
        let want = if l1.len() + b.reserved + 1 - limits.max_total > usize::MAX {
            usize::MAX as nat
        } else {
            (l1.len() + b.reserved + 1 - limits.max_total) as nat
        };
        lemma_evict_shrinks(l1, s1, want);
    }
}

/// The object key plays no part in a connection's key: one connection serves
/// every object behind an endpoint. What does: the version the profile
/// advertises and the `char` code set agreed from its components.
pub proof fn law_object_key_plays_no_part(p: ProfileView, q: ProfileView, host: Seq<char>, port: u16)
    requires
        p.version == q.version,
        p.components == q.components,
    ensures
        key_of(p, host, port) == key_of(q, host, port),
        key_of(p, host, port).codeset == crate::codeset::agreed_char_codeset(p),
        key_of(p, host, port).version == negotiated(p.version),
{
}

proof fn lemma_least_loaded_is_least(live: Seq<(KeyView, u64)>, st: Seq<ConnState>, key: KeyView)
    requires
        live.len() <= st.len(),
    ensures
        least_loaded(live, st, key) matches Some(i) ==> {
            &&& 0 <= i < live.len()
            &&& live[i].0 == key
            &&& st[i].usable
            &&& forall|j: int|
                0 <= j < live.len() && live[j].0 == key && st[j].usable ==> st[i].in_flight
                    <= #[trigger] st[j].in_flight
            &&& forall|j: int|
                0 <= j < i && live[j].0 == key && st[j].usable ==> st[i].in_flight
                    < #[trigger] st[j].in_flight
        },
        least_loaded(live, st, key) is None ==> forall|j: int|
            0 <= j < live.len() && #[trigger] live[j].0 == key ==> !st[j].usable,
    decreases live.len(),
{
    if live.len() > 0 {
        let pre = live.drop_last();
        let n = live.len() - 1;
        lemma_least_loaded_is_least(pre, st, key);
        assert forall|j: int| 0 <= j < pre.len() implies #[trigger] pre[j] == live[j] by {}
        let b = least_loaded(pre, st, key);
        if live[n].0 == key && st[n].usable && (b is None || st[n].in_flight < st[b->Some_0].in_flight) {
            assert(least_loaded(live, st, key) == Some(n));
            assert forall|j: int|
                0 <= j < live.len() && live[j].0 == key && st[j].usable implies st[n].in_flight
                    <= #[trigger] st[j].in_flight by {
                if j < n {
                    assert(pre[j] == live[j]);
                }
            }
            assert forall|j: int|
                0 <= j < n && live[j].0 == key && st[j].usable implies st[n].in_flight
                    < #[trigger] st[j].in_flight by {
                assert(pre[j] == live[j]);
            }
        } else {
            assert(least_loaded(live, st, key) == b);
            if let Some(i) = b {
                assert forall|j: int|
                    0 <= j < live.len() && live[j].0 == key && st[j].usable implies st[i].in_flight
                        <= #[trigger] st[j].in_flight by {
                    if j < n {
                        assert(pre[j] == live[j]);
                    }
                }
                assert forall|j: int|
                    0 <= j < i && live[j].0 == key && st[j].usable implies st[i].in_flight
                        < #[trigger] st[j].in_flight by {
                    assert(pre[j] == live[j]);
                }
            } else {
                assert forall|j: int| 0 <= j < live.len() && #[trigger] live[j].0 == key implies !st[j].usable by {
                    if j < n {
                        assert(pre[j] == live[j]);
                    }
                }
            }
        }
    }
}

/// A lookup prefers the least loaded connection: the one it reuses for a key
/// is filed under that key, usable, and has no more calls in flight than any
/// other usable connection under the key — the first such when several tie;
/// and it finds none only when no connection under the key is usable.
pub proof fn law_pick_prefers_the_least_loaded(
    live: Seq<(KeyView, u64)>,
    st: Seq<ConnState>,
    key: KeyView,
    limits: Limits,
)
    requires
        live.len() == st.len(),
    ensures
        least_loaded(live, st, key) matches Some(i) ==> {
            &&& 0 <= i < live.len()
            &&& live[i].0 == key
            &&& st[i].usable
            &&& forall|j: int|
                0 <= j < live.len() && live[j].0 == key && st[j].usable ==> st[i].in_flight
                    <= #[trigger] st[j].in_flight
            &&& forall|j: int|
                0 <= j < i && live[j].0 == key && st[j].usable ==> st[i].in_flight
                    < #[trigger] st[j].in_flight
        },
        least_loaded(live, st, key) is None ==> forall|j: int|
            0 <= j < live.len() && #[trigger] live[j].0 == key ==> !st[j].usable,
        pick(live, st, key, limits) matches Some(id) ==> exists|i: int|
            0 <= i < live.len() && #[trigger] live[i].1 == id && live[i].0 == key && st[i].usable
                && (forall|j: int|
                0 <= j < live.len() && live[j].0 == key && st[j].usable ==> st[i].in_flight
                    <= #[trigger] st[j].in_flight),
{
    lemma_least_loaded_is_least(live, st, key);
    if let Some(i) = least_loaded(live, st, key) {
        if pick(live, st, key, limits) is Some {
            assert(live[i].1 == pick(live, st, key, limits)->Some_0);
        }
    }
}

} // verus!
