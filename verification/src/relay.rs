//! The relay: a blind reflector of datagrams among the peers that were
//! heard of lately, with a quota for every source and bounded tables.
//!
//! The relay here is the bookkeeping: the embedding program owns the
//! sockets, tells the relay what came in and when, and sends what the
//! relay tells it to send. Time is the monotonic clock in milliseconds.

use crate::text::{decimal, decimal_text, decimal_value, parse_decimal};
use crate::wire::str_eq;
use vstd::prelude::*;

verus! {

/// Most peers that the relay remembers.
pub const MAX_PEERS: usize = 10_000;

/// Most sources whose rate the relay remembers.
pub const MAX_RATE_ENTRIES: usize = 50_000;

/// Datagrams between two sweeps of the tables.
pub const CLEANUP_INTERVAL: u32 = 1_000;

/// Milliseconds of one window of the quota.
pub const RATE_WINDOW_MS: u64 = 1_000;

/// Milliseconds after which the rate of a source is forgotten.
pub const RATE_ENTRY_TTL_MS: u64 = 60_000;

/// Port of the relay unless told otherwise.
pub const DEFAULT_RELAY_PORT: u16 = 40100;

/// Most bytes of a datagram unless told otherwise.
pub const DEFAULT_MAX_PACKET: usize = 64_000;

/// Datagrams that one source may send in one second unless told
/// otherwise.
pub const DEFAULT_RATE_LIMIT_PPS: u32 = 200;

/// Seconds that a peer is remembered unless told otherwise.
pub const DEFAULT_PEER_TTL_SECS: u64 = 300;

/// Seconds between two snapshots of the counts unless told otherwise.
pub const DEFAULT_METRICS_INTERVAL_SECS: u64 = 60;

/// Port of the counts unless told otherwise.
pub const DEFAULT_METRICS_PORT: u16 = 9090;

/// An address of the internet protocol, as a number.
#[derive(Clone, Copy, Debug, PartialEq, Eq, Structural)]
pub struct IpAddress {
    /// Whether the address is of version 6.
    pub v6: bool,
    /// The bits of the address.
    pub bits: u128,
}

/// An address and a port.
#[derive(Clone, Copy, Debug, PartialEq, Eq, Structural)]
pub struct SocketAddress {
    pub ip: IpAddress,
    pub port: u16,
}

/// The quota of one source.
#[derive(Clone, Copy, Debug, PartialEq, Eq, Structural)]
pub struct RateEntry {
    pub ip: IpAddress,
    /// When the window began.
    pub window_start: u64,
    /// Datagrams in the window.
    pub count: u32,
}

/// A peer of the relay.
#[derive(Clone, Copy, Debug, PartialEq, Eq, Structural)]
pub struct PeerEntry {
    pub addr: SocketAddress,
    /// When the peer was last heard.
    pub last_seen: u64,
}

/// The counts of the relay.
#[derive(Clone, Copy, Debug, Default, PartialEq, Eq, Structural)]
pub struct Stats {
    pub received: u64,
    pub forwarded: u64,
    pub dropped_rate: u64,
    pub dropped_size: u64,
    pub dropped_peer_limit: u64,
    pub active_peers: usize,
    pub rate_entries: usize,
    pub uptime_secs: u64,
}

/// How the relay is set up.
#[derive(Debug)]
pub struct RelayConfig {
    pub port: u16,
    pub max_packet: usize,
    pub rate_limit_pps: u32,
    pub peer_ttl_secs: u64,
    pub metrics_interval_secs: u64,
    pub metrics_port: u16,
    pub bind: String,
    pub fallback_relay: Option<String>,
}

/// The number that a setting spells, or the default where there is no
/// setting or it spells no number up to `max`.
pub open spec fn setting(value: Option<Seq<char>>, max: nat, default: nat) -> nat {
    match value {
        Some(t) => match decimal_value(t, max) {
            Some(v) => v,
            None => default,
        },
        None => default,
    }
}

fn read_setting(value: Option<&str>, max: u64, default: u64) -> (r: u64)
    requires
        default <= max,
    ensures
        r == setting(crate::storage::opt_str_view(value), max as nat, default as nat),
        r <= max,
{
    match value {
        Some(t) => match parse_decimal(t, max) {
            Some(v) => {
                proof {
                    crate::text::lemma_decimal_value_bound(t@, max as nat);
                }
                v
            },
            None => default,
        },
        None => default,
    }
}

impl RelayConfig {
    /// The set-up that the settings of the environment give; a setting
    /// that is absent or spells no number gives way to its default. The
    /// relay binds to every interface at its port unless told otherwise.
    pub fn from_settings(
        port: Option<&str>,
        max_packet: Option<&str>,
        rate_limit_pps: Option<&str>,
        peer_ttl_secs: Option<&str>,
        metrics_interval_secs: Option<&str>,
        metrics_port: Option<&str>,
        bind: Option<&str>,
        fallback_relay: Option<&str>,
    ) -> (r: RelayConfig)
        ensures
            r.port == setting(
                crate::storage::opt_str_view(port),
                u16::MAX as nat,
                DEFAULT_RELAY_PORT as nat,
            ),
            r.max_packet == setting(
                crate::storage::opt_str_view(max_packet),
                usize::MAX as nat,
                DEFAULT_MAX_PACKET as nat,
            ),
            r.rate_limit_pps == setting(
                crate::storage::opt_str_view(rate_limit_pps),
                u32::MAX as nat,
                DEFAULT_RATE_LIMIT_PPS as nat,
            ),
            r.peer_ttl_secs == setting(
                crate::storage::opt_str_view(peer_ttl_secs),
                u64::MAX as nat,
                DEFAULT_PEER_TTL_SECS as nat,
            ),
            r.metrics_interval_secs == setting(
                crate::storage::opt_str_view(metrics_interval_secs),
                u64::MAX as nat,
                DEFAULT_METRICS_INTERVAL_SECS as nat,
            ),
            r.metrics_port == setting(
                crate::storage::opt_str_view(metrics_port),
                u16::MAX as nat,
                DEFAULT_METRICS_PORT as nat,
            ),
            r.bind@ == match bind {
                Some(b) => b@,
                None => "0.0.0.0:"@ + decimal(r.port as nat),
            },
            crate::api::opt_string_view(r.fallback_relay) == crate::storage::opt_str_view(
                fallback_relay,
            ),
    {
        let port = read_setting(port, 0xffff, DEFAULT_RELAY_PORT as u64) as u16;
        let max_packet = read_setting(max_packet, usize::MAX as u64, DEFAULT_MAX_PACKET as u64)
            as usize;
        let rate_limit_pps = read_setting(
            rate_limit_pps,
            0xffff_ffff,
            DEFAULT_RATE_LIMIT_PPS as u64,
        ) as u32;
        let peer_ttl_secs = read_setting(peer_ttl_secs, u64::MAX, DEFAULT_PEER_TTL_SECS);
        let metrics_interval_secs = read_setting(
            metrics_interval_secs,
            u64::MAX,
            DEFAULT_METRICS_INTERVAL_SECS,
        );
        let metrics_port = read_setting(metrics_port, 0xffff, DEFAULT_METRICS_PORT as u64) as u16;
        let bind = match bind {
            Some(b) => b.to_string(),
            None => "0.0.0.0:".to_string().concat(decimal_text(port as u64).as_str()),
        };
        let fallback_relay = match fallback_relay {
            Some(f) => Some(f.to_string()),
            None => None,
        };
        RelayConfig {
            port,
            max_packet,
            rate_limit_pps,
            peer_ttl_secs,
            metrics_interval_secs,
            metrics_port,
            bind,
            fallback_relay,
        }
    }
}

/// Milliseconds from `since` to `now`; none where `now` is the earlier.
pub open spec fn since_ms(since: u64, now: u64) -> int {
    if now >= since {
        now - since
    } else {
        0
    }
}

fn elapsed(since: u64, now: u64) -> (r: u64)
    ensures
        r == since_ms(since, now),
{
    if now >= since {
        now - since
    } else {
        0
    }
}

/// The place of the quota of a source, where the relay remembers it.
pub open spec fn rate_place(rate: Seq<RateEntry>, ip: IpAddress) -> Option<int>
    decreases rate.len(),
{
    if rate.len() == 0 {
        None
    } else {
        match rate_place(rate.drop_last(), ip) {
            Some(i) => Some(i),
            None => if rate.last().ip == ip {
                Some(rate.len() - 1)
            } else {
                None
            },
        }
    }
}

/// The quota of a source as it stands before a datagram at `now` is
/// counted: a new one where there was none, and one with a new window
/// where the old window is over.
pub open spec fn current_quota(rate: Seq<RateEntry>, ip: IpAddress, now: u64) -> RateEntry {
    match rate_place(rate, ip) {
        Some(i) => if since_ms(rate[i].window_start, now) >= RATE_WINDOW_MS {
            RateEntry { ip, window_start: now, count: 0 }
        } else {
            rate[i]
        },
        None => RateEntry { ip, window_start: now, count: 0 },
    }
}

/// Whether a datagram of a source at `now` is within its quota.
pub open spec fn within_quota(rate: Seq<RateEntry>, ip: IpAddress, limit: u32, now: u64) -> bool {
    current_quota(rate, ip, now).count < limit
}

/// The quotas after a datagram of a source at `now` was judged: the
/// quota of the source is counted up where the datagram was within it.
pub open spec fn judged(rate: Seq<RateEntry>, ip: IpAddress, limit: u32, now: u64) -> Seq<
    RateEntry,
> {
    let q = current_quota(rate, ip, now);
    let next = if q.count < limit {
        RateEntry { count: (q.count + 1) as u32, ..q }
    } else {
        q
    };
    match rate_place(rate, ip) {
        Some(i) => rate.update(i, next),
        None => rate.push(next),
    }
}

proof fn lemma_rate_place_prefix(rate: Seq<RateEntry>, n: int, ip: IpAddress)
    requires
        0 <= n <= rate.len(),
        rate_place(rate.take(n), ip) is Some,
    ensures
        rate_place(rate, ip) == rate_place(rate.take(n), ip),
    decreases rate.len() - n,
{
    if n < rate.len() {
        assert(rate.take(n + 1).drop_last() =~= rate.take(n));
        lemma_rate_place_prefix(rate, n + 1, ip);
    } else {
        assert(rate.take(n) =~= rate);
    }
}

proof fn lemma_rate_place_update(rate: Seq<RateEntry>, ip: IpAddress, e: RateEntry)
    requires
        rate_place(rate, ip) is Some,
        e.ip == ip,
    ensures
        0 <= rate_place(rate, ip)->0 < rate.len(),
        rate[rate_place(rate, ip)->0].ip == ip,
        rate_place(rate.update(rate_place(rate, ip)->0, e), ip) == rate_place(rate, ip),
    decreases rate.len(),
{
    let i = rate_place(rate, ip)->0;
    let t = rate.drop_last();
    if rate_place(t, ip) is Some {
        lemma_rate_place_update(t, ip, e);
        assert(rate.update(i, e).drop_last() =~= t.update(i, e));
        assert(rate[i] == t[i]);
    } else {
        assert(i == rate.len() - 1);
        assert(rate.update(i, e).drop_last() =~= t);
        assert(rate.update(i, e).last() == e);
    }
}

/// The quotas after datagrams of one source came at the times given, one
/// after the other, and how many of them were within the quota.
pub open spec fn judged_all(rate: Seq<RateEntry>, ip: IpAddress, limit: u32, times: Seq<u64>) -> (
    Seq<RateEntry>,
    nat,
)
    decreases times.len(),
{
    if times.len() == 0 {
        (rate, 0)
    } else {
        let before = judged_all(rate, ip, limit, times.drop_last());
        (
            judged(before.0, ip, limit, times.last()),
            if within_quota(before.0, ip, limit, times.last()) {
                before.1 + 1
            } else {
                before.1
            },
        )
    }
}

/// The smaller of a count and a limit.
pub open spec fn at_most(n: nat, limit: u32) -> nat {
    if n <= limit {
        n
    } else {
        limit as nat
    }
}

proof fn lemma_window_state(rate: Seq<RateEntry>, ip: IpAddress, limit: u32, times: Seq<u64>)
    requires
        rate_place(rate, ip) is None,
        times.len() > 0,
        forall|k: int| 0 <= k < times.len()
            ==> times[0] <= #[trigger] times[k] < times[0] + RATE_WINDOW_MS,
    ensures
        rate_place(judged_all(rate, ip, limit, times).0, ip) == Some(rate.len() as int),
        judged_all(rate, ip, limit, times).0.len() == rate.len() + 1,
        judged_all(rate, ip, limit, times).0[rate.len() as int] == (RateEntry {
            ip,
            window_start: times[0],
            count: at_most(times.len(), limit) as u32,
        }),
        judged_all(rate, ip, limit, times).1 == at_most(times.len(), limit),
    decreases times.len(),
{
    let prefix = times.drop_last();
    let t = times.last();
    if times.len() == 1 {
        assert(prefix =~= Seq::<u64>::empty());
        assert(judged_all(rate, ip, limit, prefix) == (rate, 0nat));
        assert(t == times[0]);
        let next = judged(rate, ip, limit, t);
        assert(next.drop_last() =~= rate);
    } else {
        assert(prefix[0] == times[0]);
        assert forall|k: int| 0 <= k < prefix.len() implies prefix[0] <= #[trigger] prefix[k]
            < prefix[0] + RATE_WINDOW_MS by {
            assert(prefix[k] == times[k]);
        }
        lemma_window_state(rate, ip, limit, prefix);
        let before = judged_all(rate, ip, limit, prefix);
        let place = rate.len() as int;
        assert(t == times[times.len() - 1]);
        assert(since_ms(before.0[place].window_start, t) < RATE_WINDOW_MS);
        let q = current_quota(before.0, ip, t);
        assert(q == before.0[place]);
        let next = if q.count < limit {
            RateEntry { count: (q.count + 1) as u32, ..q }
        } else {
            q
        };
        lemma_rate_place_update(before.0, ip, next);
    }
}

/// Within one window a source gets as many datagrams through as it sends,
/// and no more than the limit: of the datagrams that a source, which the
/// relay has no quota for, sends within less than a second, the first
/// `limit` are within the quota and the others are not.
pub proof fn lemma_rate_limit(rate: Seq<RateEntry>, ip: IpAddress, limit: u32, times: Seq<u64>)
    requires
        rate_place(rate, ip) is None,
        forall|k: int| 0 <= k < times.len()
            ==> times[0] <= #[trigger] times[k] < times[0] + RATE_WINDOW_MS,
    ensures
        judged_all(rate, ip, limit, times).1 == at_most(times.len(), limit),
{
    if times.len() > 0 {
        lemma_window_state(rate, ip, limit, times);
    }
}

fn find_rate(rate: &Vec<RateEntry>, ip: IpAddress) -> (r: Option<usize>)
    ensures
        match r {
            Some(i) => rate_place(rate@, ip) == Some(i as int) && i < rate@.len()
                && rate@[i as int].ip
                == ip,
            None => rate_place(rate@, ip) is None,
        },
{
    let n = rate.len();
    let mut i: usize = 0;
    while i < n
        invariant
            i <= n,
            n == rate@.len(),
            rate_place(rate@.take(i as int), ip) is None,
        decreases n - i,
    {
        assert(rate@.take(i + 1).drop_last() =~= rate@.take(i as int));
        assert(rate@.take(i + 1).last() == rate@[i as int]);
        if rate[i].ip == ip {
            proof {
                lemma_rate_place_prefix(rate@, i + 1, ip);
            }
            return Some(i);
        }
        i = i + 1;
    }
    assert(rate@.take(n as int) =~= rate@);
    None
}

/// Judges a datagram of a source at `now` against its quota of `limit`
/// datagrams in a window of one second, and counts it where it is within
/// the quota.
pub fn allow_packet(rate: &mut Vec<RateEntry>, ip: IpAddress, limit: u32, now: u64) -> (r: bool)
    ensures
        r == within_quota(old(rate)@, ip, limit, now),
        final(rate)@ == judged(old(rate)@, ip, limit, now),
{
    let place = find_rate(rate, ip);
    let mut entry = match place {
        Some(i) => rate[i],
        None => RateEntry { ip, window_start: now, count: 0 },
    };
    if elapsed(entry.window_start, now) >= RATE_WINDOW_MS {
        entry.window_start = now;
        entry.count = 0;
    }
    let allowed = entry.count < limit;
    if allowed {
        entry.count = entry.count + 1;
    }
    match place {
        Some(i) => {
            rate[i] = entry;
        },
        None => {
            rate.push(entry);
        },
    }
    assert(rate@ =~= judged(old(rate)@, ip, limit, now));
    allowed
}

/// The peers that were heard within `ttl_ms` before `now`, in their
/// order.
pub open spec fn fresh_peers(peers: Seq<PeerEntry>, ttl_ms: int, now: u64) -> Seq<PeerEntry>
    decreases peers.len(),
{
    if peers.len() == 0 {
        peers
    } else if since_ms(peers.last().last_seen, now) <= ttl_ms {
        fresh_peers(peers.drop_last(), ttl_ms, now).push(peers.last())
    } else {
        fresh_peers(peers.drop_last(), ttl_ms, now)
    }
}

/// Forgets the peers that were last heard more than `ttl_secs` seconds
/// before `now`.
pub fn cleanup_peers(peers: &mut Vec<PeerEntry>, ttl_secs: u64, now: u64)
    ensures
        final(peers)@ == fresh_peers(old(peers)@, ttl_secs * 1000, now),
        final(peers)@.len() <= old(peers)@.len(),
{
    let ghost peers0 = peers@;
    let mut i: usize = 0;
    let mut done: Ghost<int> = Ghost(0);
    assert(peers0.take(0) =~= Seq::<PeerEntry>::empty());
    assert(peers0.skip(0) =~= peers0);
    while i < peers.len()
        invariant
            i <= peers@.len(),
            0 <= done@ <= peers0.len(),
            peers@.take(i as int) == fresh_peers(peers0.take(done@), ttl_secs * 1000, now),
            peers@.skip(i as int) == peers0.skip(done@),
            peers@.len() <= peers0.len(),
        decreases peers@.len() - i,
    {
        let ghost cur = peers@;
        proof {
            assert(cur.skip(i as int).len() == cur.len() - i);
            assert(peers0.skip(done@).len() == peers0.len() - done@);
            assert(cur[i as int] == cur.skip(i as int)[0]);
            assert(peers0[done@] == peers0.skip(done@)[0]);
            assert(peers0.take(done@ + 1).drop_last() =~= peers0.take(done@));
            assert(peers0.take(done@ + 1).last() == peers0[done@]);
            assert(peers0.skip(done@ + 1) =~= peers0.skip(done@).skip(1));
        }
        let age = elapsed(peers[i].last_seen, now);
        let keep = age / 1000 < ttl_secs || (age / 1000 == ttl_secs && age % 1000 == 0);
        assert(keep == (age <= ttl_secs * 1000)) by (nonlinear_arith)
            requires
                keep == (age / 1000 < ttl_secs || (age / 1000 == ttl_secs && age % 1000 == 0)),
        ;
        if !keep {
            peers.remove(i);
            proof {
                assert(peers@ =~= cur.remove(i as int));
                assert(peers@.take(i as int) =~= cur.take(i as int));
                assert(peers@.skip(i as int) =~= cur.skip(i as int).skip(1));
            }
        } else {
            proof {
                assert(cur.take(i + 1) =~= cur.take(i as int).push(cur[i as int]));
                assert(cur.skip(i + 1) =~= cur.skip(i as int).skip(1));
            }
            i = i + 1;
        }
        proof {
            done@ = done@ + 1;
        }
    }
    proof {
        assert(peers@.skip(i as int).len() == 0);
        assert(peers0.take(done@) =~= peers0);
        assert(peers@.take(i as int) =~= peers@);
    }
}

/// The quotas whose window began fewer than 60 seconds before `now`, in
/// their order.
pub open spec fn fresh_quotas(rate: Seq<RateEntry>, now: u64) -> Seq<RateEntry>
    decreases rate.len(),
{
    if rate.len() == 0 {
        rate
    } else if since_ms(rate.last().window_start, now) < RATE_ENTRY_TTL_MS {
        fresh_quotas(rate.drop_last(), now).push(rate.last())
    } else {
        fresh_quotas(rate.drop_last(), now)
    }
}

/// The place of the quota whose window began first; of several, the one
/// that stands first.
pub open spec fn oldest_place(rate: Seq<RateEntry>) -> int
    decreases rate.len(),
{
    if rate.len() <= 1 {
        0
    } else {
        let before = oldest_place(rate.drop_last());
        if rate.last().window_start < rate[before].window_start {
            rate.len() - 1
        } else {
            before
        }
    }
}

/// The quotas without the `k` whose windows began first.
pub open spec fn without_oldest(rate: Seq<RateEntry>, k: nat) -> Seq<RateEntry>
    decreases k,
{
    if k == 0 || rate.len() == 0 {
        rate
    } else {
        without_oldest(rate.remove(oldest_place(rate)), (k - 1) as nat)
    }
}

/// The oldest quota stands among the quotas, and no window began before
/// its window.
pub proof fn lemma_oldest_place(rate: Seq<RateEntry>)
    requires
        rate.len() > 0,
    ensures
        0 <= oldest_place(rate) < rate.len(),
        forall|j: int|
            0 <= j < rate.len() ==> rate[oldest_place(rate)].window_start <= (
            #[trigger] rate[j]).window_start,
    decreases rate.len(),
{
    if rate.len() > 1 {
        let t = rate.drop_last();
        lemma_oldest_place(t);
        let b = oldest_place(t);
        assert(t[b] == rate[b]);
        assert forall|j: int| 0 <= j < rate.len() implies rate[oldest_place(rate)].window_start
            <= (#[trigger] rate[j]).window_start by {
            if j < t.len() {
                assert(t[j] == rate[j]);
            }
        }
    }
}

/// The quotas after a sweep at `now`: those whose window began 60
/// seconds ago or earlier are forgotten, and where more than 50 000 are
/// left, the oldest tenth of them is forgotten too.
pub open spec fn swept_quotas(rate: Seq<RateEntry>, now: u64) -> Seq<RateEntry> {
    let kept = fresh_quotas(rate, now);
    if kept.len() > MAX_RATE_ENTRIES {
        without_oldest(kept, kept.len() / 10)
    } else {
        kept
    }
}

fn find_oldest(rate: &Vec<RateEntry>) -> (r: usize)
    requires
        rate@.len() > 0,
    ensures
        r == oldest_place(rate@),
        r < rate@.len(),
{
    let n = rate.len();
    let mut best: usize = 0;
    let mut i: usize = 1;
    assert(rate@.take(1).len() == 1);
    while i < n
        invariant
            1 <= i <= n,
            n == rate@.len(),
            best < i,
            best == oldest_place(rate@.take(i as int)),
        decreases n - i,
    {
        assert(rate@.take(i + 1).drop_last() =~= rate@.take(i as int));
        assert(rate@.take(i + 1).last() == rate@[i as int]);
        assert(rate@.take(i + 1)[best as int] == rate@[best as int]);
        if rate[i].window_start < rate[best].window_start {
            best = i;
        }
        i = i + 1;
    }
    assert(rate@.take(n as int) =~= rate@);
    best
}

/// Sweeps the quotas at `now`.
pub fn cleanup_rate_entries(rate: &mut Vec<RateEntry>, now: u64)
    ensures
        final(rate)@ == swept_quotas(old(rate)@, now),
{
    let ghost r0 = rate@;
    let mut i: usize = 0;
    let mut done: Ghost<int> = Ghost(0);
    assert(r0.take(0) =~= Seq::<RateEntry>::empty());
    assert(r0.skip(0) =~= r0);
    while i < rate.len()
        invariant
            i <= rate@.len(),
            0 <= done@ <= r0.len(),
            rate@.take(i as int) == fresh_quotas(r0.take(done@), now),
            rate@.skip(i as int) == r0.skip(done@),
        decreases rate@.len() - i,
    {
        let ghost cur = rate@;
        proof {
            assert(cur.skip(i as int).len() == cur.len() - i);
            assert(r0.skip(done@).len() == r0.len() - done@);
            assert(cur[i as int] == cur.skip(i as int)[0]);
            assert(r0[done@] == r0.skip(done@)[0]);
            assert(r0.take(done@ + 1).drop_last() =~= r0.take(done@));
            assert(r0.take(done@ + 1).last() == r0[done@]);
            assert(r0.skip(done@ + 1) =~= r0.skip(done@).skip(1));
        }
        if elapsed(rate[i].window_start, now) >= RATE_ENTRY_TTL_MS {
            rate.remove(i);
            proof {
                assert(rate@ =~= cur.remove(i as int));
                assert(rate@.take(i as int) =~= cur.take(i as int));
                assert(rate@.skip(i as int) =~= cur.skip(i as int).skip(1));
            }
        } else {
            proof {
                assert(cur.take(i + 1) =~= cur.take(i as int).push(cur[i as int]));
                assert(cur.skip(i + 1) =~= cur.skip(i as int).skip(1));
            }
            i = i + 1;
        }
        proof {
            done@ = done@ + 1;
        }
    }
    proof {
        assert(rate@.skip(i as int).len() == 0);
        assert(r0.take(done@) =~= r0);
        assert(rate@.take(i as int) =~= rate@);
    }
    if rate.len() > MAX_RATE_ENTRIES {
        let ghost kept = rate@;
        let to_remove = rate.len() / 10;
        let mut k: usize = to_remove;
        while k > 0
            invariant
                k <= to_remove,
                without_oldest(kept, to_remove as nat) == without_oldest(rate@, k as nat),
                rate@.len() + (to_remove - k) == kept.len(),
                to_remove <= kept.len() / 10,
                kept.len() > MAX_RATE_ENTRIES,
            decreases k,
        {
            let at = find_oldest(rate);
            rate.remove(at);
            k = k - 1;
        }
    }
}

/// A counter after one more event; it stays where it cannot count on.
pub open spec fn counted(n: u64) -> u64 {
    if n == u64::MAX {
        n
    } else {
        (n + 1) as u64
    }
}

fn count_up(n: u64) -> (r: u64)
    ensures
        r == counted(n),
{
    if n == u64::MAX {
        n
    } else {
        n + 1
    }
}

/// What the relay does with a datagram.
#[derive(Debug)]
pub enum Verdict {
    /// The datagram is empty or too large.
    DroppedSize,
    /// The source is over its quota.
    DroppedRate,
    /// The relay remembers as many peers as it may, and the source is
    /// none of them.
    DroppedPeerLimit,
    /// The datagram goes to these peers, in this order.
    Forward(Vec<SocketAddress>),
}

/// What the relay does with a datagram, as a mathematical value.
pub enum VerdictView {
    DroppedSize,
    DroppedRate,
    DroppedPeerLimit,
    Forward(Seq<SocketAddress>),
}

impl View for Verdict {
    type V = VerdictView;

    open spec fn view(&self) -> VerdictView {
        match self {
            Verdict::DroppedSize => VerdictView::DroppedSize,
            Verdict::DroppedRate => VerdictView::DroppedRate,
            Verdict::DroppedPeerLimit => VerdictView::DroppedPeerLimit,
            Verdict::Forward(v) => VerdictView::Forward(v@),
        }
    }
}

/// The place of a peer, where the relay remembers it.
pub open spec fn relay_peer_place(peers: Seq<PeerEntry>, addr: SocketAddress) -> Option<int>
    decreases peers.len(),
{
    if peers.len() == 0 {
        None
    } else {
        match relay_peer_place(peers.drop_last(), addr) {
            Some(i) => Some(i),
            None => if peers.last().addr == addr {
                Some(peers.len() - 1)
            } else {
                None
            },
        }
    }
}

/// The peers after `addr` was heard at `now`.
pub open spec fn heard(peers: Seq<PeerEntry>, addr: SocketAddress, now: u64) -> Seq<PeerEntry> {
    match relay_peer_place(peers, addr) {
        Some(i) => peers.update(i, PeerEntry { addr, last_seen: now }),
        None => peers.push(PeerEntry { addr, last_seen: now }),
    }
}

/// The addresses of the peers other than `src`, in their order.
pub open spec fn others(peers: Seq<PeerEntry>, src: SocketAddress) -> Seq<SocketAddress>
    decreases peers.len(),
{
    if peers.len() == 0 {
        Seq::<SocketAddress>::empty()
    } else if peers.last().addr == src {
        others(peers.drop_last(), src)
    } else {
        others(peers.drop_last(), src).push(peers.last().addr)
    }
}

/// A datagram goes to every peer but the one that sent it: the sender is
/// not among the addresses, every other peer is, and no address is there
/// that is not a peer's.
pub proof fn lemma_fan_out(peers: Seq<PeerEntry>, src: SocketAddress)
    ensures
        !others(peers, src).contains(src),
        forall|i: int|
            0 <= i < peers.len() && (#[trigger] peers[i]).addr != src ==> others(
                peers,
                src,
            ).contains(peers[i].addr),
        forall|a: SocketAddress|
            others(peers, src).contains(a) ==> exists|i: int|
                0 <= i < peers.len() && (#[trigger] peers[i]).addr == a,
        others(peers, src).len() <= peers.len(),
    decreases peers.len(),
{
    if peers.len() > 0 {
        let t = peers.drop_last();
        let last = peers.last();
        lemma_fan_out(t, src);
        let o = others(peers, src);
        let ot = others(t, src);
        assert forall|i: int| 0 <= i < peers.len() && (#[trigger] peers[i]).addr
            != src implies o.contains(peers[i].addr) by {
            if i < t.len() {
                assert(t[i] == peers[i]);
                assert(ot.contains(t[i].addr));
                let k = choose|k: int| 0 <= k < ot.len() && ot[k] == t[i].addr;
                assert(o[k] == peers[i].addr);
            } else {
                assert(o[o.len() - 1] == last.addr);
            }
        }
        assert forall|a: SocketAddress| o.contains(a) implies exists|i: int|
            0 <= i < peers.len() && (#[trigger] peers[i]).addr == a by {
            let k = choose|k: int| 0 <= k < o.len() && o[k] == a;
            if k < ot.len() {
                assert(ot[k] == a);
                assert(ot.contains(a));
                let i = choose|i: int| 0 <= i < t.len() && (#[trigger] t[i]).addr == a;
                assert(peers[i].addr == a);
            } else {
                assert(peers[peers.len() - 1].addr == a);
            }
        }
        if o.contains(src) {
            let k = choose|k: int| 0 <= k < o.len() && o[k] == src;
            if k < ot.len() {
                assert(ot[k] == src);
                assert(ot.contains(src));
            }
        }
    }
}

/// Whether no address stands twice among the peers.
pub open spec fn distinct_peers(peers: Seq<PeerEntry>) -> bool {
    forall|i: int, j: int|
        0 <= i < j < peers.len() ==> (#[trigger] peers[i]).addr != (#[trigger] peers[j]).addr
}

/// Whether no source has two quotas.
pub open spec fn distinct_quotas(rate: Seq<RateEntry>) -> bool {
    forall|i: int, j: int|
        0 <= i < j < rate.len() ==> (#[trigger] rate[i]).ip != (#[trigger] rate[j]).ip
}

proof fn lemma_peer_place(peers: Seq<PeerEntry>, addr: SocketAddress)
    ensures
        match relay_peer_place(peers, addr) {
            Some(i) => 0 <= i < peers.len() && peers[i].addr == addr,
            None => forall|j: int| 0 <= j < peers.len() ==> (#[trigger] peers[j]).addr != addr,
        },
    decreases peers.len(),
{
    if peers.len() > 0 {
        lemma_peer_place(peers.drop_last(), addr);
        assert forall|j: int| 0 <= j < peers.len() - 1 implies peers.drop_last()[j]
            == peers[j] by {}
    }
}

proof fn lemma_rate_place(rate: Seq<RateEntry>, ip: IpAddress)
    ensures
        match rate_place(rate, ip) {
            Some(i) => 0 <= i < rate.len() && rate[i].ip == ip,
            None => forall|j: int| 0 <= j < rate.len() ==> (#[trigger] rate[j]).ip != ip,
        },
    decreases rate.len(),
{
    if rate.len() > 0 {
        lemma_rate_place(rate.drop_last(), ip);
        assert forall|j: int| 0 <= j < rate.len() - 1 implies rate.drop_last()[j] == rate[j] by {}
    }
}

/// A peer that is heard takes the place of its address or a new place:
/// no address comes to stand twice.
pub proof fn lemma_heard_distinct(peers: Seq<PeerEntry>, addr: SocketAddress, now: u64)
    requires
        distinct_peers(peers),
    ensures
        distinct_peers(heard(peers, addr, now)),
{
    lemma_peer_place(peers, addr);
    let after = heard(peers, addr, now);
    assert forall|i: int, j: int| 0 <= i < j < after.len() implies (#[trigger] after[i]).addr != (
    #[trigger] after[j]).addr by {
        match relay_peer_place(peers, addr) {
            Some(k) => {
                assert(after[i].addr == peers[i].addr);
                assert(after[j].addr == peers[j].addr);
            },
            None => {
                if j < peers.len() {
                    assert(after[i] == peers[i] && after[j] == peers[j]);
                } else {
                    assert(after[i] == peers[i]);
                }
            },
        }
    }
}

/// A source that is judged keeps the place of its quota or gets a new
/// place: no source comes to have two quotas.
pub proof fn lemma_judged_distinct(rate: Seq<RateEntry>, ip: IpAddress, limit: u32, now: u64)
    requires
        distinct_quotas(rate),
    ensures
        distinct_quotas(judged(rate, ip, limit, now)),
{
    lemma_rate_place(rate, ip);
    let after = judged(rate, ip, limit, now);
    assert forall|i: int, j: int| 0 <= i < j < after.len() implies (#[trigger] after[i]).ip != (
    #[trigger] after[j]).ip by {
        match rate_place(rate, ip) {
            Some(k) => {
                assert(after[i].ip == rate[i].ip);
                assert(after[j].ip == rate[j].ip);
            },
            None => {
                if j < rate.len() {
                    assert(after[i] == rate[i] && after[j] == rate[j]);
                } else {
                    assert(after[i] == rate[i]);
                }
            },
        }
    }
}

/// The peers that are kept were peers, and no address stands twice among
/// them where none stood twice before.
pub proof fn lemma_fresh_peers_distinct(peers: Seq<PeerEntry>, ttl_ms: int, now: u64)
    requires
        distinct_peers(peers),
    ensures
        distinct_peers(fresh_peers(peers, ttl_ms, now)),
        forall|k: int|
            0 <= k < fresh_peers(peers, ttl_ms, now).len() ==> peers.contains(
                #[trigger] fresh_peers(peers, ttl_ms, now)[k],
            ),
    decreases peers.len(),
{
    if peers.len() > 0 {
        let t = peers.drop_last();
        assert forall|i: int, j: int| 0 <= i < j < t.len() implies (#[trigger] t[i]).addr != (
        #[trigger] t[j]).addr by {
            assert(t[i] == peers[i] && t[j] == peers[j]);
        }
        lemma_fresh_peers_distinct(t, ttl_ms, now);
        let kept = fresh_peers(peers, ttl_ms, now);
        let before = fresh_peers(t, ttl_ms, now);
        assert forall|k: int| 0 <= k < kept.len() implies peers.contains(#[trigger] kept[k]) by {
            if k < before.len() {
                assert(kept[k] == before[k]);
                assert(t.contains(before[k]));
                let m = choose|m: int| 0 <= m < t.len() && t[m] == before[k];
                assert(peers[m] == kept[k]);
            } else {
                assert(peers[peers.len() - 1] == kept[k]);
            }
        }
        assert forall|i: int, j: int| 0 <= i < j < kept.len() implies (#[trigger] kept[i]).addr
            != (#[trigger] kept[j]).addr by {
            if j < before.len() {
                assert(kept[i] == before[i] && kept[j] == before[j]);
            } else {
                assert(kept[i] == before[i]);
                assert(t.contains(before[i]));
                let m = choose|m: int| 0 <= m < t.len() && t[m] == before[i];
                assert(peers[m] == kept[i]);
                assert(peers[peers.len() - 1] == kept[j]);
            }
        }
    }
}

/// The quotas that are kept were quotas, and no source has two of them
/// where none had two before.
pub proof fn lemma_fresh_quotas_distinct(rate: Seq<RateEntry>, now: u64)
    requires
        distinct_quotas(rate),
    ensures
        distinct_quotas(fresh_quotas(rate, now)),
        forall|k: int|
            0 <= k < fresh_quotas(rate, now).len() ==> rate.contains(
                #[trigger] fresh_quotas(rate, now)[k],
            ),
    decreases rate.len(),
{
    if rate.len() > 0 {
        let t = rate.drop_last();
        assert forall|i: int, j: int| 0 <= i < j < t.len() implies (#[trigger] t[i]).ip != (
        #[trigger] t[j]).ip by {
            assert(t[i] == rate[i] && t[j] == rate[j]);
        }
        lemma_fresh_quotas_distinct(t, now);
        let kept = fresh_quotas(rate, now);
        let before = fresh_quotas(t, now);
        assert forall|k: int| 0 <= k < kept.len() implies rate.contains(#[trigger] kept[k]) by {
            if k < before.len() {
                assert(kept[k] == before[k]);
                assert(t.contains(before[k]));
                let m = choose|m: int| 0 <= m < t.len() && t[m] == before[k];
                assert(rate[m] == kept[k]);
            } else {
                assert(rate[rate.len() - 1] == kept[k]);
            }
        }
        assert forall|i: int, j: int| 0 <= i < j < kept.len() implies (#[trigger] kept[i]).ip != (
        #[trigger] kept[j]).ip by {
            if j < before.len() {
                assert(kept[i] == before[i] && kept[j] == before[j]);
            } else {
                assert(kept[i] == before[i]);
                assert(t.contains(before[i]));
                let m = choose|m: int| 0 <= m < t.len() && t[m] == before[i];
                assert(rate[m] == kept[i]);
                assert(rate[rate.len() - 1] == kept[j]);
            }
        }
    }
}

/// Forgetting the oldest quotas leaves no source with two quotas.
pub proof fn lemma_without_oldest_distinct(rate: Seq<RateEntry>, k: nat)
    requires
        distinct_quotas(rate),
    ensures
        distinct_quotas(without_oldest(rate, k)),
    decreases k,
{
    if k > 0 && rate.len() > 0 {
        lemma_oldest_place(rate);
        let at = oldest_place(rate);
        let left = rate.remove(at);
        assert forall|i: int, j: int| 0 <= i < j < left.len() implies (#[trigger] left[i]).ip != (
        #[trigger] left[j]).ip by {
            let a = if i < at {
                i
            } else {
                i + 1
            };
            let b = if j < at {
                j
            } else {
                j + 1
            };
            assert(left[i] == rate[a] && left[j] == rate[b]);
        }
        lemma_without_oldest_distinct(left, (k - 1) as nat);
    }
}

/// A sweep leaves no source with two quotas.
pub proof fn lemma_swept_distinct(rate: Seq<RateEntry>, now: u64)
    requires
        distinct_quotas(rate),
    ensures
        distinct_quotas(swept_quotas(rate, now)),
{
    lemma_fresh_quotas_distinct(rate, now);
    let kept = fresh_quotas(rate, now);
    lemma_without_oldest_distinct(kept, kept.len() / 10);
}

/// The state of the relay as a mathematical value.
pub struct RelayView {
    pub max_packet: usize,
    pub rate_limit: u32,
    pub peer_ttl_secs: u64,
    pub peers: Seq<PeerEntry>,
    pub rate: Seq<RateEntry>,
    pub stats: Stats,
    pub cleanup_counter: u32,
}

/// The relay after a datagram of `len` bytes came from `src` at `now`,
/// and what it does with the datagram.
pub open spec fn received(s: RelayView, len: usize, src: SocketAddress, now: u64) -> (
    RelayView,
    VerdictView,
) {
    let stats = Stats { received: counted(s.stats.received), ..s.stats };
    if len == 0 || len > s.max_packet {
        (
            RelayView { stats: Stats { dropped_size: counted(stats.dropped_size), ..stats }, ..s },
            VerdictView::DroppedSize,
        )
    } else {
        let rate = judged(s.rate, src.ip, s.rate_limit, now);
        if !within_quota(s.rate, src.ip, s.rate_limit, now) {
            (
                RelayView {
                    rate,
                    stats: Stats { dropped_rate: counted(stats.dropped_rate), ..stats },
                    ..s
                },
                VerdictView::DroppedRate,
            )
        } else if s.peers.len() >= MAX_PEERS && relay_peer_place(s.peers, src) is None {
            (
                RelayView {
                    rate,
                    stats: Stats {
                        dropped_peer_limit: counted(stats.dropped_peer_limit),
                        ..stats
                    },
                    ..s
                },
                VerdictView::DroppedPeerLimit,
            )
        } else {
            let peers = heard(s.peers, src, now);
            if s.cleanup_counter + 1 >= CLEANUP_INTERVAL {
                let swept = fresh_peers(peers, s.peer_ttl_secs * 1000, now);
                (
                    RelayView {
                        peers: swept,
                        rate: swept_quotas(rate, now),
                        stats,
                        cleanup_counter: 0,
                        ..s
                    },
                    VerdictView::Forward(others(swept, src)),
                )
            } else {
                (
                    RelayView {
                        peers,
                        rate,
                        stats,
                        cleanup_counter: (s.cleanup_counter + 1) as u32,
                        ..s
                    },
                    VerdictView::Forward(others(peers, src)),
                )
            }
        }
    }
}

/// The relay.
pub struct Relay {
    max_packet: usize,
    rate_limit: u32,
    peer_ttl_secs: u64,
    peers: Vec<PeerEntry>,
    rate: Vec<RateEntry>,
    stats: Stats,
    cleanup_counter: u32,
}

proof fn lemma_relay_peer_place_prefix(peers: Seq<PeerEntry>, n: int, addr: SocketAddress)
    requires
        0 <= n <= peers.len(),
        relay_peer_place(peers.take(n), addr) is Some,
    ensures
        relay_peer_place(peers, addr) == relay_peer_place(peers.take(n), addr),
    decreases peers.len() - n,
{
    if n < peers.len() {
        assert(peers.take(n + 1).drop_last() =~= peers.take(n));
        lemma_relay_peer_place_prefix(peers, n + 1, addr);
    } else {
        assert(peers.take(n) =~= peers);
    }
}

impl View for Relay {
    type V = RelayView;

    closed spec fn view(&self) -> RelayView {
        RelayView {
            max_packet: self.max_packet,
            rate_limit: self.rate_limit,
            peer_ttl_secs: self.peer_ttl_secs,
            peers: self.peers@,
            rate: self.rate@,
            stats: self.stats,
            cleanup_counter: self.cleanup_counter,
        }
    }
}

impl Relay {
    /// The counter of datagrams stays below the number between two
    /// sweeps, no address stands twice among the peers, and no source
    /// has two quotas.
    pub open spec fn wf(self) -> bool {
        &&& self@.cleanup_counter < CLEANUP_INTERVAL
        &&& distinct_peers(self@.peers)
        &&& distinct_quotas(self@.rate)
    }

    /// A relay without peers, with every count at zero.
    pub fn new(max_packet: usize, rate_limit: u32, peer_ttl_secs: u64) -> (r: Relay)
        ensures
            r.wf(),
            r@ == (RelayView {
                max_packet,
                rate_limit,
                peer_ttl_secs,
                peers: Seq::<PeerEntry>::empty(),
                rate: Seq::<RateEntry>::empty(),
                stats: zero_stats(),
                cleanup_counter: 0,
            }),
    {
        Relay {
            max_packet,
            rate_limit,
            peer_ttl_secs,
            peers: Vec::new(),
            rate: Vec::new(),
            stats: Stats {
                received: 0,
                forwarded: 0,
                dropped_rate: 0,
                dropped_size: 0,
                dropped_peer_limit: 0,
                active_peers: 0,
                rate_entries: 0,
                uptime_secs: 0,
            },
            cleanup_counter: 0,
        }
    }

    fn find_peer(&self, addr: SocketAddress) -> (r: Option<usize>)
        ensures
            match r {
                Some(i) => relay_peer_place(self.peers@, addr) == Some(i as int) && i
                    < self.peers@.len(),
                None => relay_peer_place(self.peers@, addr) is None,
            },
    {
        let n = self.peers.len();
        let mut i: usize = 0;
        while i < n
            invariant
                i <= n,
                n == self.peers@.len(),
                relay_peer_place(self.peers@.take(i as int), addr) is None,
            decreases n - i,
        {
            assert(self.peers@.take(i + 1).drop_last() =~= self.peers@.take(i as int));
            assert(self.peers@.take(i + 1).last() == self.peers@[i as int]);
            if self.peers[i].addr == addr {
                proof {
                    lemma_relay_peer_place_prefix(self.peers@, i + 1, addr);
                }
                return Some(i);
            }
            i = i + 1;
        }
        assert(self.peers@.take(n as int) =~= self.peers@);
        None
    }

    fn targets(&self, src: SocketAddress) -> (r: Vec<SocketAddress>)
        ensures
            r@ == others(self.peers@, src),
    {
        let mut out: Vec<SocketAddress> = Vec::new();
        let n = self.peers.len();
        let mut i: usize = 0;
        assert(self.peers@.take(0) =~= Seq::<PeerEntry>::empty());
        while i < n
            invariant
                i <= n,
                n == self.peers@.len(),
                out@ == others(self.peers@.take(i as int), src),
            decreases n - i,
        {
            assert(self.peers@.take(i + 1).drop_last() =~= self.peers@.take(i as int));
            assert(self.peers@.take(i + 1).last() == self.peers@[i as int]);
            if !(self.peers[i].addr == src) {
                out.push(self.peers[i].addr);
            }
            i = i + 1;
        }
        assert(self.peers@.take(n as int) =~= self.peers@);
        out
    }

    /// Takes in a datagram of `len` bytes that came from `src` at `now`,
    /// and says what is to be done with it. A datagram that is empty or
    /// larger than the relay takes is dropped; so is one of a source over
    /// its quota, and one of a new source where the relay remembers as many
    /// peers as it may. Any other makes its source a peer that was heard
    /// now and goes to all other peers; every thousandth such datagram has
    /// the tables swept before that.
    pub fn receive(&mut self, len: usize, src: SocketAddress, now: u64) -> (r: Verdict)
        requires
            old(self).wf(),
        ensures
            final(self).wf(),
            final(self)@ == received(old(self)@, len, src, now).0,
            r@ == received(old(self)@, len, src, now).1,
    {
        proof {
            lemma_judged_distinct(self.rate@, src.ip, self.rate_limit, now);
            lemma_heard_distinct(self.peers@, src, now);
            lemma_fresh_peers_distinct(
                heard(self.peers@, src, now),
                self.peer_ttl_secs * 1000,
                now,
            );
            lemma_swept_distinct(judged(self.rate@, src.ip, self.rate_limit, now), now);
        }
        self.stats.received = count_up(self.stats.received);
        if len == 0 || len > self.max_packet {
            self.stats.dropped_size = count_up(self.stats.dropped_size);
            return Verdict::DroppedSize;
        }
        if !allow_packet(&mut self.rate, src.ip, self.rate_limit, now) {
            self.stats.dropped_rate = count_up(self.stats.dropped_rate);
            return Verdict::DroppedRate;
        }
        let place = self.find_peer(src);
        if self.peers.len() >= MAX_PEERS && place.is_none() {
            self.stats.dropped_peer_limit = count_up(self.stats.dropped_peer_limit);
            return Verdict::DroppedPeerLimit;
        }
        let ghost before = self.peers@;
        match place {
            Some(i) => {
                self.peers[i] = PeerEntry { addr: src, last_seen: now };
            },
            None => {
                self.peers.push(PeerEntry { addr: src, last_seen: now });
            },
        }
        assert(self.peers@ =~= heard(before, src, now));
        self.cleanup_counter = self.cleanup_counter + 1;
        if self.cleanup_counter >= CLEANUP_INTERVAL {
            cleanup_peers(&mut self.peers, self.peer_ttl_secs, now);
            cleanup_rate_entries(&mut self.rate, now);
            self.cleanup_counter = 0;
        }
        Verdict::Forward(self.targets(src))
    }

    /// Counts the sends of a datagram that succeeded.
    pub fn record_forwarded(&mut self, sent: u64)
        requires
            old(self).wf(),
        ensures
            final(self).wf(),
            final(self)@ == (RelayView {
                stats: Stats {
                    forwarded: if old(self)@.stats.forwarded + sent > u64::MAX {
                        u64::MAX
                    } else {
                        (old(self)@.stats.forwarded + sent) as u64
                    },
                    ..old(self)@.stats
                },
                ..old(self)@
            }),
    {
        self.stats.forwarded = if sent > u64::MAX - self.stats.forwarded {
            u64::MAX
        } else {
            self.stats.forwarded + sent
        };
    }

    /// Sweeps the tables at `now`, while nothing comes in.
    pub fn idle(&mut self, now: u64)
        requires
            old(self).wf(),
        ensures
            final(self).wf(),
            final(self)@ == (RelayView {
                peers: fresh_peers(old(self)@.peers, old(self)@.peer_ttl_secs * 1000, now),
                rate: swept_quotas(old(self)@.rate, now),
                ..old(self)@
            }),
    {
        proof {
            lemma_fresh_peers_distinct(self.peers@, self.peer_ttl_secs * 1000, now);
            lemma_swept_distinct(self.rate@, now);
        }
        cleanup_peers(&mut self.peers, self.peer_ttl_secs, now);
        cleanup_rate_entries(&mut self.rate, now);
    }

    /// The counts since the last snapshot, with the sizes of the tables
    /// and the time that the relay has run; the counts start anew.
    pub fn snapshot(&mut self, uptime_secs: u64) -> (r: Stats)
        requires
            old(self).wf(),
        ensures
            final(self).wf(),
            r == (Stats {
                active_peers: old(self)@.peers.len() as usize,
                rate_entries: old(self)@.rate.len() as usize,
                uptime_secs,
                ..old(self)@.stats
            }),
            final(self)@ == (RelayView { stats: zero_stats(), ..old(self)@ }),
    {
        let mut taken = self.stats;
        taken.active_peers = self.peers.len();
        taken.rate_entries = self.rate.len();
        taken.uptime_secs = uptime_secs;
        self.stats = Stats {
            received: 0,
            forwarded: 0,
            dropped_rate: 0,
            dropped_size: 0,
            dropped_peer_limit: 0,
            active_peers: 0,
            rate_entries: 0,
            uptime_secs: 0,
        };
        taken
    }

    /// The number of peers that the relay remembers.
    pub fn peer_count(&self) -> (n: usize)
        ensures
            n == self@.peers.len(),
    {
        self.peers.len()
    }

    /// The counts since the last snapshot.
    pub fn stats(&self) -> (r: Stats)
        ensures
            r == self@.stats,
    {
        self.stats
    }
}

/// Counts that are all zero.
pub open spec fn zero_stats() -> Stats {
    Stats {
        received: 0,
        forwarded: 0,
        dropped_rate: 0,
        dropped_size: 0,
        dropped_peer_limit: 0,
        active_peers: 0,
        rate_entries: 0,
        uptime_secs: 0,
    }
}

/// What the HTTP endpoint of the relay serves.
#[derive(Clone, Copy, Debug, PartialEq, Eq, Structural)]
pub enum MetricsRoute {
    /// The page of the administrator.
    AdminPage,
    /// The page that invites to the application.
    AddPage,
    /// The icon.
    Favicon,
    /// The image for previews.
    OgImage,
    /// The health of the relay.
    Health,
    /// The counts as text.
    Metrics,
    /// The counts as JSON.
    MetricsJson,
    /// Nothing.
    NotFound,
}

/// What a request asks for: only `GET` is served; a path that starts
/// with `/add` asks for the page that invites.
pub open spec fn route_of(method: Seq<char>, path: Seq<char>) -> MetricsRoute {
    if method != "GET"@ {
        MetricsRoute::NotFound
    } else if path == "/"@ {
        MetricsRoute::AdminPage
    } else if path.len() >= 4 && path.take(4) == "/add"@ {
        MetricsRoute::AddPage
    } else if path == "/favicon.ico"@ {
        MetricsRoute::Favicon
    } else if path == "/og-image.png"@ {
        MetricsRoute::OgImage
    } else if path == "/health"@ {
        MetricsRoute::Health
    } else if path == "/metrics"@ {
        MetricsRoute::Metrics
    } else if path == "/metrics/json"@ {
        MetricsRoute::MetricsJson
    } else {
        MetricsRoute::NotFound
    }
}

/// What a request asks for.
pub fn route_request(method: &str, path: &str) -> (r: MetricsRoute)
    ensures
        r == route_of(method@, path@),
{
    proof {
        reveal_strlit("/add");
    }
    if !str_eq(method, "GET") {
        MetricsRoute::NotFound
    } else if str_eq(path, "/") {
        MetricsRoute::AdminPage
    } else if path.unicode_len() >= 4 && str_eq(path.substring_char(0, 4), "/add") {
        assert(path@.subrange(0, 4) =~= path@.take(4));
        MetricsRoute::AddPage
    } else if str_eq(path, "/favicon.ico") {
        assert(path@.len() >= 4 ==> path@.subrange(0, 4) =~= path@.take(4));
        MetricsRoute::Favicon
    } else if str_eq(path, "/og-image.png") {
        assert(path@.len() >= 4 ==> path@.subrange(0, 4) =~= path@.take(4));
        MetricsRoute::OgImage
    } else if str_eq(path, "/health") {
        assert(path@.len() >= 4 ==> path@.subrange(0, 4) =~= path@.take(4));
        MetricsRoute::Health
    } else if str_eq(path, "/metrics") {
        assert(path@.len() >= 4 ==> path@.subrange(0, 4) =~= path@.take(4));
        MetricsRoute::Metrics
    } else if str_eq(path, "/metrics/json") {
        assert(path@.len() >= 4 ==> path@.subrange(0, 4) =~= path@.take(4));
        MetricsRoute::MetricsJson
    } else {
        assert(path@.len() >= 4 ==> path@.subrange(0, 4) =~= path@.take(4));
        MetricsRoute::NotFound
    }
}

/// One count as text for a scraper: what it is, its kind, and its
/// value, each on a line of its own.
pub open spec fn metric_lines(name: Seq<char>, help: Seq<char>, kind: Seq<char>, value: nat)
    -> Seq<char> {
    "# HELP "@ + name + " "@ + help + "\n"@ + "# TYPE "@ + name + " "@ + kind + "\n"@ + name
        + " "@ + decimal(value) + "\n"@
}

fn write_metric(out: String, name: &str, help: &str, kind: &str, value: u64) -> (r: String)
    ensures
        r@ == out@ + metric_lines(name@, help@, kind@, value as nat),
{
    let r = out.concat("# HELP ").concat(name).concat(" ").concat(help).concat("\n").concat(
        "# TYPE ",
    ).concat(name).concat(" ").concat(kind).concat("\n").concat(name).concat(" ").concat(
        decimal_text(value).as_str(),
    ).concat("\n");
    assert(r@ =~= out@ + metric_lines(name@, help@, kind@, value as nat));
    r
}

/// The counts as text for a scraper.
pub open spec fn metrics_text_of(s: Stats) -> Seq<char> {
    metric_lines(
        "yaok_relay_received_total"@,
        "Total packets received"@,
        "counter"@,
        s.received as nat,
    ) + metric_lines(
        "yaok_relay_forwarded_total"@,
        "Total packets forwarded"@,
        "counter"@,
        s.forwarded as nat,
    ) + metric_lines(
        "yaok_relay_dropped_rate_total"@,
        "Packets dropped due to rate limit"@,
        "counter"@,
        s.dropped_rate as nat,
    ) + metric_lines(
        "yaok_relay_dropped_size_total"@,
        "Packets dropped due to size"@,
        "counter"@,
        s.dropped_size as nat,
    ) + metric_lines(
        "yaok_relay_dropped_peer_limit_total"@,
        "Packets dropped due to peer limit"@,
        "counter"@,
        s.dropped_peer_limit as nat,
    ) + metric_lines(
        "yaok_relay_active_peers"@,
        "Active peer count"@,
        "gauge"@,
        s.active_peers as nat,
    ) + metric_lines(
        "yaok_relay_rate_entries"@,
        "Rate limiting entries"@,
        "gauge"@,
        s.rate_entries as nat,
    ) + metric_lines(
        "yaok_relay_uptime_seconds"@,
        "Server uptime"@,
        "gauge"@,
        s.uptime_secs as nat,
    )
}

/// The counts as text for a scraper.
pub fn metrics_text(stats: &Stats) -> (r: String)
    ensures
        r@ == metrics_text_of(*stats),
{
    let out = String::new();
    let ghost start = out@;
    let out = write_metric(
        out,
        "yaok_relay_received_total",
        "Total packets received",
        "counter",
        stats.received,
    );
    let out = write_metric(
        out,
        "yaok_relay_forwarded_total",
        "Total packets forwarded",
        "counter",
        stats.forwarded,
    );
    let out = write_metric(
        out,
        "yaok_relay_dropped_rate_total",
        "Packets dropped due to rate limit",
        "counter",
        stats.dropped_rate,
    );
    let out = write_metric(
        out,
        "yaok_relay_dropped_size_total",
        "Packets dropped due to size",
        "counter",
        stats.dropped_size,
    );
    let out = write_metric(
        out,
        "yaok_relay_dropped_peer_limit_total",
        "Packets dropped due to peer limit",
        "counter",
        stats.dropped_peer_limit,
    );
    let out = write_metric(
        out,
        "yaok_relay_active_peers",
        "Active peer count",
        "gauge",
        stats.active_peers as u64,
    );
    let out = write_metric(
        out,
        "yaok_relay_rate_entries",
        "Rate limiting entries",
        "gauge",
        stats.rate_entries as u64,
    );
    let out = write_metric(
        out,
        "yaok_relay_uptime_seconds",
        "Server uptime",
        "gauge",
        stats.uptime_secs,
    );
    assert(out@ =~= metrics_text_of(*stats));
    out
}

/// What a reply holds: a text that is sent as it is, or values that the
/// embedding program writes as JSON.
#[derive(Debug)]
pub enum Body {
    /// A text.
    Text(String),
    /// The counts of the relay.
    Counts(Stats),
    /// The health of the relay: it is healthy, and has run for so many
    /// seconds in this version.
    Health { uptime_secs: u64, version: String },
}

/// What a reply holds, as a mathematical value.
pub enum BodyView {
    Text(Seq<char>),
    Counts(Stats),
    Health { uptime_secs: u64, version: Seq<char> },
}

impl View for Body {
    type V = BodyView;

    open spec fn view(&self) -> BodyView {
        match self {
            Body::Text(t) => BodyView::Text(t@),
            Body::Counts(s) => BodyView::Counts(*s),
            Body::Health { uptime_secs, version } => BodyView::Health {
                uptime_secs: *uptime_secs,
                version: version@,
            },
        }
    }
}

/// What is sent back to a request: the status, the kind of content, which
/// is empty where none is named, and what the body holds.
#[derive(Debug)]
pub struct Reply {
    /// The status of the answer.
    pub status: u16,
    /// The kind of content, or nothing.
    pub content_type: String,
    /// What the body holds.
    pub body: Body,
}

/// What the relay itself answers to a request: the health and the counts
/// with their kind of content, and 404 for what it does not serve. The
/// pages and images are not the relay's to make.
pub open spec fn reply_of(route: MetricsRoute, stats: Stats, uptime_secs: u64, version: Seq<char>)
    -> Option<(u16, Seq<char>, BodyView)> {
    match route {
        MetricsRoute::Health => Some(
            (200u16, "application/json"@, BodyView::Health { uptime_secs, version }),
        ),
        MetricsRoute::Metrics => Some(
            (200u16, "text/plain; charset=utf-8"@, BodyView::Text(metrics_text_of(stats))),
        ),
        MetricsRoute::MetricsJson => Some((200u16, "application/json"@, BodyView::Counts(stats))),
        MetricsRoute::NotFound => Some(
            (404u16, Seq::<char>::empty(), BodyView::Text("Not Found"@)),
        ),
        _ => None,
    }
}

/// What the relay itself answers to a request.
pub fn answer(route: MetricsRoute, stats: &Stats, uptime_secs: u64, version: &str) -> (r: Option<
    Reply,
>)
    ensures
        match reply_of(route, *stats, uptime_secs, version@) {
            Some((status, kind, body)) => r matches Some(x) && x.status == status
                && x.content_type@ == kind && x.body@ == body,
            None => r is None,
        },
{
    match route {
        MetricsRoute::Health => Some(
            Reply {
                status: 200,
                content_type: "application/json".to_string(),
                body: Body::Health { uptime_secs, version: version.to_string() },
            },
        ),
        MetricsRoute::Metrics => Some(
            Reply {
                status: 200,
                content_type: "text/plain; charset=utf-8".to_string(),
                body: Body::Text(metrics_text(stats)),
            },
        ),
        MetricsRoute::MetricsJson => Some(
            Reply {
                status: 200,
                content_type: "application/json".to_string(),
                body: Body::Counts(*stats),
            },
        ),
        MetricsRoute::NotFound => Some(
            Reply {
                status: 404,
                content_type: String::new(),
                body: Body::Text("Not Found".to_string()),
            },
        ),
        _ => None,
    }
}

} // verus!
