//! Protection of the network: rate limits, bans and attack detection.
use crate::collections::{lemma_sum_first, lemma_sum_push, sum_of, OrdMap, OrdSet};
use crate::crypto::{bumped, elapsed};
use crate::miner::capped_u32;
use crate::types::{current_timestamp, PeerId, Timestamp};
use std::collections::VecDeque;
use vstd::prelude::*;

verus! {

/// A socket address in plain form: a tag for the family, the address, the port, and for version 6
/// the flow and the scope.
pub type NetAddr = [u8; 27];

/// Signs of an attack on the chain.
pub struct AttackDetection {
    pub block_interval_history: VecDeque<(Timestamp, u64)>,
    pub suspicious_peers: OrdSet<PeerId>,
    pub attack_detected: bool,
    pub attack_type: Option<String>,
    pub detection_time: Option<Timestamp>,
}

/// The last `n` elements of a sequence.
pub open spec fn last_of<T>(s: Seq<T>, n: nat) -> Seq<T> {
    if s.len() > n {
        s.skip(s.len() - n)
    } else {
        s
    }
}

/// The sum of the recorded intervals.
pub open spec fn interval_sum(s: Seq<(Timestamp, u64)>) -> nat
    decreases s.len(),
{
    if s.len() == 0 {
        0
    } else {
        s[0].1 as nat + interval_sum(s.drop_first())
    }
}

/// Whether the last fifty blocks came in less than three tenths of the time that they should take.
pub open spec fn blocks_too_fast(s: Seq<(Timestamp, u64)>) -> bool {
    let recent = last_of(s, 50);
    recent.len() > 0 && interval_sum(recent) < 18 * recent.len()
}

/// What is noticed, given how many hash rates were recorded and whether the recent ones are a
/// spike: nothing while there are at most a hundred, then the spike, then blocks that come too
/// fast.
pub open spec fn attack_noticed(
    samples: usize,
    spike: bool,
    intervals: Seq<(Timestamp, u64)>,
) -> Option<Seq<char>> {
    if samples <= 100 {
        None
    } else if spike {
        Some("hash_rate_spike"@)
    } else if blocks_too_fast(intervals) {
        Some("block_time_anomaly"@)
    } else {
        None
    }
}

/// Whether there is no sign of an attack.
pub open spec fn unsuspecting(d: AttackDetection) -> bool {
    &&& d.block_interval_history@ == Seq::<(Timestamp, u64)>::empty()
    &&& d.suspicious_peers@ == Set::<PeerId>::empty()
    &&& !d.attack_detected
    &&& d.attack_type is None
    &&& d.detection_time is None
}

impl AttackDetection {
    /// No sign of an attack.
    pub fn new() -> (r: Self)
        ensures
            unsuspecting(r),
    {
        AttackDetection {
            block_interval_history: VecDeque::new(),
            suspicious_peers: OrdSet::new(),
            attack_detected: false,
            attack_type: None,
            detection_time: None,
        }
    }

    /// Records the seconds between two blocks; the last thousand are kept.
    pub fn record_block_interval_at(&mut self, interval_secs: u64, now: Timestamp)
        ensures
            final(self).block_interval_history@ == last_of(
                old(self).block_interval_history@.push((now, interval_secs)),
                1000,
            ),
            final(self).suspicious_peers == old(self).suspicious_peers,
            final(self).attack_detected == old(self).attack_detected,
            final(self).attack_type == old(self).attack_type,
            final(self).detection_time == old(self).detection_time,
    {
        self.block_interval_history.push_back((now, interval_secs));
        let ghost all = self.block_interval_history@;
        assert(all.skip(0) =~= all);
        while self.block_interval_history.len() > 1000
            invariant
                self.block_interval_history@.len() <= all.len(),
                self.block_interval_history@ == all.skip(
                    all.len() - self.block_interval_history@.len(),
                ),
                all.len() > 1000 ==> self.block_interval_history@.len() >= 1000,
                all.len() <= 1000 ==> self.block_interval_history@ == all,
                self.suspicious_peers == old(self).suspicious_peers,
                self.attack_detected == old(self).attack_detected,
                self.attack_type == old(self).attack_type,
                self.detection_time == old(self).detection_time,
            decreases self.block_interval_history@.len(),
        {
            let ghost before = self.block_interval_history@;
            let _ = self.block_interval_history.pop_front();
            assert(self.block_interval_history@ =~= all.skip(
                all.len() - self.block_interval_history@.len(),
            ));
        }
    }

    /// Records the seconds between two blocks at the time that the clock shows.
    pub fn record_block_interval(&mut self, interval_secs: u64)
        ensures
            exists|now: Timestamp|
                final(self).block_interval_history@ == #[trigger] last_of(
                    old(self).block_interval_history@.push((now, interval_secs)),
                    1000,
                ),
            final(self).suspicious_peers == old(self).suspicious_peers,
            final(self).attack_detected == old(self).attack_detected,
            final(self).attack_type == old(self).attack_type,
            final(self).detection_time == old(self).detection_time,
    {
        let now: Timestamp = current_timestamp();
        self.record_block_interval_at(interval_secs, now)
    }

    /// Looks for an attack at `now`, given how many hash rates were recorded and whether the last
    /// hundred of them average more than five times those before.
    pub fn detect_51_percent_attack_at(&mut self, samples: usize, spike: bool, now: Timestamp) -> (r:
        bool)
        ensures
            r == (attack_noticed(samples, spike, old(self).block_interval_history@) is Some),
            final(self).block_interval_history@ == old(self).block_interval_history@,
            final(self).suspicious_peers == old(self).suspicious_peers,
            match attack_noticed(samples, spike, old(self).block_interval_history@) {
                Some(kind) => final(self).attack_detected && final(self).attack_type is Some
                    && final(self).attack_type->0@ == kind && final(self).detection_time == Some(
                    now,
                ),
                None => final(self).attack_detected == old(self).attack_detected && final(self).attack_type == old(self).attack_type && final(self).detection_time == old(self).detection_time,
            },
    {
        if samples <= 100 {
            return false;
        }
        if spike {
            self.attack_detected = true;
            self.attack_type = Some("hash_rate_spike".to_string());
            self.detection_time = Some(now);
            return true;
        }
        let ghost all = self.block_interval_history@;
        let len: usize = self.block_interval_history.len();
        let start: usize = if len > 50 {
            len - 50
        } else {
            0
        };
        let ghost recent = last_of(all, 50);
        assert(recent =~= all.skip(start as int));
        let mut total: u128 = 0;
        let mut i: usize = len;
        assert(all.skip(len as int) =~= Seq::empty());
        while i > start
            invariant
                start <= i <= len,
                len == all.len(),
                all == self.block_interval_history@,
                total == interval_sum(all.skip(i as int)),
                total <= (len - i) * 0xFFFF_FFFF_FFFF_FFFF,
            decreases i,
        {
            i -= 1;
            assert(all.skip(i as int).drop_first() =~= all.skip(i + 1));
            let entry = &self.block_interval_history[i];
            total = total + entry.1 as u128;
        }
        if len > 0 && total < 18 * (len - start) as u128 {
            self.attack_detected = true;
            self.attack_type = Some("block_time_anomaly".to_string());
            self.detection_time = Some(now);
            return true;
        }
        false
    }

    /// Looks for an attack at the time that the clock shows.
    pub fn detect_51_percent_attack(&mut self, samples: usize, spike: bool) -> (r: bool)
        ensures
            r == (attack_noticed(samples, spike, old(self).block_interval_history@) is Some),
            final(self).block_interval_history@ == old(self).block_interval_history@,
            final(self).suspicious_peers == old(self).suspicious_peers,
            match attack_noticed(samples, spike, old(self).block_interval_history@) {
                Some(kind) => final(self).attack_detected && final(self).attack_type is Some
                    && final(self).attack_type->0@ == kind && final(self).detection_time is Some,
                None => final(self).attack_detected == old(self).attack_detected && final(self).attack_type == old(self).attack_type && final(self).detection_time == old(self).detection_time,
            },
    {
        let now: Timestamp = current_timestamp();
        self.detect_51_percent_attack_at(samples, spike, now)
    }

    /// Takes note of a peer.
    pub fn mark_peer_suspicious(&mut self, peer_id: PeerId)
        ensures
            final(self).suspicious_peers@ == old(self).suspicious_peers@.insert(peer_id),
            final(self).block_interval_history == old(self).block_interval_history,
            final(self).attack_detected == old(self).attack_detected,
            final(self).attack_type == old(self).attack_type,
            final(self).detection_time == old(self).detection_time,
    {
        self.suspicious_peers.insert(peer_id);
    }

    /// Whether a peer was taken note of.
    pub fn is_peer_suspicious(&self, peer_id: &PeerId) -> (r: bool)
        ensures
            r == self.suspicious_peers@.contains(*peer_id),
    {
        self.suspicious_peers.contains(peer_id)
    }

    /// Forgets what was noticed, but for the peers.
    pub fn clear(&mut self)
        ensures
            !final(self).attack_detected,
            final(self).attack_type is None,
            final(self).detection_time is None,
            final(self).block_interval_history == old(self).block_interval_history,
            final(self).suspicious_peers == old(self).suspicious_peers,
    {
        self.attack_detected = false;
        self.attack_type = None;
        self.detection_time = None;
    }
}

/// The requests of an address.
#[derive(Debug, Clone, Copy, PartialEq, Eq)]
pub struct RateLimit {
    pub requests: u32,
    pub last_hour: Timestamp,
    pub last_minute: Timestamp,
    pub minute_requests: u32,
}

/// The connections of an address.
#[derive(Debug, Clone, Copy, PartialEq, Eq)]
pub struct ConnectionLimit {
    pub connections: u32,
    pub last_reset: Timestamp,
    pub failures: u32,
}

/// The requests of an address after one more at `now`: an hour and a minute after the last reset
/// they count from zero.
pub open spec fn rate_after(before: Option<RateLimit>, now: Timestamp) -> RateLimit {
    let l = match before {
        Some(l) => l,
        None => RateLimit { requests: 0, last_hour: now, last_minute: now, minute_requests: 0 },
    };
    let hour_over = elapsed(now, l.last_hour) > 3600;
    let minute_over = elapsed(now, l.last_minute) > 60;
    RateLimit {
        requests: if hour_over {
            1
        } else {
            capped_u32(l.requests + 1)
        },
        last_hour: if hour_over {
            now
        } else {
            l.last_hour
        },
        last_minute: if minute_over {
            now
        } else {
            l.last_minute
        },
        minute_requests: if minute_over {
            1
        } else {
            capped_u32(l.minute_requests + 1)
        },
    }
}

/// Whether so many requests are too many: in an hour or in a minute, fewer while under attack.
pub open spec fn too_many_requests(l: RateLimit, attack_mode: bool) -> bool {
    if attack_mode {
        l.requests > 100 || l.minute_requests > 10
    } else {
        l.requests > 1000 || l.minute_requests > 100
    }
}

/// The connections of an address at `now`: a minute after the last reset they count from zero.
pub open spec fn connections_at(before: Option<ConnectionLimit>, now: Timestamp) -> ConnectionLimit {
    let l = match before {
        Some(l) => l,
        None => ConnectionLimit { connections: 0, last_reset: now, failures: 0 },
    };
    if elapsed(now, l.last_reset) > 60 {
        ConnectionLimit { connections: 0, last_reset: now, failures: l.failures }
    } else {
        l
    }
}

/// The most connections of an address in a minute.
pub open spec fn max_connections(attack_mode: bool) -> u32 {
    if attack_mode {
        5
    } else {
        50
    }
}

/// The value under a key.
pub open spec fn lookup<K, V>(m: Map<K, V>, k: K) -> Option<V> {
    if m.contains_key(k) {
        Some(m[k])
    } else {
        None
    }
}

/// Limits on what addresses may ask for.
pub struct DDoSProtection {
    pub ip_blacklist: OrdSet<NetAddr>,
    pub ip_whitelist: OrdSet<NetAddr>,
    pub rate_limits: OrdMap<NetAddr, RateLimit>,
    pub connection_limits: OrdMap<NetAddr, ConnectionLimit>,
    pub global_request_count: u64,
    pub last_reset: Timestamp,
    pub attack_mode: bool,
}

/// Whether nothing is counted and nobody listed since `now`.
pub open spec fn unlimited(p: DDoSProtection, now: Timestamp) -> bool {
    &&& p.ip_blacklist@ == Set::<NetAddr>::empty()
    &&& p.ip_whitelist@ == Set::<NetAddr>::empty()
    &&& p.rate_limits@ == Map::<NetAddr, RateLimit>::empty()
    &&& p.connection_limits@ == Map::<NetAddr, ConnectionLimit>::empty()
    &&& p.global_request_count == 0
    &&& p.last_reset == now
    &&& !p.attack_mode
}

/// Whether a request is let through at `now`.
pub open spec fn request_allowed(p: DDoSProtection, addr: NetAddr, now: Timestamp) -> bool {
    p.ip_whitelist@.contains(addr) || (!p.ip_blacklist@.contains(addr) && !too_many_requests(
        rate_after(lookup(p.rate_limits@, addr), now),
        p.attack_mode,
    ))
}

/// The state after a request at `now`: a listed address changes nothing; of another the request is
/// counted, and the address is banned where it is too many.
pub open spec fn request_counted(
    before: DDoSProtection,
    after: DDoSProtection,
    addr: NetAddr,
    now: Timestamp,
) -> bool {
    let limit = rate_after(lookup(before.rate_limits@, addr), now);
    if before.ip_whitelist@.contains(addr) || before.ip_blacklist@.contains(addr) {
        after == before
    } else {
        &&& after.rate_limits@ == before.rate_limits@.insert(addr, limit)
        &&& after.global_request_count == bumped(before.global_request_count)
        &&& after.ip_blacklist@ == if too_many_requests(limit, before.attack_mode) {
            before.ip_blacklist@.insert(addr)
        } else {
            before.ip_blacklist@
        }
        &&& after.ip_whitelist == before.ip_whitelist
        &&& after.connection_limits == before.connection_limits
        &&& after.last_reset == before.last_reset
        &&& after.attack_mode == before.attack_mode
    }
}

/// Whether a connection is let through at `now`.
pub open spec fn connection_allowed(p: DDoSProtection, addr: NetAddr, now: Timestamp) -> bool {
    !p.ip_blacklist@.contains(addr) && connections_at(
        lookup(p.connection_limits@, addr),
        now,
    ).connections < max_connections(p.attack_mode)
}

/// The state after a connection was asked for at `now`: nothing changes for a banned address; of
/// another one the connection is counted, where it is let through.
pub open spec fn connection_counted(
    before: DDoSProtection,
    after: DDoSProtection,
    addr: NetAddr,
    now: Timestamp,
) -> bool {
    let limit = connections_at(lookup(before.connection_limits@, addr), now);
    if before.ip_blacklist@.contains(addr) {
        after == before
    } else {
        &&& after.connection_limits@ == before.connection_limits@.insert(
            addr,
            if limit.connections < max_connections(before.attack_mode) {
                ConnectionLimit { connections: (limit.connections + 1) as u32, ..limit }
            } else {
                limit
            },
        )
        &&& after.ip_blacklist == before.ip_blacklist
        &&& after.ip_whitelist == before.ip_whitelist
        &&& after.rate_limits == before.rate_limits
        &&& after.global_request_count == before.global_request_count
        &&& after.last_reset == before.last_reset
        &&& after.attack_mode == before.attack_mode
    }
}

impl DDoSProtection {
    /// No limits reached, at `now`.
    pub fn new_at(now: Timestamp) -> (r: Self)
        ensures
            unlimited(r, now),
    {
        DDoSProtection {
            ip_blacklist: OrdSet::new(),
            ip_whitelist: OrdSet::new(),
            rate_limits: OrdMap::new(),
            connection_limits: OrdMap::new(),
            global_request_count: 0,
            last_reset: now,
            attack_mode: false,
        }
    }

    /// No limits reached, at the time that the clock shows.
    pub fn new() -> (r: Self)
        ensures
            unlimited(r, r.last_reset),
    {
        Self::new_at(current_timestamp())
    }

    /// Counts a request at `now` and says whether it is let through.
    pub fn check_rate_limit_at(&mut self, addr: NetAddr, now: Timestamp) -> (r: bool)
        ensures
            r == request_allowed(*old(self), addr, now),
            request_counted(*old(self), *final(self), addr, now),
    {
        if self.ip_whitelist.contains(&addr) {
            return true;
        }
        if self.ip_blacklist.contains(&addr) {
            return false;
        }
        let mut limit = match self.rate_limits.get(&addr) {
            Some(l) => *l,
            None => RateLimit {
                requests: 0,
                last_hour: now,
                last_minute: now,
                minute_requests: 0,
            },
        };
        if now > limit.last_hour && now - limit.last_hour > 3600 {
            limit.requests = 0;
            limit.last_hour = now;
        }
        if now > limit.last_minute && now - limit.last_minute > 60 {
            limit.minute_requests = 0;
            limit.last_minute = now;
        }
        limit.requests = limit.requests.saturating_add(1);
        limit.minute_requests = limit.minute_requests.saturating_add(1);
        self.rate_limits.insert(addr, limit);
        self.global_request_count = self.global_request_count.saturating_add(1);
        let max_per_hour: u32 = if self.attack_mode {
            100
        } else {
            1000
        };
        let max_per_minute: u32 = if self.attack_mode {
            10
        } else {
            100
        };
        if limit.requests > max_per_hour || limit.minute_requests > max_per_minute {
            self.ip_blacklist.insert(addr);
            return false;
        }
        true
    }

    /// Counts a request at the time that the clock shows and says whether it is let through.
    pub fn check_rate_limit(&mut self, addr: NetAddr) -> (r: bool)
        ensures
            exists|now: Timestamp|
                r == #[trigger] request_allowed(*old(self), addr, now) && request_counted(
                    *old(self),
                    *final(self),
                    addr,
                    now,
                ),
    {
        let now: Timestamp = current_timestamp();
        self.check_rate_limit_at(addr, now)
    }

    /// Counts a connection at `now` and says whether it is let through.
    pub fn check_connection_limit_at(&mut self, addr: NetAddr, now: Timestamp) -> (r: bool)
        ensures
            r == connection_allowed(*old(self), addr, now),
            connection_counted(*old(self), *final(self), addr, now),
    {
        if self.ip_blacklist.contains(&addr) {
            return false;
        }
        let mut limit = match self.connection_limits.get(&addr) {
            Some(l) => *l,
            None => ConnectionLimit { connections: 0, last_reset: now, failures: 0 },
        };
        if now > limit.last_reset && now - limit.last_reset > 60 {
            limit.connections = 0;
            limit.last_reset = now;
        }
        let most: u32 = if self.attack_mode {
            5
        } else {
            50
        };
        let allowed: bool = limit.connections < most;
        if allowed {
            limit.connections = limit.connections + 1;
        }
        self.connection_limits.insert(addr, limit);
        allowed
    }

    /// Counts a connection at the time that the clock shows and says whether it is let through.
    pub fn check_connection_limit(&mut self, addr: NetAddr) -> (r: bool)
        ensures
            exists|now: Timestamp|
                r == #[trigger] connection_allowed(*old(self), addr, now) && connection_counted(
                    *old(self),
                    *final(self),
                    addr,
                    now,
                ),
    {
        let now: Timestamp = current_timestamp();
        self.check_connection_limit_at(addr, now)
    }

    /// Counts a failure of an address that has connected; the eleventh bans it.
    pub fn record_failure(&mut self, addr: NetAddr)
        ensures
            !old(self).connection_limits@.contains_key(addr) ==> *final(self) == *old(self),
            old(self).connection_limits@.contains_key(addr) ==> {
                let l = old(self).connection_limits@[addr];
                let failures = capped_u32(l.failures + 1);
                &&& final(self).connection_limits@ == old(self).connection_limits@.insert(
                    addr,
                    ConnectionLimit { failures, ..l },
                )
                &&& final(self).ip_blacklist@ == if failures > 10 {
                    old(self).ip_blacklist@.insert(addr)
                } else {
                    old(self).ip_blacklist@
                }
            },
            final(self).ip_whitelist == old(self).ip_whitelist,
            final(self).rate_limits == old(self).rate_limits,
            final(self).global_request_count == old(self).global_request_count,
            final(self).last_reset == old(self).last_reset,
            final(self).attack_mode == old(self).attack_mode,
    {
        let found = match self.connection_limits.get(&addr) {
            Some(l) => Some(*l),
            None => None,
        };
        if let Some(l) = found {
            let mut limit = l;
            limit.failures = limit.failures.saturating_add(1);
            self.connection_limits.insert(addr, limit);
            if limit.failures > 10 {
                self.ip_blacklist.insert(addr);
            }
        }
    }

    /// Lets an address through from now on.
    pub fn whitelist_ip(&mut self, addr: NetAddr)
        ensures
            final(self).ip_whitelist@ == old(self).ip_whitelist@.insert(addr),
            final(self).ip_blacklist@ == old(self).ip_blacklist@.remove(addr),
            same_limits(*old(self), *final(self)),
            final(self).attack_mode == old(self).attack_mode,
    {
        self.ip_whitelist.insert(addr);
        self.ip_blacklist.remove(&addr);
    }

    /// Bans an address.
    pub fn blacklist_ip(&mut self, addr: NetAddr)
        ensures
            final(self).ip_blacklist@ == old(self).ip_blacklist@.insert(addr),
            final(self).ip_whitelist@ == old(self).ip_whitelist@.remove(addr),
            same_limits(*old(self), *final(self)),
            final(self).attack_mode == old(self).attack_mode,
    {
        self.ip_blacklist.insert(addr);
        self.ip_whitelist.remove(&addr);
    }

    /// Tightens the limits.
    pub fn enable_attack_mode(&mut self)
        ensures
            *final(self) == (DDoSProtection { attack_mode: true, ..*old(self) }),
    {
        self.attack_mode = true;
    }

    /// Loosens the limits.
    pub fn disable_attack_mode(&mut self)
        ensures
            *final(self) == (DDoSProtection { attack_mode: false, ..*old(self) }),
    {
        self.attack_mode = false;
    }

    /// Whether an address is banned.
    pub fn is_banned(&self, addr: &NetAddr) -> (r: bool)
        ensures
            r == self.ip_blacklist@.contains(*addr),
    {
        self.ip_blacklist.contains(addr)
    }
}

/// Whether the counters of two states are the same.
pub open spec fn same_limits(a: DDoSProtection, b: DDoSProtection) -> bool {
    &&& a.rate_limits == b.rate_limits
    &&& a.connection_limits == b.connection_limits
    &&& a.global_request_count == b.global_request_count
    &&& a.last_reset == b.last_reset
}

/// A banned address that is not let through by name stays banned: a request changes nothing and is
/// refused, and so is a connection.
pub proof fn law_banned_stays_banned(
    before: DDoSProtection,
    after: DDoSProtection,
    addr: NetAddr,
    now: Timestamp,
)
    requires
        before.ip_blacklist@.contains(addr),
        !before.ip_whitelist@.contains(addr),
    ensures
        !request_allowed(before, addr, now),
        !connection_allowed(before, addr, now),
        request_counted(before, after, addr, now) ==> after == before,
        connection_counted(before, after, addr, now) ==> after == before,
{
}

/// Of the requests of an address within a minute, no more than a hundred are let through: the
/// next one is refused and bans it.
pub proof fn law_minute_limit(before: DDoSProtection, after: DDoSProtection, addr: NetAddr, now: Timestamp)
    requires
        !before.ip_whitelist@.contains(addr),
        !before.ip_blacklist@.contains(addr),
        !before.attack_mode,
        before.rate_limits@.contains_key(addr),
        before.rate_limits@[addr].minute_requests >= 100,
        elapsed(now, before.rate_limits@[addr].last_minute) <= 60,
        request_counted(before, after, addr, now),
    ensures
        !request_allowed(before, addr, now),
        after.ip_blacklist@.contains(addr),
{
}

/// How many requests of an address count at a time, with the one that is made: those of the hour
/// and those of the minute. Each count begins again when more than an hour, or a minute, has passed
/// since it began.
pub open spec fn requests_now(p: DDoSProtection, addr: NetAddr, now: Timestamp) -> (nat, nat) {
    if p.rate_limits@.contains_key(addr) {
        let l = p.rate_limits@[addr];
        (
            if now > l.last_hour + 3600 {
                1
            } else {
                (l.requests + 1) as nat
            },
            if now > l.last_minute + 60 {
                1
            } else {
                (l.minute_requests + 1) as nat
            },
        )
    } else {
        (1, 1)
    }
}

/// A request is let through exactly when the address is let through by name, or it is not banned
/// and makes no more than 1000 requests an hour and 100 a minute; under attack 100 and 10. One that
/// is too many bans the address, and no other request does.
pub proof fn law_when_a_request_is_let_through(
    before: DDoSProtection,
    after: DDoSProtection,
    addr: NetAddr,
    now: Timestamp,
)
    requires
        request_counted(before, after, addr, now),
        before.rate_limits@.contains_key(addr) ==> before.rate_limits@[addr].requests < u32::MAX
            && before.rate_limits@[addr].minute_requests < u32::MAX,
    ensures
        ({
            let (hour, minute) = requests_now(before, addr, now);
            let few = if before.attack_mode {
                hour <= 100 && minute <= 10
            } else {
                hour <= 1000 && minute <= 100
            };
            let named = before.ip_whitelist@.contains(addr);
            let banned = before.ip_blacklist@.contains(addr);
            &&& request_allowed(before, addr, now) <==> named || (!banned && few)
            &&& after.ip_blacklist@.contains(addr) <==> banned || (!named && !few)
            &&& forall|a: NetAddr|
                a != addr ==> (#[trigger] after.ip_blacklist@.contains(a)
                    <==> before.ip_blacklist@.contains(a))
            &&& !named && !banned ==> after.rate_limits@.contains_key(addr)
                && after.rate_limits@[addr].requests == hour
                && after.rate_limits@[addr].minute_requests == minute
        }),
{
}

/// A connection is let through exactly when the address is not banned and has made fewer than 50 in
/// the minute, under attack fewer than 5; it then counts as one more, and nobody is banned by it.
pub proof fn law_when_a_connection_is_let_through(
    before: DDoSProtection,
    after: DDoSProtection,
    addr: NetAddr,
    now: Timestamp,
)
    requires
        connection_counted(before, after, addr, now),
    ensures
        ({
            let made = if before.connection_limits@.contains_key(addr) && now
                <= before.connection_limits@[addr].last_reset + 60 {
                before.connection_limits@[addr].connections as nat
            } else {
                0
            };
            let few = if before.attack_mode {
                made < 5
            } else {
                made < 50
            };
            let banned = before.ip_blacklist@.contains(addr);
            &&& connection_allowed(before, addr, now) <==> !banned && few
            &&& !banned ==> after.connection_limits@.contains_key(addr)
                && after.connection_limits@[addr].connections == if few {
                made + 1
            } else {
                made
            }
            &&& after.ip_blacklist@ == before.ip_blacklist@
        }),
{
}

/// An attack is noticed exactly when more than a hundred hash rates were recorded and they spike or
/// the last blocks, at most fifty of them, came in less than 18 seconds each on the average.
pub proof fn law_when_an_attack_is_noticed(
    samples: usize,
    spike: bool,
    intervals: Seq<(Timestamp, u64)>,
)
    ensures
        ({
            let recent = if intervals.len() > 50 {
                intervals.skip(intervals.len() - 50)
            } else {
                intervals
            };
            let taken = sum_of(recent.map_values(|e: (Timestamp, u64)| e.1 as nat));
            attack_noticed(samples, spike, intervals) is Some <==> samples > 100 && (spike || (
            recent.len() > 0 && taken < 18 * recent.len()))
        }),
{
    let recent = if intervals.len() > 50 {
        intervals.skip(intervals.len() - 50)
    } else {
        intervals
    };
    lemma_intervals_add_up(recent);
}

proof fn lemma_intervals_add_up(s: Seq<(Timestamp, u64)>)
    ensures
        interval_sum(s) == sum_of(s.map_values(|e: (Timestamp, u64)| e.1 as nat)),
    decreases s.len(),
{
    let f = |e: (Timestamp, u64)| e.1 as nat;
    lemma_sum_push(Seq::<nat>::empty(), 0);
    if s.len() == 0 {
        assert(s.map_values(f) =~= Seq::<nat>::empty());
    } else {
        lemma_intervals_add_up(s.drop_first());
        lemma_sum_first(s.map_values(f));
        assert(s.map_values(f).drop_first() =~= s.drop_first().map_values(f));
    }
}

} // verus!
