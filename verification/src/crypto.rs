//! The proof-of-work hash, its cache, and the cheap filter before it.
use crate::bytes::{array_less, array_of, be_value, le_bytes, push_le, slices_equal, vec_of};
use crate::constants::{ARGON2_ITERATIONS, ARGON2_MEMORY_KB, ARGON2_PARALLELISM};
use crate::primitives::{argon2id, argon2id_of, sha256, sha256_of};
use crate::types::{current_timestamp, Hash32, Target};
use vstd::prelude::*;

verus! {

/// The bytes that are hashed before the data to make the salt: `ACCUMPOWv3.2+!!!`.
pub open spec fn salt_prefix() -> Seq<u8> {
    seq![
        0x41u8,
        0x43u8,
        0x43u8,
        0x55u8,
        0x4Du8,
        0x50u8,
        0x4Fu8,
        0x57u8,
        0x76u8,
        0x33u8,
        0x2Eu8,
        0x32u8,
        0x2Bu8,
        0x21u8,
        0x21u8,
        0x21u8,
    ]
}

/// The salt of the proof-of-work hash of `data`.
pub open spec fn pow_salt(data: Seq<u8>) -> Seq<u8> {
    sha256_of(salt_prefix() + data).take(16)
}

/// The proof-of-work hash of `data`.
pub open spec fn pow_hash_of(data: Seq<u8>) -> Seq<u8> {
    argon2id_of(
        ARGON2_MEMORY_KB,
        ARGON2_ITERATIONS,
        ARGON2_PARALLELISM,
        data,
        pow_salt(data),
    )
}

/// `x + 1`, or `x` where that is the largest number.
pub open spec fn bumped(x: u64) -> u64 {
    if x < u64::MAX {
        (x + 1) as u64
    } else {
        x
    }
}

/// The seconds from `then` to `now`, zero where `now` is the earlier of the two.
pub open spec fn elapsed(now: u64, then: u64) -> int {
    if now >= then {
        now - then
    } else {
        0
    }
}

/// A remembered hash: the data, its hash, and when it was computed.
pub struct CacheEntry {
    data: Vec<u8>,
    hash: Hash32,
    time: u64,
}

impl View for CacheEntry {
    type V = (Seq<u8>, Hash32, u64);

    closed spec fn view(&self) -> (Seq<u8>, Hash32, u64) {
        (self.data@, self.hash, self.time)
    }
}

/// Whether an entry may still be used at `now`.
pub open spec fn fresh(e: (Seq<u8>, Hash32, u64), now: u64) -> bool {
    elapsed(now, e.2) < 60
}

/// Whether a cache keeps an entry when it learns the hash of `data` at `now`: it is not for
/// `data`, and a full cache keeps what is still fresh.
pub open spec fn kept_entry(
    e: (Seq<u8>, Hash32, u64),
    full: bool,
    data: Seq<u8>,
    now: u64,
) -> bool {
    (full ==> fresh(e, now)) && e.0 != data
}

/// The entries after a hash of `data` was computed at `now`: a full cache drops what is no
/// longer fresh, and the entry for `data` is new.
pub open spec fn remembered(
    entries: Seq<(Seq<u8>, Hash32, u64)>,
    max_size: nat,
    data: Seq<u8>,
    hash: Hash32,
    now: u64,
) -> Seq<(Seq<u8>, Hash32, u64)> {
    let full = entries.len() >= max_size;
    entries.filter(|e: (Seq<u8>, Hash32, u64)| kept_entry(e, full, data, now)).push(
        (data, hash, now),
    )
}

/// Whether a fresh hash of `data` is among the entries.
pub open spec fn remembers(
    entries: Seq<(Seq<u8>, Hash32, u64)>,
    data: Seq<u8>,
    now: u64,
) -> bool {
    exists|i: int|
        0 <= i < entries.len() && (#[trigger] entries[i]).0 == data && fresh(entries[i], now)
}

/// A cache of proof-of-work hashes.
pub struct Argon2Cache {
    cache: Vec<CacheEntry>,
    max_size: usize,
    hits: u64,
    misses: u64,
    total_time: u64,
    total_hashes: u64,
}

impl Argon2Cache {
    #[verifier::type_invariant]
    spec fn well_formed(self) -> bool {
        &&& forall|i: int|
            0 <= i < self.cache@.len() ==> (#[trigger] self.cache@[i]).hash@ == pow_hash_of(
                self.cache@[i].data@,
            )
        &&& forall|i: int, j: int|
            0 <= i < j < self.cache@.len() ==> (#[trigger] self.cache@[i]).data@ != (
            #[trigger] self.cache@[j]).data@
    }

    /// The remembered hashes, oldest computation first.
    pub closed spec fn entries(self) -> Seq<(Seq<u8>, Hash32, u64)> {
        self.cache@.map_values(|e: CacheEntry| e@)
    }

    /// The size at which stale entries are dropped.
    pub closed spec fn max_size(self) -> nat {
        self.max_size as nat
    }

    /// How many hashes were answered from the cache.
    pub closed spec fn hits(self) -> u64 {
        self.hits
    }

    /// How many hashes were computed.
    pub closed spec fn misses(self) -> u64 {
        self.misses
    }

    /// How many computations were timed.
    pub closed spec fn timed(self) -> u64 {
        self.total_hashes
    }

    /// The milliseconds that the timed computations took.
    pub closed spec fn spent(self) -> u64 {
        self.total_time
    }

    /// An empty cache.
    pub fn new(max_size: usize) -> (r: Self)
        ensures
            r.entries() == Seq::<(Seq<u8>, Hash32, u64)>::empty(),
            r.max_size() == max_size,
            r.hits() == 0,
            r.misses() == 0,
            r.timed() == 0,
            r.spent() == 0,
    {
        let r = Argon2Cache {
            cache: Vec::new(),
            max_size,
            hits: 0,
            misses: 0,
            total_time: 0,
            total_hashes: 0,
        };
        assert(r.entries() =~= Seq::<(Seq<u8>, Hash32, u64)>::empty());
        r
    }

    /// The position of the entry for `data`.
    fn position(&self, data: &[u8]) -> (r: Option<usize>)
        ensures
            match r {
                Some(i) => i < self.cache@.len() && self.cache@[i as int].data@ == data@,
                None => forall|i: int|
                    0 <= i < self.cache@.len() ==> (#[trigger] self.cache@[i]).data@ != data@,
            },
    {
        let mut i: usize = 0;
        while i < self.cache.len()
            invariant
                i <= self.cache@.len(),
                forall|j: int| 0 <= j < i ==> (#[trigger] self.cache@[j]).data@ != data@,
            decreases self.cache@.len() - i,
        {
            if slices_equal(self.cache[i].data.as_slice(), data) {
                return Some(i);
            }
            i += 1;
        }
        None
    }

    /// The proof-of-work hash of `data` when the clock shows `now`, from the cache where it holds
    /// a fresh one.
    pub fn hash_at(&mut self, data: &[u8], now: u64) -> (r: Hash32)
        requires
            data@.len() <= 0xFFFF_FFFF,
        ensures
            r@ == pow_hash_of(data@),
            asked_at(*old(self), *final(self), data@, r, now),
    {
        proof {
            use_type_invariant(&*self);
        }
        let start = start_timer();
        let ghost before = self.entries();
        match self.position(data) {
            Some(i) => {
                let time: u64 = self.cache[i].time;
                let ghost at = i as int;
                assert(before[at] == self.cache@[at]@);
                if now < time || now - time < 60 {
                    assert(remembers(before, data@, now));
                    self.hits = self.hits.saturating_add(1);
                    let hash: Hash32 = self.cache[i].hash;
                    return hash;
                }
                assert(!remembers(before, data@, now)) by {
                    if remembers(before, data@, now) {
                        let j = choose|j: int|
                            0 <= j < before.len() && (#[trigger] before[j]).0 == data@ && fresh(
                                before[j],
                                now,
                            );
                        assert(before[j] == self.cache@[j]@);
                        if j < at {
                            assert(self.cache@[j].data@ != self.cache@[at].data@);
                        } else if at < j {
                            assert(self.cache@[at].data@ != self.cache@[j].data@);
                        }
                    }
                }
            },
            None => {
                assert(!remembers(before, data@, now)) by {
                    if remembers(before, data@, now) {
                        let j = choose|j: int|
                            0 <= j < before.len() && (#[trigger] before[j]).0 == data@ && fresh(
                                before[j],
                                now,
                            );
                        assert(before[j] == self.cache@[j]@);
                    }
                }
            },
        }
        let hash: Hash32 = pow_hash(data);
        self.misses = self.misses.saturating_add(1);
        let full: bool = self.cache.len() >= self.max_size;
        let mut entries: Vec<CacheEntry> = Vec::new();
        std::mem::swap(&mut self.cache, &mut entries);
        retain(&mut entries, full, data, now);
        let ghost kept = entries@;
        let entry = CacheEntry { data: vec_of(data), hash, time: now };
        entries.push(entry);
        self.cache = entries;
        let spent: u64 = elapsed_millis(&start);
        self.total_time = self.total_time.saturating_add(spent);
        self.total_hashes = self.total_hashes.saturating_add(1);
        proof {
            assert(self.entries() =~= entry_views(kept).push((data@, hash, now)));
            assert(entry_views(kept) == before.filter(
                |e: (Seq<u8>, Hash32, u64)| kept_entry(e, full, data@, now),
            ));
        }
        hash
    }

    /// The proof-of-work hash of `data`, from the cache where it holds a fresh one. The cache
    /// changes as at some reading of the clock.
    pub fn hash(&mut self, data: &[u8]) -> (r: Hash32)
        requires
            data@.len() <= 0xFFFF_FFFF,
        ensures
            r@ == pow_hash_of(data@),
            exists|now: u64| #[trigger] asked_at(*old(self), *final(self), data@, r, now),
    {
        let now: u64 = current_timestamp();
        self.hash_at(data, now)
    }

    /// Whether a cheap hash of the header with a nonce is low enough to compute the expensive
    /// one: its first eight bytes are at most those of the target.
    pub fn prefilter(header: &[u8; 120], nonce: u64, target: &Target) -> (r: bool)
        ensures
            r == passes_prefilter(header@, nonce, target.0@),
    {
        let mut data: Vec<u8> = Vec::new();
        data.extend_from_slice(header.as_slice());
        push_le(&mut data, nonce, 8);
        assert(data@ =~= header@ + le_bytes(nonce as nat, 8));
        let hash: Hash32 = sha256(data.as_slice());
        let head: [u8; 8] = array_of::<8>(&hash[0..8]);
        let bound: [u8; 8] = array_of::<8>(&target.0[0..8]);
        assert(hash@.subrange(0, 8) =~= hash@.take(8));
        assert(target.0@.subrange(0, 8) =~= target.0@.take(8));
        !array_less(&bound, &head)
    }

    /// The hits, the misses, and the milliseconds and the number of the timed computations.
    pub fn stats(&self) -> (r: (u64, u64, u64, u64))
        ensures
            r == (self.hits(), self.misses(), self.spent(), self.timed()),
    {
        (self.hits, self.misses, self.total_time, self.total_hashes)
    }
}

/// A cache after it was asked for the hash `r` of `data` at `now`: a fresh entry is a hit, and
/// nothing else changes; otherwise the hash is computed, timed and remembered.
pub open spec fn asked_at(
    before: Argon2Cache,
    after: Argon2Cache,
    data: Seq<u8>,
    r: Hash32,
    now: u64,
) -> bool {
    &&& after.max_size() == before.max_size()
    &&& if remembers(before.entries(), data, now) {
        &&& after.entries() == before.entries()
        &&& after.hits() == bumped(before.hits())
        &&& after.misses() == before.misses()
        &&& after.timed() == before.timed()
        &&& after.spent() == before.spent()
    } else {
        &&& after.entries() == remembered(before.entries(), before.max_size(), data, r, now)
        &&& after.hits() == before.hits()
        &&& after.misses() == bumped(before.misses())
        &&& after.timed() == bumped(before.timed())
        &&& after.spent() >= before.spent()
    }
}

/// Whether the first eight bytes of the SHA-256 digest of a header and a nonce are at most those
/// of the target.
pub open spec fn passes_prefilter(header: Seq<u8>, nonce: u64, target: Seq<u8>) -> bool {
    be_value(sha256_of(header + le_bytes(nonce as nat, 8)).take(8)) <= be_value(target.take(8))
}

/// What the cache keeps of its entries: they hold the hashes of their data, each for other data.
spec fn sound_entries(s: Seq<CacheEntry>) -> bool {
    &&& forall|i: int|
        0 <= i < s.len() ==> (#[trigger] s[i]).hash@ == pow_hash_of(s[i].data@)
    &&& forall|i: int, j: int|
        0 <= i < j < s.len() ==> (#[trigger] s[i]).data@ != (#[trigger] s[j]).data@
}

/// The views of a sequence of entries.
spec fn entry_views(s: Seq<CacheEntry>) -> Seq<(Seq<u8>, Hash32, u64)> {
    s.map_values(|e: CacheEntry| e@)
}

/// Drops the entry for `data`, and from a full cache those that are no longer fresh.
fn retain(entries: &mut Vec<CacheEntry>, full: bool, data: &[u8], now: u64)
    requires
        sound_entries(old(entries)@),
    ensures
        sound_entries(final(entries)@),
        forall|i: int|
            0 <= i < final(entries)@.len() ==> (#[trigger] final(entries)@[i]).data@ != data@,
        entry_views(final(entries)@) == entry_views(old(entries)@).filter(
            |e: (Seq<u8>, Hash32, u64)| kept_entry(e, full, data@, now),
        ),
{
    let ghost all = entry_views(entries@);
    let ghost keep = |e: (Seq<u8>, Hash32, u64)| kept_entry(e, full, data@, now);
    let mut i: usize = 0;
    let ghost mut k: int = 0;
    proof {
        reveal(Seq::filter);
        assert(all.take(0).filter(keep) =~= Seq::empty());
        assert(all.skip(0) =~= all);
    }
    while i < entries.len()
        invariant
            0 <= k <= all.len(),
            i <= entries@.len(),
            keep == (|e: (Seq<u8>, Hash32, u64)| kept_entry(e, full, data@, now)),
            sound_entries(entries@),
            i == all.take(k).filter(keep).len(),
            entry_views(entries@) == all.take(k).filter(keep) + all.skip(k),
            forall|j: int| 0 <= j < i ==> (#[trigger] entries@[j]).data@ != data@,
        decreases all.len() - k,
    {
        let ghost before = entries@;
        let e = &entries[i];
        let time: u64 = e.time;
        let keeps: bool = (!full || now < time || now - time < 60) && !slices_equal(
            e.data.as_slice(),
            data,
        );
        proof {
            assert(entry_views(before)[i as int] == before[i as int]@);
            assert(all.skip(k)[0] == before[i as int]@);
            assert(all.take(k + 1).drop_last() =~= all.take(k));
            reveal(Seq::filter);
        }
        if keeps {
            i += 1;
            assert(all.take(k + 1).filter(keep) =~= all.take(k).filter(keep).push(all[k]));
            assert(entry_views(entries@) =~= all.take(k + 1).filter(keep) + all.skip(k + 1));
        } else {
            entries.remove(i);
            assert(all.take(k + 1).filter(keep) =~= all.take(k).filter(keep));
            assert forall|x: int, y: int| 0 <= x < y < entries@.len() implies (
            #[trigger] entries@[x]).data@ != (#[trigger] entries@[y]).data@ by {
                let x2 = if x < i { x } else { x + 1 };
                let y2 = if y < i { y } else { y + 1 };
                assert(entries@[x] == before[x2]);
                assert(entries@[y] == before[y2]);
            }
            assert forall|x: int| 0 <= x < entries@.len() implies (#[trigger] entries@[x]).hash@
                == pow_hash_of(entries@[x].data@) by {
                let x2 = if x < i { x } else { x + 1 };
                assert(entries@[x] == before[x2]);
            }
            proof {
                let head = all.take(k).filter(keep);
                assert(entry_views(entries@) =~= entry_views(before).remove(i as int));
                assert((head + all.skip(k)).remove(i as int) =~= head + all.skip(k + 1));
            }
        }
        proof {
            k = k + 1;
        }
    }
    proof {
        assert(all.skip(k).len() == 0);
        assert(k == all.len());
        assert(all.take(k) =~= all);
        assert(entry_views(entries@) =~= all.filter(keep));
    }
}

/// The proof-of-work hash of `data`.
pub fn pow_hash(data: &[u8]) -> (r: Hash32)
    requires
        data@.len() <= 0xFFFF_FFFF,
    ensures
        r@ == pow_hash_of(data@),
{
    let mut combined: Vec<u8> = vec![
        0x41u8, 0x43u8, 0x43u8, 0x55u8, 0x4Du8, 0x50u8, 0x4Fu8, 0x57u8, 0x76u8, 0x33u8, 0x2Eu8,
        0x32u8, 0x2Bu8, 0x21u8, 0x21u8, 0x21u8,
    ];
    assert(combined@ =~= salt_prefix());
    combined.extend_from_slice(data);
    assert(combined@ =~= salt_prefix() + data@);
    let salt_hash: Hash32 = sha256(combined.as_slice());
    let salt = &salt_hash[0..16];
    assert(salt@ =~= pow_salt(data@));
    argon2id(ARGON2_MEMORY_KB, ARGON2_ITERATIONS, ARGON2_PARALLELISM, data, salt)
}

#[verifier::external_type_specification]
#[verifier::external_body]
pub struct ExInstant(std::time::Instant);

/// `std::time::Instant::now`. Nothing is claimed of the instant.
#[verifier::external_body]
pub(crate) fn start_timer() -> std::time::Instant {
    std::time::Instant::now()
}

/// `std::time::Instant::elapsed`. Nothing is claimed of the duration.
#[verifier::external_body]
pub(crate) fn time_since(start: &std::time::Instant) -> std::time::Duration {
    start.elapsed()
}

/// `std::time::Duration::as_millis`. Nothing is claimed of the number.
#[verifier::external_body]
fn whole_millis(span: std::time::Duration) -> u128 {
    span.as_millis()
}

/// The milliseconds since `start`, modulo the range of the counter.
fn elapsed_millis(start: &std::time::Instant) -> u64 {
    (whole_millis(time_since(start)) % 0x1_0000_0000_0000_0000) as u64
}

/// Whether two calls for one piece of data agree: what a cache hands out is the hash that it
/// would have computed.
pub proof fn law_cache_is_transparent(a: Hash32, b: Hash32, data: Seq<u8>)
    requires
        a@ == pow_hash_of(data),
        b@ == pow_hash_of(data),
    ensures
        a == b,
{
    assert(a =~= b);
}

/// What was asked for stays known for a minute, is found then without being computed again, and the
/// size of a cache that was not full grows by no more than one.
pub proof fn law_cache_remembers_for_a_minute(
    before: Argon2Cache,
    after: Argon2Cache,
    data: Seq<u8>,
    r: Hash32,
    now: u64,
    later: u64,
)
    requires
        asked_at(before, after, data, r, now),
        !remembers(before.entries(), data, now),
        now <= later,
    ensures
        later < now + 60 ==> remembers(after.entries(), data, later),
        later >= now + 60 ==> !remembers(after.entries(), data, later),
        before.misses() < u64::MAX ==> after.misses() == before.misses() + 1,
        after.hits() == before.hits(),
        after.entries().last() == (data, r, now),
        after.entries().len() <= before.entries().len() + 1,
{
    broadcast use vstd::seq_lib::group_filter_ensures;

    let full = before.entries().len() >= before.max_size();
    let keep = |e: (Seq<u8>, Hash32, u64)| kept_entry(e, full, data, now);
    let kept = before.entries().filter(keep);
    let last = after.entries().len() - 1;
    assert(after.entries()[last] == (data, r, now));
    if later < now + 60 {
        assert(after.entries()[last].0 == data && fresh(after.entries()[last], later));
    }
    if later >= now + 60 && remembers(after.entries(), data, later) {
        let i = choose|i: int|
            0 <= i < after.entries().len() && (#[trigger] after.entries()[i]).0 == data && fresh(
                after.entries()[i],
                later,
            );
        if i < last {
            assert(after.entries()[i] == kept[i]);
            assert(keep(kept[i]));
        }
    }
}

/// The proof-of-work hash is Argon2id over the data with 262144 kibibytes, two passes and four
/// lanes; its salt is the first half of the digest of sixteen fixed bytes, `ACCUMPOWv3.2+!!!`, and
/// the data.
pub proof fn law_parameters_of_the_work(data: Seq<u8>, salted: Seq<u8>, salt: Seq<u8>)
    requires
        salted.len() == 16 + data.len(),
        salted.skip(16) == data,
        salted.take(16) == seq![
            0x41u8, 0x43u8, 0x43u8, 0x55u8, 0x4Du8, 0x50u8, 0x4Fu8, 0x57u8, 0x76u8, 0x33u8, 0x2Eu8,
            0x32u8, 0x2Bu8, 0x21u8, 0x21u8, 0x21u8,
        ],
        salt == sha256_of(salted).take(16),
    ensures
        pow_hash_of(data) == argon2id_of(262_144, 2, 4, data, salt),
{
    assert(salted =~= salt_prefix() + data);
}

} // verus!
