//! Share packets, their checks, and limits on those who send them.
use crate::block::{
    header_bytes, law_header_bytes_injective, lemma_header_len, with_nonce, BlockHeader,
};
use crate::bytes::{
    array_less, array_of, arrays_equal, be_value, le_bytes, lemma_le_bytes_len,
    lemma_le_value_of_bytes, lemma_pow256_words, push_le, read_le, vec_of,
};
use crate::collections::{
    lemma_map_sum_insert, lemma_sorted_distinct, map_sum, sorted_by_key, OrdMap, OrdSet,
};
use crate::crypto::{pow_hash_of, start_timer, time_since};
use crate::merkle::merkle_root;
use crate::miner::{capped_u32, pool_root};
use crate::primitives::{sha256, sha256_of};
use crate::types::{shifted_byte, Hash32, MinerId, PeerId, Target};
use crate::wallet::{hash160, Wallet};
use vstd::prelude::*;

verus! {

/// Whether a hash is at most a target, both read as numbers.
pub fn hash_below_target(hash: &Hash32, target: &Hash32) -> (r: bool)
    ensures
        r == (be_value(hash@) <= be_value(target@)),
{
    !array_less(target, hash)
}

/// A share on the wire: 180 bytes, numbers least significant byte first.
#[derive(Debug, Clone, Copy, PartialEq, Eq)]
pub struct SharePacket {
    /// The identifier of the miner.
    pub miner_id: MinerId,
    /// The header that was worked on.
    pub header: BlockHeader,
    /// The nonce that was found.
    pub nonce: u64,
    /// The proof-of-work hash of the header with the nonce.
    pub hash: Hash32,
}

/// What can be wrong with a share.
#[derive(Debug, Clone, Copy, PartialEq, Eq)]
pub enum ShareError {
    InvalidLength,
    InvalidHeaderLength,
    StalePrevHash,
    InvalidMinerId,
    PrefilterRejected,
    InvalidHash,
    TargetNotMet,
    TooManyShares,
    RoundtripFailed,
    DeserializationFailed,
}

/// The words of a share error.
pub open spec fn share_error_text(e: ShareError) -> Seq<char> {
    match e {
        ShareError::InvalidLength => "Invalid share length: expected 180 bytes"@,
        ShareError::InvalidHeaderLength => "Invalid header length: expected 120 bytes"@,
        ShareError::StalePrevHash => "Stale prev_hash - not at chain tip"@,
        ShareError::InvalidMinerId => "Invalid miner_id - does not match pubkey"@,
        ShareError::PrefilterRejected => "Prefilter rejected"@,
        ShareError::InvalidHash => "Invalid hash - does not match computed"@,
        ShareError::TargetNotMet => "Target not met - hash >= target_share"@,
        ShareError::TooManyShares => "Too many shares per miner (max 5000)"@,
        ShareError::RoundtripFailed => "Roundtrip serialization failed"@,
        ShareError::DeserializationFailed => "Deserialization failed"@,
    }
}

impl ShareError {
    /// The words of the error.
    pub fn message(&self) -> (r: &'static str)
        ensures
            r@ == share_error_text(*self),
    {
        match self {
            ShareError::InvalidLength => "Invalid share length: expected 180 bytes",
            ShareError::InvalidHeaderLength => "Invalid header length: expected 120 bytes",
            ShareError::StalePrevHash => "Stale prev_hash - not at chain tip",
            ShareError::InvalidMinerId => "Invalid miner_id - does not match pubkey",
            ShareError::PrefilterRejected => "Prefilter rejected",
            ShareError::InvalidHash => "Invalid hash - does not match computed",
            ShareError::TargetNotMet => "Target not met - hash >= target_share",
            ShareError::TooManyShares => "Too many shares per miner (max 5000)",
            ShareError::RoundtripFailed => "Roundtrip serialization failed",
            ShareError::DeserializationFailed => "Deserialization failed",
        }
    }
}

/// The bytes of a share packet.
pub open spec fn packet_bytes(p: SharePacket) -> Seq<u8> {
    p.miner_id@ + header_bytes(p.header) + le_bytes(p.nonce as nat, 8) + p.hash@
}

/// The target of shares: the target of blocks shifted left by eight.
pub open spec fn packet_target(target_block: Target) -> Seq<u8> {
    Seq::new(32, |j: int| shifted_byte(target_block.0@, 8, j))
}

/// What is wrong with a share packet.
pub open spec fn packet_fault(
    p: SharePacket,
    target_block: Target,
    prev_hash: Hash32,
    pubkey: Seq<u8>,
) -> Option<ShareError> {
    let target = be_value(packet_target(target_block));
    if p.header.prev_hash != prev_hash {
        Some(ShareError::StalePrevHash)
    } else if p.miner_id@ != hash160(pubkey) {
        Some(ShareError::InvalidMinerId)
    } else if be_value(sha256_of(header_bytes(p.header) + le_bytes(p.nonce as nat, 8))) > target {
        Some(ShareError::PrefilterRejected)
    } else if pow_hash_of(header_bytes(with_nonce(p.header, p.nonce))) != p.hash@ {
        Some(ShareError::InvalidHash)
    } else if be_value(p.hash@) > target {
        Some(ShareError::TargetNotMet)
    } else {
        None
    }
}

impl SharePacket {
    /// The share of a miner with a nonce; its hash is computed.
    pub fn new(miner_id: MinerId, header: BlockHeader, nonce: u64) -> (r: Self)
        ensures
            r.miner_id == miner_id,
            r.header == header,
            r.nonce == nonce,
            r.hash@ == pow_hash_of(header_bytes(with_nonce(header, nonce))),
    {
        let hash = header.work(nonce);
        SharePacket { miner_id, header, nonce, hash }
    }

    /// The digest that identifies the share.
    pub fn share_hash(&self) -> (r: Hash32)
        ensures
            r@ == sha256_of(packet_bytes(*self)),
    {
        let bytes = self.serialize();
        sha256(bytes.as_slice())
    }

    /// Checks the share against the target of blocks, the tip of the chain and the public key of
    /// its miner.
    pub fn validate(
        &self,
        target_block: &Target,
        current_prev_hash: &Hash32,
        pubkey: &[u8; 33],
    ) -> (r: Result<(), ShareError>)
        ensures
            match r {
                Ok(()) => packet_fault(*self, *target_block, *current_prev_hash, pubkey@) is None,
                Err(e) => packet_fault(*self, *target_block, *current_prev_hash, pubkey@) == Some(
                    e,
                ),
            },
    {
        if !arrays_equal(&self.header.prev_hash, current_prev_hash) {
            return Err(ShareError::StalePrevHash);
        }
        let expected = Wallet::miner_id_from_pubkey(pubkey);
        proof {
            if self.miner_id@ == expected@ {
                assert(self.miner_id =~= expected);
            }
        }
        if !arrays_equal(&self.miner_id, &expected) {
            return Err(ShareError::InvalidMinerId);
        }
        let target_share = target_block.shift_left(8);
        let header = self.header.to_bytes();
        let mut preimage: Vec<u8> = vec_of(header.as_slice());
        push_le(&mut preimage, self.nonce, 8);
        assert(preimage@ =~= header_bytes(self.header) + le_bytes(self.nonce as nat, 8));
        let prefilter = sha256(preimage.as_slice());
        if !hash_below_target(&prefilter, &target_share.0) {
            return Err(ShareError::PrefilterRejected);
        }
        let computed = self.header.work(self.nonce);
        proof {
            if computed@ == self.hash@ {
                assert(computed =~= self.hash);
            }
        }
        if !arrays_equal(&computed, &self.hash) {
            return Err(ShareError::InvalidHash);
        }
        if !hash_below_target(&self.hash, &target_share.0) {
            return Err(ShareError::TargetNotMet);
        }
        Ok(())
    }

    /// The 180 bytes of the share.
    pub fn serialize(&self) -> (r: Vec<u8>)
        ensures
            r@ == packet_bytes(*self),
            r@.len() == 180,
    {
        let mut bytes: Vec<u8> = vec_of(self.miner_id.as_slice());
        let header = self.header.to_bytes();
        bytes.extend_from_slice(header.as_slice());
        push_le(&mut bytes, self.nonce, 8);
        bytes.extend_from_slice(self.hash.as_slice());
        proof {
            lemma_le_bytes_len(self.nonce as nat, 8);
            assert(bytes@ =~= packet_bytes(*self));
        }
        bytes
    }

    /// The share that 180 bytes stand for.
    pub fn deserialize(bytes: &[u8]) -> (r: Result<Self, ShareError>)
        ensures
            match r {
                Ok(p) => bytes@.len() == 180 && packet_bytes(p) == bytes@,
                Err(e) => bytes@.len() != 180 && e == ShareError::InvalidLength,
            },
    {
        if bytes.len() != 180 {
            return Err(ShareError::InvalidLength);
        }
        let miner_id: MinerId = array_of::<20>(&bytes[0..20]);
        let header_part: [u8; 120] = array_of::<120>(&bytes[20..140]);
        let header = BlockHeader::from_bytes(&header_part);
        let nonce: u64 = read_le(bytes, 140, 8);
        let hash: Hash32 = array_of::<32>(&bytes[148..180]);
        let r = SharePacket { miner_id, header, nonce, hash };
        proof {
            crate::bytes::lemma_le_bytes_of_value(bytes@.subrange(140, 148));
            assert(packet_bytes(r) =~= bytes@);
        }
        Ok(r)
    }

    /// Writes the share and reads it back; it is the same.
    pub fn roundtrip_test(&self) -> (r: Result<(), ShareError>)
        ensures
            r is Ok,
    {
        let bytes = self.serialize();
        let decoded = match SharePacket::deserialize(bytes.as_slice()) {
            Ok(p) => p,
            Err(e) => {
                return Err(e);
            },
        };
        proof {
            law_packet_bytes_injective(*self, decoded);
        }
        if !same_packet(self, &decoded) {
            return Err(ShareError::RoundtripFailed);
        }
        Ok(())
    }
}

fn same_packet(a: &SharePacket, b: &SharePacket) -> (r: bool)
    ensures
        r == (*a == *b),
{
    let x = a.header;
    let y = b.header;
    arrays_equal(&a.miner_id, &b.miner_id) && a.nonce == b.nonce && arrays_equal(&a.hash, &b.hash)
        && x.version == y.version && arrays_equal(&x.prev_hash, &y.prev_hash) && arrays_equal(
        &x.merkle_root,
        &y.merkle_root,
    ) && x.timestamp == y.timestamp && arrays_equal(&x.difficulty.0, &y.difficulty.0) && x.nonce
        == y.nonce && x.epoch_index == y.epoch_index
}

/// Two shares with the same bytes are the same share: what is read back of a written share is the
/// share.
pub proof fn law_packet_bytes_injective(a: SharePacket, b: SharePacket)
    requires
        packet_bytes(a) == packet_bytes(b),
    ensures
        a == b,
{
    let x = packet_bytes(a);
    lemma_header_len(a.header);
    lemma_header_len(b.header);
    lemma_pow256_words();
    lemma_le_bytes_len(a.nonce as nat, 8);
    lemma_le_bytes_len(b.nonce as nat, 8);
    lemma_le_value_of_bytes(a.nonce as nat, 8);
    lemma_le_value_of_bytes(b.nonce as nat, 8);
    assert(x.subrange(0, 20) =~= a.miner_id@);
    assert(x.subrange(0, 20) =~= b.miner_id@);
    assert(x.subrange(20, 140) =~= header_bytes(a.header));
    assert(x.subrange(20, 140) =~= header_bytes(b.header));
    assert(x.subrange(140, 148) =~= le_bytes(a.nonce as nat, 8));
    assert(x.subrange(140, 148) =~= le_bytes(b.nonce as nat, 8));
    assert(x.subrange(148, 180) =~= a.hash@);
    assert(x.subrange(148, 180) =~= b.hash@);
    law_header_bytes_injective(a.header, b.header);
    assert(a.miner_id =~= b.miner_id);
    assert(a.hash =~= b.hash);
}

/// The most shares of a miner in an epoch.
pub const MAX_PACKETS_PER_MINER: usize = 5000;

/// The shares of an epoch, by miner.
#[derive(Debug)]
pub struct EpochShares {
    shares: OrdMap<MinerId, Vec<SharePacket>>,
    share_count: usize,
    share_hashes: OrdSet<Hash32>,
}

/// The shares of a miner.
pub open spec fn packets_of(m: Map<MinerId, Vec<SharePacket>>, id: MinerId) -> Seq<SharePacket> {
    if m.contains_key(id) {
        m[id]@
    } else {
        Seq::empty()
    }
}

/// How many shares each miner has.
pub open spec fn packet_counts(m: Map<MinerId, Vec<SharePacket>>) -> Map<MinerId, nat> {
    m.map_values(|v: Vec<SharePacket>| v@.len())
}

/// Whether a miner has a share with index `i`.
pub open spec fn holds_packet(m: Map<MinerId, Vec<SharePacket>>, id: MinerId, i: int) -> bool {
    m.contains_key(id) && 0 <= i < m[id]@.len()
}

/// The digest of a share.
pub open spec fn packet_digest(p: SharePacket) -> Seq<u8> {
    sha256_of(packet_bytes(p))
}

/// Whether no two shares have one digest.
pub open spec fn packets_distinct(m: Map<MinerId, Vec<SharePacket>>) -> bool {
    forall|a: MinerId, i: int, b: MinerId, j: int|
        #![trigger holds_packet(m, a, i), holds_packet(m, b, j)]
        holds_packet(m, a, i) && holds_packet(m, b, j) && packet_digest(m[a]@[i]) == packet_digest(
            m[b]@[j],
        ) ==> a == b && i == j
}

impl EpochShares {
    /// The shares, by miner.
    pub closed spec fn by_miner(self) -> Map<MinerId, Vec<SharePacket>> {
        self.shares@
    }

    /// The digests of the shares.
    pub closed spec fn digests(self) -> Set<Hash32> {
        self.share_hashes@
    }

    /// The digests of the shares in increasing order.
    pub closed spec fn digest_list(self) -> Seq<Hash32> {
        self.share_hashes.members()
    }

    /// The number of shares.
    pub closed spec fn count(self) -> nat {
        self.share_count as nat
    }

    /// The entries in increasing order of the miners.
    pub closed spec fn entries(self) -> Seq<(MinerId, Vec<SharePacket>)> {
        self.shares.items()
    }

    /// What every operation keeps: there are as many digests as shares, the number of shares is
    /// that of all miners together, every miner that is listed has a share and none has too many,
    /// every share is of its miner, its digest is known, and no two have one digest.
    pub open spec fn wf(self) -> bool {
        &&& self.digests().finite()
        &&& self.count() == self.digests().len()
        &&& self.by_miner().dom().finite()
        &&& map_sum(packet_counts(self.by_miner())) == self.count()
        &&& forall|m: MinerId| #[trigger]
            self.by_miner().contains_key(m) ==> 1 <= self.by_miner()[m]@.len()
                <= MAX_PACKETS_PER_MINER
        &&& forall|m: MinerId, i: int|
            self.by_miner().contains_key(m) && 0 <= i < self.by_miner()[m]@.len() ==> (
            #[trigger] self.by_miner()[m]@[i]).miner_id == m && digest_known(
                self.digests(),
                self.by_miner()[m]@[i],
            )
        &&& packets_distinct(self.by_miner())
    }

    /// No shares.
    pub fn new() -> (r: Self)
        ensures
            r.wf(),
            r.by_miner() == Map::<MinerId, Vec<SharePacket>>::empty(),
            r.digests() == Set::<Hash32>::empty(),
            r.count() == 0,
    {
        let r = EpochShares {
            shares: OrdMap::new(),
            share_count: 0,
            share_hashes: OrdSet::new(),
        };
        assert(packet_counts(r.by_miner()).dom() =~= Set::<MinerId>::empty());
        r
    }

    /// Takes in a share, unless it is known; a miner may have so many.
    pub fn add_share(&mut self, share: SharePacket) -> (r: Result<(), ShareError>)
        requires
            old(self).wf(),
        ensures
            final(self).wf(),
            match r {
                Err(e) => {
                    &&& e == ShareError::TooManyShares
                    &&& !digest_known(old(self).digests(), share)
                    &&& packets_of(old(self).by_miner(), share.miner_id).len()
                        >= MAX_PACKETS_PER_MINER
                    &&& final(self).by_miner() == old(self).by_miner()
                    &&& final(self).digests() == old(self).digests()
                },
                Ok(()) => if digest_known(old(self).digests(), share) {
                    *final(self) == *old(self)
                } else {
                    &&& packets_of(old(self).by_miner(), share.miner_id).len()
                        < MAX_PACKETS_PER_MINER
                    &&& final(self).by_miner() == old(self).by_miner().insert(
                        share.miner_id,
                        final(self).by_miner()[share.miner_id],
                    )
                    &&& final(self).by_miner()[share.miner_id]@ == packets_of(
                        old(self).by_miner(),
                        share.miner_id,
                    ).push(share)
                    &&& exists|h: Hash32|
                        h@ == sha256_of(packet_bytes(share)) && final(self).digests() == (
                        #[trigger] old(self).digests().insert(h))
                    &&& final(self).count() == old(self).count() + 1
                },
            },
    {
        let share_hash = share.share_hash();
        proof {
            lemma_digest_known(self.digests(), share, share_hash);
        }
        if self.share_hashes.contains(&share_hash) {
            return Ok(());
        }
        let full: bool = match self.shares.get(&share.miner_id) {
            Some(list) => list.len() >= MAX_PACKETS_PER_MINER,
            None => false,
        };
        if full {
            return Err(ShareError::TooManyShares);
        }
        let ghost before = self.shares@;
        let ghost known = self.share_hashes@;
        let mut list: Vec<SharePacket> = match self.shares.remove(&share.miner_id) {
            Some(list) => list,
            None => Vec::new(),
        };
        let ghost was = list@;
        list.push(share);
        self.shares.insert(share.miner_id, list);
        self.share_hashes.insert(share_hash);
        let total: usize = self.share_hashes.len();
        proof {
            let id = share.miner_id;
            assert(before.remove(id).insert(id, list) =~= before.insert(id, list));
            let counts = packet_counts(before);
            assert(counts.dom() =~= before.dom());
            lemma_map_sum_insert(counts, id, list@.len());
            assert(packet_counts(self.shares@) =~= counts.insert(id, list@.len()));
            assert(self.share_hashes@.len() == known.len() + 1);
            assert(digest_known(self.share_hashes@, share)) by {
                lemma_digest_known(self.share_hashes@, share, share_hash);
            }
            assert forall|m: MinerId, i: int|
                self.shares@.contains_key(m) && 0 <= i < self.shares@[m]@.len() implies (
            #[trigger] self.shares@[m]@[i]).miner_id == m && digest_known(
                self.share_hashes@,
                self.shares@[m]@[i],
            ) by {
                if m == id && i == was.len() {
                } else {
                    assert(before.contains_key(m));
                    assert(before[m]@[i] == self.shares@[m]@[i]);
                    lemma_digest_stays(known, before[m]@[i], share_hash);
                }
            }
            assert(packets_distinct(self.shares@)) by {
                lemma_distinct_grows(before, self.shares@, known, share);
            }
        }
        self.share_count = self.share_count + 1;
        assert(self.share_count == total);
        Ok(())
    }

    /// Whether a share is known.
    pub fn has_share(&self, share: &SharePacket) -> (r: bool)
        ensures
            r == digest_known(self.digests(), *share),
    {
        let h = share.share_hash();
        proof {
            lemma_digest_known(self.digests(), *share, h);
        }
        self.share_hashes.contains(&h)
    }

    /// The shares of a miner.
    pub fn get_miner_shares(&self, miner_id: &MinerId) -> (r: Option<&Vec<SharePacket>>)
        ensures
            match r {
                Some(list) => self.by_miner().contains_key(*miner_id) && *list
                    == self.by_miner()[*miner_id],
                None => !self.by_miner().contains_key(*miner_id),
            },
    {
        self.shares.get(miner_id)
    }

    /// The number of shares of a miner.
    pub fn miner_share_count(&self, miner_id: &MinerId) -> (r: usize)
        ensures
            r == packets_of(self.by_miner(), *miner_id).len(),
    {
        match self.shares.get(miner_id) {
            Some(list) => list.len(),
            None => 0,
        }
    }

    /// The number of shares.
    pub fn total_shares(&self) -> (r: usize)
        ensures
            r == self.count(),
    {
        self.share_count
    }

    /// The miners with shares, in increasing order.
    pub fn miners(&self) -> (r: Vec<MinerId>)
        ensures
            r@ == self.entries().map_values(|e: (MinerId, Vec<SharePacket>)| e.0),
            forall|m: MinerId| #[trigger] r@.contains(m) <==> self.by_miner().contains_key(m),
            r@.no_duplicates(),
    {
        let mut r: Vec<MinerId> = Vec::new();
        let n: usize = self.shares.len();
        let ghost items = self.shares.items();
        let mut i: usize = 0;
        while i < n
            invariant
                i <= n,
                n == items.len(),
                items == self.shares.items(),
                sorted_by_key(items),
                r@.len() == i,
                forall|j: int| 0 <= j < i ==> r@[j] == (#[trigger] items[j]).0,
            decreases n - i,
        {
            r.push(self.shares.key_at(i));
            i += 1;
        }
        proof {
            assert(r@ =~= items.map_values(|e: (MinerId, Vec<SharePacket>)| e.0));
            assert forall|a: int, b: int| 0 <= a < r@.len() && 0 <= b < r@.len() && a
                != b implies r@[a] != r@[b] by {
                if items[a].0 == items[b].0 {
                    lemma_sorted_distinct(items, a, b);
                }
            }
            assert forall|m: MinerId| #[trigger] r@.contains(m) <==> self.shares@.contains_key(
                m,
            ) by {
                if r@.contains(m) {
                    let j = choose|j: int| 0 <= j < r@.len() && r@[j] == m;
                    assert(items[j].0 == m);
                }
                if self.shares@.contains_key(m) {
                    let j = choose|j: int| 0 <= j < items.len() && (#[trigger] items[j]).0 == m;
                    assert(r@[j] == m);
                }
            }
        }
        r
    }

    /// Forgets all shares.
    pub fn clear(&mut self)
        ensures
            final(self).wf(),
            final(self).by_miner() == Map::<MinerId, Vec<SharePacket>>::empty(),
            final(self).digests() == Set::<Hash32>::empty(),
            final(self).count() == 0,
    {
        self.shares.clear();
        self.share_hashes.clear();
        self.share_count = 0;
        assert(packet_counts(self.by_miner()).dom() =~= Set::<MinerId>::empty());
    }

    /// The root of the tree over the digests of the shares in increasing order; zeros where there
    /// is no share.
    pub fn calculate_merkle_root(&self) -> (r: Hash32)
        ensures
            r@ == pool_root(self.digest_list()),
    {
        let n: usize = self.share_hashes.len();
        if n == 0 {
            let zero: Hash32 = [0u8; 32];
            assert(zero@ =~= Seq::new(32, |i: int| 0u8));
            return zero;
        }
        let mut hashes: Vec<Hash32> = Vec::new();
        let ghost members = self.share_hashes.members();
        let mut i: usize = 0;
        while i < n
            invariant
                i <= n,
                n == members.len(),
                members == self.share_hashes.members(),
                hashes@.len() == i,
                forall|j: int| 0 <= j < i ==> hashes@[j] == members[j],
            decreases n - i,
        {
            hashes.push(self.share_hashes.member_at(i));
            i += 1;
        }
        assert(hashes@ =~= members);
        merkle_root(hashes)
    }
}

/// Whether the digest of a share is in a set.
#[verifier::opaque]
pub open spec fn digest_known(digests: Set<Hash32>, p: SharePacket) -> bool {
    exists|h: Hash32| #[trigger] digests.contains(h) && h@ == sha256_of(packet_bytes(p))
}

proof fn lemma_digest_known(digests: Set<Hash32>, p: SharePacket, h: Hash32)
    requires
        h@ == sha256_of(packet_bytes(p)),
    ensures
        digest_known(digests, p) == digests.contains(h),
{
    reveal(digest_known);
    if digest_known(digests, p) {
        let g = choose|g: Hash32| #[trigger]
            digests.contains(g) && g@ == sha256_of(packet_bytes(p));
        assert(g =~= h);
    }
}

/// A share whose digest is not known keeps the digests distinct.
proof fn lemma_distinct_grows(
    before: Map<MinerId, Vec<SharePacket>>,
    after: Map<MinerId, Vec<SharePacket>>,
    digests: Set<Hash32>,
    p: SharePacket,
)
    requires
        packets_distinct(before),
        !digest_known(digests, p),
        forall|m: MinerId, i: int|
            before.contains_key(m) && 0 <= i < before[m]@.len() ==> digest_known(
                digests,
                #[trigger] before[m]@[i],
            ),
        after == before.insert(p.miner_id, after[p.miner_id]),
        after[p.miner_id]@ == packets_of(before, p.miner_id).push(p),
    ensures
        packets_distinct(after),
{
    let id = p.miner_id;
    let last = packets_of(before, id).len() as int;
    assert forall|m: MinerId, i: int| #[trigger]
        holds_packet(after, m, i) && !(m == id && i == last) implies holds_packet(before, m, i)
        && after[m]@[i] == before[m]@[i] && packet_digest(before[m]@[i]) != packet_digest(p) by {
        assert(digest_known(digests, before[m]@[i]));
        reveal(digest_known);
    }
    assert forall|a: MinerId, i: int, b: MinerId, j: int|
        #![trigger holds_packet(after, a, i), holds_packet(after, b, j)]
        holds_packet(after, a, i) && holds_packet(after, b, j) && packet_digest(after[a]@[i])
            == packet_digest(after[b]@[j]) implies a == b && i == j by {
        if a == id && i == last {
            assert(after[a]@[i] == p);
        }
        if b == id && j == last {
            assert(after[b]@[j] == p);
        }
        if !(a == id && i == last) && !(b == id && j == last) {
            assert(holds_packet(before, a, i) && holds_packet(before, b, j));
        }
    }
}

proof fn lemma_digest_stays(digests: Set<Hash32>, p: SharePacket, h: Hash32)
    requires
        digest_known(digests, p),
    ensures
        digest_known(digests.insert(h), p),
{
    reveal(digest_known);
    let g = choose|g: Hash32| #[trigger] digests.contains(g) && g@ == sha256_of(packet_bytes(p));
    assert(digests.insert(h).contains(g));
}

/// A share that was taken in is known afterwards, and handing it in again changes nothing.
pub proof fn law_added_share_is_known(digests: Set<Hash32>, p: SharePacket, h: Hash32)
    requires
        h@ == sha256_of(packet_bytes(p)),
    ensures
        digest_known(digests.insert(h), p),
{
    lemma_digest_known(digests.insert(h), p, h);
}

/// In every state that the operations reach, the number of shares is that of all miners together,
/// every miner that is listed has between one share and the most that it may have, and no two
/// shares have one digest.
pub proof fn law_epoch_shares_add_up(e: EpochShares)
    requires
        e.wf(),
    ensures
        e.count() == map_sum(packet_counts(e.by_miner())),
        e.count() == e.digests().len(),
        forall|m: MinerId| #[trigger]
            e.by_miner().contains_key(m) ==> 1 <= packets_of(e.by_miner(), m).len()
                <= MAX_PACKETS_PER_MINER,
        forall|a: MinerId, i: int, b: MinerId, j: int|
            #![trigger holds_packet(e.by_miner(), a, i), holds_packet(e.by_miner(), b, j)]
            holds_packet(e.by_miner(), a, i) && holds_packet(e.by_miner(), b, j) && (a != b || i
                != j) ==> packet_digest(e.by_miner()[a]@[i]) != packet_digest(
                e.by_miner()[b]@[j],
            ),
{
}

/// Why a peer may not send a share.
#[derive(Debug, Clone, Copy, PartialEq, Eq)]
pub enum RateLimitError {
    RateExceeded,
    Banned,
}

impl RateLimitError {
    /// The words of the error.
    pub fn message(&self) -> (r: &'static str)
        ensures
            r@ == match *self {
                RateLimitError::RateExceeded => "Rate exceeded (100/min)"@,
                RateLimitError::Banned => "Peer banned for 5 minutes"@,
            },
    {
        match self {
            RateLimitError::RateExceeded => "Rate exceeded (100/min)",
            RateLimitError::Banned => "Peer banned for 5 minutes",
        }
    }
}

/// A minute in nanoseconds.
pub const MINUTE_NANOS: u64 = 60_000_000_000;

/// How long a ban lasts, in nanoseconds.
pub const BAN_NANOS: u64 = 300_000_000_000;

/// How many shares peers may send: a hundred in a minute. Times are nanoseconds since the limiter
/// was made.
pub struct PeerRateLimiter {
    pub peer_shares: OrdMap<PeerId, (u32, u64)>,
    pub banned_peers: OrdMap<PeerId, u64>,
    pub started: std::time::Instant,
}

/// `std::time::Duration::as_nanos`. Nothing is claimed of the number.
#[verifier::external_body]
fn whole_nanos(span: std::time::Duration) -> u128 {
    span.as_nanos()
}

/// Whether a peer is banned at `now`.
pub open spec fn is_barred(banned: Map<PeerId, u64>, id: PeerId, now: u64) -> bool {
    banned.contains_key(id) && now < banned[id]
}

/// What a peer sent in its current minute, before it sends one more share at `now`.
pub open spec fn sent_so_far(shares: Map<PeerId, (u32, u64)>, id: PeerId, now: u64) -> (u32, u64) {
    if shares.contains_key(id) {
        shares[id]
    } else {
        (0, now)
    }
}

/// Why a peer may not send a share at `now`.
pub open spec fn rate_fault(l: PeerRateLimiter, id: PeerId, now: u64) -> Option<RateLimitError> {
    let (count, since) = sent_so_far(l.peer_shares@, id, now);
    if is_barred(l.banned_peers@, id, now) {
        Some(RateLimitError::Banned)
    } else if now - since <= MINUTE_NANOS && count >= 100 {
        Some(RateLimitError::RateExceeded)
    } else {
        None
    }
}

/// The limiter after a peer sent a share at `now`: a ban that is over is lifted, the share is
/// counted, and one too many bans the peer.
pub open spec fn rate_checked(
    before: PeerRateLimiter,
    after: PeerRateLimiter,
    id: PeerId,
    now: u64,
) -> bool {
    let (count, since) = sent_so_far(before.peer_shares@, id, now);
    match rate_fault(before, id, now) {
        Some(RateLimitError::Banned) => after == before,
        Some(RateLimitError::RateExceeded) => {
            &&& after.peer_shares@ == before.peer_shares@.insert(id, (count, since))
            &&& after.banned_peers@ == before.banned_peers@.insert(
                id,
                if now + BAN_NANOS <= u64::MAX {
                    (now + BAN_NANOS) as u64
                } else {
                    u64::MAX
                },
            )
        },
        None => {
            &&& after.banned_peers@ == before.banned_peers@.remove(id)
            &&& after.peer_shares@ == before.peer_shares@.insert(
                id,
                if now - since > MINUTE_NANOS {
                    (1u32, now)
                } else {
                    ((count + 1) as u32, since)
                },
            )
        },
    }
}

impl PeerRateLimiter {
    /// A limiter that knows of no peer.
    pub fn new() -> (r: Self)
        ensures
            r.peer_shares@ == Map::<PeerId, (u32, u64)>::empty(),
            r.banned_peers@ == Map::<PeerId, u64>::empty(),
    {
        PeerRateLimiter {
            peer_shares: OrdMap::new(),
            banned_peers: OrdMap::new(),
            started: start_timer(),
        }
    }

    /// Counts a share of a peer at `now`.
    pub fn check_rate_at(&mut self, peer_id: PeerId, now: u64) -> (r: Result<(), RateLimitError>)
        ensures
            match r {
                Ok(()) => rate_fault(*old(self), peer_id, now) is None,
                Err(e) => rate_fault(*old(self), peer_id, now) == Some(e),
            },
            rate_checked(*old(self), *final(self), peer_id, now),
    {
        let ghost bans = self.banned_peers@;
        let until: Option<u64> = match self.banned_peers.get(&peer_id) {
            Some(t) => Some(*t),
            None => None,
        };
        match until {
            Some(t) => {
                if now < t {
                    return Err(RateLimitError::Banned);
                }
                self.banned_peers.remove(&peer_id);
            },
            None => {
                assert(bans.remove(peer_id) =~= bans);
            },
        }
        assert(self.banned_peers@ == bans.remove(peer_id));
        let entry: (u32, u64) = match self.peer_shares.get(&peer_id) {
            Some(e) => *e,
            None => (0, now),
        };
        if now > entry.1 && now - entry.1 > MINUTE_NANOS {
            self.peer_shares.insert(peer_id, (1, now));
            return Ok(());
        }
        if entry.0 >= 100 {
            self.peer_shares.insert(peer_id, entry);
            let end: u64 = now.saturating_add(BAN_NANOS);
            self.banned_peers.insert(peer_id, end);
            assert(bans.remove(peer_id).insert(peer_id, end) =~= bans.insert(peer_id, end));
            return Err(RateLimitError::RateExceeded);
        }
        self.peer_shares.insert(peer_id, (entry.0 + 1, entry.1));
        Ok(())
    }

    /// Counts a share of a peer at the time that the clock shows.
    pub fn check_rate(&mut self, peer_id: PeerId) -> (r: Result<(), RateLimitError>)
        ensures
            exists|now: u64|
                #[trigger] rate_checked(*old(self), *final(self), peer_id, now) && match r {
                    Ok(()) => rate_fault(*old(self), peer_id, now) is None,
                    Err(e) => rate_fault(*old(self), peer_id, now) == Some(e),
                },
    {
        let now: u64 = (whole_nanos(time_since(&self.started)) % 0x1_0000_0000_0000_0000) as u64;
        self.check_rate_at(peer_id, now)
    }
}

/// A peer that sent a hundred shares within a minute is refused the next one in it, and then every
/// one for five minutes.
pub proof fn law_hundred_shares_a_minute(
    before: PeerRateLimiter,
    after: PeerRateLimiter,
    id: PeerId,
    now: u64,
    later: u64,
)
    requires
        !is_barred(before.banned_peers@, id, now),
        before.peer_shares@.contains_key(id),
        before.peer_shares@[id].0 >= 100,
        now - before.peer_shares@[id].1 <= MINUTE_NANOS,
        rate_checked(before, after, id, now),
        now <= later < now + BAN_NANOS,
        now + BAN_NANOS <= u64::MAX,
    ensures
        rate_fault(before, id, now) == Some(RateLimitError::RateExceeded),
        rate_fault(after, id, later) == Some(RateLimitError::Banned),
{
}

/// How a miner stands.
#[derive(Debug, Clone, Copy, PartialEq, Eq)]
pub enum MinerStatus {
    Warning,
    Banned,
}

/// How many of the shares of miners are invalid: a tenth draws a warning, three tenths a ban.
pub struct InvalidShareMonitor {
    miner_stats: OrdMap<MinerId, (u32, u32)>,
    epoch: u32,
}

/// The invalid and all shares of a miner.
pub open spec fn stats_of(m: Map<MinerId, (u32, u32)>, id: MinerId) -> (u32, u32) {
    if m.contains_key(id) {
        m[id]
    } else {
        (0, 0)
    }
}

/// The invalid and all shares of a miner after one more.
pub open spec fn stats_after(before: (u32, u32), is_valid: bool) -> (u32, u32) {
    (
        if is_valid {
            before.0
        } else {
            capped_u32(before.0 + 1)
        },
        capped_u32(before.1 + 1),
    )
}

/// How a miner with so many invalid shares stands.
pub open spec fn standing(stats: (u32, u32)) -> Option<MinerStatus> {
    if 10 * stats.0 >= 3 * stats.1 {
        Some(MinerStatus::Banned)
    } else if 10 * stats.0 >= stats.1 {
        Some(MinerStatus::Warning)
    } else {
        None
    }
}

impl InvalidShareMonitor {
    /// The invalid and all shares, by miner.
    pub closed spec fn stats(self) -> Map<MinerId, (u32, u32)> {
        self.miner_stats@
    }

    /// The epoch that is counted.
    pub closed spec fn counted_epoch(self) -> u32 {
        self.epoch
    }

    /// A monitor that knows of no miner.
    pub fn new() -> (r: Self)
        ensures
            r.stats() == Map::<MinerId, (u32, u32)>::empty(),
            r.counted_epoch() == 0,
    {
        InvalidShareMonitor { miner_stats: OrdMap::new(), epoch: 0 }
    }

    /// Counts a share of a miner in an epoch, and says how the miner stands. In a new epoch the
    /// counts begin again.
    pub fn record_share(&mut self, miner_id: MinerId, is_valid: bool, current_epoch: u32) -> (r:
        Option<MinerStatus>)
        ensures
            final(self).counted_epoch() == current_epoch,
            ({
                let before = if current_epoch != old(self).counted_epoch() {
                    Map::empty()
                } else {
                    old(self).stats()
                };
                let stats = stats_after(stats_of(before, miner_id), is_valid);
                &&& final(self).stats() == before.insert(miner_id, stats)
                &&& r == standing(stats)
            }),
    {
        if current_epoch != self.epoch {
            self.miner_stats.clear();
            self.epoch = current_epoch;
        }
        let mut entry: (u32, u32) = match self.miner_stats.get(&miner_id) {
            Some(e) => *e,
            None => (0, 0),
        };
        if !is_valid {
            entry.0 = entry.0.saturating_add(1);
        }
        entry.1 = entry.1.saturating_add(1);
        self.miner_stats.insert(miner_id, entry);
        let invalid: u64 = entry.0 as u64;
        let total: u64 = entry.1 as u64;
        if 10 * invalid >= 3 * total {
            Some(MinerStatus::Banned)
        } else if 10 * invalid >= total {
            Some(MinerStatus::Warning)
        } else {
            None
        }
    }
}

/// A share packet is valid exactly when it follows the given block, its miner is the one of the
/// key, and both the digest of its header and nonce and its hash, which is its work, are no higher
/// than the share target.
pub proof fn law_when_a_packet_is_valid(
    p: SharePacket,
    target_block: Target,
    prev_hash: Hash32,
    pubkey: Seq<u8>,
)
    ensures
        packet_fault(p, target_block, prev_hash, pubkey) is None <==> {
            let most = be_value(packet_target(target_block));
            &&& p.header.prev_hash == prev_hash
            &&& p.miner_id@ == crate::primitives::ripemd160_of(sha256_of(pubkey))
            &&& be_value(sha256_of(header_bytes(p.header) + le_bytes(p.nonce as nat, 8))) <= most
            &&& p.hash@ == pow_hash_of(header_bytes(with_nonce(p.header, p.nonce)))
            &&& be_value(p.hash@) <= most
        },
{
}

/// The share target keeps the three leading bytes of the block target, has a zero behind them, and
/// then the others one place on.
pub proof fn law_packet_target_moves_one_byte(target_block: Target, j: int)
    requires
        0 <= j < 32,
    ensures
        packet_target(target_block)[j] == if j < 3 {
            target_block.0@[j]
        } else if j == 3 {
            0u8
        } else {
            target_block.0@[j - 1]
        },
{
    crate::types::law_shift_by_whole_bytes(target_block.0@, 1, j);
}

/// What a peer may send: while it is not banned, a hundred shares within a minute of the first, and
/// then again from the next minute on. The share after the hundredth bans it for 300 seconds, and
/// nothing else bans anybody.
pub proof fn law_when_a_peer_may_send(
    before: PeerRateLimiter,
    after: PeerRateLimiter,
    id: PeerId,
    now: u64,
)
    requires
        rate_checked(before, after, id, now),
        now + 300_000_000_000 <= u64::MAX,
    ensures
        ({
            let banned = before.banned_peers@.contains_key(id) && now < before.banned_peers@[id];
            let known = before.peer_shares@.contains_key(id);
            let (count, since) = before.peer_shares@[id];
            let late = known && now > since + 60_000_000_000;
            let sent = if known && !late {
                count as nat
            } else {
                0
            };
            &&& rate_fault(before, id, now) is None <==> !banned && sent < 100
            &&& rate_fault(before, id, now) is None ==> after.peer_shares@.contains_key(id)
                && after.peer_shares@[id].0 == sent + 1 && !after.banned_peers@.contains_key(id)
                && after.peer_shares@[id].1 == if known && !late {
                since
            } else {
                now
            }
            &&& !banned && sent >= 100 ==> after.banned_peers@.contains_key(id)
                && after.banned_peers@[id] == now + 300_000_000_000
            &&& banned ==> after == before
            &&& forall|p: PeerId|
                p != id ==> (#[trigger] after.banned_peers@.contains_key(p)
                    <==> before.banned_peers@.contains_key(p))
        }),
{
}

/// How a miner stands by its shares of an epoch: banned from three tenths of them invalid on,
/// warned from a tenth on. Each share counts once.
pub proof fn law_standing_by_invalid_shares(stats: (u32, u32), is_valid: bool)
    requires
        stats.0 <= stats.1,
        stats.1 < u32::MAX,
    ensures
        ({
            let (invalid, all) = stats_after(stats, is_valid);
            &&& all == stats.1 + 1
            &&& is_valid ==> invalid == stats.0
            &&& !is_valid ==> invalid == stats.0 + 1
            &&& standing((invalid, all)) == Some(MinerStatus::Banned) <==> 10 * invalid >= 3 * all
            &&& standing((invalid, all)) == Some(MinerStatus::Warning) <==> all <= 10 * invalid < 3
                * all
            &&& standing((invalid, all)) is None <==> 10 * invalid < all
        }),
{
}

} // verus!
