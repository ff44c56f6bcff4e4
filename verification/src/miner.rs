//! Miner records, loyalty and share accounting.
use crate::block::{cache_asked, ecdsa_accepts, header_bytes, with_nonce, BlockHeader};
use crate::bytes::{arrays_equal, be_value, le_bytes, push_le, slices_equal, vec_of};
use crate::collections::{
    as_nats, lemma_map_sum_insert, map_sum, sorted_by_key, OrdKey, OrdMap, OrdSet,
};
use crate::constants::{
    INVALID_SHARE_BAN_TENTHS, INVALID_SHARE_WARNING_TENTHS, LOYALTY_GRACE_PERIOD,
    MAX_SHARES_PER_MINER_PER_EPOCH, PEER_BAN_DURATION_SECS,
};
use crate::crypto::{bumped, passes_prefilter, pow_hash_of, Argon2Cache};
use crate::merkle::{hash_views, merkle_root, merkle_root_of};
use crate::primitives::{
    ecdsa_signature, parse_public_key, parsed_public_key, sha256, sha256_of,
};
use crate::types::{current_timestamp, Hash32, MinerId, Target, Timestamp};
use crate::wallet::{hash160, signing_fault, Wallet, WalletV};
use vstd::prelude::*;

verus! {

/// How steadily a miner takes part.
#[derive(Debug, Clone, Copy, PartialEq, Eq)]
pub struct LoyaltyData {
    pub value: u64,
    pub last_epoch: u32,
    pub missed_epochs: u32,
    pub consecutive_epochs: u32,
    pub grace_remaining: u32,
}

/// What remains of a loyalty after one missed epoch: seven tenths, but at least half.
pub open spec fn decayed(value: u64) -> u64 {
    let tenths = value * 7 / 10;
    if tenths > value / 2 {
        tenths as u64
    } else {
        value / 2
    }
}

/// What remains of a loyalty after `n` missed epochs outside the grace period.
pub open spec fn decayed_times(value: u64, n: nat) -> u64
    decreases n,
{
    if n == 0 {
        value
    } else {
        decayed(decayed_times(value, (n - 1) as nat))
    }
}

/// What remains of a loyalty after `n` missed epochs, of which the first may be within the grace
/// period.
pub open spec fn faded(value: u64, grace: bool, n: nat) -> u64 {
    if n == 0 {
        value
    } else if grace {
        decayed_times(value / 2, (n - 1) as nat)
    } else {
        decayed_times(value, n)
    }
}

/// `x + y`, or the largest number where that does not fit.
pub open spec fn capped_u32(x: int) -> u32 {
    if x <= u32::MAX {
        x as u32
    } else {
        u32::MAX
    }
}

/// The loyalty after `current_epoch` in which the miner took part or did not.
pub open spec fn loyalty_after(l: LoyaltyData, current_epoch: u32, participated: bool) -> LoyaltyData {
    if current_epoch <= l.last_epoch {
        l
    } else if participated {
        LoyaltyData {
            value: bumped(
                faded(
                    l.value,
                    l.grace_remaining > 0,
                    (current_epoch - l.last_epoch - 1) as nat,
                ),
            ),
            last_epoch: current_epoch,
            missed_epochs: 0,
            consecutive_epochs: capped_u32(l.consecutive_epochs + 1),
            grace_remaining: if l.grace_remaining < LOYALTY_GRACE_PERIOD {
                LOYALTY_GRACE_PERIOD
            } else {
                l.grace_remaining
            },
        }
    } else {
        LoyaltyData {
            value: faded(
                l.value,
                l.grace_remaining > 0,
                (current_epoch - l.last_epoch) as nat,
            ),
            last_epoch: current_epoch,
            missed_epochs: capped_u32(l.missed_epochs + (current_epoch - l.last_epoch)),
            consecutive_epochs: 0,
            grace_remaining: if l.grace_remaining > 0 {
                (l.grace_remaining - 1) as u32
            } else {
                0
            },
        }
    }
}

impl LoyaltyData {
    /// The loyalty of a miner who never took part.
    pub fn new() -> (r: Self)
        ensures
            r == (LoyaltyData {
                value: 0,
                last_epoch: 0,
                missed_epochs: 0,
                consecutive_epochs: 0,
                grace_remaining: 0,
            }),
    {
        LoyaltyData {
            value: 0,
            last_epoch: 0,
            missed_epochs: 0,
            consecutive_epochs: 0,
            grace_remaining: 0,
        }
    }

    /// Accounts for `current_epoch`, in which the miner took part or did not.
    pub fn update(&mut self, current_epoch: u32, participated: bool)
        ensures
            *final(self) == loyalty_after(*old(self), current_epoch, participated),
    {
        if current_epoch <= self.last_epoch {
            return;
        }
        let epochs_passed: u32 = current_epoch - self.last_epoch;
        let missed: u32 = if participated {
            epochs_passed - 1
        } else {
            epochs_passed
        };
        self.fade(missed);
        if participated {
            self.value = self.value.saturating_add(1);
            self.consecutive_epochs = self.consecutive_epochs.saturating_add(1);
            self.missed_epochs = 0;
            if self.grace_remaining < LOYALTY_GRACE_PERIOD {
                self.grace_remaining = LOYALTY_GRACE_PERIOD;
            }
        } else {
            self.missed_epochs = self.missed_epochs.saturating_add(epochs_passed);
            self.consecutive_epochs = 0;
            if self.grace_remaining > 0 {
                self.grace_remaining = self.grace_remaining - 1;
            }
        }
        self.last_epoch = current_epoch;
    }

    /// Lets the loyalty decay for `missed` epochs.
    fn fade(&mut self, missed: u32)
        ensures
            *final(self) == (LoyaltyData {
                value: faded(old(self).value, old(self).grace_remaining > 0, missed as nat),
                ..*old(self)
            }),
    {
        let grace: bool = self.grace_remaining > 0;
        let mut i: u32 = 0;
        while i < missed
            invariant
                i <= missed,
                grace == (old(self).grace_remaining > 0),
                *self == (LoyaltyData {
                    value: faded(old(self).value, grace, i as nat),
                    ..*old(self)
                }),
            decreases missed - i,
        {
            proof {
                reveal_with_fuel(decayed_times, 2);
            }
            self.apply_decay(i == 0 && grace);
            i += 1;
        }
    }

    fn apply_decay(&mut self, use_grace: bool)
        ensures
            *final(self) == (LoyaltyData {
                value: if use_grace {
                    old(self).value / 2
                } else {
                    decayed(old(self).value)
                },
                ..*old(self)
            }),
    {
        if use_grace {
            self.value = self.value / 2;
        } else {
            let decayed_70: u64 = (self.value as u128 * 7 / 10) as u64;
            let decayed_50: u64 = self.value / 2;
            self.value = if decayed_70 > decayed_50 {
                decayed_70
            } else {
                decayed_50
            };
        }
    }

    /// The loyalty.
    pub fn get_loyalty_score(&self) -> (r: u64)
        ensures
            r == self.value,
    {
        self.value
    }

    /// Whether the miner missed less than twice the grace period.
    pub fn is_active(&self) -> (r: bool)
        ensures
            r == (self.missed_epochs < 2 * LOYALTY_GRACE_PERIOD),
    {
        self.missed_epochs < LOYALTY_GRACE_PERIOD * 2
    }
}

/// Missing epochs never raises a loyalty, and lowers one that is not zero.
pub proof fn law_missed_epochs_lower_loyalty(value: u64, grace: bool, n: nat)
    ensures
        faded(value, grace, n) <= value,
        n > 0 && value > 0 ==> faded(value, grace, n) < value,
{
    if n > 0 {
        if grace {
            lemma_decayed_times(value / 2, (n - 1) as nat);
        } else {
            lemma_decayed_times(value, n);
        }
    }
}

proof fn lemma_decayed_times(value: u64, n: nat)
    ensures
        decayed_times(value, n) <= value,
        n > 0 && value > 0 ==> decayed_times(value, n) < value,
    decreases n,
{
    if n > 0 {
        lemma_decayed_times(value, (n - 1) as nat);
    }
}

/// A miner who takes part in every epoch gains one each time.
pub proof fn law_steady_miner_gains_one(l: LoyaltyData)
    requires
        l.value < u64::MAX,
        l.last_epoch < u32::MAX,
    ensures
        loyalty_after(l, (l.last_epoch + 1) as u32, true).value == l.value + 1,
        loyalty_after(l, (l.last_epoch + 1) as u32, true).missed_epochs == 0,
{
}

/// An epoch counts once: accounting for it again changes nothing.
pub proof fn law_epoch_counts_once(l: LoyaltyData, epoch: u32, first: bool, second: bool)
    ensures
        loyalty_after(loyalty_after(l, epoch, first), epoch, second) == loyalty_after(
            l,
            epoch,
            first,
        ),
{
}

/// How many of the shares of a miner were invalid.
#[derive(Debug, Clone, Copy, PartialEq, Eq)]
pub struct InvalidRatio {
    pub invalid: u64,
    pub total: u64,
}

/// Whether more than `tenths` tenths of the shares were invalid.
pub open spec fn above_tenths(r: InvalidRatio, tenths: nat) -> bool {
    10 * r.invalid > tenths * r.total
}

impl InvalidRatio {
    /// Whether more than `tenths` tenths of the shares were invalid.
    pub fn exceeds_tenths(&self, tenths: u64) -> (r: bool)
        requires
            tenths <= 10,
        ensures
            r == above_tenths(*self, tenths as nat),
    {
        assert(tenths * self.total <= 10 * 0xFFFF_FFFF_FFFF_FFFF) by (nonlinear_arith)
            requires
                tenths <= 10,
                self.total <= 0xFFFF_FFFF_FFFF_FFFF,
        ;
        10 * self.invalid as u128 > tenths as u128 * self.total as u128
    }
}

/// What is known of a miner.
#[derive(Debug)]
pub struct MinerData {
    pub miner_id: MinerId,
    pub pubkey: Vec<u8>,
    pub shares: u64,
    pub bond: u64,
    pub loyalty: u64,
    pub last_epoch: u32,
    pub invalid_ratio: InvalidRatio,
    pub banned_until: Option<Timestamp>,
    pub last_share_time: Timestamp,
    pub total_shares_historical: u64,
    pub blocks_found: u64,
    pub total_rewards: u64,
    pub payout_address: Option<String>,
    pub first_seen: Timestamp,
}

/// `x + y`, or the largest number where that does not fit.
pub open spec fn capped_sum(x: u64, y: u64) -> u64 {
    if x + y <= u64::MAX {
        (x + y) as u64
    } else {
        u64::MAX
    }
}

/// Until when a miner with such a share of invalid work is banned at `now`.
pub open spec fn ban_after(
    ratio: InvalidRatio,
    now: Timestamp,
    before: Option<Timestamp>,
) -> Option<Timestamp> {
    if above_tenths(ratio, INVALID_SHARE_BAN_TENTHS as nat) {
        Some(capped_sum(now, (PEER_BAN_DURATION_SECS * 3) as u64))
    } else if above_tenths(ratio, INVALID_SHARE_WARNING_TENTHS as nat) {
        Some(capped_sum(now, PEER_BAN_DURATION_SECS))
    } else {
        before
    }
}

impl MinerData {
    /// A miner first seen at `time`.
    pub fn new(miner_id: MinerId, bond: u64, epoch: u32, time: Timestamp) -> (r: Self)
        ensures
            r.miner_id == miner_id,
            r.pubkey@ == Seq::<u8>::empty(),
            r.shares == 0,
            r.bond == bond,
            r.loyalty == 0,
            r.last_epoch == epoch,
            r.invalid_ratio == (InvalidRatio { invalid: 0, total: 0 }),
            r.banned_until is None,
            r.last_share_time == time,
            r.total_shares_historical == 0,
            r.blocks_found == 0,
            r.total_rewards == 0,
            r.payout_address is None,
            r.first_seen == time,
    {
        MinerData {
            miner_id,
            pubkey: Vec::new(),
            shares: 0,
            bond,
            loyalty: 0,
            last_epoch: epoch,
            invalid_ratio: InvalidRatio { invalid: 0, total: 0 },
            banned_until: None,
            last_share_time: time,
            total_shares_historical: 0,
            blocks_found: 0,
            total_rewards: 0,
            payout_address: None,
            first_seen: time,
        }
    }

    /// Whether the miner is banned at `now`.
    pub fn is_banned(&self, now: Timestamp) -> (r: bool)
        ensures
            r == (self.banned_until matches Some(until) && now < until),
    {
        match self.banned_until {
            Some(until) => now < until,
            None => false,
        }
    }

    /// Takes note of the share of invalid work, and bans the miner for it.
    pub fn update_invalid_ratio(&mut self, ratio: InvalidRatio, now: Timestamp)
        ensures
            *final(self) == (MinerData {
                invalid_ratio: ratio,
                banned_until: ban_after(ratio, now, old(self).banned_until),
                ..*old(self)
            }),
    {
        self.invalid_ratio = ratio;
        if ratio.exceeds_tenths(INVALID_SHARE_BAN_TENTHS) {
            self.banned_until = Some(now.saturating_add(PEER_BAN_DURATION_SECS * 3));
        } else if ratio.exceeds_tenths(INVALID_SHARE_WARNING_TENTHS) {
            self.banned_until = Some(now.saturating_add(PEER_BAN_DURATION_SECS));
        }
    }

    /// Whether the miner may hand in one more share this epoch.
    pub fn can_add_share(&self) -> (r: bool)
        ensures
            r == (self.shares < MAX_SHARES_PER_MINER_PER_EPOCH),
    {
        self.shares < MAX_SHARES_PER_MINER_PER_EPOCH
    }

    /// Counts a share.
    pub fn add_share(&mut self, timestamp: Timestamp)
        ensures
            *final(self) == (MinerData {
                shares: bumped(old(self).shares),
                total_shares_historical: bumped(old(self).total_shares_historical),
                last_share_time: timestamp,
                ..*old(self)
            }),
    {
        self.shares = self.shares.saturating_add(1);
        self.total_shares_historical = self.total_shares_historical.saturating_add(1);
        self.last_share_time = timestamp;
    }

    /// Counts a block and its reward.
    pub fn add_block(&mut self, reward: u64)
        ensures
            *final(self) == (MinerData {
                blocks_found: bumped(old(self).blocks_found),
                total_rewards: capped_sum(old(self).total_rewards, reward),
                ..*old(self)
            }),
    {
        self.blocks_found = self.blocks_found.saturating_add(1);
        self.total_rewards = self.total_rewards.saturating_add(reward);
    }
}

/// A piece of work below the difficulty of a block.
#[derive(Debug, Clone, Copy, PartialEq, Eq)]
pub struct Share {
    pub miner_id: MinerId,
    pub header: BlockHeader,
    pub nonce: u64,
    pub hash: Hash32,
    pub timestamp: Timestamp,
}

/// The digest that identifies a share.
pub open spec fn share_hash_of(s: Share) -> Seq<u8> {
    sha256_of(s.miner_id@ + header_bytes(s.header) + le_bytes(s.nonce as nat, 8) + s.hash@)
}

/// The proof-of-work hash that a share should carry.
pub open spec fn share_work(s: Share) -> Seq<u8> {
    pow_hash_of(header_bytes(with_nonce(s.header, s.nonce)))
}

/// What is wrong with a share before its work is looked at.
pub open spec fn share_early_fault(
    s: Share,
    target: Target,
    prev_hash: Hash32,
    epoch: u32,
    now: Timestamp,
) -> Option<Seq<char>> {
    if s.header.prev_hash != prev_hash {
        Some("Stale prev_hash"@)
    } else if s.header.epoch_index != epoch {
        Some("Wrong epoch"@)
    } else if s.timestamp < now - 7200 {
        Some("Share too old"@)
    } else if s.timestamp > now + 7200 {
        Some("Share too far in future"@)
    } else if !passes_prefilter(header_bytes(s.header), s.nonce, target.0@) {
        Some("Prefilter rejected"@)
    } else {
        None
    }
}

/// What is wrong with a share.
pub open spec fn share_fault(
    s: Share,
    target: Target,
    prev_hash: Hash32,
    epoch: u32,
    now: Timestamp,
) -> Option<Seq<char>> {
    match share_early_fault(s, target, prev_hash, epoch, now) {
        Some(words) => Some(words),
        None => if share_work(s) != s.hash@ {
            Some("Hash mismatch"@)
        } else if be_value(s.hash@) > be_value(target.0@) {
            Some("Target not met"@)
        } else {
            None
        },
    }
}

impl Share {
    /// A share handed in at `now`.
    pub fn new_at(
        miner_id: MinerId,
        header: BlockHeader,
        nonce: u64,
        hash: Hash32,
        now: Timestamp,
    ) -> (r: Self)
        ensures
            r == (Share { miner_id, header, nonce, hash, timestamp: now }),
    {
        Share { miner_id, header, nonce, hash, timestamp: now }
    }

    /// A share handed in at the time that the clock shows.
    pub fn new(miner_id: MinerId, header: BlockHeader, nonce: u64, hash: Hash32) -> (r: Self)
        ensures
            r == (Share { miner_id, header, nonce, hash, timestamp: r.timestamp }),
    {
        Self::new_at(miner_id, header, nonce, hash, current_timestamp())
    }

    /// The digest that identifies the share.
    pub fn share_hash(&self) -> (r: Hash32)
        ensures
            r@ == share_hash_of(*self),
    {
        let mut data: Vec<u8> = vec_of(self.miner_id.as_slice());
        let header = self.header.to_bytes();
        data.extend_from_slice(header.as_slice());
        push_le(&mut data, self.nonce, 8);
        data.extend_from_slice(self.hash.as_slice());
        assert(data@ =~= self.miner_id@ + header_bytes(self.header) + le_bytes(
            self.nonce as nat,
            8,
        ) + self.hash@);
        sha256(data.as_slice())
    }

    /// Checks the share against the chain. The cache is asked for its work only where nothing
    /// else is wrong with it.
    pub fn validate(
        &self,
        target_share: &Target,
        expected_prev_hash: &Hash32,
        expected_epoch: u32,
        now: Timestamp,
        argon2: &mut Argon2Cache,
    ) -> (r: Result<(), &'static str>)
        ensures
            match r {
                Ok(()) => share_fault(
                    *self,
                    *target_share,
                    *expected_prev_hash,
                    expected_epoch,
                    now,
                ) is None,
                Err(words) => share_fault(
                    *self,
                    *target_share,
                    *expected_prev_hash,
                    expected_epoch,
                    now,
                ) == Some(words@),
            },
            share_early_fault(*self, *target_share, *expected_prev_hash, expected_epoch, now)
                is Some ==> *final(argon2) == *old(argon2),
            share_early_fault(*self, *target_share, *expected_prev_hash, expected_epoch, now)
                is None ==> exists|h: Hash32|
                h@ == share_work(*self) && #[trigger] cache_asked(
                    *old(argon2),
                    *final(argon2),
                    header_bytes(with_nonce(self.header, self.nonce)),
                    h,
                ),
    {
        if !arrays_equal(&self.header.prev_hash, expected_prev_hash) {
            return Err("Stale prev_hash");
        }
        if self.header.epoch_index != expected_epoch {
            return Err("Wrong epoch");
        }
        if now > 7200 && self.timestamp < now - 7200 {
            return Err("Share too old");
        }
        if self.timestamp > 7200 && self.timestamp - 7200 > now {
            return Err("Share too far in future");
        }
        let header = self.header.to_bytes();
        if !Argon2Cache::prefilter(&header, self.nonce, target_share) {
            return Err("Prefilter rejected");
        }
        let computed = self.header.hash_with_nonce(self.nonce, argon2);
        proof {
            if computed@ == self.hash@ {
                assert(computed =~= self.hash);
            }
        }
        if !arrays_equal(&computed, &self.hash) {
            return Err("Hash mismatch");
        }
        if !target_share.is_met_by(&self.hash) {
            return Err("Target not met");
        }
        Ok(())
    }
}

/// A miner's statement of the shares of an epoch.
#[derive(Debug)]
pub struct AggregatedShare {
    pub miner_id: MinerId,
    pub share_count: u32,
    pub merkle_root: Hash32,
    pub signature: Vec<u8>,
    pub pubkey: Vec<u8>,
    pub timestamp: Timestamp,
    pub epoch: u32,
}

/// What an aggregate holds.
#[verifier::ext_equal]
pub struct AggregatedShareV {
    pub miner_id: MinerId,
    pub share_count: u32,
    pub merkle_root: Hash32,
    pub signature: Seq<u8>,
    pub pubkey: Seq<u8>,
    pub timestamp: Timestamp,
    pub epoch: u32,
}

impl View for AggregatedShare {
    type V = AggregatedShareV;

    open spec fn view(&self) -> AggregatedShareV {
        AggregatedShareV {
            miner_id: self.miner_id,
            share_count: self.share_count,
            merkle_root: self.merkle_root,
            signature: self.signature@,
            pubkey: self.pubkey@,
            timestamp: self.timestamp,
            epoch: self.epoch,
        }
    }
}

/// The digests of shares, in order.
pub open spec fn share_digests(shares: Seq<Share>) -> Seq<Seq<u8>> {
    shares.map_values(|s: Share| share_hash_of(s))
}

/// The digest that a miner signs for an aggregate.
pub open spec fn aggregate_message(
    miner_id: Seq<u8>,
    share_count: u32,
    root: Seq<u8>,
    epoch: u32,
    timestamp: Timestamp,
) -> Seq<u8> {
    sha256_of(
        miner_id + le_bytes(share_count as nat, 4) + root + le_bytes(epoch as nat, 4) + le_bytes(
            timestamp as nat,
            8,
        ),
    )
}

/// Whether all shares are of one miner.
pub open spec fn all_of(shares: Seq<Share>, miner_id: MinerId) -> bool {
    forall|i: int| 0 <= i < shares.len() ==> (#[trigger] shares[i]).miner_id == miner_id
}

/// Why shares cannot be aggregated.
pub open spec fn aggregate_fault(shares: Seq<Share>, w: WalletV) -> Option<Seq<char>> {
    if shares.len() == 0 {
        Some("No shares to aggregate"@)
    } else if !all_of(shares, shares[0].miner_id) {
        Some("Shares from different miners"@)
    } else {
        signing_fault(w.secret_key)
    }
}

/// Whether `a` is the aggregate of shares that a wallet makes at `now`.
pub open spec fn aggregate_made(
    a: AggregatedShareV,
    shares: Seq<Share>,
    w: WalletV,
    epoch: u32,
    now: Timestamp,
) -> bool {
    &&& a.miner_id == shares[0].miner_id
    &&& a.share_count == shares.len() % 0x1_0000_0000
    &&& a.merkle_root@ == merkle_root_of(share_digests(shares))
    &&& a.signature == ecdsa_signature(
        w.secret_key,
        aggregate_message(a.miner_id@, a.share_count, a.merkle_root@, epoch, now),
    )
    &&& a.pubkey == w.public_key
    &&& a.timestamp == now
    &&& a.epoch == epoch
}

/// Whether an aggregate is the signed statement of its miner on these shares.
pub open spec fn aggregate_holds(a: AggregatedShareV, shares: Seq<Share>) -> bool {
    &&& a.share_count == shares.len() % 0x1_0000_0000
    &&& all_of(shares, a.miner_id)
    &&& merkle_root_of(share_digests(shares)) == a.merkle_root@
    &&& (parsed_public_key(a.pubkey) matches Some(k) && hash160(k) == a.miner_id@)
    &&& (a.pubkey.len() == 33 || a.pubkey.len() == 65)
    &&& ecdsa_accepts(
        a.pubkey,
        a.signature,
        sha256_of(
            aggregate_message(
                a.miner_id@,
                a.share_count,
                a.merkle_root@,
                a.epoch,
                a.timestamp,
            ),
        ),
    )
}

fn same_miner(shares: &[Share], miner_id: &MinerId) -> (r: bool)
    ensures
        r == all_of(shares@, *miner_id),
{
    let mut i: usize = 0;
    while i < shares.len()
        invariant
            i <= shares@.len(),
            forall|j: int| 0 <= j < i ==> (#[trigger] shares@[j]).miner_id == *miner_id,
        decreases shares@.len() - i,
    {
        if !arrays_equal(&shares[i].miner_id, miner_id) {
            return false;
        }
        i += 1;
    }
    true
}

impl AggregatedShare {
    /// The aggregate of shares that a wallet makes at `now`.
    pub fn aggregate_at(shares: &[Share], wallet: &Wallet, epoch: u32, now: Timestamp) -> (r:
        Result<Self, String>)
        ensures
            match r {
                Ok(a) => aggregate_fault(shares@, wallet@) is None && aggregate_made(
                    a@,
                    shares@,
                    wallet@,
                    epoch,
                    now,
                ),
                Err(words) => aggregate_fault(shares@, wallet@) == Some(words@),
            },
    {
        if shares.len() == 0 {
            return Err("No shares to aggregate".to_string());
        }
        let miner_id = shares[0].miner_id;
        if !same_miner(shares, &miner_id) {
            return Err("Shares from different miners".to_string());
        }
        let share_count: u32 = (shares.len() as u64 % 0x1_0000_0000) as u32;
        let merkle_root = Self::build_merkle_root(shares);
        let message = Self::build_message(&miner_id, share_count, &merkle_root, epoch, now);
        let signature = match wallet.sign(&message) {
            Ok(signature) => signature,
            Err(words) => {
                return Err(words);
            },
        };
        Ok(
            AggregatedShare {
                miner_id,
                share_count,
                merkle_root,
                signature,
                pubkey: vec_of(wallet.public_key_bytes()),
                timestamp: now,
                epoch,
            },
        )
    }

    /// The aggregate of shares that a wallet makes at the time that the clock shows.
    pub fn aggregate(shares: &[Share], wallet: &Wallet, epoch: u32) -> (r: Result<Self, String>)
        ensures
            match r {
                Ok(a) => aggregate_fault(shares@, wallet@) is None && aggregate_made(
                    a@,
                    shares@,
                    wallet@,
                    epoch,
                    a@.timestamp,
                ),
                Err(words) => aggregate_fault(shares@, wallet@) == Some(words@),
            },
    {
        Self::aggregate_at(shares, wallet, epoch, current_timestamp())
    }

    fn build_merkle_root(shares: &[Share]) -> (r: Hash32)
        requires
            shares@.len() > 0,
        ensures
            r@ == merkle_root_of(share_digests(shares@)),
    {
        let mut hashes: Vec<Hash32> = Vec::new();
        let mut i: usize = 0;
        while i < shares.len()
            invariant
                i <= shares@.len(),
                hashes@.len() == i,
                forall|j: int| 0 <= j < i ==> (#[trigger] hashes@[j])@ == share_hash_of(shares@[j]),
            decreases shares@.len() - i,
        {
            hashes.push(shares[i].share_hash());
            i += 1;
        }
        assert(hash_views(hashes@) =~= share_digests(shares@));
        merkle_root(hashes)
    }

    fn build_message(
        miner_id: &MinerId,
        share_count: u32,
        merkle_root: &Hash32,
        epoch: u32,
        timestamp: Timestamp,
    ) -> (r: Hash32)
        ensures
            r@ == aggregate_message(miner_id@, share_count, merkle_root@, epoch, timestamp),
    {
        let mut data: Vec<u8> = vec_of(miner_id.as_slice());
        push_le(&mut data, share_count as u64, 4);
        data.extend_from_slice(merkle_root.as_slice());
        push_le(&mut data, epoch as u64, 4);
        push_le(&mut data, timestamp, 8);
        assert(data@ =~= miner_id@ + le_bytes(share_count as nat, 4) + merkle_root@ + le_bytes(
            epoch as nat,
            4,
        ) + le_bytes(timestamp as nat, 8));
        sha256(data.as_slice())
    }

    /// Whether the aggregate is the signed statement of its miner on these shares.
    pub fn verify(&self, shares: &[Share]) -> (r: Result<bool, String>)
        requires
            shares@.len() > 0 || self.share_count != 0,
        ensures
            r is Ok,
            r->Ok_0 == aggregate_holds(self@, shares@),
    {
        if (shares.len() as u64 % 0x1_0000_0000) as u32 != self.share_count {
            return Ok(false);
        }
        if !same_miner(shares, &self.miner_id) {
            return Ok(false);
        }
        let computed_root = Self::build_merkle_root(shares);
        if !slices_equal(computed_root.as_slice(), self.merkle_root.as_slice()) {
            return Ok(false);
        }
        let pubkey = match parse_public_key(self.pubkey.as_slice()) {
            Some(key) => key,
            None => {
                return Ok(false);
            },
        };
        let expected = Wallet::miner_id_from_pubkey(&pubkey);
        if !slices_equal(expected.as_slice(), self.miner_id.as_slice()) {
            return Ok(false);
        }
        let message = Self::build_message(
            &self.miner_id,
            self.share_count,
            &self.merkle_root,
            self.epoch,
            self.timestamp,
        );
        Ok(
            Wallet::verify_signature(
                self.pubkey.as_slice(),
                self.signature.as_slice(),
                message.as_slice(),
            ),
        )
    }

    /// The bytes that the aggregate takes on the wire.
    pub fn size_bytes(&self) -> (r: usize)
        requires
            self@.signature.len() + self@.pubkey.len() + 68 <= usize::MAX,
        ensures
            r == self@.signature.len() + self@.pubkey.len() + 68,
    {
        20 + 4 + 32 + self.signature.len() + self.pubkey.len() + 8 + 4
    }
}

/// The aggregates of an epoch.
pub struct AggregatedSharePool {
    pub aggregates: OrdMap<MinerId, AggregatedShare>,
    pub share_counts: OrdMap<MinerId, u64>,
    pub verified_roots: OrdSet<Hash32>,
    pub max_aggregates: usize,
}

/// What the three parts of a pool have to do with each other: the counts and the roots are those
/// of the aggregates, under the miners' identifiers, and no root stands for two miners.
pub open spec fn aggregates_agree(
    aggregates: Map<MinerId, AggregatedShare>,
    counts: Map<MinerId, u64>,
    roots: Set<Hash32>,
) -> bool {
    &&& counts.dom() == aggregates.dom()
    &&& forall|m: MinerId| #[trigger]
        aggregates.contains_key(m) ==> aggregates[m].miner_id == m && counts[m]
            == aggregates[m].share_count && roots.contains(aggregates[m].merkle_root)
    &&& forall|m: MinerId, n: MinerId|
        #![trigger aggregates[m], aggregates[n]]
        aggregates.contains_key(m) && aggregates.contains_key(n) && m != n
            ==> aggregates[m].merkle_root != aggregates[n].merkle_root
}

/// The pool after an aggregate was taken in: of more aggregates than the pool may hold, the one
/// of the first miner goes, with its root.
pub open spec fn aggregate_added(
    before: AggregatedSharePool,
    after: AggregatedSharePool,
    agg: AggregatedShare,
) -> bool {
    let with = before.aggregates@.insert(agg.miner_id, agg);
    let roots = before.verified_roots@.insert(agg.merkle_root);
    if with.dom().len() > before.max_aggregates {
        exists|m: MinerId|
            {
                &&& #[trigger] with.contains_key(m)
                &&& after.aggregates@ == with.remove(m)
                &&& after.verified_roots@ == roots.remove(with[m].merkle_root)
                &&& forall|k: MinerId| #[trigger] with.contains_key(k) ==> !k.before(m)
            }
    } else {
        after.aggregates@ == with && after.verified_roots@ == roots
    }
}

impl AggregatedSharePool {
    /// Whether the parts of the pool agree.
    pub open spec fn wf(self) -> bool {
        aggregates_agree(self.aggregates@, self.share_counts@, self.verified_roots@)
    }

    /// An empty pool.
    pub fn new(max_aggregates: usize) -> (r: Self)
        ensures
            r.wf(),
            r.aggregates@ == Map::<MinerId, AggregatedShare>::empty(),
            r.share_counts@ == Map::<MinerId, u64>::empty(),
            r.verified_roots@ == Set::<Hash32>::empty(),
            r.max_aggregates == max_aggregates,
    {
        let r = AggregatedSharePool {
            aggregates: OrdMap::new(),
            share_counts: OrdMap::new(),
            verified_roots: OrdSet::new(),
            max_aggregates,
        };
        assert(r.share_counts@.dom() =~= r.aggregates@.dom());
        r
    }

    /// Takes in an aggregate that holds and whose root is new.
    pub fn add_aggregate(&mut self, agg: AggregatedShare, shares: &[Share]) -> (r: Result<
        bool,
        String,
    >)
        requires
            old(self).wf(),
            shares@.len() > 0 || agg.share_count != 0,
        ensures
            final(self).wf(),
            final(self).max_aggregates == old(self).max_aggregates,
            r is Ok,
            r->Ok_0 == (!old(self).verified_roots@.contains(agg.merkle_root) && aggregate_holds(
                agg@,
                shares@,
            )),
            !r->Ok_0 ==> *final(self) == *old(self),
            r->Ok_0 ==> aggregate_added(*old(self), *final(self), agg),
    {
        if self.verified_roots.contains(&agg.merkle_root) {
            return Ok(false);
        }
        match agg.verify(shares) {
            Ok(holds) => {
                if !holds {
                    return Ok(false);
                }
            },
            Err(words) => {
                return Err(words);
            },
        }
        let miner_id = agg.miner_id;
        let root = agg.merkle_root;
        self.share_counts.insert(miner_id, agg.share_count as u64);
        self.verified_roots.insert(root);
        self.aggregates.insert(miner_id, agg);
        let ghost with = self.aggregates@;
        assert(self.share_counts@.dom() =~= with.dom());
        assert(self.wf());
        let n: usize = self.aggregates.len();
        if n > self.max_aggregates {
            let ghost items = self.aggregates.items();
            let oldest = self.aggregates.key_at(0);
            proof {
                assert forall|k: MinerId| #[trigger] with.contains_key(k) implies !k.before(
                    oldest,
                ) by {
                    let i = choose|i: int| 0 <= i < items.len() && (#[trigger] items[i]).0 == k;
                    if i > 0 {
                        assert(items[0].0.before(items[i].0));
                    }
                }
            }
            if let Some(removed) = self.aggregates.remove(&oldest) {
                self.verified_roots.remove(&removed.merkle_root);
                self.share_counts.remove(&oldest);
            }
            assert(self.share_counts@.dom() =~= self.aggregates@.dom());
            assert(with.contains_key(oldest) && self.aggregates@ == with.remove(oldest));
        }
        Ok(true)
    }

    /// The number of shares that a miner stated.
    pub fn get_share_count(&self, miner_id: &MinerId) -> (r: u32)
        requires
            self.wf(),
        ensures
            r == if self.aggregates@.contains_key(*miner_id) {
                self.aggregates@[*miner_id].share_count
            } else {
                0
            },
    {
        match self.share_counts.get(miner_id) {
            Some(count) => {
                assert(self.share_counts@.dom().contains(*miner_id));
                *count as u32
            },
            None => {
                assert(!self.share_counts@.dom().contains(*miner_id));
                0
            },
        }
    }

    /// Forgets the aggregates of the past epoch.
    pub fn new_epoch(&mut self)
        ensures
            final(self).wf(),
            final(self).aggregates@ == Map::<MinerId, AggregatedShare>::empty(),
            final(self).share_counts@ == Map::<MinerId, u64>::empty(),
            final(self).verified_roots@ == Set::<Hash32>::empty(),
            final(self).max_aggregates == old(self).max_aggregates,
    {
        self.aggregates.clear();
        self.share_counts.clear();
        self.verified_roots.clear();
        assert(self.share_counts@.dom() =~= self.aggregates@.dom());
    }

    /// The number of miners with an aggregate.
    pub fn active_miners(&self) -> (r: usize)
        ensures
            r == self.aggregates@.dom().len(),
    {
        self.aggregates.len()
    }

    /// The number of shares that all miners stated, or the largest number where it does not fit.
    pub fn total_shares(&self) -> (r: u32)
        ensures
            r == if map_sum(as_nats(self.share_counts@)) <= u32::MAX {
                map_sum(as_nats(self.share_counts@)) as u32
            } else {
                u32::MAX
            },
    {
        let total: u64 = self.share_counts.sum();
        if total > u32::MAX as u64 {
            u32::MAX
        } else {
            total as u32
        }
    }
}

/// The shares of an epoch, by miner.
pub struct SharePool {
    pub shares: OrdMap<MinerId, Vec<Share>>,
    pub share_count: OrdMap<MinerId, u64>,
    pub share_hashes: OrdSet<Hash32>,
    pub invalid_shares: OrdMap<MinerId, u64>,
    pub total_shares: OrdMap<MinerId, u64>,
    pub current_epoch: u32,
    pub max_memory_bytes: usize,
    pub memory_used: usize,
    pub created_at: Timestamp,
}

/// The count under a key, zero where there is none.
pub open spec fn count_of(m: Map<MinerId, u64>, k: MinerId) -> u64 {
    if m.contains_key(k) {
        m[k]
    } else {
        0
    }
}

/// The shares under a key, none where there are none.
pub open spec fn shares_of(m: Map<MinerId, Vec<Share>>, k: MinerId) -> Seq<Share> {
    if m.contains_key(k) {
        m[k]@
    } else {
        Seq::empty()
    }
}

/// Whether `s` is share `i` of miner `m`.
pub open spec fn holds_share(shares: Map<MinerId, Vec<Share>>, m: MinerId, i: int) -> bool {
    shares.contains_key(m) && 0 <= i < shares[m]@.len()
}

/// Whether the digest of a share is in a set.
#[verifier::opaque]
pub open spec fn digest_in(hashes: Set<Hash32>, s: Share) -> bool {
    exists|h: Hash32| #[trigger] hashes.contains(h) && h@ == share_hash_of(s)
}

/// Whether a share with a digest is held.
#[verifier::opaque]
pub open spec fn held_under(shares: Map<MinerId, Vec<Share>>, digest: Seq<u8>) -> bool {
    exists|m: MinerId, i: int| #[trigger]
        holds_share(shares, m, i) && share_hash_of(shares[m]@[i]) == digest
}

/// The shares that a pool holds and the digests that it remembers are the same, each once.
pub open spec fn digests_match(
    shares: Map<MinerId, Vec<Share>>,
    hashes: Set<Hash32>,
) -> bool {
    &&& forall|h: Hash32| #[trigger] hashes.contains(h) ==> held_under(shares, h@)
    &&& forall|m: MinerId, i: int| #[trigger]
        holds_share(shares, m, i) ==> digest_in(hashes, shares[m]@[i])
    &&& forall|m: MinerId, i: int, n: MinerId, j: int|
        #![trigger holds_share(shares, m, i), holds_share(shares, n, j)]
        holds_share(shares, m, i) && holds_share(shares, n, j) && share_hash_of(shares[m]@[i])
            == share_hash_of(shares[n]@[j]) ==> m == n && i == j
}

/// A digest of a share that is in a set is there as an array.
proof fn lemma_digest_in(hashes: Set<Hash32>, s: Share, h: Hash32)
    requires
        h@ == share_hash_of(s),
    ensures
        digest_in(hashes, s) == hashes.contains(h),
{
    reveal(digest_in);
    if digest_in(hashes, s) {
        let g = choose|g: Hash32| #[trigger] hashes.contains(g) && g@ == share_hash_of(s);
        assert(g =~= h);
    }
}

proof fn lemma_digest_grows(hashes: Set<Hash32>, s: Share, h: Hash32)
    requires
        digest_in(hashes, s),
    ensures
        digest_in(hashes.insert(h), s),
        share_hash_of(s) != h@ ==> digest_in(hashes.remove(h), s),
{
    reveal(digest_in);
    let g = choose|g: Hash32| #[trigger] hashes.contains(g) && g@ == share_hash_of(s);
    assert(hashes.insert(h).contains(g));
    if share_hash_of(s) != h@ {
        assert(hashes.remove(h).contains(g));
    }
}

impl SharePool {
    /// What every operation on a pool keeps: the counts are those of the shares and stay within
    /// the limit, the digests are those of the shares, the memory is that of as many shares, and
    /// every share is of its miner and of the current epoch.
    pub open spec fn wf(self) -> bool {
        &&& self.share_count@.dom() == self.shares@.dom()
        &&& forall|m: MinerId| #[trigger]
            self.shares@.contains_key(m) ==> self.share_count@[m] == self.shares@[m]@.len()
                && self.share_count@[m] <= MAX_SHARES_PER_MINER_PER_EPOCH
        &&& forall|m: MinerId, i: int| #[trigger]
            holds_share(self.shares@, m, i) ==> self.shares@[m]@[i].miner_id == m
                && self.shares@[m]@[i].header.epoch_index == self.current_epoch
        &&& digests_match(self.shares@, self.share_hashes@)
        &&& self.share_hashes@.finite()
        &&& self.share_count@.dom().finite()
        &&& map_sum(as_nats(self.share_count@)) == self.share_hashes@.len()
        &&& self.memory_used == vstd::layout::size_of::<Share>() * self.share_hashes@.len()
        &&& (self.memory_used <= self.max_memory_bytes || self.memory_used
            <= vstd::layout::size_of::<Share>())
    }

    /// An empty pool with so many megabytes, made at `now`.
    pub fn new_at(max_memory_mb: usize, now: Timestamp) -> (r: Self)
        ensures
            r.wf(),
            r.shares@ == Map::<MinerId, Vec<Share>>::empty(),
            r.share_hashes@ == Set::<Hash32>::empty(),
            r.invalid_shares@ == Map::<MinerId, u64>::empty(),
            r.total_shares@ == Map::<MinerId, u64>::empty(),
            r.current_epoch == 1,
            r.max_memory_bytes == if max_memory_mb * 1048576 <= usize::MAX {
                (max_memory_mb * 1048576) as usize
            } else {
                usize::MAX
            },
            r.memory_used == 0,
            r.created_at == now,
    {
        let max_memory_bytes: usize = match max_memory_mb.checked_mul(1048576) {
            Some(bytes) => bytes,
            None => usize::MAX,
        };
        let r = SharePool {
            shares: OrdMap::new(),
            share_count: OrdMap::new(),
            share_hashes: OrdSet::new(),
            invalid_shares: OrdMap::new(),
            total_shares: OrdMap::new(),
            current_epoch: 1,
            max_memory_bytes,
            memory_used: 0,
            created_at: now,
        };
        proof {
            r.lemma_empty();
        }
        r
    }

    /// A pool without shares keeps what a pool has to keep.
    proof fn lemma_empty(self)
        requires
            self.shares@ == Map::<MinerId, Vec<Share>>::empty(),
            self.share_count@ == Map::<MinerId, u64>::empty(),
            self.share_hashes@ == Set::<Hash32>::empty(),
            self.memory_used == 0,
        ensures
            self.wf(),
    {
        assert(self.share_count@.dom() =~= self.shares@.dom());
        assert(as_nats(self.share_count@).dom() =~= Set::<MinerId>::empty());
        assert(vstd::layout::size_of::<Share>() * 0 == 0);
    }

    /// An empty pool with so many megabytes, made at the time that the clock shows.
    pub fn new(max_memory_mb: usize) -> (r: Self)
        ensures
            r.wf(),
            r.shares@ == Map::<MinerId, Vec<Share>>::empty(),
            r.share_hashes@ == Set::<Hash32>::empty(),
            r.invalid_shares@ == Map::<MinerId, u64>::empty(),
            r.total_shares@ == Map::<MinerId, u64>::empty(),
            r.current_epoch == 1,
            r.max_memory_bytes == if max_memory_mb * 1048576 <= usize::MAX {
                (max_memory_mb * 1048576) as usize
            } else {
                usize::MAX
            },
            r.memory_used == 0,
    {
        Self::new_at(max_memory_mb, current_timestamp())
    }

    /// Takes in a share of the current epoch that is not known yet. An invalid one is only
    /// counted. In a full pool the oldest share of the miner with the most shares makes room.
    pub fn add_share(&mut self, share: Share, is_valid: bool) -> (r: Result<bool, &'static str>)
        requires
            old(self).wf(),
        ensures
            final(self).wf(),
            pool_step(*old(self), *final(self), share, is_valid, r),
    {
        let miner_id = share.miner_id;
        let share_hash = share.share_hash();
        if share.header.epoch_index != self.current_epoch {
            return Err("Wrong epoch");
        }
        proof {
            lemma_knows(*self, share, share_hash);
        }
        if self.share_hashes.contains(&share_hash) {
            return Ok(false);
        }
        let total: u64 = match self.total_shares.get(&miner_id) {
            Some(n) => *n,
            None => 0,
        };
        self.total_shares.insert(miner_id, total.saturating_add(1));
        if !is_valid {
            let invalid: u64 = match self.invalid_shares.get(&miner_id) {
                Some(n) => *n,
                None => 0,
            };
            self.invalid_shares.insert(miner_id, invalid.saturating_add(1));
            return Ok(false);
        }
        let share_size: usize = core::mem::size_of::<Share>();
        if self.max_memory_bytes < share_size || self.memory_used > self.max_memory_bytes
            - share_size {
            self.evict_oldest();
        }
        let ghost mid = *self;
        assert(room_map(old(self).shares@, mid.shares@, pool_full(*old(self))));
        let count: u64 = match self.share_count.get(&miner_id) {
            Some(n) => {
                assert(self.share_count@.dom().contains(miner_id));
                *n
            },
            None => {
                assert(!self.share_count@.dom().contains(miner_id));
                0
            },
        };
        if count >= MAX_SHARES_PER_MINER_PER_EPOCH {
            return Err("Max shares per miner exceeded");
        }
        let mut list: Vec<Share> = match self.shares.remove(&miner_id) {
            Some(list) => list,
            None => Vec::new(),
        };
        list.push(share);
        self.shares.insert(miner_id, list);
        self.share_hashes.insert(share_hash);
        self.share_count.insert(miner_id, count + 1);
        proof {
            assert(mid.shares@.remove(miner_id).insert(miner_id, list) =~= mid.shares@.insert(
                miner_id,
                list,
            ));
            assert(share_pushed(mid.shares@, self.shares@, share));
            lemma_push(mid.shares@, self.shares@, share, mid.share_hashes@, share_hash);
            assert(as_nats(mid.share_count@).dom() =~= mid.share_count@.dom());
            lemma_map_sum_insert(
                as_nats(mid.share_count@),
                miner_id,
                (count + 1) as nat,
            );
            assert(as_nats(self.share_count@) =~= as_nats(mid.share_count@).insert(
                miner_id,
                (count + 1) as nat,
            ));
            assert(self.share_count@.dom() =~= self.shares@.dom());
            let size = share_size as nat;
            let n = mid.share_hashes@.len();
            assert(size * (n + 1) == size * n + size) by (nonlinear_arith);
            assert forall|m: MinerId, i: int| #[trigger]
                holds_share(self.shares@, m, i) implies self.shares@[m]@[i].miner_id == m
                && self.shares@[m]@[i].header.epoch_index == self.current_epoch by {
                if m != miner_id {
                    assert(holds_share(mid.shares@, m, i));
                } else if i < list@.len() - 1 {
                    assert(holds_share(mid.shares@, m, i));
                }
            }
        }
        self.memory_used = self.memory_used + share_size;
        Ok(true)
    }

    /// Drops the oldest share of the miner with the most shares.
    fn evict_oldest(&mut self)
        requires
            old(self).wf(),
        ensures
            final(self).wf(),
            final(self).current_epoch == old(self).current_epoch,
            final(self).max_memory_bytes == old(self).max_memory_bytes,
            final(self).created_at == old(self).created_at,
            final(self).invalid_shares@ == old(self).invalid_shares@,
            final(self).total_shares@ == old(self).total_shares@,
            room_map(old(self).shares@, final(self).shares@, true),
            final(self).share_hashes@.subset_of(old(self).share_hashes@),
            final(self).share_hashes@.len() == if old(self).share_hashes@.len() > 0 {
                old(self).share_hashes@.len() - 1
            } else {
                0
            },
    {
        let ghost before = self.shares@;
        let ghost items = self.shares.items();
        let n: usize = self.shares.len();
        let mut best: Option<MinerId> = None;
        let mut most: usize = 0;
        let mut i: usize = 0;
        while i < n
            invariant
                i <= n,
                n == items.len(),
                items == self.shares.items(),
                before == self.shares@,
                sorted_by_key(items),
                forall|j: int|
                    0 <= j < items.len() ==> before.contains_key((#[trigger] items[j]).0)
                        && before[items[j].0] == items[j].1,
                match best {
                    Some(v) => before.contains_key(v) && most == before[v]@.len() && most > 0
                        && forall|j: int|
                        0 <= j < i ==> (#[trigger] items[j]).1@.len() <= most && (items[j].0.before(
                            v,
                        ) ==> items[j].1@.len() < most),
                    None => most == 0 && forall|j: int|
                        0 <= j < i ==> (#[trigger] items[j]).1@.len() == 0,
                },
                best matches Some(v) ==> exists|j: int| 0 <= j < i && (#[trigger] items[j]).0 == v,
            decreases n - i,
        {
            let len: usize = self.shares.value_at(i).len();
            assert(items[i as int].1@.len() == len);
            if len > most {
                let key = self.shares.key_at(i);
                most = len;
                best = Some(key);
                assert(items[i as int].0 == key);
            } else {
                proof {
                    if let Some(v) = best {
                        let j = choose|j: int| 0 <= j < i && (#[trigger] items[j]).0 == v;
                        assert(items[j].0.before(items[i as int].0));
                        if items[i as int].0.before(v) {
                            MinerId::order_transitive(v, items[i as int].0, v);
                            MinerId::order_irreflexive(v);
                        }
                    }
                }
            }
            i += 1;
        }
        if let Some(v) = best {
            proof {
                assert(picks(before, v)) by {
                    assert forall|k: MinerId| #[trigger] before.contains_key(k) implies before[k]@.len()
                        <= before[v]@.len() && (k.before(v) ==> before[k]@.len()
                        < before[v]@.len()) by {
                        let j = choose|j: int| 0 <= j < items.len() && (#[trigger] items[j]).0 == k;
                        assert(items[j].1@.len() <= most);
                    }
                }
            }
            if let Some(list) = self.shares.remove(&v) {
                let mut rest: Vec<Share> = list;
                let oldest = rest.remove(0);
                let hash = oldest.share_hash();
                self.share_hashes.remove(&hash);
                let size: usize = core::mem::size_of::<Share>();
                let ghost count = self.share_count@[v];
                assert(holds_share(before, v, 0));
                assert(self.share_count@.dom().contains(v));
                self.share_count.insert(v, rest.len() as u64);
                self.shares.insert(v, rest);
                proof {
                    assert(before.remove(v).insert(v, rest) =~= before.insert(v, rest));
                    assert(rest@ =~= before[v]@.drop_first());
                    lemma_evict(before, self.shares@, v, old(self).share_hashes@, hash);
                    let counts = old(self).share_count@;
                    assert(as_nats(counts).dom() =~= counts.dom());
                    lemma_map_sum_insert(as_nats(counts), v, rest@.len());
                    assert(as_nats(self.share_count@) =~= as_nats(counts).insert(v, rest@.len()));
                    assert(self.share_count@.dom() =~= self.shares@.dom());
                    let len = old(self).share_hashes@.len();
                    let sz = size as nat;
                    assert(sz * len == sz * ((len - 1) as nat) + sz) by (nonlinear_arith)
                        requires
                            len > 0,
                    ;
                    assert(sz * ((len - 1) as nat) >= 0);
                    assert forall|m: MinerId, i: int| #[trigger]
                        holds_share(self.shares@, m, i) implies self.shares@[m]@[i].miner_id == m
                        && self.shares@[m]@[i].header.epoch_index == self.current_epoch by {
                        if m == v {
                            assert(holds_share(before, m, i + 1));
                        } else {
                            assert(holds_share(before, m, i));
                        }
                    }
                }
                self.memory_used = self.memory_used - size;
            }
        } else {
            proof {
                assert forall|k: MinerId| #[trigger] before.contains_key(k) implies before[k]@.len()
                    == 0 by {
                    let j = choose|j: int| 0 <= j < items.len() && (#[trigger] items[j]).0 == k;
                    assert(items[j].1@.len() == 0);
                }
                if self.share_hashes@.len() > 0 {
                    let h = self.share_hashes@.choose();
                    assert(self.share_hashes@.contains(h));
                    reveal(held_under);
                    let (m, i) = choose|m: MinerId, i: int| #[trigger]
                        holds_share(before, m, i) && share_hash_of(before[m]@[i]) == h@;
                    assert(before.contains_key(m));
                }
            }
        }
    }

    /// The miners with shares in the pool, in increasing order.
    pub fn miners(&self) -> (r: Vec<MinerId>)
        ensures
            r@ == self.shares.items().map_values(|e: (MinerId, Vec<Share>)| e.0),
            forall|m: MinerId| #[trigger] r@.contains(m) <==> self.shares@.contains_key(m),
    {
        let mut r: Vec<MinerId> = Vec::new();
        let n: usize = self.shares.len();
        let ghost items = self.shares.items();
        let mut i: usize = 0;
        while i < n
            invariant
                i <= n,
                n == items.len(),
                items == self.shares.items(),
                r@.len() == i,
                forall|j: int| 0 <= j < i ==> r@[j] == (#[trigger] items[j]).0,
            decreases n - i,
        {
            r.push(self.shares.key_at(i));
            i += 1;
        }
        proof {
            assert(r@ =~= items.map_values(|e: (MinerId, Vec<Share>)| e.0));
            assert forall|m: MinerId| #[trigger] r@.contains(m) <==> self.shares@.contains_key(
                m,
            ) by {
                if r@.contains(m) {
                    let j = choose|j: int| 0 <= j < r@.len() && r@[j] == m;
                    assert(items[j].0 == m);
                }
                if self.shares@.contains_key(m) {
                    let j = choose|j: int| 0 <= j < items.len() && (#[trigger] items[j]).0 == m;
                    assert(r@[j] == m);
                }
            }
        }
        r
    }

    /// The number of shares of a miner.
    pub fn get_shares(&self, miner_id: &MinerId) -> (r: u64)
        ensures
            r == count_of(self.share_count@, *miner_id),
    {
        match self.share_count.get(miner_id) {
            Some(n) => *n,
            None => 0,
        }
    }

    /// Whether a share with this digest is in the pool.
    pub fn has_share(&self, share_hash: &Hash32) -> (r: bool)
        ensures
            r == self.share_hashes@.contains(*share_hash),
    {
        self.share_hashes.contains(share_hash)
    }

    /// Whether a share with the digest of a share is in the pool.
    pub fn has_share_like(&self, share: &Share, share_hash: &Hash32) -> (r: bool)
        requires
            self.wf(),
            share_hash@ == share_hash_of(*share),
        ensures
            r == knows(*self, *share),
    {
        proof {
            lemma_knows(*self, *share, *share_hash);
        }
        self.share_hashes.contains(share_hash)
    }

    /// The root of the tree over the digests of the shares in increasing order; zeros where there
    /// is no share.
    pub fn calculate_merkle_root(&self) -> (r: Hash32)
        ensures
            r@ == pool_root(self.share_hashes.members()),
    {
        let n: usize = self.share_hashes.len();
        if n == 0 {
            let zero: Hash32 = [0u8; 32];
            assert(zero@ =~= Seq::new(32, |i: int| 0u8));
            return zero;
        }
        let mut hashes: Vec<Hash32> = Vec::new();
        let ghost members = self.share_hashes.members();
        let mut i: usize = 0;
        while i < n
            invariant
                i <= n,
                n == members.len(),
                members == self.share_hashes.members(),
                hashes@.len() == i,
                forall|j: int| 0 <= j < i ==> hashes@[j] == members[j],
            decreases n - i,
        {
            hashes.push(self.share_hashes.member_at(i));
            i += 1;
        }
        assert(hashes@ =~= members);
        merkle_root(hashes)
    }

    /// Forgets the shares of the past epoch and begins the next one at `now`.
    pub fn new_epoch_at(&mut self, now: Timestamp)
        requires
            old(self).current_epoch < u32::MAX,
        ensures
            final(self).wf(),
            final(self).shares@ == Map::<MinerId, Vec<Share>>::empty(),
            final(self).share_hashes@ == Set::<Hash32>::empty(),
            final(self).invalid_shares@ == Map::<MinerId, u64>::empty(),
            final(self).total_shares@ == Map::<MinerId, u64>::empty(),
            final(self).memory_used == 0,
            final(self).max_memory_bytes == old(self).max_memory_bytes,
            final(self).current_epoch == old(self).current_epoch + 1,
            final(self).created_at == now,
    {
        self.shares.clear();
        self.share_count.clear();
        self.share_hashes.clear();
        self.invalid_shares.clear();
        self.total_shares.clear();
        self.memory_used = 0;
        self.current_epoch = self.current_epoch + 1;
        self.created_at = now;
        proof {
            self.lemma_empty();
        }
    }

    /// Forgets the shares of the past epoch and begins the next one at the time that the clock
    /// shows.
    pub fn new_epoch(&mut self)
        requires
            old(self).current_epoch < u32::MAX,
        ensures
            final(self).wf(),
            final(self).shares@ == Map::<MinerId, Vec<Share>>::empty(),
            final(self).share_hashes@ == Set::<Hash32>::empty(),
            final(self).invalid_shares@ == Map::<MinerId, u64>::empty(),
            final(self).total_shares@ == Map::<MinerId, u64>::empty(),
            final(self).memory_used == 0,
            final(self).max_memory_bytes == old(self).max_memory_bytes,
            final(self).current_epoch == old(self).current_epoch + 1,
    {
        self.new_epoch_at(current_timestamp())
    }

    /// How many of the shares that a miner handed in were invalid.
    pub fn invalid_ratio(&self, miner_id: &MinerId) -> (r: InvalidRatio)
        ensures
            r.total == count_of(self.total_shares@, *miner_id),
            r.invalid == if r.total == 0 {
                0
            } else {
                count_of(self.invalid_shares@, *miner_id)
            },
    {
        let total: u64 = match self.total_shares.get(miner_id) {
            Some(n) => *n,
            None => 0,
        };
        if total == 0 {
            return InvalidRatio { invalid: 0, total: 0 };
        }
        let invalid: u64 = match self.invalid_shares.get(miner_id) {
            Some(n) => *n,
            None => 0,
        };
        InvalidRatio { invalid, total }
    }

    /// The number of shares in the pool.
    pub fn total_shares_count(&self) -> (r: u64)
        requires
            self.wf(),
        ensures
            r == self.share_hashes@.len(),
            r == map_sum(as_nats(self.share_count@)),
    {
        let n: usize = self.share_hashes.len();
        assert(n <= u64::MAX);
        self.share_count.sum()
    }

    /// The number of miners in the pool.
    pub fn active_miners_count(&self) -> (r: usize)
        ensures
            r == self.shares@.dom().len(),
    {
        self.shares.len()
    }
}

/// The pool after a share was handed in, and the answer.
pub open spec fn pool_step(
    before: SharePool,
    after: SharePool,
    share: Share,
    is_valid: bool,
    r: Result<bool, &'static str>,
) -> bool {
    &&& after.current_epoch == before.current_epoch
    &&& after.max_memory_bytes == before.max_memory_bytes
    &&& after.created_at == before.created_at
    &&& match r {
        Err(words) => if share.header.epoch_index != before.current_epoch {
            words@ == "Wrong epoch"@ && after == before
        } else {
            &&& words@ == "Max shares per miner exceeded"@
            &&& !knows(before, share)
            &&& is_valid
            &&& room_made(before, after)
            &&& counted(before, after, share.miner_id)
            &&& after.invalid_shares@ == before.invalid_shares@
            &&& after.share_count@.contains_key(share.miner_id)
            &&& after.share_count@[share.miner_id] == MAX_SHARES_PER_MINER_PER_EPOCH
        },
        Ok(false) => {
            &&& share.header.epoch_index == before.current_epoch
            &&& if knows(before, share) {
                after == before
            } else {
                &&& !is_valid
                &&& counted(before, after, share.miner_id)
                &&& after.invalid_shares@ == before.invalid_shares@.insert(
                    share.miner_id,
                    bumped(count_of(before.invalid_shares@, share.miner_id)),
                )
                &&& after.shares@ == before.shares@
                &&& after.share_hashes@ == before.share_hashes@
            }
        },
        Ok(true) => {
            &&& share.header.epoch_index == before.current_epoch
            &&& !knows(before, share)
            &&& is_valid
            &&& counted(before, after, share.miner_id)
            &&& after.invalid_shares@ == before.invalid_shares@
            &&& exists|mid: Map<MinerId, Vec<Share>>|
                {
                    &&& #[trigger] room_map(before.shares@, mid, pool_full(before))
                    &&& shares_of(mid, share.miner_id).len() < MAX_SHARES_PER_MINER_PER_EPOCH
                    &&& share_pushed(mid, after.shares@, share)
                }
        },
    }
}

/// The root of the tree over digests; zeros where there is none.
pub open spec fn pool_root(hashes: Seq<Hash32>) -> Seq<u8> {
    if hashes.len() == 0 {
        Seq::new(32, |i: int| 0u8)
    } else {
        merkle_root_of(hash_views(hashes))
    }
}

/// Whether one more share would not fit into the memory of a pool.
pub open spec fn pool_full(p: SharePool) -> bool {
    p.memory_used + vstd::layout::size_of::<Share>() > p.max_memory_bytes
}

/// Whether a share with the same digest is in a pool.
pub open spec fn knows(p: SharePool, s: Share) -> bool {
    held_under(p.shares@, share_hash_of(s))
}

/// Whether a share of a miner was counted.
pub open spec fn counted(before: SharePool, after: SharePool, m: MinerId) -> bool {
    after.total_shares@ == before.total_shares@.insert(
        m,
        bumped(count_of(before.total_shares@, m)),
    )
}

/// Whether `v` is the first of the miners with the most shares.
pub open spec fn picks(shares: Map<MinerId, Vec<Share>>, v: MinerId) -> bool {
    &&& shares.contains_key(v)
    &&& shares[v]@.len() > 0
    &&& forall|k: MinerId| #[trigger]
        shares.contains_key(k) ==> shares[k]@.len() <= shares[v]@.len() && (k.before(v)
            ==> shares[k]@.len() < shares[v]@.len())
}

/// The shares after the oldest share of the miner with the most shares was dropped.
pub open spec fn evicted(
    before: Map<MinerId, Vec<Share>>,
    after: Map<MinerId, Vec<Share>>,
) -> bool {
    if exists|v: MinerId| picks(before, v) {
        exists|v: MinerId| #[trigger]
            picks(before, v) && after == before.insert(v, after[v]) && after[v]@
                == before[v]@.drop_first()
    } else {
        after == before
    }
}

/// The shares after room was made in a pool, where it was full.
pub open spec fn room_map(
    before: Map<MinerId, Vec<Share>>,
    after: Map<MinerId, Vec<Share>>,
    full: bool,
) -> bool {
    if full {
        evicted(before, after)
    } else {
        after == before
    }
}

/// Whether room was made in a pool that was full, and nothing else happened to its shares.
pub open spec fn room_made(before: SharePool, after: SharePool) -> bool {
    room_map(before.shares@, after.shares@, pool_full(before))
}

/// The shares after a share was put behind those of its miner.
pub open spec fn share_pushed(
    before: Map<MinerId, Vec<Share>>,
    after: Map<MinerId, Vec<Share>>,
    s: Share,
) -> bool {
    after == before.insert(s.miner_id, after[s.miner_id]) && after[s.miner_id]@ == shares_of(
        before,
        s.miner_id,
    ).push(s)
}

proof fn lemma_knows(p: SharePool, s: Share, h: Hash32)
    requires
        p.wf(),
        h@ == share_hash_of(s),
    ensures
        p.share_hashes@.contains(h) == knows(p, s),
{
    if knows(p, s) {
        reveal(held_under);
        let (m, i) = choose|m: MinerId, i: int| #[trigger]
            holds_share(p.shares@, m, i) && share_hash_of(p.shares@[m]@[i]) == share_hash_of(s);
        lemma_digest_in(p.share_hashes@, p.shares@[m]@[i], h);
    }
}

proof fn lemma_push(
    before: Map<MinerId, Vec<Share>>,
    after: Map<MinerId, Vec<Share>>,
    s: Share,
    hashes: Set<Hash32>,
    h: Hash32,
)
    requires
        digests_match(before, hashes),
        share_pushed(before, after, s),
        h@ == share_hash_of(s),
        !hashes.contains(h),
    ensures
        digests_match(after, hashes.insert(h)),
{
    let m0 = s.miner_id;
    let n0 = shares_of(before, m0).len() as int;
    let grown = hashes.insert(h);
    assert(holds_share(after, m0, n0));
    assert(after[m0]@[n0] == s);
    assert forall|m: MinerId, i: int| #[trigger] holds_share(after, m, i) && (m != m0 || i
        != n0) implies holds_share(before, m, i) && after[m]@[i] == before[m]@[i]
        && share_hash_of(before[m]@[i]) != h@ by {
        assert(holds_share(before, m, i));
        lemma_digest_in_distinct(hashes, before[m]@[i], h);
    }
    assert forall|g: Hash32| #[trigger] grown.contains(g) implies held_under(after, g@) by {
        reveal(held_under);
        if g == h {
            assert(holds_share(after, m0, n0));
        } else {
            assert(hashes.contains(g));
            let (m, i) = choose|m: MinerId, i: int| #[trigger]
                holds_share(before, m, i) && share_hash_of(before[m]@[i]) == g@;
            assert(holds_share(after, m, i) && after[m]@[i] == before[m]@[i]);
        }
    }
    assert forall|m: MinerId, i: int| #[trigger] holds_share(after, m, i) implies digest_in(
        grown,
        after[m]@[i],
    ) by {
        if m == m0 && i == n0 {
            lemma_digest_in(grown, s, h);
        } else {
            assert(holds_share(before, m, i));
            lemma_digest_grows(hashes, before[m]@[i], h);
        }
    }
    assert forall|m: MinerId, i: int, n: MinerId, j: int|
        #![trigger holds_share(after, m, i), holds_share(after, n, j)]
        holds_share(after, m, i) && holds_share(after, n, j) && share_hash_of(after[m]@[i])
            == share_hash_of(after[n]@[j]) implies m == n && i == j by {
        if (m != m0 || i != n0) && (n != m0 || j != n0) {
            assert(holds_share(before, m, i));
            assert(holds_share(before, n, j));
        }
    }
}

proof fn lemma_digest_in_distinct(hashes: Set<Hash32>, s: Share, h: Hash32)
    requires
        digest_in(hashes, s),
        !hashes.contains(h),
    ensures
        share_hash_of(s) != h@,
{
    if share_hash_of(s) == h@ {
        lemma_digest_in(hashes, s, h);
    }
}

proof fn lemma_evict(
    before: Map<MinerId, Vec<Share>>,
    after: Map<MinerId, Vec<Share>>,
    v: MinerId,
    hashes: Set<Hash32>,
    h: Hash32,
)
    requires
        digests_match(before, hashes),
        holds_share(before, v, 0),
        after == before.insert(v, after[v]),
        after[v]@ == before[v]@.drop_first(),
        h@ == share_hash_of(before[v]@[0]),
    ensures
        hashes.contains(h),
        digests_match(after, hashes.remove(h)),
{
    let fewer = hashes.remove(h);
    lemma_digest_in(hashes, before[v]@[0], h);
    let back = |m: MinerId, i: int| if m == v { i + 1 } else { i };
    assert forall|m: MinerId, i: int| #[trigger] holds_share(after, m, i) implies holds_share(
        before,
        m,
        back(m, i),
    ) && after[m]@[i] == before[m]@[back(m, i)] && share_hash_of(after[m]@[i]) != h@ by {
        assert(holds_share(before, m, back(m, i)));
        assert(holds_share(before, v, 0));
    }
    assert forall|g: Hash32| #[trigger] fewer.contains(g) implies held_under(after, g@) by {
        reveal(held_under);
        assert(hashes.contains(g));
        let (m, i) = choose|m: MinerId, i: int| #[trigger]
            holds_share(before, m, i) && share_hash_of(before[m]@[i]) == g@;
        if m == v {
            if i == 0 {
                assert(g =~= h);
            }
            assert(holds_share(after, m, i - 1));
            assert(after[m]@[i - 1] == before[m]@[i]);
        } else {
            assert(holds_share(after, m, i));
        }
    }
    assert forall|m: MinerId, i: int| #[trigger] holds_share(after, m, i) implies digest_in(
        fewer,
        after[m]@[i],
    ) by {
        assert(holds_share(before, m, back(m, i)));
        lemma_digest_grows(hashes, after[m]@[i], h);
    }
    assert forall|m: MinerId, i: int, n: MinerId, j: int|
        #![trigger holds_share(after, m, i), holds_share(after, n, j)]
        holds_share(after, m, i) && holds_share(after, n, j) && share_hash_of(after[m]@[i])
            == share_hash_of(after[n]@[j]) implies m == n && i == j by {
        assert(holds_share(before, m, back(m, i)));
        assert(holds_share(before, n, back(n, j)));
    }
}

/// An epoch that is missed costs half of a loyalty within the grace period, and three tenths
/// outside it, rounded down each time; each further epoch costs three tenths of what is left.
pub proof fn law_what_missed_epochs_cost(value: u64, n: nat)
    ensures
        faded(value, true, 1) * 2 <= value < faded(value, true, 1) * 2 + 2,
        10 * faded(value, false, 1) <= 7 * value < 10 * faded(value, false, 1) + 10,
        n > 0 ==> 10 * faded(value, true, n + 1) <= 7 * faded(value, true, n) < 10 * faded(
            value,
            true,
            n + 1,
        ) + 10,
        10 * faded(value, false, n + 1) <= 7 * faded(value, false, n) < 10 * faded(
            value,
            false,
            n + 1,
        ) + 10,
        faded(value, true, 0) == value,
        faded(value, false, 0) == value,
{
    reveal_with_fuel(decayed_times, 2);
    if n > 0 {
        assert(decayed_times(value / 2, n) == decayed(decayed_times(value / 2, (n - 1) as nat)));
    }
    assert(decayed_times(value, n + 1) == decayed(decayed_times(value, n)));
}

/// What an epoch does to a loyalty. Taking part after missed ones adds one to what those left and
/// restores the grace period of three epochs; staying away counts the missed epochs, ends the run,
/// and uses up one epoch of grace.
pub proof fn law_epoch_and_loyalty(l: LoyaltyData, epoch: u32)
    requires
        l.last_epoch < epoch,
        l.value < u64::MAX,
        l.missed_epochs + epoch <= u32::MAX,
        l.consecutive_epochs < u32::MAX,
    ensures
        ({
            let came = loyalty_after(l, epoch, true);
            let stayed = loyalty_after(l, epoch, false);
            let passed = (epoch - l.last_epoch) as nat;
            &&& came.value == faded(l.value, l.grace_remaining > 0, (passed - 1) as nat) + 1
            &&& came.missed_epochs == 0
            &&& came.consecutive_epochs == l.consecutive_epochs + 1
            &&& came.grace_remaining >= 3
            &&& came.last_epoch == epoch
            &&& stayed.value == faded(l.value, l.grace_remaining > 0, passed)
            &&& stayed.missed_epochs == l.missed_epochs + passed
            &&& stayed.consecutive_epochs == 0
            &&& l.grace_remaining > 0 ==> stayed.grace_remaining == l.grace_remaining - 1
            &&& l.grace_remaining == 0 ==> stayed.grace_remaining == 0
            &&& stayed.last_epoch == epoch
            &&& stayed.value < came.value || came.value == 1
            &&& stayed.value <= came.value
        }),
{
    let passed = (epoch - l.last_epoch) as nat;
    law_missed_epochs_lower_loyalty(l.value, l.grace_remaining > 0, (passed - 1) as nat);
    law_missed_epochs_lower_loyalty(l.value, l.grace_remaining > 0, passed);
    lemma_one_more_missed(l.value, l.grace_remaining > 0, (passed - 1) as nat);
}

proof fn lemma_one_more_missed(value: u64, grace: bool, n: nat)
    ensures
        faded(value, grace, n + 1) <= faded(value, grace, n),
{
    reveal_with_fuel(decayed_times, 2);
    if grace {
        if n > 0 {
            assert(decayed_times(value / 2, n) == decayed(
                decayed_times(value / 2, (n - 1) as nat),
            ));
        }
    } else {
        assert(decayed_times(value, n + 1) == decayed(decayed_times(value, n)));
    }
}

/// How long invalid work bans: more than three tenths of it for 900 seconds, else more than a tenth
/// for 300; up to a tenth leaves a ban as it was.
pub proof fn law_bans_for_invalid_work(
    ratio: InvalidRatio,
    now: Timestamp,
    before: Option<Timestamp>,
)
    requires
        now + 900 <= u64::MAX,
    ensures
        10 * ratio.invalid > 3 * ratio.total ==> ban_after(ratio, now, before) == Some(
            (now + 900) as u64,
        ),
        ratio.total < 10 * ratio.invalid <= 3 * ratio.total ==> ban_after(ratio, now, before)
            == Some((now + 300) as u64),
        10 * ratio.invalid <= ratio.total ==> ban_after(ratio, now, before) == before,
{
    assert(1 * ratio.total == ratio.total);
}

/// A share is valid exactly when it follows the given block, is of the given epoch, is within two
/// hours of the given time, passes the prefilter, and carries the work of its header with its
/// nonce, which meets the target.
pub proof fn law_when_a_share_is_valid(
    s: Share,
    target: Target,
    prev_hash: Hash32,
    epoch: u32,
    now: Timestamp,
)
    ensures
        share_fault(s, target, prev_hash, epoch, now) is None <==> {
            &&& s.header.prev_hash == prev_hash
            &&& s.header.epoch_index == epoch
            &&& now - 7200 <= s.timestamp <= now + 7200
            &&& be_value(sha256_of(header_bytes(s.header) + le_bytes(s.nonce as nat, 8)).take(8))
                <= be_value(target.0@.take(8))
            &&& s.hash@ == pow_hash_of(header_bytes(with_nonce(s.header, s.nonce)))
            &&& be_value(s.hash@) <= be_value(target.0@)
        },
{
}

/// Making room takes at most one share, the oldest of a miner who has no fewer than any other: what
/// is left of each miner's shares are the latest of them, in their order.
pub proof fn law_the_oldest_share_makes_room(
    before: Map<MinerId, Vec<Share>>,
    after: Map<MinerId, Vec<Share>>,
    full: bool,
    m: MinerId,
)
    requires
        room_map(before, after, full),
    ensures
        after.contains_key(m) <==> before.contains_key(m),
        before.contains_key(m) ==> {
            let gone = before[m]@.len() - after[m]@.len();
            &&& 0 <= gone <= 1
            &&& after[m]@ == before[m]@.skip(gone)
            &&& gone == 1 ==> full && forall|k: MinerId| #[trigger]
                before.contains_key(k) ==> before[k]@.len() <= before[m]@.len() && (k != m
                    ==> after[k] == before[k])
        },
{
    if before.contains_key(m) {
        assert(before[m]@.skip(0) =~= before[m]@);
        if before[m]@.len() > 0 {
            assert(before[m]@.skip(1) =~= before[m]@.drop_first());
        }
    }
}

/// A share that is taken in is the last of its miner's and was not known before; it counts for its
/// miner. Handing in a known share changes nothing, an invalid one is only counted as such, and one
/// of another epoch is refused without a trace.
pub proof fn law_handing_in_a_share(
    before: SharePool,
    after: SharePool,
    share: Share,
    is_valid: bool,
    r: Result<bool, &'static str>,
)
    requires
        pool_step(before, after, share, is_valid, r),
        before.wf(),
    ensures
        r == Ok::<bool, &'static str>(true) ==> {
            &&& is_valid
            &&& share.header.epoch_index == before.current_epoch
            &&& !knows(before, share)
            &&& after.shares@.contains_key(share.miner_id)
            &&& after.shares@[share.miner_id]@.len() > 0
            &&& after.shares@[share.miner_id]@.last() == share
            &&& knows(after, share)
            &&& after.shares@[share.miner_id]@.len() <= 5000
        },
        share.header.epoch_index != before.current_epoch ==> r is Err && after == before,
        share.header.epoch_index == before.current_epoch && knows(before, share) ==> r == Ok::<
            bool,
            &'static str,
        >(false) && after == before,
        share.header.epoch_index == before.current_epoch && !knows(before, share) && !is_valid
            ==> r == Ok::<bool, &'static str>(false) && after.shares@ == before.shares@ && (
        count_of(before.invalid_shares@, share.miner_id) < u64::MAX ==> count_of(
            after.invalid_shares@,
            share.miner_id,
        ) == count_of(before.invalid_shares@, share.miner_id) + 1),
        !knows(before, share) && share.header.epoch_index == before.current_epoch && count_of(
            before.total_shares@,
            share.miner_id,
        ) < u64::MAX ==> count_of(after.total_shares@, share.miner_id) == count_of(
            before.total_shares@,
            share.miner_id,
        ) + 1,
{
    if r == Ok::<bool, &'static str>(true) {
        let id = share.miner_id;
        let mid = choose|mid: Map<MinerId, Vec<Share>>|
            {
                &&& #[trigger] room_map(before.shares@, mid, pool_full(before))
                &&& shares_of(mid, id).len() < MAX_SHARES_PER_MINER_PER_EPOCH
                &&& share_pushed(mid, after.shares@, share)
            };
        let last = after.shares@[id]@.len() - 1;
        assert(holds_share(after.shares@, id, last));
        assert(after.shares@[id]@[last] == share);
        reveal(held_under);
    }
}

/// An aggregate holds exactly when it counts the shares that come with it, they are all of its
/// miner, their digests have its root, its key is that miner's, and the signature verifies over the
/// digest of what the miner states.
pub proof fn law_when_an_aggregate_holds(a: AggregatedShareV, shares: Seq<Share>)
    requires
        shares.len() < 0x1_0000_0000,
    ensures
        aggregate_holds(a, shares) <==> {
            &&& a.share_count == shares.len()
            &&& forall|i: int|
                0 <= i < shares.len() ==> (#[trigger] shares[i]).miner_id == a.miner_id
            &&& a.merkle_root@ == merkle_root_of(
                shares.map_values(
                    |s: Share|
                        sha256_of(
                            s.miner_id@ + header_bytes(s.header) + le_bytes(s.nonce as nat, 8)
                                + s.hash@,
                        ),
                ),
            )
            &&& a.pubkey.len() == 33 || a.pubkey.len() == 65
            &&& parsed_public_key(a.pubkey) matches Some(key)
            &&& crate::primitives::ripemd160_of(sha256_of(key)) == a.miner_id@
            &&& crate::primitives::is_compact_signature(a.signature)
            &&& crate::primitives::ecdsa_valid(
                key,
                a.signature,
                sha256_of(
                    sha256_of(
                        a.miner_id@ + le_bytes(a.share_count as nat, 4) + a.merkle_root@ + le_bytes(
                            a.epoch as nat,
                            4,
                        ) + le_bytes(a.timestamp as nat, 8),
                    ),
                ),
            )
        },
{
    let f = |s: Share|
        sha256_of(
            s.miner_id@ + header_bytes(s.header) + le_bytes(s.nonce as nat, 8) + s.hash@,
        );
    assert(shares.map_values(f) =~= share_digests(shares));
}

/// What a miner signs for an aggregate is the digest of 68 bytes that tell who it is, how many
/// shares there are, their root, the epoch and the time, each in its place.
pub proof fn law_signed_aggregate_tells_all(
    miner_id: MinerId,
    share_count: u32,
    root: Hash32,
    epoch: u32,
    timestamp: Timestamp,
    message: Seq<u8>,
)
    requires
        message.len() == 68,
        message.subrange(0, 20) == miner_id@,
        message.subrange(20, 24) == le_bytes(share_count as nat, 4),
        message.subrange(24, 56) == root@,
        message.subrange(56, 60) == le_bytes(epoch as nat, 4),
        message.subrange(60, 68) == le_bytes(timestamp as nat, 8),
    ensures
        aggregate_message(miner_id@, share_count, root@, epoch, timestamp) == sha256_of(message),
{
    crate::bytes::lemma_le_bytes_len(share_count as nat, 4);
    crate::bytes::lemma_le_bytes_len(epoch as nat, 4);
    crate::bytes::lemma_le_bytes_len(timestamp as nat, 8);
    assert(message =~= message.subrange(0, 20) + message.subrange(20, 24) + message.subrange(
        24,
        56,
    ) + message.subrange(56, 60) + message.subrange(60, 68));
}

/// A pool of aggregates takes in an aggregate in place of the last one of its miner and holds no
/// more than it may. Where it is full, one aggregate leaves with its root, and it is the one of the
/// miner that comes first.
pub proof fn law_pool_of_aggregates_is_bounded(
    before: AggregatedSharePool,
    after: AggregatedSharePool,
    agg: AggregatedShare,
    m: MinerId,
)
    requires
        aggregate_added(before, after, agg),
        before.aggregates@.dom().finite(),
        before.aggregates@.dom().len() <= before.max_aggregates,
    ensures
        after.aggregates@.dom().len() <= before.max_aggregates,
        after.aggregates@.contains_key(m) ==> after.aggregates@[m] == if m == agg.miner_id {
            agg
        } else {
            before.aggregates@[m]
        },
        after.aggregates@.contains_key(m) ==> m == agg.miner_id || before.aggregates@.contains_key(
            m,
        ),
        before.aggregates@.contains_key(m) && !after.aggregates@.contains_key(m)
            ==> before.aggregates@.dom().len() == before.max_aggregates && forall|k: MinerId|
            #[trigger] after.aggregates@.contains_key(k) ==> m.before(k),
{
    let with = before.aggregates@.insert(agg.miner_id, agg);
    if with.dom().len() > before.max_aggregates {
        let gone = choose|m: MinerId|
            {
                &&& #[trigger] with.contains_key(m)
                &&& after.aggregates@ == with.remove(m)
                &&& after.verified_roots@ == before.verified_roots@.insert(agg.merkle_root).remove(
                    with[m].merkle_root,
                )
                &&& forall|k: MinerId| #[trigger] with.contains_key(k) ==> !k.before(m)
            };
        assert(after.aggregates@.dom() =~= with.dom().remove(gone));
        if before.aggregates@.contains_key(m) && !after.aggregates@.contains_key(m) {
            assert(m == gone);
            assert forall|k: MinerId| #[trigger] after.aggregates@.contains_key(k) implies m.before(
                k,
            ) by {
                assert(with.contains_key(k));
                MinerId::order_total(m, k);
            }
        }
    }
}

} // verus!
