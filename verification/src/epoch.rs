//! The course of epochs.
use crate::block::BlockHeader;
use crate::bytes::be_value;
use crate::collections::OrdMap;
use crate::constants::{EPOCH_BLOCKS, GENESIS_TIMESTAMP};
use crate::crypto::elapsed;
use crate::difficulty::{adjust_for_span, adjusted_for_span};
use crate::error::Error;
use crate::median::{median_of, median_of_last};
use crate::p2p::capped_height;
use crate::share::{
    digest_known, packet_digest, packets_of, share_error_text, EpochShares, ShareError, SharePacket,
    MAX_PACKETS_PER_MINER,
};
use crate::types::{current_timestamp, shifted_byte, EpochIndex, Hash32, Target};
use vstd::prelude::*;

verus! {

/// An epoch.
#[derive(Debug, Clone, Copy, PartialEq, Eq)]
pub struct Epoch {
    pub index: EpochIndex,
    pub start_block: u64,
    pub end_block: u64,
    pub start_time: u64,
    pub end_time: Option<u64>,
    pub target_block: Target,
    pub target_share: Target,
    pub total_shares: u64,
    pub active_miners: usize,
}

/// Whether an epoch begins with a block at a time and a target: its shares have the target shifted
/// left by eight.
pub open spec fn epoch_begun(
    e: Epoch,
    index: EpochIndex,
    start_block: u64,
    start_time: u64,
    target_block: Target,
) -> bool {
    &&& e.index == index
    &&& e.start_block == start_block
    &&& e.end_block == capped_height(start_block, (EPOCH_BLOCKS - 1) as nat)
    &&& e.start_time == start_time
    &&& e.end_time is None
    &&& e.target_block == target_block
    &&& e.target_share.0@ == Seq::new(32, |j: int| shifted_byte(target_block.0@, 8, j))
    &&& e.total_shares == 0
    &&& e.active_miners == 0
}

impl Epoch {
    /// An epoch that begins.
    pub fn new(index: EpochIndex, start_block: u64, start_time: u64, target_block: Target) -> (r:
        Self)
        ensures
            epoch_begun(r, index, start_block, start_time, target_block),
    {
        let target_share = target_block.shift_left(8);
        Epoch {
            index,
            start_block,
            end_block: start_block.saturating_add(EPOCH_BLOCKS - 1),
            start_time,
            end_time: None,
            target_block,
            target_share,
            total_shares: 0,
            active_miners: 0,
        }
    }

    /// Whether a block belongs to the epoch.
    pub fn contains_block(&self, height: u64) -> (r: bool)
        ensures
            r == belongs(*self, height),
    {
        height >= self.start_block && height <= self.end_block
    }

    /// Marks the epoch as ended.
    pub fn end(&mut self, end_time: u64)
        ensures
            *final(self) == (Epoch { end_time: Some(end_time), ..*old(self) }),
    {
        self.end_time = Some(end_time);
    }

    /// Takes over the numbers of shares and miners.
    pub fn update_stats(&mut self, epoch_shares: &EpochShares)
        ensures
            *final(self) == (Epoch {
                total_shares: epoch_shares.count() as u64,
                active_miners: epoch_shares.entries().len() as usize,
                ..*old(self)
            }),
            final(self).total_shares == epoch_shares.count(),
            final(self).active_miners == epoch_shares.entries().len(),
    {
        self.total_shares = epoch_shares.total_shares() as u64;
        self.active_miners = epoch_shares.miners().len();
    }
}

/// The epochs so far, the blocks, and the shares of the current epoch.
#[derive(Debug)]
pub struct EpochManager {
    past: OrdMap<EpochIndex, Epoch>,
    current_epoch: EpochIndex,
    current: Epoch,
    block_timestamps: Vec<u64>,
    block_heights: Vec<u64>,
    epoch_shares: EpochShares,
}

/// Whether the timestamp of a block is acceptable at `now`: it is later than the middle one of the
/// last eleven, where there are that many, and then less than two hours ahead.
pub open spec fn block_time_acceptable(timestamps: Seq<u64>, timestamp: u64, now: u64) -> bool {
    match median_of(timestamps) {
        Some(median) => median < timestamp < now + 7200,
        None => true,
    }
}

/// The target after blocks with these timestamps: adjusted by the time that the last 120 of them
/// took, where there are that many.
pub open spec fn target_after(timestamps: Seq<u64>, target: nat) -> nat {
    if timestamps.len() < 120 {
        target
    } else {
        adjusted_for_span(
            target,
            elapsed(timestamps.last(), timestamps[timestamps.len() - 120]) as nat,
        )
    }
}

/// What is wrong with a block.
pub open spec fn block_fault(m: EpochManager, header: BlockHeader, now: u64) -> Option<Error> {
    if header.epoch_index != m.current_index() {
        Some(Error::InvalidEpoch)
    } else if !block_time_acceptable(m.timestamps(), header.timestamp, now) {
        Some(Error::InvalidTimestamp)
    } else {
        None
    }
}

/// The block after the last one.
pub open spec fn next_start(heights: Seq<u64>) -> u64 {
    if heights.len() == 0 {
        1
    } else {
        capped_height(heights.last(), 1)
    }
}

/// The epochs after the current one ended at `now`: it is marked as ended with its numbers, and the
/// next one begins after the last block with the adjusted target.
pub open spec fn epochs_turned(before: EpochManager, after: EpochManager, now: u64) -> bool {
    let index = before.current_index();
    let ending = before.epochs()[index];
    let next = (index + 1) as u32;
    let begun = after.epochs()[next];
    let start = next_start(after.heights());
    let closed = Epoch {
        end_time: Some(now),
        total_shares: before.shares().count() as u64,
        active_miners: before.shares().entries().len() as usize,
        ..ending
    };
    &&& after.current_index() == next
    &&& after.epochs().contains_key(next)
    &&& after.epochs() == before.epochs().insert(index, closed).insert(next, begun)
    &&& exists|target: Target|
        be_value(target.0@) == target_after(
            after.timestamps(),
            be_value(ending.target_block.0@),
        )
            && #[trigger] epoch_begun(begun, next, start, now, target)
    &&& after.shares().wf()
    &&& after.shares().by_miner() == Map::<crate::types::MinerId, Vec<SharePacket>>::empty()
    &&& after.shares().count() == 0
}

impl EpochManager {
    /// The epochs so far.
    pub closed spec fn epochs(self) -> Map<EpochIndex, Epoch> {
        self.past@.insert(self.current_epoch, self.current)
    }

    /// The index of the current epoch.
    pub closed spec fn current_index(self) -> EpochIndex {
        self.current_epoch
    }

    /// The timestamps of the blocks.
    pub closed spec fn timestamps(self) -> Seq<u64> {
        self.block_timestamps@
    }

    /// The heights of the blocks.
    pub closed spec fn heights(self) -> Seq<u64> {
        self.block_heights@
    }

    /// The shares of the current epoch.
    pub closed spec fn shares(self) -> EpochShares {
        self.epoch_shares
    }

    /// What every operation keeps: the current epoch is known, its shares are sound, and there are
    /// as many heights as timestamps.
    pub open spec fn wf(self) -> bool {
        &&& self.epochs().contains_key(self.current_index())
        &&& self.shares().wf()
        &&& self.heights().len() == self.timestamps().len()
    }

    /// The first epoch with a target.
    pub fn new(initial_target: Target) -> (r: Self)
        ensures
            r.wf(),
            r.current_index() == 1,
            r.epochs().dom() == set![1u32],
            epoch_begun(r.epochs()[1], 1, 0, GENESIS_TIMESTAMP, initial_target),
            r.timestamps() == Seq::<u64>::empty(),
            r.heights() == Seq::<u64>::empty(),
            r.shares().count() == 0,
    {
        let r = EpochManager {
            past: OrdMap::new(),
            current_epoch: 1,
            current: Epoch::new(1, 0, GENESIS_TIMESTAMP, initial_target),
            block_timestamps: Vec::new(),
            block_heights: Vec::new(),
            epoch_shares: EpochShares::new(),
        };
        assert(r.epochs().dom() =~= set![1u32]);
        r
    }

    /// The current epoch.
    pub fn current(&self) -> (r: Option<&Epoch>)
        ensures
            r is Some,
            *r->0 == self.epochs()[self.current_index()],
    {
        Some(&self.current)
    }

    /// The current epoch, to be changed.
    pub fn current_mut(&mut self) -> (r: Option<&mut Epoch>)
        ensures
            match r {
                Some(e) => {
                    &&& *e == old(self).epochs()[old(self).current_index()]
                    &&& final(self).epochs() == old(self).epochs().insert(
                        old(self).current_index(),
                        *final(e),
                    )
                    &&& final(self).current_index() == old(self).current_index()
                    &&& final(self).timestamps() == old(self).timestamps()
                    &&& final(self).heights() == old(self).heights()
                    &&& final(self).shares() == old(self).shares()
                },
                None => false,
            },
    {
        Some(&mut self.current)
    }

    /// Takes in a block at a height when the clock shows `now`. The last block of an epoch ends it.
    pub fn add_block_at(&mut self, header: &BlockHeader, height: u64, now: u64) -> (r: Result<
        (),
        Error,
    >)
        requires
            old(self).wf(),
            (old(self).heights().len() + 1) as int % EPOCH_BLOCKS as int == 0 ==> old(self).current_index() < u32::MAX,
        ensures
            final(self).wf(),
            match r {
                Err(e) => block_fault(*old(self), *header, now) == Some(e) && *final(self) == *old(self),
                Ok(()) => {
                    &&& block_fault(*old(self), *header, now) is None
                    &&& final(self).timestamps() == old(self).timestamps().push(header.timestamp)
                    &&& final(self).heights() == old(self).heights().push(height)
                    &&& if (old(self).heights().len() + 1) as int % EPOCH_BLOCKS as int == 0 {
                        epochs_turned(*old(self), *final(self), now)
                    } else {
                        &&& final(self).epochs() == old(self).epochs()
                        &&& final(self).current_index() == old(self).current_index()
                        &&& final(self).shares() == old(self).shares()
                    }
                },
            },
    {
        if header.epoch_index != self.current_epoch {
            return Err(Error::InvalidEpoch);
        }
        if !self.verify_timestamp(header.timestamp, now) {
            return Err(Error::InvalidTimestamp);
        }
        self.block_timestamps.push(header.timestamp);
        self.block_heights.push(height);
        if self.block_heights.len() as u64 % EPOCH_BLOCKS == 0 {
            self.end_current_epoch(now);
        }
        Ok(())
    }

    /// Takes in a block at a height. The last block of an epoch ends it.
    pub fn add_block(&mut self, header: &BlockHeader, height: u64) -> (r: Result<(), Error>)
        requires
            old(self).wf(),
            (old(self).heights().len() + 1) as int % EPOCH_BLOCKS as int == 0 ==> old(self).current_index() < u32::MAX,
        ensures
            final(self).wf(),
            match r {
                Err(e) => (exists|now: u64|
                    #[trigger] block_fault(*old(self), *header, now) == Some(e)) && *final(self)
                    == *old(self),
                Ok(()) => exists|now: u64|
                    {
                        &&& #[trigger] block_fault(*old(self), *header, now) is None
                        &&& final(self).timestamps() == old(self).timestamps().push(
                            header.timestamp,
                        )
                        &&& final(self).heights() == old(self).heights().push(height)
                        &&& if (old(self).heights().len() + 1) as int % EPOCH_BLOCKS as int == 0 {
                            epochs_turned(*old(self), *final(self), now)
                        } else {
                            &&& final(self).epochs() == old(self).epochs()
                            &&& final(self).current_index() == old(self).current_index()
                            &&& final(self).shares() == old(self).shares()
                        }
                    },
            },
    {
        let now: u64 = current_timestamp();
        self.add_block_at(header, height, now)
    }

    /// Takes in a share of the current epoch.
    pub fn add_share(&mut self, share: SharePacket) -> (r: Result<(), Error>)
        requires
            old(self).wf(),
        ensures
            final(self).wf(),
            final(self).epochs() == old(self).epochs(),
            final(self).current_index() == old(self).current_index(),
            final(self).timestamps() == old(self).timestamps(),
            final(self).heights() == old(self).heights(),
            match r {
                Err(e) => {
                    &&& final(self).shares().by_miner() == old(self).shares().by_miner()
                    &&& final(self).shares().digests() == old(self).shares().digests()
                    &&& if share.header.epoch_index != old(self).current_index() {
                        e is InvalidEpoch
                    } else {
                        &&& e matches Error::ShareError(words)
                        &&& words@ == share_error_text(ShareError::TooManyShares)
                        &&& !digest_known(old(self).shares().digests(), share)
                        &&& packets_of(old(self).shares().by_miner(), share.miner_id).len()
                            >= MAX_PACKETS_PER_MINER
                    }
                },
                Ok(()) => {
                    &&& share.header.epoch_index == old(self).current_index()
                    &&& if digest_known(old(self).shares().digests(), share) {
                        final(self).shares() == old(self).shares()
                    } else {
                        &&& final(self).shares().by_miner() == old(self).shares().by_miner().insert(
                            share.miner_id,
                            final(self).shares().by_miner()[share.miner_id],
                        )
                        &&& final(self).shares().by_miner()[share.miner_id]@ == packets_of(
                            old(self).shares().by_miner(),
                            share.miner_id,
                        ).push(share)
                        &&& exists|h: Hash32|
                            h@ == packet_digest(share) && final(self).shares().digests() == (
                            #[trigger] old(self).shares().digests().insert(h))
                        &&& final(self).shares().count() == old(self).shares().count() + 1
                    }
                },
            },
    {
        if share.header.epoch_index != self.current_epoch {
            return Err(Error::InvalidEpoch);
        }
        match self.epoch_shares.add_share(share) {
            Ok(()) => Ok(()),
            Err(e) => Err(Error::ShareError(e.message().to_string())),
        }
    }

    /// Whether the timestamp of a block is acceptable at `now`.
    fn verify_timestamp(&self, timestamp: u64, now: u64) -> (r: bool)
        ensures
            r == block_time_acceptable(self.timestamps(), timestamp, now),
    {
        match median_of_last(&self.block_timestamps) {
            None => true,
            Some(median) => timestamp > median && (timestamp < 7200 || timestamp - 7200 < now),
        }
    }

    /// Ends the current epoch at `now` and begins the next one.
    fn end_current_epoch(&mut self, now: u64)
        requires
            old(self).wf(),
            old(self).current_index() < u32::MAX,
        ensures
            final(self).wf(),
            final(self).timestamps() == old(self).timestamps(),
            final(self).heights() == old(self).heights(),
            epochs_turned(*old(self), *final(self), now),
    {
        let index: EpochIndex = self.current_epoch;
        let new_target = self.calculate_next_target();
        let mut ended = self.current;
        ended.end(now);
        ended.update_stats(&self.epoch_shares);
        self.past.insert(index, ended);
        let next: EpochIndex = index + 1;
        let count: usize = self.block_heights.len();
        let start: u64 = if count > 0 {
            self.block_heights[count - 1].saturating_add(1)
        } else {
            1
        };
        let begun = Epoch::new(next, start, now, new_target);
        assert(epoch_begun(begun, next, start, now, new_target));
        self.epoch_shares.clear();
        self.current_epoch = next;
        self.current = begun;
        proof {
            assert(self.epochs() =~= old(self).epochs().insert(index, ended).insert(next, begun));
            assert(start == next_start(self.heights()));
            assert(epoch_begun(
                self.epochs()[next],
                next,
                next_start(self.heights()),
                now,
                new_target,
            ));
            assert(epochs_turned(*old(self), *self, now));
        }
    }

    /// The target of the next epoch.
    fn calculate_next_target(&self) -> (r: Target)
        requires
            self.wf(),
        ensures
            be_value(r.0@) == target_after(
                self.timestamps(),
                be_value(self.epochs()[self.current_index()].target_block.0@),
            ),
    {
        let current = self.current.target_block;
        let n: usize = self.block_timestamps.len();
        if n < 120 {
            return current;
        }
        let start: u64 = self.block_timestamps[n - 120];
        let end: u64 = self.block_timestamps[n - 1];
        let span: u64 = if end > start {
            end - start
        } else {
            0
        };
        adjust_for_span(span, &current)
    }

    /// An epoch by its index.
    pub fn get_epoch(&self, index: EpochIndex) -> (r: Option<&Epoch>)
        ensures
            match r {
                Some(e) => self.epochs().contains_key(index) && *e == self.epochs()[index],
                None => !self.epochs().contains_key(index),
            },
    {
        if index == self.current_epoch {
            return Some(&self.current);
        }
        self.past.get(&index)
    }

    /// The shares of the current epoch.
    pub fn epoch_shares(&self) -> (r: &EpochShares)
        ensures
            *r == self.shares(),
    {
        &self.epoch_shares
    }

    /// The shares of the current epoch, to be changed.
    pub fn epoch_shares_mut(&mut self) -> (r: &mut EpochShares)
        ensures
            *r == old(self).shares(),
            final(self).shares() == *final(r),
            final(self).epochs() == old(self).epochs(),
            final(self).current_index() == old(self).current_index(),
            final(self).timestamps() == old(self).timestamps(),
            final(self).heights() == old(self).heights(),
    {
        &mut self.epoch_shares
    }
}

/// Whether a block belongs to an epoch.
pub open spec fn belongs(e: Epoch, height: u64) -> bool {
    e.start_block <= height <= e.end_block
}

/// Epochs follow one another without a gap: an epoch that begins after the last block of another
/// begins where that one ends, and no block belongs to both.
pub proof fn law_epochs_adjoin(a: Epoch, b: Epoch, height: u64)
    requires
        a.start_block + 2 * EPOCH_BLOCKS <= u64::MAX,
        epoch_begun(a, a.index, a.start_block, a.start_time, a.target_block),
        epoch_begun(b, b.index, capped_height(a.end_block, 1), b.start_time, b.target_block),
    ensures
        b.start_block == a.end_block + 1,
        b.end_block == a.start_block + 2 * EPOCH_BLOCKS - 1,
        !(belongs(a, height) && belongs(b, height)),
{
}

/// A block is acceptable to an epoch exactly when it names the epoch and, where eleven blocks are
/// known, is later than the middle one of the last eleven and less than two hours ahead.
pub proof fn law_when_a_block_is_acceptable(m: EpochManager, header: BlockHeader, now: u64)
    ensures
        block_fault(m, header, now) is None <==> header.epoch_index == m.current_index() && (
        median_of(m.timestamps()) matches Some(median) ==> median < header.timestamp
            && header.timestamp < now + 7_200),
{
}

/// When an epoch ends, it keeps its blocks and its target and learns when it ended and how many
/// shares and miners it had; the next one has the next number, begins behind the last block and
/// lasts 1440 blocks; no other epoch changes, and the shares are counted from zero.
pub proof fn law_how_epochs_turn(before: EpochManager, after: EpochManager, now: u64)
    requires
        epochs_turned(before, after, now),
        before.current_index() < u32::MAX,
        after.heights().len() > 0,
        after.heights().last() + 1_440 <= u64::MAX,
        before.shares().count() <= u64::MAX,
        before.shares().entries().len() <= usize::MAX,
    ensures
        ({
            let index = before.current_index();
            let next = (index + 1) as u32;
            let ended = after.epochs()[index];
            let begun = after.epochs()[next];
            &&& after.current_index() == index + 1
            &&& after.epochs().contains_key(index) && after.epochs().contains_key(next)
            &&& ended.index == before.epochs()[index].index
            &&& ended.start_block == before.epochs()[index].start_block
            &&& ended.end_block == before.epochs()[index].end_block
            &&& ended.target_block == before.epochs()[index].target_block
            &&& ended.end_time == Some(now)
            &&& ended.total_shares == before.shares().count()
            &&& ended.active_miners == before.shares().entries().len()
            &&& begun.index == index + 1
            &&& begun.start_block == after.heights().last() + 1
            &&& begun.end_block == after.heights().last() + 1_440
            &&& begun.start_time == now && begun.end_time is None
            &&& begun.total_shares == 0 && begun.active_miners == 0
            &&& after.shares().count() == 0
            &&& forall|i: EpochIndex|
                i != index && i != next ==> (#[trigger] after.epochs().contains_key(i)
                    <==> before.epochs().contains_key(i)) && after.epochs()[i]
                    == before.epochs()[i]
        }),
{
}

/// The target of the next epoch goes by the time between the last block and the 120th from the end:
/// fewer blocks, or two hours in which they came, leave a target within the bounds as it is.
pub proof fn law_epoch_target_goes_by_120_blocks(a: Seq<u64>, b: Seq<u64>, v: nat)
    requires
        a.len() >= 120,
        b.len() >= 120,
        a[a.len() - 120] <= a.last(),
        b[b.len() - 120] <= b.last(),
    ensures
        a.last() - a[a.len() - 120] == b.last() - b[b.len() - 120] ==> target_after(a, v)
            == target_after(b, v),
        a.last() == a[a.len() - 120] + 7_200 && crate::difficulty::hardest_value() <= v
            <= crate::difficulty::easiest_value() ==> target_after(a, v) == v,
        forall|n: int| 0 <= n < 120 ==> target_after(#[trigger] a.take(n), v) == v,
{
    if crate::difficulty::hardest_value() <= v <= crate::difficulty::easiest_value() {
        crate::difficulty::law_expected_span_keeps_target(v);
    }
}

} // verus!
