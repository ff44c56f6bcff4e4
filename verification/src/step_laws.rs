//! Laws on what calls change: `call_ensures(f, args, r)` says that `r` is a result of a call of
//! `f`, which found `old(x)` behind a mutable reference `x` and left `final(x)`.
use crate::block::{
    coinbase_input, header_bytes, transaction_views, txid_of, with_nonce, Block, BlockHeader,
    Transaction, TxOut, UtxoLookups,
};
use crate::bytes::be_value;
use crate::chain::{agrees_with_records, among};
use crate::collections::{sum_of, OrdMap, OrdSet};
use crate::consensus::{
    signature_verifies, verdict, BlockLookup, BondLookup, EquivocationProof, SlashEvidence,
    SlashRecord, SlashingPool,
};
use crate::crypto::{pow_hash_of, Argon2Cache};
use crate::epoch::EpochManager;
use crate::error::Error;
use crate::mempool::{take_transaction, txid_array};
use crate::miner::{
    count_of, faded, knows, AggregatedShare, AggregatedSharePool, InvalidRatio, LoyaltyData,
    MinerData, Share, SharePool,
};
use crate::network::{requests_now, AttackDetection, DDoSProtection, NetAddr};
use crate::node::{Node, StoreOp};
use crate::p2p::{
    all_spent_once, coinbase_fault, transactions_root, P2PMessage, P2PNode, PeerAction,
    PeerConnection, Receipt, SyncManager, SyncPeer, SyncStep,
};
use crate::share::{
    digest_known, packets_of, EpochShares, InvalidShareMonitor, MinerStatus, PeerRateLimiter,
    RateLimitError, ShareError, SharePacket,
};
use crate::slash::{BurnAnswer, SlashEquivocationProof, SlashValidator};
use crate::state::ChainState;
use crate::storage::Bond;
use crate::sync_shares::{votes_for, EpochCommit, ShareSyncManager, SyncStatus};
use crate::transaction::UTXOSet;
use crate::types::{Amount, Hash32, Height, MinerId, PeerId, Timestamp, Txid};
use vstd::prelude::*;

verus! {

/// `Node::add_bond` takes a bond of ten million or more, for 20160 blocks from the height of the
/// node on, and tells the miner of it; it refuses a smaller one and then changes nothing.
pub proof fn law_bonding(node: &mut Node, miner_id: MinerId, amount: u64, r: Option<Bond>)
    requires
        call_ensures(Node::add_bond, (node, miner_id, amount), r),
        old(node).height + 20_160 <= u64::MAX,
    ensures
        r is Some <==> amount >= 10_000_000,
        r is None ==> *final(node) == *old(node),
        r matches Some(b) ==> b.amount == amount && b.miner_id == miner_id && b.created_at
            == old(node).height && b.lock_until == old(node).height + 20_160
            && final(node).bonds@.contains_key(miner_id) && final(node).bonds@[miner_id] == b,
        r is Some && old(node).miners@.contains_key(miner_id) ==> final(node).miners@[miner_id].bond
            == amount && final(node).miners@[miner_id].shares == old(node).miners@[miner_id].shares,
        forall|m: MinerId|
            m != miner_id ==> (#[trigger] final(node).bonds@.contains_key(m)
                <==> old(node).bonds@.contains_key(m)) && final(node).bonds@[m]
                == old(node).bonds@[m],
        final(node).height == old(node).height && final(node).blocks == old(node).blocks,
{
}

/// `LoyaltyData::update` in an epoch after the last one: taking part adds one to what the missed
/// epochs left, and staying away costs one more missed epoch.
pub proof fn law_loyalty(l: &mut LoyaltyData, epoch: u32, came: bool, r: ())
    requires
        call_ensures(LoyaltyData::update, (l, epoch, came), r),
        old(l).last_epoch < epoch,
        old(l).value < u64::MAX,
        old(l).missed_epochs + epoch <= u32::MAX,
        old(l).consecutive_epochs < u32::MAX,
    ensures
        ({
            let passed = (epoch - old(l).last_epoch) as nat;
            let grace = old(l).grace_remaining > 0;
            &&& came ==> final(l).value == faded(old(l).value, grace, (passed - 1) as nat) + 1
            &&& came ==> final(l).missed_epochs == 0 && final(l).consecutive_epochs
                == old(l).consecutive_epochs + 1 && final(l).grace_remaining >= 3
            &&& !came ==> final(l).value == faded(old(l).value, grace, passed)
            &&& !came ==> final(l).missed_epochs == old(l).missed_epochs + passed
                && final(l).consecutive_epochs == 0
            &&& final(l).last_epoch == epoch
        }),
{
    crate::miner::law_epoch_and_loyalty(*old(l), epoch);
}

/// `MinerData::update_invalid_ratio` bans for 900 seconds from more than three tenths of invalid
/// shares on, for 300 from more than a tenth on, and else leaves a ban as it is.
pub proof fn law_bans_of_miners(m: &mut MinerData, ratio: InvalidRatio, now: Timestamp, r: ())
    requires
        call_ensures(MinerData::update_invalid_ratio, (m, ratio, now), r),
        now + 900 <= u64::MAX,
    ensures
        10 * ratio.invalid > 3 * ratio.total ==> final(m).banned_until == Some((now + 900) as u64),
        ratio.total < 10 * ratio.invalid <= 3 * ratio.total ==> final(m).banned_until == Some(
            (now + 300) as u64,
        ),
        10 * ratio.invalid <= ratio.total ==> final(m).banned_until == old(m).banned_until,
        final(m).invalid_ratio == ratio,
        final(m).shares == old(m).shares && final(m).bond == old(m).bond,
{
    crate::miner::law_bans_for_invalid_work(ratio, now, old(m).banned_until);
}

/// A share of a miner counts once, in the epoch and for good, and a block once with its reward.
pub proof fn law_counts_of_miners(
    m: &mut MinerData,
    b: &mut MinerData,
    time: Timestamp,
    reward: u64,
    r: (),
    s: (),
)
    requires
        call_ensures(MinerData::add_share, (m, time), r),
        call_ensures(MinerData::add_block, (b, reward), s),
        old(m).shares < u64::MAX,
        old(m).total_shares_historical < u64::MAX,
        old(b).blocks_found < u64::MAX,
        old(b).total_rewards + reward <= u64::MAX,
    ensures
        final(m).shares == old(m).shares + 1,
        final(m).total_shares_historical == old(m).total_shares_historical + 1,
        final(m).last_share_time == time,
        final(m).blocks_found == old(m).blocks_found && final(m).total_rewards
            == old(m).total_rewards,
        final(b).blocks_found == old(b).blocks_found + 1,
        final(b).total_rewards == old(b).total_rewards + reward,
        final(b).shares == old(b).shares,
{
}

/// `SharePool::add_share` takes in a valid share of its epoch that it does not know, at the end of
/// those of its miner. It refuses one of another epoch, and passes over one that it knows.
pub proof fn law_shares_that_are_taken(
    pool: &mut SharePool,
    share: Share,
    is_valid: bool,
    r: Result<bool, &'static str>,
)
    requires
        call_ensures(SharePool::add_share, (pool, share, is_valid), r),
        old(pool).wf(),
    ensures
        r == Ok::<bool, &'static str>(true) ==> is_valid && share.header.epoch_index
            == old(pool).current_epoch && !knows(*old(pool), share) && knows(*final(pool), share)
            && final(pool).shares@.contains_key(share.miner_id)
            && final(pool).shares@[share.miner_id]@.last() == share,
        share.header.epoch_index != old(pool).current_epoch ==> r is Err && *final(pool)
            == *old(pool),
        share.header.epoch_index == old(pool).current_epoch && knows(*old(pool), share) ==> r
            == Ok::<bool, &'static str>(false) && *final(pool) == *old(pool),
        share.header.epoch_index == old(pool).current_epoch && !knows(*old(pool), share)
            && !is_valid ==> r == Ok::<bool, &'static str>(false) && final(pool).shares@
            == old(pool).shares@ && (count_of(old(pool).invalid_shares@, share.miner_id) < u64::MAX
            ==> count_of(final(pool).invalid_shares@, share.miner_id) == count_of(
            old(pool).invalid_shares@,
            share.miner_id,
        ) + 1),
{
    crate::miner::law_handing_in_a_share(*old(pool), *final(pool), share, is_valid, r);
}

/// `PeerRateLimiter::check_rate_at` lets a peer that is not banned send a hundred shares within a
/// minute of the first; the next one bans it for 300 seconds.
pub proof fn law_rates_of_peers(
    l: &mut PeerRateLimiter,
    id: PeerId,
    now: u64,
    r: Result<(), RateLimitError>,
)
    requires
        call_ensures(PeerRateLimiter::check_rate_at, (l, id, now), r),
        now + 300_000_000_000 <= u64::MAX,
    ensures
        ({
            let banned = old(l).banned_peers@.contains_key(id) && now < old(l).banned_peers@[id];
            let known = old(l).peer_shares@.contains_key(id);
            let (count, since) = old(l).peer_shares@[id];
            let sent = if known && now <= since + 60_000_000_000 {
                count as nat
            } else {
                0
            };
            &&& r is Ok <==> !banned && sent < 100
            &&& r is Ok ==> final(l).peer_shares@.contains_key(id) && final(l).peer_shares@[id].0
                == sent + 1 && !final(l).banned_peers@.contains_key(id)
            &&& !banned && sent >= 100 ==> final(l).banned_peers@.contains_key(id)
                && final(l).banned_peers@[id] == now + 300_000_000_000
            &&& banned ==> *final(l) == *old(l)
        }),
{
    crate::share::law_when_a_peer_may_send(*old(l), *final(l), id, now);
}

/// `InvalidShareMonitor::record_share` counts a share once, in a new epoch from zero, and says that
/// the miner is banned from three tenths of invalid shares on, and warned from a tenth on.
pub proof fn law_monitored_shares(
    m: &mut InvalidShareMonitor,
    id: MinerId,
    is_valid: bool,
    epoch: u32,
    r: Option<MinerStatus>,
)
    requires
        call_ensures(InvalidShareMonitor::record_share, (m, id, is_valid, epoch), r),
        old(m).stats().contains_key(id) ==> old(m).stats()[id].0 <= old(m).stats()[id].1 < u32::MAX,
    ensures
        ({
            let known = epoch == old(m).counted_epoch() && old(m).stats().contains_key(id);
            let bad = (if known {
                old(m).stats()[id].0 as int
            } else {
                0
            }) + (if is_valid {
                0int
            } else {
                1int
            });
            let all = (if known {
                old(m).stats()[id].1 as int
            } else {
                0
            }) + 1;
            &&& final(m).counted_epoch() == epoch
            &&& final(m).stats().contains_key(id)
            &&& final(m).stats()[id].0 == bad && final(m).stats()[id].1 == all
            &&& r == Some(MinerStatus::Banned) <==> 10 * bad >= 3 * all
            &&& r == Some(MinerStatus::Warning) <==> all <= 10 * bad < 3 * all
            &&& r is None <==> 10 * bad < all
            &&& forall|k: MinerId|
                k != id ==> (#[trigger] final(m).stats().contains_key(k) <==> epoch
                    == old(m).counted_epoch() && old(m).stats().contains_key(k))
        }),
{
}

/// `SlashValidator::process_equivocation` burns a bond exactly when the proof holds and the store
/// has the bond and burns it, and counts that once.
pub proof fn law_equivocations_are_burnt(
    v: &mut SlashValidator,
    p: SlashEquivocationProof,
    bond: BondLookup,
    burnt: BurnAnswer,
    r: Result<bool, Error>,
)
    requires
        call_ensures(SlashValidator::process_equivocation, (v, &p, &bond, &burnt), r),
        old(v).equivocations@.contains_key(p.miner_id) ==> old(v).equivocations@[p.miner_id]
            < u32::MAX,
    ensures
        ({
            let a = pow_hash_of(header_bytes(p.block1_header));
            let b = pow_hash_of(header_bytes(p.block2_header));
            let holds = a != b && be_value(a) <= be_value(p.block1_header.difficulty.0@)
                && be_value(b) <= be_value(p.block2_header.difficulty.0@);
            let before = if old(v).equivocations@.contains_key(p.miner_id) {
                old(v).equivocations@[p.miner_id] as int
            } else {
                0
            };
            &&& r == Ok::<bool, Error>(true) <==> holds && (bond matches Ok(Some(_))) && burnt is Ok
            &&& r == Ok::<bool, Error>(false) <==> !holds
            &&& r == Ok::<bool, Error>(true) ==> final(v).equivocations@.contains_key(p.miner_id)
                && final(v).equivocations@[p.miner_id] == before + 1
            &&& r != Ok::<bool, Error>(true) ==> final(v).equivocations@ == old(v).equivocations@
            &&& final(v).share_floods == old(v).share_floods
        }),
{
}

/// `PeerConnection::message_received` drops a message exactly when a thousand were counted in the
/// hour, when it names another version than the first, or when it asks for more than 500 blocks.
pub proof fn law_received_messages(
    p: &mut PeerConnection,
    msg: P2PMessage,
    now: Timestamp,
    r: Receipt,
)
    requires
        call_ensures(PeerConnection::message_received, (p, &msg, now), r),
    ensures
        ({
            let count = if now > old(p).last_hour_reset + 3_600 {
                0
            } else {
                old(p).messages_this_hour as int
            };
            let misfit = (msg matches P2PMessage::Version { version, .. } && version != 1) || (
            msg matches P2PMessage::GetBlocks { max_count, .. } && max_count > 500);
            let own_ban = msg matches P2PMessage::BanPeer { peer_id, .. } && peer_id
                == old(p).peer_id;
            &&& r is Dropped <==> count >= 1_000 || misfit
            &&& final(p).banned <==> old(p).banned || count >= 1_000 || misfit || own_ban
            &&& count < 1_000 ==> final(p).messages_this_hour == count + 1
            &&& count < 1_000 ==> final(p).last_message_time == now
            &&& (msg matches P2PMessage::Heartbeat(n) ==> count < 1_000 ==> r == Receipt::Ponged(n))
        }),
{
    crate::p2p::law_what_a_peer_may_send(*old(p), *final(p), msg, now, r);
}

/// `PeerConnection::check_rate_limit` counts a thousand messages in an hour and bans for the next.
pub proof fn law_rates_of_messages(p: &mut PeerConnection, now: Timestamp, r: bool)
    requires
        call_ensures(PeerConnection::check_rate_limit, (p, now), r),
    ensures
        ({
            let count = if now > old(p).last_hour_reset + 3_600 {
                0
            } else {
                old(p).messages_this_hour as int
            };
            &&& r <==> count < 1_000
            &&& r ==> final(p).messages_this_hour == count + 1 && final(p).banned == old(p).banned
            &&& !r ==> final(p).banned
        }),
{
}

/// `PeerConnection::ban` bans a peer for a reason; one that is banned keeps its reason.
pub proof fn law_bans_of_peers(p: &mut PeerConnection, reason: &str, r: ())
    requires
        call_ensures(PeerConnection::ban, (p, reason), r),
    ensures
        final(p).banned,
        old(p).banned ==> *final(p) == *old(p),
        !old(p).banned ==> final(p).ban_reason is Some && final(p).ban_reason->0@ == reason@,
        final(p).messages_this_hour == old(p).messages_this_hour,
{
}

/// `SyncManager::start_sync_at` starts a session exactly when none runs and the peer has more
/// blocks; it starts behind the own ones and aims at the height of the peer.
pub proof fn law_sessions_start(m: &mut SyncManager, peer: SyncPeer, now: Timestamp, r: bool)
    requires
        call_ensures(SyncManager::start_sync_at, (m, peer, now), r),
        old(m).local_chain@.len() <= u64::MAX,
    ensures
        r <==> !old(m).sync_in_progress && peer.height > old(m).local_chain@.len(),
        !r ==> *final(m) == *old(m),
        r ==> {
            let s = final(m).active_session->0;
            &&& final(m).active_session is Some
            &&& s.peer_id == peer.peer_id
            &&& s.current_height == old(m).local_chain@.len()
            &&& s.from_height == old(m).local_chain@.len()
            &&& s.target_height == peer.height
            &&& s.blocks_received == 0
            &&& s.started_at == now && s.last_activity == now
            &&& final(m).sync_in_progress
            &&& final(m).last_sync_attempt == now
            &&& final(m).local_chain == old(m).local_chain
        },
{
}

/// `SyncManager::on_blocks_received_at` takes blocks exactly from the peer of the session that
/// runs; the chain and the height of the session grow by their number.
pub proof fn law_blocks_come_in(
    m: &mut SyncManager,
    blocks: &[Block],
    peer_id: PeerId,
    now: Timestamp,
    r: Result<Height, String>,
)
    requires
        call_ensures(SyncManager::on_blocks_received_at, (m, blocks, &peer_id, now), r),
    ensures
        r is Ok <==> (old(m).active_session matches Some(s) && s.peer_id == peer_id),
        r is Err ==> *final(m) == *old(m),
        r matches Ok(h) ==> {
            let s = old(m).active_session->0;
            let t = final(m).active_session->0;
            &&& h == t.current_height
            &&& s.current_height + blocks@.len() <= u64::MAX ==> h == s.current_height
                + blocks@.len()
            &&& final(m).local_chain@.len() == old(m).local_chain@.len() + blocks@.len()
            &&& forall|i: int|
                0 <= i < blocks@.len() ==> final(m).local_chain@[old(m).local_chain@.len() + i]
                    == (#[trigger] blocks@[i]).header
            &&& t.target_height == s.target_height
            &&& s.current_height + blocks@.len() <= u64::MAX ==> (t.status is Completed
                <==> blocks@.len() == 0 || s.current_height + blocks@.len() >= s.target_height)
        },
{
}

/// `SyncManager::check_timeouts_at` fails the session exactly when its peer was silent for more
/// than a minute, and counts that against the peer; the third time bans it.
pub proof fn law_sessions_time_out(m: &mut SyncManager, now: Timestamp, r: Option<PeerId>)
    requires
        call_ensures(SyncManager::check_timeouts_at, (m, now), r),
    ensures
        r is Some <==> (old(m).active_session matches Some(s) && now > s.last_activity + 60),
        r is None ==> *final(m) == *old(m),
        r matches Some(id) ==> !final(m).sync_in_progress && id == old(m).active_session->0.peer_id,
        r matches Some(id) ==> old(m).peers@.contains_key(id) ==> (final(m).peers@[id].banned
            <==> old(m).peers@[id].banned || old(m).peers@[id].retries >= 2),
        final(m).local_chain == old(m).local_chain,
{
}

/// `SyncManager::request_blocks_from_peer_at` asks a peer that is known and not banned and has the
/// block, for at most 500 blocks, where it was not asked three times in vain and, in a running
/// synchronisation, not within the last five seconds.
pub proof fn law_requests_for_blocks(
    m: &mut SyncManager,
    id: PeerId,
    from: Height,
    now: Timestamp,
    r: Result<u32, String>,
)
    requires
        call_ensures(SyncManager::request_blocks_from_peer_at, (m, &id, from, now), r),
    ensures
        r is Ok <==> old(m).peers@.contains_key(id) && !old(m).peers@[id].banned
            && old(m).peers@[id].height >= from && (old(m).retry_count@.contains_key(id)
            ==> old(m).retry_count@[id] < 3) && (old(m).sync_in_progress ==> now
            >= old(m).last_request_time + 5),
        r matches Ok(n) ==> 1 <= n <= 500 && from + n - 1 <= old(m).peers@[id].height && (n < 500
            ==> from + n - 1 == old(m).peers@[id].height),
{
    crate::p2p::law_when_a_peer_is_asked(*old(m), id, from, now);
    crate::p2p::law_a_request_asks_for_500_blocks(from, old(m).peers@[id].height);
}

/// `SyncManager::sync_step` asks the peer of a session for the next block until the target is
/// reached.
pub proof fn law_steps_of_sessions(
    m: &mut SyncManager,
    now: Timestamp,
    last: Timestamp,
    r: SyncStep,
)
    requires
        call_ensures(SyncManager::sync_step, (m, now, last), r),
    ensures
        ({
            let s = old(m).active_session->0;
            let due = old(m).active_session is Some && s.status is Requesting && now >= last + 2;
            &&& r is Wait <==> !due
            &&& r is Done <==> due && s.current_height >= s.target_height
            &&& (r matches SyncStep::Request(id, h) ==> id == s.peer_id && h == s.current_height
                + 1 && h <= s.target_height)
            &&& !(r is Done) ==> *final(m) == *old(m)
        }),
{
    crate::p2p::law_a_session_asks_for_the_next_block(*old(m), *final(m), now, last, r);
}

/// `P2PNode::drop_silent_peers` keeps a peer exactly when its last message is at most five minutes
/// old, and as it is.
pub proof fn law_silent_peers_go(n: &mut P2PNode, now: Timestamp, r: (), a: NetAddr)
    requires
        call_ensures(P2PNode::drop_silent_peers, (n, now), r),
    ensures
        final(n).peers@.contains_key(a) <==> old(n).peers@.contains_key(a) && now
            <= old(n).peers@[a].last_message_time + 300,
        final(n).peers@.contains_key(a) ==> final(n).peers@[a] == old(n).peers@[a],
        final(n).known_peers == old(n).known_peers,
{
    assert(final(n).peers@.contains_key(a) <==> old(n).peers@.contains_key(a)
        && crate::crypto::elapsed(now, old(n).peers@[a].last_message_time)
        <= crate::constants::PEER_TIMEOUT_SECS);
}

/// `P2PNode::lets_in` admits 125 peers, and none that makes too many connections or is banned.
pub proof fn law_peers_that_are_let_in(n: &mut P2PNode, addr: NetAddr, now: Timestamp, r: bool)
    requires
        call_ensures(P2PNode::lets_in, (n, addr, now), r),
    ensures
        ({
            let d = old(n).ddos_protection;
            let made = if d.connection_limits@.contains_key(addr) && now
                <= d.connection_limits@[addr].last_reset + 60 {
                d.connection_limits@[addr].connections as nat
            } else {
                0
            };
            r <==> old(n).peers@.dom().len() < 125 && !d.ip_blacklist@.contains(addr)
                && if d.attack_mode {
                made < 5
            } else {
                made < 50
            }
        }),
{
    crate::network::law_when_a_connection_is_let_through(
        old(n).ddos_protection,
        final(n).ddos_protection,
        addr,
        now,
    );
}

/// `P2PNode::consider_peer` tries an address once, where fewer than 125 peers are connected.
pub proof fn law_peers_that_are_tried(n: &mut P2PNode, addr: NetAddr, r: bool)
    requires
        call_ensures(P2PNode::consider_peer, (n, addr), r),
    ensures
        r <==> !old(n).known_peers@.contains(addr) && !old(n).peers@.contains_key(addr)
            && old(n).peers@.dom().len() < 125,
        r ==> final(n).known_peers@.contains(addr),
        final(n).peers == old(n).peers,
{
}

/// `DDoSProtection::check_rate_limit_at` lets through an address that is named, and any other that
/// is not banned up to a thousand times an hour and a hundred times a minute, under attack a tenth
/// of that; one that exceeds it is banned.
pub proof fn law_requests_that_are_let_through(
    d: &mut DDoSProtection,
    addr: NetAddr,
    now: Timestamp,
    r: bool,
)
    requires
        call_ensures(DDoSProtection::check_rate_limit_at, (d, addr, now), r),
        old(d).rate_limits@.contains_key(addr) ==> old(d).rate_limits@[addr].requests < u32::MAX
            && old(d).rate_limits@[addr].minute_requests < u32::MAX,
    ensures
        ({
            let (hour, minute) = requests_now(*old(d), addr, now);
            let few = if old(d).attack_mode {
                hour <= 100 && minute <= 10
            } else {
                hour <= 1000 && minute <= 100
            };
            let named = old(d).ip_whitelist@.contains(addr);
            let banned = old(d).ip_blacklist@.contains(addr);
            &&& r <==> named || (!banned && few)
            &&& final(d).ip_blacklist@.contains(addr) <==> banned || (!named && !few)
        }),
{
    crate::network::law_when_a_request_is_let_through(*old(d), *final(d), addr, now);
}

/// `AttackDetection::detect_51_percent_attack_at` notices an attack exactly when more than a
/// hundred hash rates were recorded and they spike or the last blocks, at most fifty, came in less
/// than 18 seconds each on the average.
pub proof fn law_attacks_are_noticed(
    a: &mut AttackDetection,
    samples: usize,
    spike: bool,
    now: Timestamp,
    r: bool,
)
    requires
        call_ensures(AttackDetection::detect_51_percent_attack_at, (a, samples, spike, now), r),
    ensures
        ({
            let all = old(a).block_interval_history@;
            let recent = if all.len() > 50 {
                all.skip(all.len() - 50)
            } else {
                all
            };
            let taken = sum_of(recent.map_values(|e: (Timestamp, u64)| e.1 as nat));
            &&& r <==> samples > 100 && (spike || (recent.len() > 0 && taken < 18 * recent.len()))
            &&& r ==> final(a).attack_detected && final(a).detection_time == Some(now)
            &&& !r ==> final(a).attack_detected == old(a).attack_detected
        }),
{
    crate::network::law_when_an_attack_is_noticed(samples, spike, old(a).block_interval_history@);
}

/// `AttackDetection::record_block_interval_at` appends an interval and keeps the last thousand.
pub proof fn law_intervals_are_kept(a: &mut AttackDetection, secs: u64, now: Timestamp, r: ())
    requires
        call_ensures(AttackDetection::record_block_interval_at, (a, secs, now), r),
        old(a).block_interval_history@.len() <= 1_000,
    ensures
        final(a).block_interval_history@.len() <= 1_000,
        final(a).block_interval_history@.last() == (now, secs),
        old(a).block_interval_history@.len() < 1_000 ==> final(a).block_interval_history@
            == old(a).block_interval_history@.push((now, secs)),
        old(a).block_interval_history@.len() == 1_000 ==> final(a).block_interval_history@
            == old(a).block_interval_history@.drop_first().push((now, secs)),
{
    let all = old(a).block_interval_history@.push((now, secs));
    if all.len() > 1_000 {
        assert(all.skip(1) =~= old(a).block_interval_history@.drop_first().push((now, secs)));
    }
}

/// `ShareSyncManager::process_commit_at` changes nothing for a banned peer. A commit is in line
/// exactly when its root is the one of the own shares, and a peer is banned, for an hour, only
/// where five peers back the own root.
pub proof fn law_commits_are_processed(
    m: &mut ShareSyncManager,
    c: EpochCommit,
    now: Timestamp,
    r: Result<SyncStatus, Error>,
)
    requires
        call_ensures(ShareSyncManager::process_commit_at, (m, c, now), r),
        now + 3_600 <= u64::MAX,
    ensures
        ({
            let banned = old(m).banned_peers@.contains_key(c.peer_id) && now
                < old(m).banned_peers@[c.peer_id];
            let own = crate::miner::pool_root(old(m).share_pool->0.share_hashes.members());
            let s = r->Ok_0;
            &&& r is Ok
            &&& banned <==> s == SyncStatus::PeerBanned
            &&& banned ==> *final(m) == *old(m)
            &&& !banned ==> final(m).peer_commits@.contains_key(c.peer_id)
                && final(m).peer_commits@[c.peer_id] == c
            &&& s == SyncStatus::NoLocalShares <==> !banned && old(m).share_pool is None
            &&& s == SyncStatus::InSync <==> !banned && old(m).share_pool is Some && own
                == c.merkle_root@
            &&& (s matches SyncStatus::NeedsResync(root) ==> root@ != own && votes_for(
                final(m).peer_commits@,
                root,
            ) >= 5)
            &&& s == SyncStatus::PeerOutOfSync ==> own != c.merkle_root@
                && final(m).banned_peers@[c.peer_id] == now + 3_600
            &&& s != SyncStatus::PeerOutOfSync ==> final(m).banned_peers == old(m).banned_peers
        }),
{
    crate::sync_shares::law_what_a_commit_brings(*old(m), *final(m), c, now, r->Ok_0);
}

/// `EpochManager::add_block_at` takes a block exactly when it names the epoch and its time is later
/// than the median and less than two hours ahead; the last of 1440 blocks ends the epoch.
pub proof fn law_blocks_of_epochs(
    m: &mut EpochManager,
    header: BlockHeader,
    height: u64,
    now: u64,
    r: Result<(), Error>,
)
    requires
        call_ensures(EpochManager::add_block_at, (m, &header, height, now), r),
        old(m).current_index() < u32::MAX,
    ensures
        r is Ok <==> header.epoch_index == old(m).current_index() && (crate::median::median_of(
            old(m).timestamps(),
        ) matches Some(median) ==> median < header.timestamp && header.timestamp < now + 7_200),
        r is Err ==> *final(m) == *old(m),
        r is Ok ==> final(m).timestamps() == old(m).timestamps().push(header.timestamp)
            && final(m).heights() == old(m).heights().push(height),
        r is Ok && (old(m).heights().len() + 1) % 1_440 == 0 ==> final(m).current_index()
            == old(m).current_index() + 1 && final(m).shares().count() == 0,
        r is Ok && (old(m).heights().len() + 1) % 1_440 != 0 ==> final(m).current_index()
            == old(m).current_index() && final(m).shares() == old(m).shares(),
{
    crate::epoch::law_when_a_block_is_acceptable(*old(m), header, now);
}

/// `Node::check_received_block` takes a block exactly when it follows the tip, is work that meets
/// its target, agrees with what is recorded, is signed, comes at an acceptable time, holds the root
/// of its transactions, pays its miner right and spends no output twice.
pub proof fn law_blocks_that_are_taken(
    n: &mut Node,
    block: Block,
    utxos: UtxoLookups,
    now: Timestamp,
    r: Result<Hash32, crate::chain::Refusal>,
)
    requires
        call_ensures(Node::check_received_block, (n, &block, &utxos, now), r),
        old(n).height < u64::MAX,
    ensures
        r is Ok <==> {
            let b = block@;
            let work = pow_hash_of(header_bytes(b.header));
            &&& old(n).blocks@.len() > 0 ==> b.header.prev_hash@ == pow_hash_of(
                header_bytes(old(n).blocks@.last()),
            )
            &&& old(n).blocks@.len() == 0 ==> b.header.prev_hash@ == Seq::new(32, |i: int| 0u8)
            &&& be_value(work) <= be_value(b.header.difficulty.0@)
            &&& agrees_with_records(old(n).checkpoints@, old(n).height + 1, work)
            &&& signature_verifies(b)
            &&& b.header.timestamp <= now + 7200
            &&& old(n).height > 0 && old(n).blocks@.len() > 0 ==> b.header.timestamp
                > old(n).blocks@.last().timestamp
            &&& (crate::median::median_of(old(n).timestamps@) matches Some(m) ==> b.header.timestamp
                > m)
            &&& b.header.merkle_root@ == transactions_root(b.transactions)
            &&& coinbase_fault(b, utxos@) is None
            &&& all_spent_once(b.transactions)
        },
        r matches Ok(hash) ==> hash@ == pow_hash_of(header_bytes(block.header)),
        final(n).blocks == old(n).blocks && final(n).height == old(n).height,
{
    crate::chain::law_when_a_received_block_is_taken(*old(n), block@, utxos@, now);
}

/// `Node::apply_received_block` makes a block the new tip, one higher, and takes out of the pool
/// exactly the transactions that are in it.
pub proof fn law_taken_blocks_are_applied(
    n: &mut Node,
    block: Block,
    hash: Hash32,
    r: Vec<StoreOp>,
    t: Transaction,
)
    requires
        call_ensures(Node::apply_received_block, (n, &block, hash), r),
        old(n).height < u64::MAX,
    ensures
        final(n).height == old(n).height + 1,
        final(n).blocks@ == old(n).blocks@.push(block.header),
        final(n).timestamps@.last() == block.header.timestamp,
        final(n).block_hashes@[hash] == old(n).height + 1,
        final(n).mempool@.contains(t) <==> old(n).mempool@.contains(t) && !among(
            t@,
            block@.transactions,
        ),
        final(n).total_emitted == old(n).total_emitted,
{
    crate::chain::law_taken_block_is_the_tip(
        *old(n),
        *final(n),
        block.header,
        block@.transactions,
        hash,
        t,
    );
    assert(final(n).blocks@.drop_last().push(final(n).blocks@.last()) =~= final(n).blocks@);
}

/// `Node::create_checkpoint` records the tip where there is one.
pub proof fn law_tips_are_recorded(n: &mut Node, now: Timestamp, r: bool)
    requires
        call_ensures(Node::create_checkpoint, (n, now), r),
        old(n).config.advanced.max_checkpoints > 0,
    ensures
        r <==> old(n).blocks@.len() > 0,
        r ==> final(n).checkpoints@.len() > 0 && final(n).checkpoints@.last().height
            == old(n).height && final(n).checkpoints@.last().block_hash@ == pow_hash_of(
            header_bytes(old(n).blocks@.last()),
        ) && final(n).checkpoints@.last().timestamp == now,
        !r ==> *final(n) == *old(n),
        final(n).blocks == old(n).blocks && final(n).height == old(n).height,
{
    if old(n).blocks@.len() > 0 {
        crate::node::law_checkpoint_records_the_tip(*old(n), *final(n), now, r);
    }
}

/// `Node::add_share` takes no share of a miner without a bond or under a ban, and only work on the
/// tip; it counts one share of the miner and of the node, and changes no other miner.
pub proof fn law_shares_of_nodes(n: &mut Node, share: Share, r: bool)
    requires
        call_ensures(Node::add_share, (n, share), r),
    ensures
        ({
            let id = share.miner_id;
            let bonded = old(n).bonds@.contains_key(id) && old(n).bonds@[id].created_at
                <= old(n).height && old(n).height < old(n).bonds@[id].lock_until;
            let banned = old(n).miners@.contains_key(id) && (
            old(n).miners@[id].banned_until matches Some(until) && share.timestamp < until);
            &&& !bonded || banned ==> !r && *final(n) == *old(n)
            &&& r ==> share.header.epoch_index == old(n).epoch && share.hash@ == pow_hash_of(
                header_bytes(with_nonce(share.header, share.nonce)),
            )
            &&& r && old(n).shares_found < u64::MAX ==> final(n).shares_found
                == old(n).shares_found + 1
            &&& r && old(n).miners@.contains_key(id) && old(n).miners@[id].shares < u64::MAX
                ==> final(n).miners@[id].shares == old(n).miners@[id].shares + 1
            &&& r && !old(n).miners@.contains_key(id) ==> final(n).miners@[id].shares == 1
            &&& forall|m: MinerId|
                m != id ==> (#[trigger] final(n).miners@.contains_key(m)
                    <==> old(n).miners@.contains_key(m)) && (old(n).miners@.contains_key(m)
                    ==> final(n).miners@[m] == old(n).miners@[m])
            &&& final(n).blocks == old(n).blocks && final(n).total_emitted == old(n).total_emitted
        }),
{
    crate::node::law_shares_need_a_bond_and_work(*old(n), *final(n), share, r);
}

/// `take_transaction` refuses a transaction exactly when it is not valid, was taken before, waits
/// already, or spends what a waiting one spends, and then changes nothing.
pub proof fn law_transactions_that_wait(
    list: &mut Vec<Transaction>,
    processed: &mut OrdSet<Txid>,
    tx: Transaction,
    utxos: UtxoLookups,
    most: usize,
    r: Result<(), String>,
)
    requires
        call_ensures(take_transaction, (list, processed, tx, &utxos, most), r),
    ensures
        r is Ok <==> {
            let waiting = transaction_views(old(list)@);
            let t = tx@;
            &&& crate::block::validation(t, utxos@) is Ok
            &&& !old(processed)@.contains(txid_array(t))
            &&& forall|i: int|
                0 <= i < waiting.len() ==> txid_of(#[trigger] waiting[i]) != txid_of(t)
            &&& forall|i: int, a: int, b: int|
                #![trigger waiting[i].inputs[a], t.inputs[b]]
                0 <= i < waiting.len() && 0 <= a < waiting[i].inputs.len() && 0 <= b
                    < t.inputs.len() && !coinbase_input(waiting[i].inputs[a]) && !coinbase_input(
                    t.inputs[b],
                ) ==> (waiting[i].inputs[a].prev_txid, waiting[i].inputs[a].prev_index) != (
                    t.inputs[b].prev_txid,
                    t.inputs[b].prev_index,
                )
        },
        r is Err ==> *final(list) == *old(list) && *final(processed) == *old(processed),
        r is Ok ==> final(list)@.len() <= most,
        r is Ok && old(list)@.len() < most ==> final(list)@.len() == old(list)@.len() + 1,
{
    crate::mempool::law_when_a_transaction_may_wait(
        transaction_views(old(list)@),
        old(processed)@,
        tx@,
        utxos@,
    );
    crate::mempool::law_sorted_by_fee(transaction_views(old(list)@).push(tx@), utxos@);
    assert(transaction_views(final(list)@).len() == final(list)@.len());
    assert(transaction_views(old(list)@).len() == old(list)@.len());
}

/// `SlashingPool::process_all` slashes no miner twice, none that was slashed before, and every one
/// whose charge is proven, where nothing goes wrong.
pub proof fn law_charges_are_processed(
    pool: &mut SlashingPool,
    evidence: Vec<SlashEvidence>,
    argon2: &mut Argon2Cache,
    height: Height,
    now: Timestamp,
    r: (Vec<SlashRecord>, Result<(), String>),
    j: int,
)
    requires
        call_ensures(SlashingPool::process_all, (pool, &evidence, argon2, height, now), r),
        evidence@.len() == old(pool).pending_slashes@.len(),
        0 <= j < old(pool).pending_slashes@.len(),
    ensures
        forall|a: int, b: int|
            0 <= a < b < r.0@.len() ==> (#[trigger] r.0@[a])@.miner_id != (
            #[trigger] r.0@[b])@.miner_id,
        forall|a: int|
            0 <= a < r.0@.len() ==> !old(pool).processed_slashes@.contains(
                (#[trigger] r.0@[a])@.miner_id,
            ) && final(pool).processed_slashes@.contains(r.0@[a]@.miner_id),
        r.1 is Ok && verdict(
            old(pool).pending_slashes@[j].miner_id,
            evidence@[j].found_1,
            evidence@[j].found_2,
        ) == Ok::<bool, Seq<char>>(true) ==> final(pool).processed_slashes@.contains(
            old(pool).pending_slashes@[j].miner_id,
        ),
        r.1 is Ok ==> final(pool).pending_slashes@.len() == 0,
        r.1 is Err ==> final(pool).pending_slashes@ == old(pool).pending_slashes@,
{
    let pending = old(pool).pending_slashes@;
    let n = pending.len() as int;
    let done = old(pool).processed_slashes@;
    crate::consensus::law_slashed_once(pending, evidence@, done, height, now, n);
    let p = crate::consensus::slashing(pending, evidence@, done, height, now, n);
    assert(crate::consensus::record_views(r.0@) == p.records);
    assert forall|a: int| 0 <= a < r.0@.len() implies p.records[a] == (#[trigger] r.0@[a])@ by {
        assert(crate::consensus::record_views(r.0@)[a] == r.0@[a]@);
    }
    assert(p.records.len() == r.0@.len());
    let found = verdict(pending[j].miner_id, evidence@[j].found_1, evidence@[j].found_2);
    if r.1 is Ok && found == Ok::<bool, Seq<char>>(true) {
        crate::consensus::law_proven_charges_are_carried_out(
            pending,
            evidence@,
            done,
            height,
            now,
            n,
            j,
        );
    }
}

/// `SlashingPool::add_proof` lets a charge wait unless its miner was slashed.
pub proof fn law_charges_wait(pool: &mut SlashingPool, charge: EquivocationProof, r: ())
    requires
        call_ensures(SlashingPool::add_proof, (pool, charge), r),
    ensures
        old(pool).processed_slashes@.contains(charge.miner_id) ==> final(pool).pending_slashes@
            == old(pool).pending_slashes@,
        !old(pool).processed_slashes@.contains(charge.miner_id)
            ==> final(pool).pending_slashes@.len() == old(pool).pending_slashes@.len() + 1
            && final(pool).pending_slashes@.last() == charge
            && final(pool).pending_slashes@.drop_last() == old(pool).pending_slashes@,
        final(pool).processed_slashes@ == old(pool).processed_slashes@,
{
    assert(old(pool).pending_slashes@.push(charge).drop_last() =~= old(pool).pending_slashes@);
}

/// `ChainState::apply_epoch_rewards` raises the supply by all rewards together, up to the largest
/// number.
pub proof fn law_rewards_of_an_epoch(
    state: &mut ChainState,
    rewards: OrdMap<MinerId, Amount>,
    epoch: u32,
    r: (),
)
    requires
        call_ensures(ChainState::apply_epoch_rewards, (state, &rewards, epoch), r),
    ensures
        ({
            let sum = old(state).total_supply + sum_of(
                rewards.items().map_values(|e: (MinerId, Amount)| e.1 as nat),
            );
            &&& final(state).total_supply == if sum <= u64::MAX {
                sum
            } else {
                u64::MAX as int
            }
            &&& final(state).height == old(state).height
        }),
{
    let items = rewards.items();
    crate::state::law_supply_grows_by_the_rewards(old(state).total_supply, items, items.len());
    assert(items.take(items.len() as int) =~= items);
}

/// What `UTXOSet::add_output` put in `UTXOSet::spend_input` takes out again, once.
pub proof fn law_outputs_are_spent_once(
    set: &mut UTXOSet,
    txid: Hash32,
    index: u32,
    output: TxOut,
    r: (),
    later: &mut UTXOSet,
    s: Result<TxOut, Error>,
)
    requires
        call_ensures(UTXOSet::add_output, (set, txid, index, output), r),
        call_ensures(UTXOSet::spend_input, (later, txid, index), s),
    ensures
        old(later)@ == final(set)@ ==> s == Ok::<TxOut, Error>(output)
            && !final(later)@.contains_key((txid, index)),
        s is Ok <==> old(later)@.contains_key((txid, index)),
        s is Err ==> final(later)@ == old(later)@,
        forall|p: (Hash32, u32)|
            p != (txid, index) ==> (#[trigger] final(later)@.contains_key(p)
                <==> old(later)@.contains_key(p)),
{
}

/// `Argon2Cache::hash_at` hands back the proof-of-work hash whatever it remembers, and counts a
/// call as a hit or as a miss.
pub proof fn law_cached_hashes(c: &mut Argon2Cache, data: &[u8], now: u64, r: Hash32)
    requires
        call_ensures(Argon2Cache::hash_at, (c, data, now), r),
        old(c).hits() < u64::MAX,
        old(c).misses() < u64::MAX,
    ensures
        r@ == pow_hash_of(data@),
        final(c).hits() + final(c).misses() == old(c).hits() + old(c).misses() + 1,
        final(c).max_size() == old(c).max_size(),
{
}

/// `SyncManager::verify_and_accept_blocks` takes the blocks of a batch in their order. Where all
/// are taken, the chain and what was synchronised end with them, each follows the one before it
/// with work that meets its target, and the height is the one of the last.
pub proof fn law_batches_are_taken(
    m: &mut SyncManager,
    blocks: &[Block],
    node: &mut Node,
    found: BlockLookup,
    utxos: UtxoLookups,
    now: Timestamp,
    r: (Vec<StoreOp>, Result<Height, String>),
    i: int,
)
    requires
        call_ensures(
            SyncManager::verify_and_accept_blocks,
            (m, blocks, node, found, utxos, now),
            r,
        ),
        old(m).local_chain@.len() + blocks@.len() <= u64::MAX,
        0 <= i < blocks@.len(),
    ensures
        r.1 matches Ok(height) ==> {
            &&& height == old(m).local_chain@.len() + blocks@.len()
            &&& final(node).blocks@.len() == old(node).blocks@.len() + blocks@.len()
            &&& final(node).blocks@[old(node).blocks@.len() + i] == blocks@[i].header
            &&& final(m).local_chain@.len() == old(m).local_chain@.len() + blocks@.len()
            &&& final(m).local_chain@[old(m).local_chain@.len() + i] == blocks@[i].header
            &&& i > 0 ==> blocks@[i].header.prev_hash@ == pow_hash_of(
                header_bytes(blocks@[i - 1].header),
            ) && blocks@[i].header.timestamp > blocks@[i - 1].header.timestamp && be_value(
                pow_hash_of(header_bytes(blocks@[i].header)),
            ) <= be_value(blocks@[i].header.difficulty.0@)
        },
        r.1 is Err ==> final(node).blocks@.len() < old(node).blocks@.len() + blocks@.len(),
        final(node).blocks@.take(old(node).blocks@.len() as int) == old(node).blocks@,
{
    let start = old(m).height();
    let (maps, k) = choose|maps: Seq<crate::block::LookupMap>, k: nat|
        {
            &&& #[trigger] crate::chain::store_followed(maps, utxos@, blocks@, k)
            &&& crate::chain::batch_outcome(
                *old(node),
                blocks@,
                start,
                found,
                maps,
                now,
                k,
                r.1,
            )
            &&& crate::chain::chain_grown(*old(node), *final(node), blocks@, start, k)
            &&& crate::chain::sync_grown(*old(m), *final(m), blocks@, k)
            &&& crate::node::op_views(r.0@) == crate::chain::batch_ops(blocks@, start, k)
        };
    if i > 0 && r.1 is Ok {
        crate::chain::law_synced_blocks_are_linked(
            *old(node),
            blocks@,
            start,
            found,
            maps,
            now,
            k,
            r.1,
            i,
        );
    }
    assert(final(node).blocks@.take(old(node).blocks@.len() as int) =~= old(node).blocks@);
}

/// `EpochShares::add_share` takes a packet that it does not know at the end of those of its miner,
/// up to 5000 of them, passes over one that it knows, and leaves other miners alone.
pub proof fn law_packets_that_are_taken(
    e: &mut EpochShares,
    p: SharePacket,
    r: Result<(), ShareError>,
    m: MinerId,
)
    requires
        call_ensures(EpochShares::add_share, (e, p), r),
    ensures
        r is Ok <==> digest_known(old(e).digests(), p) || packets_of(
            old(e).by_miner(),
            p.miner_id,
        ).len() < 5_000,
        r is Err || digest_known(old(e).digests(), p) ==> final(e).by_miner() == old(e).by_miner(),
        r is Ok && !digest_known(old(e).digests(), p) ==> packets_of(
            final(e).by_miner(),
            p.miner_id,
        ) == packets_of(old(e).by_miner(), p.miner_id).push(p) && final(e).count()
            == old(e).count() + 1,
        m != p.miner_id ==> packets_of(final(e).by_miner(), m) == packets_of(old(e).by_miner(), m),
        r is Ok && !digest_known(old(e).digests(), p) ==> digest_known(final(e).digests(), p),
{
    if r is Ok && !digest_known(old(e).digests(), p) {
        let h = choose|h: Hash32|
            h@ == crate::primitives::sha256_of(crate::share::packet_bytes(p))
                && final(e).digests() == (#[trigger] old(e).digests().insert(h));
        crate::share::law_added_share_is_known(old(e).digests(), p, h);
    }
}

/// `EpochManager::add_share` takes packets of its own epoch only, and changes no epoch.
pub proof fn law_packets_of_epochs(m: &mut EpochManager, p: SharePacket, r: Result<(), Error>)
    requires
        call_ensures(EpochManager::add_share, (m, p), r),
    ensures
        p.header.epoch_index != old(m).current_index() ==> r is Err,
        r is Ok && !digest_known(old(m).shares().digests(), p)
            ==> final(m).shares().count() == old(m).shares().count() + 1,
        r is Err ==> final(m).shares().by_miner() == old(m).shares().by_miner(),
        final(m).current_index() == old(m).current_index() && final(m).epochs() == old(m).epochs(),
        final(m).timestamps() == old(m).timestamps() && final(m).heights() == old(m).heights(),
{
}

/// `SharePool::new_epoch_at` empties the pool and counts the epoch on by one.
pub proof fn law_pools_begin_anew(p: &mut SharePool, now: Timestamp, r: ())
    requires
        call_ensures(SharePool::new_epoch_at, (p, now), r),
        old(p).current_epoch < u32::MAX,
    ensures
        final(p).current_epoch == old(p).current_epoch + 1,
        final(p).shares@.dom().len() == 0 && final(p).share_hashes@.len() == 0,
        final(p).invalid_shares@.dom().len() == 0 && final(p).total_shares@.dom().len() == 0,
        final(p).memory_used == 0 && final(p).created_at == now,
        final(p).max_memory_bytes == old(p).max_memory_bytes,
{
    assert(final(p).shares@.dom() =~= Set::empty());
    assert(final(p).invalid_shares@.dom() =~= Set::empty());
    assert(final(p).total_shares@.dom() =~= Set::empty());
}

/// `AggregatedSharePool::add_aggregate` takes an aggregate exactly when its root is new and it
/// holds, and else changes nothing.
pub proof fn law_aggregates_that_are_taken(
    pool: &mut AggregatedSharePool,
    agg: AggregatedShare,
    shares: &[Share],
    r: Result<bool, String>,
    holds: Result<bool, String>,
)
    requires
        call_ensures(AggregatedSharePool::add_aggregate, (pool, agg, shares), r),
        call_ensures(AggregatedShare::verify, (&agg, shares), holds),
    ensures
        r is Ok && holds is Ok,
        r->Ok_0 <==> holds->Ok_0 && !old(pool).verified_roots@.contains(agg.merkle_root),
        !r->Ok_0 ==> *final(pool) == *old(pool),
        r->Ok_0 ==> crate::miner::aggregate_added(*old(pool), *final(pool), agg),
        final(pool).max_aggregates == old(pool).max_aggregates,
{
}

/// `P2PNode::drop_peer` forgets a peer that is connected, also for synchronisation, and no other.
pub proof fn law_peers_are_dropped(n: &mut P2PNode, addr: NetAddr, r: bool, a: NetAddr, k: PeerId)
    requires
        call_ensures(P2PNode::drop_peer, (n, &addr), r),
    ensures
        r <==> old(n).peers@.contains_key(addr),
        !final(n).peers@.contains_key(addr),
        a != addr ==> (final(n).peers@.contains_key(a) <==> old(n).peers@.contains_key(a)),
        r ==> (final(n).sync_manager.peers@.contains_key(k) <==> k != old(n).peers@[addr].peer_id
            && old(n).sync_manager.peers@.contains_key(k)),
        final(n).known_peers == old(n).known_peers,
{
}

/// `P2PNode::register_peer` connects a peer under its address, which is known from then on.
pub proof fn law_peers_are_registered(n: &mut P2PNode, peer: PeerConnection, r: (), a: NetAddr)
    requires
        call_ensures(P2PNode::register_peer, (n, peer), r),
    ensures
        final(n).peers@.contains_key(peer.address) && final(n).peers@[peer.address] == peer,
        final(n).known_peers@.contains(peer.address),
        a != peer.address ==> (final(n).peers@.contains_key(a) <==> old(n).peers@.contains_key(a))
            && final(n).peers@[a] == old(n).peers@[a] && (final(n).known_peers@.contains(a)
            <==> old(n).known_peers@.contains(a)),
{
}

/// `P2PNode::handle_message` answers connected peers only: a version with an acknowledgement, a
/// ping or a heartbeat with its own number, a request for blocks with no more than it asked for.
pub proof fn law_answers(
    n: &mut P2PNode,
    msg: P2PMessage,
    addr: NetAddr,
    now: Timestamp,
    r: PeerAction,
)
    requires
        call_ensures(P2PNode::handle_message, (n, msg, addr, now), r),
    ensures
        ({
            let connected = old(n).peers@.contains_key(addr);
            &&& !connected ==> r is Nothing && *final(n) == *old(n)
            &&& connected && msg is Version ==> r == PeerAction::Reply(P2PMessage::Verack)
            &&& (msg matches P2PMessage::Ping(x) ==> connected ==> r == PeerAction::Reply(
                P2PMessage::Pong(x),
            ))
            &&& (msg matches P2PMessage::Heartbeat(x) ==> connected ==> r == PeerAction::Reply(
                P2PMessage::Pong(x),
            ))
            &&& (msg matches P2PMessage::GetBlocks { from_height, max_count } ==> connected ==> (
            r matches PeerAction::ServeBlocks(a, b) && a == from_height && a <= b && b - a
                <= max_count))
            &&& (msg matches P2PMessage::Transaction(tx) ==> connected ==> r
                == PeerAction::TakeTransaction(tx))
            &&& !(msg is Version || msg is BanPeer) ==> *final(n) == *old(n)
        }),
{
    if old(n).peers@.contains_key(addr) {
        crate::p2p::law_what_a_peer_is_answered(*old(n), *final(n), msg, addr, now, r);
    }
}

/// `SyncManager::update_peer_at` notes the height, the tip and the latency that a peer told; a ban
/// and failures of one that was known stay, and a new one has none.
pub proof fn law_peers_are_noted(
    m: &mut SyncManager,
    id: PeerId,
    address: NetAddr,
    height: Height,
    best_hash: Hash32,
    latency: u64,
    now: Timestamp,
    r: (),
    k: PeerId,
)
    requires
        call_ensures(
            SyncManager::update_peer_at,
            (m, id, address, height, best_hash, latency, now),
            r,
        ),
    ensures
        ({
            let p = final(m).peers@[id];
            &&& final(m).peers@.contains_key(id)
            &&& p.height == height && p.best_hash == best_hash && p.latency_ms == latency
            &&& p.last_sync_time == now
            &&& old(m).peers@.contains_key(id) ==> p.banned == old(m).peers@[id].banned && p.retries
                == old(m).peers@[id].retries && p.address == old(m).peers@[id].address
            &&& !old(m).peers@.contains_key(id) ==> !p.banned && p.retries == 0 && p.address
                == address && p.peer_id == id
            &&& k != id ==> (final(m).peers@.contains_key(k) <==> old(m).peers@.contains_key(k))
                && final(m).peers@[k] == old(m).peers@[k]
        }),
{
}

/// `Node::mine_block_at`: a block that was mined is work that meets the target of the next block
/// and is the new tip; its first transaction pays the reward of 500000 and all the fees.
pub proof fn law_mined_blocks(
    n: &mut Node,
    sizes: Vec<usize>,
    utxos: UtxoLookups,
    started: Timestamp,
    ended: Timestamp,
    closed: Timestamp,
    m: crate::mining::MinedBlock,
)
    requires
        call_ensures(
            Node::mine_block_at,
            (n, &sizes, &utxos, started, ended, closed),
            crate::mining::MineOutcome::Mined(m),
        ),
        old(n).height < u64::MAX,
    ensures
        ({
            let h = m.block.header;
            let txs = m.block@.transactions;
            &&& old(n).blocks@.len() > 0 ==> started >= old(n).blocks@.last().timestamp + 60
            &&& m.hash@ == pow_hash_of(header_bytes(h))
            &&& be_value(pow_hash_of(header_bytes(h))) <= crate::node::next_target(
                old(n).height,
                old(n).blocks@,
                old(n).timestamps@,
            )
            &&& h.merkle_root@ == transactions_root(txs)
            &&& h.timestamp == started && h.epoch_index == old(n).epoch
            &&& all_spent_once(txs)
            &&& txs.len() > 0 && txs[0].outputs.len() == 1
            &&& txs[0].outputs[0].value == crate::mining::at_most_max(
                500_000 + sum_of(crate::mining::fees_in(txs.drop_first(), utxos@)),
            )
            &&& final(n).height == old(n).height + 1
            &&& final(n).blocks@ == old(n).blocks@.push(h)
            &&& final(n).mempool@.len() == 0
        }),
{
    let t = choose|t: crate::mining::MiningTrace|
        t.started == started && t.ended == ended && t.closed == closed
            && #[trigger] crate::mining::mined(
            *old(n),
            *final(n),
            sizes@,
            utxos@,
            crate::mining::MineOutcome::Mined(m),
            t,
        );
    crate::mining::law_mined_block_is_the_tip(*old(n), *final(n), sizes@, utxos@, m, t);
}

/// `Node::process_epoch_end` emits what it credits to the miners and no more than 720000000, keeps
/// to the largest supply, and begins the next epoch without shares.
pub proof fn law_ends_of_epochs(n: &mut Node, now: Timestamp, r: Vec<StoreOp>)
    requires
        call_ensures(Node::process_epoch_end, (n, now), r),
        old(n).wf(),
        old(n).total_emitted <= 1_500_000_000_000_000,
        old(n).epoch < u32::MAX,
    ensures
        old(n).total_emitted <= final(n).total_emitted <= 1_500_000_000_000_000,
        final(n).total_emitted - old(n).total_emitted <= 720_000_000,
        sum_of(crate::node::values_saved(crate::node::op_views(r@))) <= final(n).total_emitted
            - old(n).total_emitted,
        final(n).epoch == old(n).epoch + 1,
        final(n).share_pool.shares@ == Map::<MinerId, Vec<Share>>::empty(),
        final(n).blocks == old(n).blocks && final(n).height == old(n).height,
{
    crate::node::law_supply_is_capped(crate::node::poci_input(*old(n)), old(n).total_emitted);
    crate::node::law_epoch_outputs_within_emission(*old(n), *final(n), now);
}

/// `Node::load_block` puts a block at the end of the chain and in the index at the height.
pub proof fn law_blocks_are_loaded(n: &mut Node, height: Height, block: Block, r: ())
    requires
        call_ensures(Node::load_block, (n, height, &block), r),
    ensures
        final(n).blocks@ == old(n).blocks@.push(block.header),
        final(n).timestamps@ == old(n).timestamps@.push(block.header.timestamp),
        final(n).block_hashes@[crate::p2p::header_hash(block.header)] == height,
        final(n).height == old(n).height && final(n).miners == old(n).miners,
{
}

} // verus!
