//! Laws on what calls return: `call_ensures(f, args, r)` says that `r` is a result of a call of
//! `f`.
use crate::block::{
    all_answered, bond_script, coinbase_input, coinbase_transaction, fee_of, header_bytes,
    output_values, spent_values, transaction_views, Block, BlockHeader, Transaction, TxIn, TxOut,
    UtxoLookups,
};
use crate::bytes::{be_value, le_bytes, le_value, pow256};
use crate::collections::{sum_of, OrdMap};
use crate::consensus::{
    block_miner, bonded, calculate_poci, disloyal, indices, most_bond, most_loyalty, most_shares,
    signature_verifies, BlockLookup, BondLookup, EquivocationProof, PoCIResult, PociInput,
};
use crate::crypto::{pow_hash_of, Argon2Cache};
use crate::difficulty::{adjust_difficulty, adjust_for_span, calculate_time_span, hash_meets_target};
use crate::epoch::Epoch;
use crate::median::median_of_last;
use crate::merkle::merkle_root;
use crate::miner::{LoyaltyData, MinerData, Share};
use crate::mining::{at_most_max, fees_in, select_transactions};
use crate::network::NetAddr;
use crate::node::Node;
use crate::p2p::{
    all_spent_once, fees_paid, validate_block_coinbase, validate_block_no_double_spend,
    PeerConnection, P2PNode, SyncManager, SyncPeer,
};
use crate::primitives::sha256_of;
use crate::share::{ShareError, SharePacket};
use crate::slash::SlashEquivocationProof;
use crate::storage::{
    backup_due, backups_to_remove, balance_by_address, pays_address, utxos_by_address, Bond,
};
use crate::sync_shares::{votes_for, EpochCommit, ShareSyncManager};
use crate::transaction_laws::input_in_order;
use crate::types::{genesis_bytes, Hash32, Height, MinerId, OutPoint, PeerId, Target, Timestamp};
use crate::wallet::Wallet;
use vstd::prelude::*;

verus! {

/// `validate_block_coinbase` accepts a block exactly when its first transaction creates coins, the
/// fee of every other one can be told, and the first pays out no more than 500000 and all those
/// fees together.
pub proof fn law_accepted_coinbases(block: Block, utxos: UtxoLookups, r: Result<(), String>)
    requires
        call_ensures(validate_block_coinbase, (&block, &utxos), r),
    ensures
        r is Ok <==> {
            let txs = block@.transactions;
            &&& txs.len() > 0
            &&& coinbase_transaction(txs[0])
            &&& forall|j: int| 1 <= j < txs.len() ==> fee_of(#[trigger] txs[j], utxos@) is Ok
            &&& sum_of(output_values(txs[0].outputs)) <= u64::MAX
            &&& sum_of(output_values(txs[0].outputs)) <= 500_000 + sum_of(fees_paid(txs, utxos@))
        },
{
    crate::p2p::law_coinbase_takes_reward_and_all_fees(block@, utxos@);
}

/// `validate_block_no_double_spend` accepts a block exactly when no output is spent twice in it.
pub proof fn law_blocks_without_double_spends(block: Block, r: Result<(), String>)
    requires
        call_ensures(validate_block_no_double_spend, (&block,), r),
    ensures
        r is Ok <==> all_spent_once(block@.transactions),
{
    crate::p2p::law_no_output_is_spent_twice(block@.transactions);
}

/// What `calculate_poci` makes of contributions: the most shares alone are worth six tenths of the
/// scale, the most loyalty and the largest bond alone two tenths each, all three the whole scale
/// and none of them nothing. The rewards share out 720000000 in proportion to that, rounded down.
pub proof fn law_contributions_and_rewards(
    miners: OrdMap<MinerId, MinerData>,
    bonds: OrdMap<MinerId, Bond>,
    loyalty: OrdMap<MinerId, LoyaltyData>,
    height: Height,
    r: Vec<PoCIResult>,
    i: int,
)
    requires
        call_ensures(calculate_poci, (&miners, &bonds, &loyalty, height), r),
        0 <= i < miners.items().len(),
    ensures
        ({
            let p = PociInput {
                miners: miners.items(),
                bonds: bonds@,
                loyalty: loyalty@,
                height,
            };
            let (m, d) = p.miners[i];
            let all = sum_of(r@.map_values(|x: PoCIResult| x.poci as nat));
            &&& r@.len() == miners.items().len()
            &&& r@[i].miner_id == m
            &&& r@[i].shares == d.shares
            &&& most_shares(p, i) && disloyal(p, m) && !bonded(p, m) ==> r@[i].poci == 600_000_000
            &&& d.shares == 0 && most_loyalty(p, i) && !bonded(p, m) ==> r@[i].poci == 200_000_000
            &&& d.shares == 0 && disloyal(p, m) && most_bond(p, i) ==> r@[i].poci == 200_000_000
            &&& most_shares(p, i) && most_loyalty(p, i) && most_bond(p, i) ==> r@[i].poci
                == 1_000_000_000
            &&& d.shares == 0 && disloyal(p, m) && !bonded(p, m) ==> r@[i].poci == 0
            &&& all > 0 ==> r@[i].reward * all <= r@[i].poci * 720_000_000 < (r@[i].reward + 1)
                * all
            &&& all == 0 ==> r@[i].reward == 0
        }),
{
    let p = PociInput { miners: miners.items(), bonds: bonds@, loyalty: loyalty@, height };
    crate::consensus::law_weights_of_contributions(p, i);
    crate::consensus::law_epoch_reward_is_shared_out(p, i);
    let f = |x: PoCIResult| x.poci as nat;
    assert forall|k: int| 0 <= k < r@.len() implies r@.map_values(f)[k] == indices(p)[k] by {
        assert(crate::consensus::poci_outcome(p, k, r@[k]));
    }
    assert(r@.map_values(f) =~= indices(p));
    assert(crate::consensus::poci_outcome(p, i, r@[i]));
}

/// A miner that contributed no less than another in every respect is worth no less to
/// `calculate_poci`, and is rewarded no less.
pub proof fn law_more_contribution_earns_no_less(
    miners: OrdMap<MinerId, MinerData>,
    bonds: OrdMap<MinerId, Bond>,
    loyalty: OrdMap<MinerId, LoyaltyData>,
    height: Height,
    r: Vec<PoCIResult>,
    i: int,
    j: int,
)
    requires
        call_ensures(calculate_poci, (&miners, &bonds, &loyalty, height), r),
        0 <= i < miners.items().len(),
        0 <= j < miners.items().len(),
        miners.items()[i].1.shares <= miners.items()[j].1.shares,
        loyalty@.contains_key(miners.items()[i].0) ==> loyalty@.contains_key(miners.items()[j].0)
            && loyalty@[miners.items()[i].0].value <= loyalty@[miners.items()[j].0].value,
        bonds@.contains_key(miners.items()[i].0) ==> bonds@.contains_key(miners.items()[j].0)
            && bonds@[miners.items()[j].0].amount >= 10_000_000
            && bonds@[miners.items()[j].0].created_at <= height
            < bonds@[miners.items()[j].0].lock_until && bonds@[miners.items()[i].0].amount
            <= bonds@[miners.items()[j].0].amount,
    ensures
        r@[i].poci <= r@[j].poci,
        r@[i].reward <= r@[j].reward,
{
    let p = PociInput { miners: miners.items(), bonds: bonds@, loyalty: loyalty@, height };
    crate::consensus::law_more_contribution_is_no_worse(p, i, j);
    assert(crate::consensus::poci_outcome(p, i, r@[i]));
    assert(crate::consensus::poci_outcome(p, j, r@[j]));
}

/// The fees that `select_transactions` hands back are those of all the transactions that it chose
/// together, or the largest number.
pub proof fn law_fees_of_what_is_selected(
    list: Vec<Transaction>,
    sizes: Vec<usize>,
    utxos: UtxoLookups,
    r: (Vec<Transaction>, u64),
)
    requires
        call_ensures(select_transactions, (&list, &sizes, &utxos), r),
    ensures
        ({
            let chosen = transaction_views(r.0@);
            &&& r.1 == at_most_max(sum_of(fees_in(chosen, utxos@)))
            &&& forall|j: int| 0 <= j < chosen.len() ==> fee_of(#[trigger] chosen[j], utxos@) is Ok
            &&& exists|at: Seq<int>| #[trigger]
                crate::mining::places_fit(transaction_views(list@), sizes@, chosen, at)
        }),
{
    crate::mining::law_chosen_fees_add_up(transaction_views(list@), sizes@, utxos@);
    crate::mining::law_chosen_transactions_fit(transaction_views(list@), sizes@, utxos@);
}

/// `select_transactions` leaves nothing behind where all fees can be told and everything fits a
/// megabyte.
pub proof fn law_everything_that_fits_is_selected(
    list: Vec<Transaction>,
    sizes: Vec<usize>,
    utxos: UtxoLookups,
    r: (Vec<Transaction>, u64),
)
    requires
        call_ensures(select_transactions, (&list, &sizes, &utxos), r),
        sizes@.len() == list@.len(),
        forall|j: int|
            0 <= j < list@.len() ==> fee_of(
                #[trigger] transaction_views(list@)[j],
                utxos@,
            ) is Ok,
        sum_of(sizes@.map_values(|x: usize| x as nat)) <= 1_000_000,
    ensures
        transaction_views(r.0@) == transaction_views(list@),
        r.1 == at_most_max(sum_of(fees_in(transaction_views(list@), utxos@))),
{
    crate::mining::law_all_that_fit_are_chosen(transaction_views(list@), sizes@, utxos@);
    crate::mining::law_chosen_fees_add_up(transaction_views(list@), sizes@, utxos@);
}

/// `Node::last_difficulty` starts from the target of the last block: it stays that one between
/// adjustments, and where the last 120 blocks took the 7200 seconds that they should; otherwise it
/// moves by a quarter at the most, and the way that the time asks for, within the bounds.
pub proof fn law_next_difficulty(node: Node, r: Target)
    requires
        call_ensures(Node::last_difficulty, (&node,), r),
        node.blocks@.len() > 0,
        node.height >= 120 && node.height % 120 == 0 ==> node.height < node.timestamps@.len()
            && node.timestamps@[node.height - 120] <= node.timestamps@[node.height as int],
    ensures
        ({
            let tip = be_value(node.blocks@.last().difficulty.0@);
            let next = be_value(r.0@);
            let easiest = be_value(genesis_bytes());
            let span = node.timestamps@[node.height as int] - node.timestamps@[node.height - 120];
            &&& !(node.height >= 120 && node.height % 120 == 0) ==> next == tip
            &&& node.height >= 120 && node.height % 120 == 0 ==> {
                &&& span == 7200 && easiest / 1000 <= tip <= easiest ==> next == tip
                &&& span > 0 ==> easiest / 1000 <= next <= easiest
                &&& span > 0 && easiest / 1000 < next < easiest ==> 4 * next <= 5 * tip && 4 * next
                    + 4 > 3 * tip
                &&& span >= 7200 ==> next <= tip || next == easiest / 1000
                &&& 0 < span <= 7200 ==> next >= tip || next == easiest
                &&& span == 0 ==> next == tip
            }
        }),
{
    crate::node::law_next_target_follows_the_tip(node.height, node.blocks@, node.timestamps@);
}

/// `EquivocationProof::verify` finds a charge proven exactly when the store found both blocks,
/// their work differs, both carry a signature that verifies under their key, and both are the
/// accused miner's.
pub proof fn law_proven_charges(
    charge: EquivocationProof,
    found_1: BlockLookup,
    found_2: BlockLookup,
    argon2: &mut Argon2Cache,
    r: Result<bool, String>,
)
    requires
        call_ensures(EquivocationProof::verify, (&charge, &found_1, &found_2, argon2), r),
    ensures
        r == Ok::<bool, String>(true) <==> {
            &&& found_1 matches Ok(Some(a))
            &&& found_2 matches Ok(Some(b))
            &&& pow_hash_of(header_bytes(a.header)) != pow_hash_of(header_bytes(b.header))
            &&& signature_verifies(a@)
            &&& signature_verifies(b@)
            &&& block_miner(a@) == Some(charge.miner_id@)
            &&& block_miner(b@) == Some(charge.miner_id@)
        },
{
    crate::consensus::law_conviction_needs_two_blocks_of_the_miner(
        charge.miner_id,
        found_1,
        found_2,
    );
}

/// `EquivocationProof::execute_slash` takes the whole bond of the accused, and fails exactly where
/// there is none.
pub proof fn law_slashed_amount(
    charge: EquivocationProof,
    bond: BondLookup,
    height: Height,
    now: Timestamp,
    proof_bytes: Vec<u8>,
    r: Result<crate::consensus::SlashRecord, String>,
)
    requires
        call_ensures(
            EquivocationProof::execute_slash,
            (&charge, &bond, height, now, proof_bytes),
            r,
        ),
    ensures
        r is Ok <==> (bond matches Ok(Some(_))),
        r matches Ok(record) ==> (bond matches Ok(Some(b)) && record@.amount == b.amount
            && record@.miner_id == charge.miner_id && record@.height == height && record@.timestamp
            == now && record@.proof == proof_bytes@),
{
}

/// `Transaction::validate` accepts a payment exactly when it spends and pays something, pays no
/// output below 100 and no more than there can be in all, spends no output twice, is allowed to
/// spend what it spends, and leaves a fee of 50 at least; it hands back what is left over.
pub proof fn law_valid_payments(
    tx: Transaction,
    utxos: UtxoLookups,
    r: Result<u64, &'static str>,
)
    requires
        call_ensures(Transaction::validate, (&tx, &utxos), r),
        !coinbase_transaction(tx@),
    ensures
        ({
            let t = tx@;
            &&& r is Ok <==> {
                &&& t.inputs.len() > 0
                &&& t.outputs.len() > 0
                &&& forall|i: int|
                    0 <= i < t.outputs.len() ==> (#[trigger] t.outputs[i]).value >= 100
                &&& sum_of(output_values(t.outputs)) <= 1_500_000_000_000_000
                &&& forall|i: int, j: int|
                    0 <= i < j < t.inputs.len() && !coinbase_input(#[trigger] t.inputs[i])
                        && !coinbase_input(#[trigger] t.inputs[j]) ==> (
                        t.inputs[i].prev_txid,
                        t.inputs[i].prev_index,
                    ) != (t.inputs[j].prev_txid, t.inputs[j].prev_index)
                &&& forall|k: int|
                    0 <= k < t.inputs.len() ==> input_in_order(
                        t,
                        utxos@,
                        #[trigger] t.inputs[k],
                        k,
                    )
                &&& sum_of(spent_values(t, utxos@)) <= u64::MAX
                &&& sum_of(spent_values(t, utxos@)) >= sum_of(output_values(t.outputs)) + 50
            }
            &&& (r matches Ok(fee) ==> fee + sum_of(output_values(t.outputs)) == sum_of(
                spent_values(t, utxos@),
            ))
        }),
{
    crate::transaction_laws::law_when_a_transaction_is_valid(tx@, utxos@);
}

/// `Transaction::fee` is what a payment spends and does not pay out.
pub proof fn law_fees(tx: Transaction, utxos: UtxoLookups, r: Result<u64, String>)
    requires
        call_ensures(Transaction::fee, (&tx, &utxos), r),
        !coinbase_transaction(tx@),
    ensures
        r is Ok <==> all_answered(tx@, utxos@) && sum_of(output_values(tx@.outputs)) <= sum_of(
            spent_values(tx@, utxos@),
        ) && sum_of(spent_values(tx@, utxos@)) - sum_of(output_values(tx@.outputs)) <= u64::MAX,
        r matches Ok(fee) ==> fee + sum_of(output_values(tx@.outputs)) == sum_of(
            spent_values(tx@, utxos@),
        ),
{
    crate::block::law_fee_is_what_is_left(tx@, utxos@);
}

/// `adjust_for_span` makes the new target to the old one what two hours are to the span, where
/// neither the bounds nor the longest and the shortest span decide.
pub proof fn law_adjustments(span: u64, target: Target, r: Target)
    requires
        call_ensures(adjust_for_span, (span, &target), r),
    ensures
        ({
            let (v, w) = (be_value(target.0@), be_value(r.0@));
            let easiest = be_value(genesis_bytes());
            &&& span == 0 ==> w == v
            &&& span > 0 ==> easiest / 1000 <= w <= easiest
            &&& 5_760 <= span <= 9_600 && easiest / 1000 < w < easiest ==> w * span <= v * 7_200
                < (w + 1) * span
            &&& 0 < span < 5_760 && easiest / 1000 < w < easiest ==> w * 5_760 <= v * 7_200 < (w
                + 1) * 5_760
            &&& span > 9_600 && easiest / 1000 < w < easiest ==> w * 9_600 <= v * 7_200 < (w + 1)
                * 9_600
        }),
{
    let v = be_value(target.0@);
    if span > 0 {
        crate::difficulty::law_adjusted_target_is_bounded(v, span as nat);
        if be_value(genesis_bytes()) / 1000 < be_value(r.0@) < be_value(genesis_bytes()) {
            crate::difficulty::law_target_follows_the_span(v, span as nat);
        }
    }
}

/// `adjust_difficulty` goes by the time between the last block and the one 120 before it, and does
/// to a target what `adjust_for_span` does; without that block the target stays.
pub proof fn law_adjustment_is_over_120_blocks(
    timestamps: &[Timestamp],
    span: u64,
    target: Target,
    r: Target,
    s: Target,
)
    requires
        call_ensures(adjust_difficulty, (timestamps, &target), r),
        call_ensures(adjust_for_span, (span, &target), s),
        timestamps@.len() >= 121 ==> timestamps@.last() - timestamps@[timestamps@.len() - 121]
            == span,
    ensures
        timestamps@.len() < 121 ==> be_value(r.0@) == be_value(target.0@),
        timestamps@.len() >= 121 ==> be_value(r.0@) == be_value(s.0@),
{
}

/// `calculate_time_span` is the time between the last block and the one an interval before it.
pub proof fn law_time_spans(timestamps: &[Timestamp], interval: usize, r: Option<u64>)
    requires
        call_ensures(calculate_time_span, (timestamps, interval), r),
        timestamps@.len() > interval ==> timestamps@[timestamps@.len() - interval - 1]
            <= timestamps@.last(),
    ensures
        r is Some <==> timestamps@.len() > interval,
        r matches Some(span) ==> timestamps@[timestamps@.len() - interval - 1] + span
            == timestamps@.last(),
{
}

/// A hash meets a target exactly when it is no larger, both read as numbers.
pub proof fn law_hashes_that_meet_targets(hash: Hash32, target: Target, r: bool, s: bool)
    requires
        call_ensures(hash_meets_target, (&hash, &target), r),
        call_ensures(Target::is_met_by, (&target, &hash), s),
    ensures
        r == s,
        r <==> be_value(hash@) <= be_value(target.0@),
{
}

/// `median_of_last` is the middle one of the last eleven times, and there is none of fewer.
pub proof fn law_median_of_times(timestamps: Vec<Timestamp>, r: Option<Timestamp>)
    requires
        call_ensures(median_of_last, (&timestamps,), r),
    ensures
        timestamps@.len() < 11 ==> r is None,
        timestamps@.len() >= 11 && (forall|i: int, j: int|
            0 <= i < j < timestamps@.len() ==> timestamps@[i] <= timestamps@[j]) ==> r == Some(
            timestamps@[timestamps@.len() - 6],
        ),
{
    crate::median::law_median_of_rising_times(timestamps@);
}

/// `median_of_last` does not care for the order of the last eleven times.
pub proof fn law_median_has_no_order(
    a: Vec<Timestamp>,
    b: Vec<Timestamp>,
    r: Option<Timestamp>,
    s: Option<Timestamp>,
)
    requires
        call_ensures(median_of_last, (&a,), r),
        call_ensures(median_of_last, (&b,), s),
        a@.len() >= 11,
        b@.len() >= 11,
        a@.skip(a@.len() - 11).to_multiset() == b@.skip(b@.len() - 11).to_multiset(),
    ensures
        r == s,
{
    crate::median::law_median_ignores_order(a@, b@);
}

/// `merkle_root` of one hash is that hash, of two the digest of both, of three and four the digest
/// of the roots of the pairs, where a hash without a partner is its own.
pub proof fn law_small_roots(hashes: Vec<Hash32>, r: Hash32)
    requires
        call_ensures(merkle_root, (hashes,), r),
    ensures
        ({
            let h = hashes@;
            &&& h.len() == 1 ==> r@ == h[0]@
            &&& h.len() == 2 ==> r@ == sha256_of(h[0]@ + h[1]@)
            &&& h.len() == 3 ==> r@ == sha256_of(
                sha256_of(h[0]@ + h[1]@) + sha256_of(h[2]@ + h[2]@),
            )
            &&& h.len() == 4 ==> r@ == sha256_of(
                sha256_of(h[0]@ + h[1]@) + sha256_of(h[2]@ + h[3]@),
            )
        }),
{
    let h = hashes@;
    let views = crate::merkle::hash_views(h);
    if h.len() == 1 {
        assert(views =~= seq![h[0]@]);
        crate::merkle::law_single_leaf(h[0]@);
    } else if h.len() == 2 {
        assert(views =~= seq![h[0]@, h[1]@]);
        crate::merkle::law_roots_of_small_trees(h[0]@, h[1]@, h[0]@, h[0]@);
    } else if h.len() == 3 {
        assert(views =~= seq![h[0]@, h[1]@, h[2]@]);
        crate::merkle::law_roots_of_small_trees(h[0]@, h[1]@, h[2]@, h[0]@);
    } else if h.len() == 4 {
        assert(views =~= seq![h[0]@, h[1]@, h[2]@, h[3]@]);
        crate::merkle::law_roots_of_small_trees(h[0]@, h[1]@, h[2]@, h[3]@);
    }
}

/// A node mines where that is switched on, no synchronisation runs, and it has 99 of a hundred
/// blocks of the best peer.
pub proof fn law_when_a_node_mines(
    node: Node,
    syncing: bool,
    best: Option<Height>,
    r: bool,
    s: bool,
)
    requires
        call_ensures(Node::should_mine, (&node, syncing, best), r),
        call_ensures(Node::nearly_synced, (&node, best), s),
    ensures
        r <==> node.config.mining.enabled && !syncing && s,
        best is None ==> s,
        best matches Some(h) ==> (s <==> 99 * h <= 100 * node.height),
{
}

/// The bond that a node lacks is the one of its configuration, ten million at least, and it lacks
/// none exactly when it has one.
pub proof fn law_bond_that_a_node_lacks(node: Node, r: Option<u64>)
    requires
        call_ensures(Node::missing_bond, (&node,), r),
    ensures
        r is None <==> node.bonds@.contains_key(node.miner_id),
        r matches Some(x) ==> x >= 10_000_000 && x >= node.config.mining.bond && (x == 10_000_000
            || x == node.config.mining.bond),
{
}

/// `Node::is_mining_due` asks for a minute since the last block.
pub proof fn law_when_mining_is_due(node: Node, now: Timestamp, r: bool)
    requires
        call_ensures(Node::is_mining_due, (&node, now), r),
    ensures
        r <==> (node.blocks@.len() == 0 || now >= node.blocks@.last().timestamp + 60),
{
}

/// `BlockHeader::validate_timestamp_at` refuses a time that is more than two hours ahead, or no
/// later than the previous block or the median, and no other one.
pub proof fn law_acceptable_times(
    header: BlockHeader,
    now: Timestamp,
    prev: Option<Timestamp>,
    median: Option<Timestamp>,
    r: bool,
)
    requires
        call_ensures(BlockHeader::validate_timestamp_at, (&header, now, prev, median), r),
    ensures
        !r <==> header.timestamp > now + 7_200 || (prev matches Some(p) && header.timestamp <= p)
            || (median matches Some(m) && header.timestamp <= m),
{
}

/// Dust is what is worth less than 100.
pub proof fn law_dust(output: TxOut, r: bool)
    requires
        call_ensures(TxOut::is_dust, (&output,), r),
    ensures
        r <==> output.value < 100,
{
}

/// `TxOut::is_p2pkh` and `TxOut::is_bond` tell the two forms of scripts, which no script has both
/// of.
pub proof fn law_forms_of_scripts(output: TxOut, r: bool, s: bool)
    requires
        call_ensures(TxOut::is_p2pkh, (&output,), r),
        call_ensures(TxOut::is_bond, (&output,), s),
    ensures
        ({
            let script = output@.script_pubkey;
            &&& r <==> script.len() == 25 && script[0] == 0x76 && script[1] == 0xA9 && script[2]
                == 20 && script[23] == 0x88 && script[24] == 0xAC
            &&& s <==> script.len() == 21 && script[0] == 0xBA
            &&& !(r && s)
        }),
{
}

/// `TxOut::extract_miner_id` reads the twenty bytes behind the first one of a bond.
pub proof fn law_miner_of_a_bond(output: TxOut, r: Option<MinerId>, s: bool)
    requires
        call_ensures(TxOut::extract_miner_id, (&output,), r),
        call_ensures(TxOut::is_bond, (&output,), s),
    ensures
        r is Some <==> s,
        r matches Some(id) ==> forall|i: int|
            0 <= i < 20 ==> id@[i] == #[trigger] output@.script_pubkey[i + 1],
{
    if let Some(id) = r {
        assert(id@ =~= output@.script_pubkey.subrange(1, 21));
        assert forall|i: int| 0 <= i < 20 implies id@[i] == #[trigger] output@.script_pubkey[i
            + 1] by {
            assert(output@.script_pubkey.subrange(1, 21)[i] == output@.script_pubkey[i + 1]);
        }
    }
}

/// A bond is made of an output that bonds ten million or more; it is worth that output and lasts
/// for 20160 blocks.
pub proof fn law_bond_of_an_output(output: TxOut, height: Height, r: Option<Bond>)
    requires
        call_ensures(Bond::from_output, (&output, height), r),
        height + 20_160 <= u64::MAX,
    ensures
        r is Some <==> bond_script(output@.script_pubkey) && output.value >= 10_000_000,
        r matches Some(b) ==> b.amount == output.value && b.created_at == height && b.lock_until
            == height + 20_160,
{
}

/// A bond that was made lasts for 20160 blocks, and `Bond::remaining_blocks` counts them down to
/// nothing, which is when it is no longer active.
pub proof fn law_life_of_a_bond(
    amount: u64,
    made: Height,
    miner_id: MinerId,
    bond: Bond,
    height: Height,
    active: bool,
    left: u64,
    counts: bool,
)
    requires
        call_ensures(Bond::new, (amount, made, miner_id), bond),
        call_ensures(Bond::is_active, (&bond, height), active),
        call_ensures(Bond::remaining_blocks, (&bond, height), left),
        call_ensures(Bond::is_valid_for_poci, (&bond,), counts),
        made <= height,
        made + 20_160 <= u64::MAX,
    ensures
        bond.amount == amount && bond.created_at == made && bond.miner_id == miner_id,
        active <==> height < made + 20_160,
        active <==> left > 0,
        active ==> height + left == made + 20_160,
        counts <==> amount >= 10_000_000,
{
}

/// A backup is due at the multiples of the interval, except at the start.
pub proof fn law_when_a_backup_is_due(height: Height, interval: u64, r: bool)
    requires
        call_ensures(backup_due, (height, interval), r),
        interval > 0,
    ensures
        r ==> height >= interval,
        r ==> height % interval == 0,
        !r && height > 0 ==> height % interval != 0,
        height == 0 ==> !r,
{
    if height < interval {
        vstd::arithmetic::div_mod::lemma_small_mod(height as nat, interval as nat);
    }
}

/// As many backups are removed as there are too many.
pub proof fn law_backups_that_are_kept(count: usize, keep: usize, r: usize)
    requires
        call_ensures(backups_to_remove, (count, keep), r),
    ensures
        r <= count,
        r > 0 ==> count - r == keep,
        count > keep ==> r > 0,
{
}

/// `balance_by_address` adds up what the outputs of an address are worth, to the largest number at
/// most, and counts them.
pub proof fn law_balances_of_addresses(outputs: &[TxOut], address: String, r: (u64, u64))
    requires
        call_ensures(balance_by_address, (outputs, &address), r),
    ensures
        ({
            let all = sum_of(
                outputs@.map_values(
                    |o: TxOut|
                        if pays_address(o, address@) {
                            o.value as nat
                        } else {
                            0nat
                        },
                ),
            );
            &&& r.0 == if all <= u64::MAX {
                all
            } else {
                u64::MAX as nat
            }
            &&& r.1 == outputs@.filter(|o: TxOut| pays_address(o, address@)).len()
        }),
{
    crate::storage::law_balance_adds_up(outputs@, address@);
}

/// `utxos_by_address` keeps an output exactly when it pays to the address.
pub proof fn law_outputs_of_addresses(
    utxos: Vec<(OutPoint, TxOut)>,
    address: String,
    r: Vec<(OutPoint, TxOut)>,
    e: (OutPoint, TxOut),
)
    requires
        call_ensures(utxos_by_address, (utxos, &address), r),
    ensures
        r@.contains(e) <==> utxos@.contains(e) && pays_address(e.1, address@),
{
    broadcast use vstd::seq_lib::group_filter_ensures;

    let keep = |e: (OutPoint, TxOut)| pays_address(e.1, address@);
    assert(r@ == utxos@.filter(keep));
    if r@.contains(e) {
        utxos@.lemma_filter_contains_rev(keep, e);
        let i = choose|i: int| 0 <= i < r@.len() && r@[i] == e;
        assert(keep(r@[i]));
    }
    if utxos@.contains(e) && pays_address(e.1, address@) {
        let i = choose|i: int| 0 <= i < utxos@.len() && utxos@[i] == e;
        assert(keep(utxos@[i]));
    }
}

/// A miner is active until it missed six epochs, banned until its ban ends, and may hand in 5000
/// shares in an epoch.
pub proof fn law_standing_of_miners(
    loyalty: LoyaltyData,
    miner: MinerData,
    now: Timestamp,
    active: bool,
    banned: bool,
    may: bool,
)
    requires
        call_ensures(LoyaltyData::is_active, (&loyalty,), active),
        call_ensures(MinerData::is_banned, (&miner, now), banned),
        call_ensures(MinerData::can_add_share, (&miner,), may),
    ensures
        active <==> loyalty.missed_epochs < 6,
        banned <==> (miner.banned_until matches Some(until) && now < until),
        may <==> miner.shares < 5_000,
{
}

/// A peer is stale after five minutes without a message, is sent a heartbeat after thirty seconds
/// without one, and has to speak the first version.
pub proof fn law_care_for_peers(
    peer: PeerConnection,
    now: Timestamp,
    stale: bool,
    heartbeat: bool,
    version: Result<(), &'static str>,
)
    requires
        call_ensures(PeerConnection::is_stale, (&peer, now), stale),
        call_ensures(PeerConnection::needs_heartbeat, (&peer, now), heartbeat),
        call_ensures(PeerConnection::check_version, (&peer,), version),
    ensures
        stale <==> now > peer.last_message_time + 300,
        heartbeat <==> now > peer.last_heartbeat + 30,
        version is Ok <==> peer.version == Some(1u32),
{
}

/// A peer is disconnected when it is connected and banned or was silent for five minutes.
pub proof fn law_when_a_peer_is_disconnected(
    node: P2PNode,
    addr: NetAddr,
    now: Timestamp,
    r: bool,
)
    requires
        call_ensures(P2PNode::should_disconnect, (&node, &addr, now), r),
    ensures
        r <==> node.peers@.contains_key(addr) && (node.peers@[addr].banned || now
            > node.peers@[addr].last_message_time + 300),
{
}

/// What came from a peer is relayed to every other one that is not banned.
pub proof fn law_relays(
    node: P2PNode,
    from: NetAddr,
    r: Vec<NetAddr>,
    a: NetAddr,
)
    requires
        call_ensures(P2PNode::relay_targets, (&node, &from), r),
    ensures
        r@.contains(a) <==> a != from && node.peers@.contains_key(a) && !node.peers@[a].banned,
{
}

/// `SyncManager::best_peer` names a peer exactly when one that is not banned is ahead, and none of
/// those is at once as quick and higher, or as high and quicker.
pub proof fn law_the_best_peer(m: SyncManager, r: Option<SyncPeer>, k: PeerId)
    requires
        call_ensures(SyncManager::best_peer, (&m,), r),
        m.local_chain@.len() <= u64::MAX,
        m.peers@.contains_key(k),
        !m.peers@[k].banned,
        m.peers@[k].height > m.local_chain@.len(),
    ensures
        r is Some,
        r matches Some(p) ==> !p.banned && p.height > m.local_chain@.len(),
        r matches Some(p) ==> m.peers@[k].latency_ms <= p.latency_ms ==> m.peers@[k].height
            <= p.height,
        r matches Some(p) ==> m.peers@[k].height >= p.height ==> m.peers@[k].latency_ms
            >= p.latency_ms,
{
    assert(crate::p2p::ahead(m.peers@[k], m.height()));
    if let Some(p) = r {
        let id = choose|id: PeerId| #[trigger]
            crate::p2p::is_best_peer(m.peers@, m.height(), id) && p == m.peers@[id];
        crate::p2p::law_best_peer_is_high_and_quick(m.peers@, m.height(), id, k);
    }
}

/// `SyncManager::needs_sync_at` asks for a peer that is not banned and has more blocks, and for no
/// synchronisation that was tried within the last minute.
pub proof fn law_when_to_synchronise(m: SyncManager, now: Timestamp, r: bool)
    requires
        call_ensures(SyncManager::needs_sync_at, (&m, now), r),
        m.local_chain@.len() <= u64::MAX,
    ensures
        r <==> (exists|id: PeerId| #[trigger]
            m.peers@.contains_key(id) && !m.peers@[id].banned && m.peers@[id].height
                > m.local_chain@.len()) && (m.active_session is None || now > m.last_sync_attempt
            + 60),
{
    crate::p2p::law_when_a_synchronisation_is_due(m, now);
}

/// A commit counts for its epoch and for less than an hour.
pub proof fn law_commits_that_count(c: EpochCommit, epoch: u32, now: Timestamp, r: bool)
    requires
        call_ensures(EpochCommit::is_valid_at, (&c, epoch, now), r),
    ensures
        r <==> c.epoch == epoch && now < c.timestamp + 3_600,
{
}

/// `ShareSyncManager::get_consensus_root` is a root that at least five peers back and none is
/// backed by more; there is one exactly when five peers back one.
pub proof fn law_consensus(m: ShareSyncManager, r: Option<Hash32>, k: Hash32)
    requires
        call_ensures(ShareSyncManager::get_consensus_root, (&m,), r),
    ensures
        r matches Some(root) ==> votes_for(m.peer_commits@, root) >= 5 && votes_for(
            m.peer_commits@,
            k,
        ) <= votes_for(m.peer_commits@, root),
        r is None ==> votes_for(m.peer_commits@, k) < 5,
{
}

/// `Target::share_target` is 256 times the target, and `Target::prefilter_target` 65536 times that,
/// as far as 32 bytes can write it.
pub proof fn law_targets_of_shares(target: Target, r: Target, s: Target)
    requires
        call_ensures(Target::share_target, (&target,), r),
        call_ensures(Target::prefilter_target, (&target,), s),
    ensures
        256 * be_value(target.0@) < pow256(32) ==> be_value(r.0@) == 256 * be_value(target.0@),
        16_777_216 * be_value(target.0@) < pow256(32) ==> be_value(s.0@) == 16_777_216 * be_value(
            target.0@,
        ),
        be_value(target.0@) <= be_value(r.0@) <= be_value(s.0@),
{
    let v = be_value(target.0@);
    crate::types::law_share_target_ratios(v);
    crate::bytes::lemma_be_value_bound(target.0@);
    crate::bytes::lemma_be_value_bound(r.0@);
    crate::types::law_share_target_is_easier(v, v);
    crate::types::law_share_target_is_easier(v, be_value(r.0@));
}

/// `Target::scaled_integer` multiplies by a fraction and rounds down, as far as 32 bytes can write
/// it.
pub proof fn law_scaled_targets(target: Target, numerator: u64, denominator: u64, r: Target)
    requires
        call_ensures(Target::scaled_integer, (&target, numerator, denominator), r),
        denominator > 0,
    ensures
        be_value(r.0@) * denominator <= be_value(target.0@) * numerator,
        be_value(r.0@) < pow256(32) - 1 ==> be_value(target.0@) * numerator < (be_value(r.0@) + 1)
            * denominator,
{
    crate::types::law_scaled_target_is_rounded_down(
        be_value(target.0@),
        numerator as nat,
        denominator as nat,
    );
}

/// `Target::shift_left` by whole bytes leaves the three leading bytes, puts zeros behind them, and
/// then the other bytes, as many places on as there are zeros.
pub proof fn law_shifted_targets(target: Target, k: usize, r: Target, j: int)
    requires
        k < 32,
        call_ensures(Target::shift_left, (&target, (8 * k) as usize), r),
        0 <= j < 32,
    ensures
        j < 3 ==> r.0@[j] == target.0@[j],
        3 <= j < 3 + k ==> r.0@[j] == 0,
        3 + k <= j ==> r.0@[j] == target.0@[j - k],
{
    crate::types::law_shift_by_whole_bytes(target.0@, k as int, j);
    assert(r.0@[j] == crate::types::shifted_byte(target.0@, 8 * k, j));
}

/// `Target::from_compact` reads a mantissa of three bytes and an exponent, and `Target::compact`
/// writes the same form where the leading byte is not zero.
pub proof fn law_compact_targets(exponent: u32, mantissa: u32, r: Target, s: u32)
    requires
        3 <= exponent <= 32,
        mantissa < 0x100_0000,
        call_ensures(Target::from_compact, ((exponent * 0x100_0000 + mantissa) as u32,), r),
        call_ensures(Target::compact, (&r,), s),
    ensures
        be_value(r.0@) == mantissa * pow256((exponent - 3) as nat),
        mantissa >= 0x1_0000 ==> s == exponent * 0x100_0000 + mantissa,
{
    let c = (exponent * 0x100_0000 + mantissa) as u32;
    crate::types::law_value_of_a_compact_form(exponent, mantissa);
    if mantissa >= 0x1_0000 {
        assert(c / 0x100_0000 == exponent);
        assert(c / 65536 % 256 == mantissa / 65536);
        crate::types::law_compact_form_survives(c, r);
    }
}

/// What `SharePacket::serialize` writes `SharePacket::deserialize` reads back.
pub proof fn law_packets_survive(
    p: SharePacket,
    b: Vec<u8>,
    bytes: &[u8],
    r: Result<SharePacket, ShareError>,
)
    requires
        call_ensures(SharePacket::serialize, (&p,), b),
        call_ensures(SharePacket::deserialize, (bytes,), r),
        bytes@ == b@,
    ensures
        b@.len() == 180,
        r == Ok::<SharePacket, ShareError>(p),
{
    if let Ok(q) = r {
        crate::share::law_packet_bytes_injective(p, q);
    }
}

/// `SharePacket::validate` accepts a packet exactly when it follows the block, its miner is the one
/// of the key, and its digest and its work meet the share target.
pub proof fn law_valid_packets(
    p: SharePacket,
    target: Target,
    prev_hash: Hash32,
    pubkey: [u8; 33],
    r: Result<(), ShareError>,
)
    requires
        call_ensures(SharePacket::validate, (&p, &target, &prev_hash, &pubkey), r),
    ensures
        r is Ok <==> {
            let most = be_value(crate::share::packet_target(target));
            &&& p.header.prev_hash == prev_hash
            &&& p.miner_id@ == crate::primitives::ripemd160_of(sha256_of(pubkey@))
            &&& be_value(sha256_of(header_bytes(p.header) + le_bytes(p.nonce as nat, 8))) <= most
            &&& p.hash@ == pow_hash_of(
                header_bytes(crate::block::with_nonce(p.header, p.nonce)),
            )
            &&& be_value(p.hash@) <= most
        },
{
    crate::share::law_when_a_packet_is_valid(p, target, prev_hash, pubkey@);
}

/// `Share::validate` accepts a share exactly when it follows the block, is of the epoch and from
/// within two hours, and its digest and its work meet the target.
pub proof fn law_valid_shares(
    s: Share,
    target: Target,
    prev_hash: Hash32,
    epoch: u32,
    now: Timestamp,
    argon2: &mut Argon2Cache,
    r: Result<(), &'static str>,
)
    requires
        call_ensures(Share::validate, (&s, &target, &prev_hash, epoch, now, argon2), r),
    ensures
        r is Ok <==> {
            &&& s.header.prev_hash == prev_hash
            &&& s.header.epoch_index == epoch
            &&& now - 7200 <= s.timestamp <= now + 7200
            &&& be_value(sha256_of(header_bytes(s.header) + le_bytes(s.nonce as nat, 8)).take(8))
                <= be_value(target.0@.take(8))
            &&& s.hash@ == pow_hash_of(header_bytes(crate::block::with_nonce(s.header, s.nonce)))
            &&& be_value(s.hash@) <= be_value(target.0@)
        },
{
    crate::miner::law_when_a_share_is_valid(s, target, prev_hash, epoch, now);
}

/// `SlashEquivocationProof::verify` asks for two different works that meet their targets; where it
/// holds the whole bond is at stake, and where it does not nothing is.
pub proof fn law_equivocations(
    p: SlashEquivocationProof,
    bond: BondLookup,
    r: bool,
    s: Result<Option<u64>, crate::error::Error>,
)
    requires
        call_ensures(SlashEquivocationProof::verify, (&p,), r),
        call_ensures(SlashEquivocationProof::penalty, (&p, &bond), s),
    ensures
        ({
            let a = pow_hash_of(header_bytes(p.block1_header));
            let b = pow_hash_of(header_bytes(p.block2_header));
            &&& r <==> a != b && be_value(a) <= be_value(p.block1_header.difficulty.0@) && be_value(
                b,
            ) <= be_value(p.block2_header.difficulty.0@)
            &&& !r ==> s == Ok::<Option<u64>, crate::error::Error>(None)
            &&& r ==> (s is Ok <==> (bond matches Ok(Some(_))))
            &&& r && s is Ok ==> (bond matches Ok(Some(x)) && s->Ok_0 == Some(x.amount))
        }),
{
}

/// `AggregatedShare::verify` accepts an aggregate exactly when it counts its shares, they are all
/// of its miner and have its root, and the key of that miner signed for them.
pub proof fn law_verified_aggregates(
    a: crate::miner::AggregatedShare,
    shares: &[Share],
    r: Result<bool, String>,
)
    requires
        call_ensures(crate::miner::AggregatedShare::verify, (&a, shares), r),
        shares@.len() < 0x1_0000_0000,
    ensures
        r is Ok,
        r->Ok_0 ==> {
            &&& a@.share_count == shares@.len()
            &&& forall|i: int|
                0 <= i < shares@.len() ==> (#[trigger] shares@[i]).miner_id == a@.miner_id
            &&& crate::primitives::parsed_public_key(a@.pubkey) matches Some(key)
            &&& crate::primitives::ripemd160_of(sha256_of(key)) == a@.miner_id@
            &&& crate::primitives::ecdsa_valid(
                key,
                a@.signature,
                sha256_of(
                    sha256_of(
                        a@.miner_id@ + le_bytes(a@.share_count as nat, 4) + a@.merkle_root@
                            + le_bytes(a@.epoch as nat, 4) + le_bytes(a@.timestamp as nat, 8),
                    ),
                ),
            )
        },
{
    crate::miner::law_when_an_aggregate_holds(a@, shares@);
}

/// `Wallet::verify_signature` asks for a key of 33 or 65 bytes under which the signature of the
/// digest of the message verifies.
pub proof fn law_signatures(key: &[u8], sig: &[u8], message: &[u8], r: bool)
    requires
        call_ensures(Wallet::verify_signature, (key, sig, message), r),
    ensures
        r <==> {
            &&& key@.len() == 33 || key@.len() == 65
            &&& crate::primitives::parsed_public_key(key@) matches Some(k)
            &&& crate::primitives::is_compact_signature(sig@)
            &&& crate::primitives::ecdsa_valid(k, sig@, sha256_of(message@))
        },
{
}

/// What `hex_encode` writes `hex_decode` reads back, and it writes two characters for a byte.
pub proof fn law_hex(bytes: &[u8], text: Vec<u8>, read: &[u8], r: Option<Vec<u8>>)
    requires
        call_ensures(crate::text::hex_encode, (bytes,), text),
        call_ensures(crate::text::hex_decode, (read,), r),
        read@ == text@,
    ensures
        r matches Some(b) && b@ == bytes@,
{
    crate::text::law_hex_round_trip(bytes@);
}

/// An epoch that begins has the 1440 blocks from its first one on, and no other.
pub proof fn law_blocks_of_an_epoch(
    index: u32,
    start: u64,
    time: u64,
    target: Target,
    epoch: Epoch,
    height: u64,
    r: bool,
)
    requires
        call_ensures(Epoch::new, (index, start, time, target), epoch),
        call_ensures(Epoch::contains_block, (&epoch, height), r),
        start + 1_440 <= u64::MAX,
    ensures
        r <==> start <= height < start + 1_440,
        epoch.index == index && epoch.start_time == time && epoch.target_block == target,
        epoch.end_time is None && epoch.total_shares == 0 && epoch.active_miners == 0,
{
}

/// A message of up to ten mebibytes is framed with its length, least significant byte first, before
/// it; a longer one is refused.
pub proof fn law_frames(data: &[u8], r: Result<Vec<u8>, &'static str>)
    requires
        call_ensures(crate::p2p::frame_message, (data,), r),
    ensures
        r is Ok <==> data@.len() <= 10_485_760,
        r matches Ok(frame) ==> frame@.len() == data@.len() + 4 && frame@.skip(4) == data@
            && le_value(frame@.take(4)) == data@.len(),
{
    if let Ok(frame) = r {
        let n = data@.len();
        crate::bytes::lemma_le_bytes_len(n, 4);
        crate::bytes::lemma_pow256_words();
        crate::bytes::lemma_le_value_of_bytes(n, 4);
        assert(frame@.skip(4) =~= data@);
        assert(frame@.take(4) =~= le_bytes(n, 4));
    }
}

/// `Node::checkpoint_at` hands back a checkpoint of the height, and there is none exactly when none
/// is recorded.
pub proof fn law_checkpoints(
    node: Node,
    height: Height,
    r: Option<&crate::storage::Checkpoint>,
    i: int,
)
    requires
        call_ensures(Node::checkpoint_at, (&node, height), r),
        0 <= i < node.checkpoints@.len(),
    ensures
        r matches Some(c) ==> c.height == height && node.checkpoints@.contains(*c),
        node.checkpoints@[i].height == height ==> r is Some,
{
    if let Some(c) = r {
        let k = choose|k: int| #[trigger]
            crate::node::first_checkpoint(node.checkpoints@, height, k) && *c
                == node.checkpoints@[k];
        assert(node.checkpoints@[k] == *c);
    }
}

/// The state root is the digest of the miners followed by the bonds, 36 bytes for each.
pub proof fn law_state_roots(node: Node, r: Hash32, preimage: Seq<u8>)
    requires
        call_ensures(Node::calculate_state_root, (&node,), r),
        preimage.len() >= 36 * node.miners.items().len(),
        preimage.take(36int * node.miners.items().len()) == crate::node::miners_bytes(
            node.miners.items(),
        ),
        preimage.skip(36int * node.miners.items().len()) == crate::node::bonds_bytes(
            node.bonds.items(),
        ),
    ensures
        r@ == sha256_of(preimage),
{
    crate::node::law_state_root_is_over_miners_and_bonds(
        node.miners.items(),
        node.bonds.items(),
        preimage,
    );
}

/// A charge names the miner of the first block, the two blocks by their work, and the height.
pub proof fn law_charges(
    a: Block,
    b: Block,
    height: Height,
    now: Timestamp,
    r: Result<EquivocationProof, String>,
)
    requires
        call_ensures(EquivocationProof::from_blocks_at, (&a, &b, height, now), r),
    ensures
        r is Ok <==> block_miner(a@) is Some,
        r matches Ok(p) ==> block_miner(a@) == Some(p.miner_id@) && p.block_hash_1@ == pow_hash_of(
            header_bytes(a.header),
        ) && p.block_hash_2@ == pow_hash_of(header_bytes(b.header)) && p.block_height == height
            && p.timestamp == now && !p.proven,
{
}

/// `Transaction::create_p2pkh` and `Wallet::create_simple_tx` pay the amount to the address and
/// give back all that the fee leaves of what they spend, and fail where there is too little.
pub proof fn law_payments(
    from: Wallet,
    to: &str,
    amount: u64,
    fee: u64,
    utxos: Vec<(OutPoint, TxOut)>,
    r: Result<Transaction, String>,
)
    requires
        call_ensures(Transaction::create_p2pkh, (&from, to, amount, fee, utxos), r),
        sum_of(crate::transaction_laws::owned_values(utxos@)) <= u64::MAX,
    ensures
        r matches Ok(t) ==> crate::transaction_laws::pays_right(
            t@,
            utxos@,
            from@.address,
            to@,
            amount,
            fee,
        ),
        sum_of(crate::transaction_laws::owned_values(utxos@)) < amount + fee ==> r is Err,
{
    crate::transaction_laws::law_payments_account_for_what_they_spend(
        from@,
        to@,
        amount,
        fee,
        utxos@,
    );
}

/// The transaction that burns a bond for two blocks names both by their work, spends no output,
/// creates coins of no value, and names the miner behind the mark of the offence.
pub proof fn law_burning_transactions(
    p: SlashEquivocationProof,
    r: crate::transaction::Transaction,
)
    requires
        call_ensures(SlashEquivocationProof::to_transaction, (&p,), r),
    ensures
        r@.inputs.len() == 2,
        r@.inputs[0].prev_txid@ == pow_hash_of(header_bytes(p.block1_header)),
        r@.inputs[1].prev_txid@ == pow_hash_of(header_bytes(p.block2_header)),
        forall|i: int|
            0 <= i < 2 ==> (#[trigger] r@.inputs[i]).prev_index == u32::MAX
                && r@.inputs[i].script_sig == seq![0xFCu8] && r@.inputs[i].sequence == u32::MAX,
        r@.outputs.len() == 1,
        r@.outputs[0].value == 0,
        r@.outputs[0].script_pubkey == seq![0xFCu8] + p.miner_id@,
        r@.version == 1 && r@.locktime == 0,
{
}

/// A transaction is valid against a set of outputs exactly when it spends no output twice, spends
/// only what is there, pays no output below 100, and leaves a fee of 50 at least; the fee is what
/// is left over.
pub proof fn law_valid_against_a_set(
    tx: crate::transaction::Transaction,
    set: crate::transaction::UTXOSet,
    r: Result<u64, crate::error::Error>,
)
    requires
        call_ensures(crate::transaction::Transaction::validate, (&tx, &set), r),
        !coinbase_transaction(tx@),
    ensures
        ({
            let t = tx@;
            let spent = sum_of(crate::transaction_laws::values_in(t.inputs, set@));
            &&& r is Ok <==> {
                &&& forall|i: int, j: int|
                    0 <= i < j < t.inputs.len() ==> (
                        (#[trigger] t.inputs[i]).prev_txid,
                        t.inputs[i].prev_index,
                    ) != ((#[trigger] t.inputs[j]).prev_txid, t.inputs[j].prev_index)
                &&& forall|i: int|
                    0 <= i < t.inputs.len() ==> set@.contains_key(
                        ((#[trigger] t.inputs[i]).prev_txid, t.inputs[i].prev_index),
                    )
                &&& forall|i: int|
                    0 <= i < t.outputs.len() ==> (#[trigger] t.outputs[i]).value >= 100
                &&& spent <= u64::MAX
                &&& spent >= sum_of(output_values(t.outputs)) + 50
            }
            &&& (r matches Ok(fee) ==> fee + sum_of(output_values(t.outputs)) == spent)
        }),
{
    crate::transaction_laws::law_when_a_transaction_is_valid_against(tx@, set@);
}

/// An input creates coins exactly when it names a transaction of zeros and the largest index, and a
/// transaction exactly when its only input does.
pub proof fn law_creation_of_coins(input: TxIn, tx: Transaction, r: bool, s: bool)
    requires
        call_ensures(TxIn::is_coinbase, (&input,), r),
        call_ensures(Transaction::is_coinbase, (&tx,), s),
    ensures
        r <==> input.prev_index == u32::MAX && forall|k: int|
            0 <= k < 32 ==> #[trigger] input.prev_txid@[k] == 0,
        s <==> tx@.inputs.len() == 1 && tx@.inputs[0].prev_index == u32::MAX && forall|k: int|
            0 <= k < 32 ==> #[trigger] tx@.inputs[0].prev_txid@[k] == 0,
{
    let zeros = Seq::new(32, |k: int| 0u8);
    if forall|k: int| 0 <= k < 32 ==> #[trigger] input.prev_txid@[k] == 0 {
        assert(input.prev_txid@ =~= zeros);
    }
    if tx@.inputs.len() == 1 && forall|k: int|
        0 <= k < 32 ==> #[trigger] tx@.inputs[0].prev_txid@[k] == 0 {
        assert(tx@.inputs[0].prev_txid@ =~= zeros);
    }
}

/// A proof of two blocks is made exactly of two different works of one epoch.
pub proof fn law_proofs_of_two_blocks(
    a: BlockHeader,
    b: BlockHeader,
    miner_id: MinerId,
    r: Result<SlashEquivocationProof, crate::error::Error>,
)
    requires
        call_ensures(SlashEquivocationProof::new, (a, b, miner_id), r),
    ensures
        r is Ok <==> pow_hash_of(header_bytes(a)) != pow_hash_of(header_bytes(b)) && a.epoch_index
            == b.epoch_index,
        r matches Ok(p) ==> p.block1_header == a && p.block2_header == b && p.miner_id == miner_id,
{
}

/// A proof of a flood is made exactly of ten or more shares of one miner.
pub proof fn law_proofs_of_floods(
    miner_id: MinerId,
    shares: Vec<Share>,
    epoch: u32,
    r: Result<crate::slash::SlashInvalidSharesProof, crate::error::Error>,
    i: int,
)
    requires
        call_ensures(crate::slash::SlashInvalidSharesProof::new, (miner_id, shares, epoch), r),
        0 <= i < shares@.len(),
    ensures
        r is Ok ==> shares@.len() >= 10 && shares@[i].miner_id == miner_id,
        shares@.len() < 10 || shares@[i].miner_id != miner_id ==> r is Err,
        r matches Ok(p) ==> p.invalid_shares@ == shares@ && p.miner_id == miner_id && p.epoch
            == epoch,
{
}

/// What a pool tells of a miner's invalid shares: those of all that it counted, and none where it
/// counted none; they are too many from more than three tenths on.
pub proof fn law_invalid_ratios(
    pool: crate::miner::SharePool,
    id: MinerId,
    r: crate::miner::InvalidRatio,
    over: bool,
)
    requires
        call_ensures(crate::miner::SharePool::invalid_ratio, (&pool, &id), r),
        call_ensures(crate::miner::InvalidRatio::exceeds_tenths, (&r, 3u64), over),
    ensures
        pool.total_shares@.contains_key(id) ==> r.total == pool.total_shares@[id],
        !pool.total_shares@.contains_key(id) ==> r.total == 0 && r.invalid == 0,
        r.total > 0 && pool.invalid_shares@.contains_key(id) ==> r.invalid
            == pool.invalid_shares@[id],
        over <==> 10 * r.invalid > 3 * r.total,
{
}

/// `TxIn::verify` and `TxIn::parse_script_sig`: only the key of the hash that an output pays to
/// spends it, with a signature over what the input signs.
pub proof fn law_inputs_that_may_spend(
    input: TxIn,
    tx: Transaction,
    k: usize,
    utxo: TxOut,
    hash: Seq<u8>,
    r: bool,
)
    requires
        call_ensures(TxIn::verify, (&input, &tx, k, &utxo), r),
        hash.len() == 20,
        !coinbase_input(input@),
        utxo@.script_pubkey == seq![0x76u8, 0xA9u8, 0x14u8] + hash + seq![0x88u8, 0xACu8],
    ensures
        r <==> {
            &&& crate::block::parsed_script(input@.script_sig) matches Some((sig, key))
            &&& crate::primitives::ripemd160_of(sha256_of(key)) == hash
            &&& crate::primitives::parsed_public_key(key) is Some
            &&& crate::primitives::is_compact_signature(sig)
            &&& crate::primitives::ecdsa_valid(
                crate::primitives::parsed_public_key(key)->0,
                sig,
                crate::block::sighash_of(tx@, k as int),
            )
        },
{
    crate::transaction_laws::law_only_the_key_spends(input@, tx@, k as int, hash, utxo.value);
}

/// `pow_hash` is the memory-hard hash with the parameters of the network.
pub proof fn law_work_of_data(data: &[u8], r: Hash32, salted: Seq<u8>, salt: Seq<u8>)
    requires
        call_ensures(crate::crypto::pow_hash, (data,), r),
        salted.len() == 16 + data@.len(),
        salted.skip(16) == data@,
        salted.take(16) == seq![
            0x41u8, 0x43u8, 0x43u8, 0x55u8, 0x4Du8, 0x50u8, 0x4Fu8, 0x57u8, 0x76u8, 0x33u8, 0x2Eu8,
            0x32u8, 0x2Bu8, 0x21u8, 0x21u8, 0x21u8,
        ],
        salt == sha256_of(salted).take(16),
    ensures
        r@ == crate::primitives::argon2id_of(262_144, 2, 4, data@, salt),
{
    crate::crypto::law_parameters_of_the_work(data@, salted, salt);
}

/// `paid_out` adds up all outputs of a transaction.
pub proof fn law_what_is_paid_out(tx: Transaction, r: u128)
    requires
        call_ensures(crate::p2p::paid_out, (&tx,), r),
    ensures
        r == sum_of(output_values(tx@.outputs)),
{
    crate::block::law_outputs_add_up(tx@.outputs);
}

} // verus!
