//! Peers, messages and synchronisation.
use crate::block::{
    coinbase_transaction, fee_of, header_bytes, law_outputs_add_up, outpoint_of, output_sum,
    output_values, txid_of, Block, BlockHeader, BlockV, LookupMap, Transaction, TransactionV, TxInV,
    TxOutV, UtxoLookups,
};
use crate::bytes::{arrays_equal, le_bytes, push_le, read_le};
use crate::collections::{lemma_sum_push, sum_of, OrdKey, OrdMap, OrdSet};
use crate::consensus::EquivocationProof;
use crate::constants::{BLOCK_REWARD_LYT, MAX_MESSAGE_SIZE, MAX_PEERS, PEER_TIMEOUT_SECS};
use crate::crypto::{elapsed, pow_hash_of, Argon2Cache};
use crate::merkle::{hash_views, merkle_root, merkle_root_of};
use crate::miner::{capped_sum, capped_u32, Share};
use crate::network::{DDoSProtection, NetAddr};
use crate::storage::Checkpoint;
use crate::text::{decimal, push_decimal};
use crate::types::{current_timestamp, Hash32, Height, MinerId, OutPoint, PeerId, Timestamp};
use vstd::prelude::*;
use vstd::string::*;

verus! {

/// The sum of the fees of the transactions from `i` on, held to the largest number, or why the
/// first of them has none.
pub open spec fn fees_from(txs: Seq<TransactionV>, utxos: LookupMap, i: int, sum: u64) -> Result<
    u64,
    Seq<char>,
>
    decreases txs.len() - i,
{
    if i < 0 || i >= txs.len() {
        Ok(sum)
    } else {
        match fee_of(txs[i], utxos) {
            Err(words) => Err(words),
            Ok(fee) => fees_from(txs, utxos, i + 1, capped_sum(sum, fee as u64)),
        }
    }
}

/// What is wrong with what a block pays to its miner.
pub open spec fn coinbase_fault(b: BlockV, utxos: LookupMap) -> Option<Seq<char>> {
    if b.transactions.len() == 0 {
        Some("Empty block"@)
    } else if !coinbase_transaction(b.transactions[0]) {
        Some("First transaction is not coinbase"@)
    } else {
        match fees_from(b.transactions, utxos, 1, 0) {
            Err(words) => Some("Fee error: "@ + words),
            Ok(fees) => {
                let paid = output_sum(b.transactions[0].outputs);
                let most = capped_sum(BLOCK_REWARD_LYT, fees);
                if paid > most {
                    Some("Coinbase "@ + decimal(paid) + " exceeds max reward "@ + decimal(
                        most as nat,
                    ))
                } else {
                    None
                }
            },
        }
    }
}

/// The fees of the transactions of a block but its first, zero where one cannot be told.
pub open spec fn fees_paid(txs: Seq<TransactionV>, utxos: LookupMap) -> Seq<nat> {
    txs.skip(1).map_values(
        |t: TransactionV|
            match fee_of(t, utxos) {
                Ok(fee) => fee,
                Err(_) => 0,
            },
    )
}

/// Adding up fees gives their sum, or the largest number, where every one can be told.
proof fn lemma_fees_add_up(txs: Seq<TransactionV>, utxos: LookupMap, i: int, sum: u64)
    requires
        1 <= i <= txs.len(),
        sum == capped_height(0, sum_of(fees_paid(txs, utxos).take(i - 1))),
    ensures
        fees_from(txs, utxos, i, sum) is Ok <==> forall|j: int|
            i <= j < txs.len() ==> fee_of(#[trigger] txs[j], utxos) is Ok,
        fees_from(txs, utxos, i, sum) is Ok ==> fees_from(txs, utxos, i, sum)->Ok_0
            == capped_height(0, sum_of(fees_paid(txs, utxos))),
    decreases txs.len() - i,
{
    let fees = fees_paid(txs, utxos);
    if i == txs.len() {
        assert(fees.take(i - 1) =~= fees);
    } else {
        assert(txs.skip(1)[i - 1] == txs[i]);
        assert(fees.take(i) =~= fees.take(i - 1).push(fees[i - 1]));
        lemma_sum_push(fees.take(i - 1), fees[i - 1]);
        match fee_of(txs[i], utxos) {
            Err(_) => {
                assert(!(fee_of(txs[i], utxos) is Ok));
            },
            Ok(fee) => {
                lemma_fees_add_up(txs, utxos, i + 1, capped_sum(sum, fee as u64));
                if fees_from(txs, utxos, i, sum) is Ok {
                    assert forall|j: int| i <= j < txs.len() implies fee_of(
                        #[trigger] txs[j],
                        utxos,
                    ) is Ok by {}
                }
            },
        }
    }
}

/// A block pays its miner right exactly when its first transaction creates coins, the fee of every
/// other one can be told, and the first pays out no more than the block reward of 500000 and all
/// those fees together.
pub proof fn law_coinbase_takes_reward_and_all_fees(b: BlockV, utxos: LookupMap)
    ensures
        coinbase_fault(b, utxos) is None <==> {
            &&& b.transactions.len() > 0
            &&& coinbase_transaction(b.transactions[0])
            &&& forall|j: int|
                1 <= j < b.transactions.len() ==> fee_of(
                    #[trigger] b.transactions[j],
                    utxos,
                ) is Ok
            &&& sum_of(output_values(b.transactions[0].outputs)) <= u64::MAX
            &&& sum_of(output_values(b.transactions[0].outputs)) <= 500_000 + sum_of(
                fees_paid(b.transactions, utxos),
            )
        },
{
    let txs = b.transactions;
    if txs.len() > 0 && coinbase_transaction(txs[0]) {
        assert(fees_paid(txs, utxos).take(0) =~= Seq::<nat>::empty());
        lemma_sum_push(Seq::<nat>::empty(), 0);
        lemma_fees_add_up(txs, utxos, 1, 0);
        law_outputs_add_up(txs[0].outputs);
    }
}

/// The sum of the values of the outputs of a transaction.
pub fn paid_out(tx: &Transaction) -> (r: u128)
    ensures
        r == output_sum(tx@.outputs),
{
    let ghost outs = tx@.outputs;
    let mut total: u128 = 0;
    let mut j: usize = 0;
    assert(outs.take(0) =~= Seq::<TxOutV>::empty());
    while j < tx.outputs.len()
        invariant
            j <= tx.outputs@.len(),
            outs == tx@.outputs,
            total == output_sum(outs.take(j as int)),
            total <= j * 0xFFFF_FFFF_FFFF_FFFF,
        decreases tx.outputs@.len() - j,
    {
        assert(outs[j as int] == tx.outputs@[j as int]@);
        assert(outs.take(j + 1).drop_last() =~= outs.take(j as int));
        total = total + tx.outputs[j].value as u128;
        j += 1;
    }
    assert(outs.take(j as int) =~= outs);
    total
}

/// Checks that the coinbase of a block pays out at most the block reward and the fees.
pub fn validate_block_coinbase(block: &Block, utxos: &UtxoLookups) -> (r: Result<(), String>)
    ensures
        match r {
            Ok(()) => coinbase_fault(block@, utxos@) is None,
            Err(words) => coinbase_fault(block@, utxos@) == Some(words@),
        },
{
    if block.transactions.len() == 0 {
        return Err("Empty block".to_string());
    }
    let ghost txs = block@.transactions;
    let coinbase = &block.transactions[0];
    assert(txs[0] == coinbase@);
    if !coinbase.is_coinbase() {
        return Err("First transaction is not coinbase".to_string());
    }
    let coinbase_out: u128 = paid_out(coinbase);
    let mut total_fees: u64 = 0;
    let mut i: usize = 1;
    while i < block.transactions.len()
        invariant
            1 <= i <= block.transactions@.len(),
            txs == block@.transactions,
            coinbase_transaction(txs[0]),
            fees_from(txs, utxos@, 1, 0) == fees_from(txs, utxos@, i as int, total_fees),
        decreases block.transactions@.len() - i,
    {
        assert(txs[i as int] == block.transactions@[i as int]@);
        match block.transactions[i].fee(utxos) {
            Ok(fee) => {
                total_fees = total_fees.saturating_add(fee);
            },
            Err(e) => {
                let mut words = "Fee error: ".to_string();
                words.append(e.as_str());
                return Err(words);
            },
        }
        i += 1;
    }
    let max_reward: u64 = BLOCK_REWARD_LYT.saturating_add(total_fees);
    if coinbase_out > max_reward as u128 {
        let mut words = "Coinbase ".to_string();
        push_decimal(&mut words, coinbase_out);
        words.append(" exceeds max reward ");
        push_decimal(&mut words, max_reward as u128);
        return Err(words);
    }
    Ok(())
}

/// The outputs that the transactions of a block spend, in order, but for its coinbases.
pub open spec fn spent_in(txs: Seq<TransactionV>) -> Seq<OutPoint>
    decreases txs.len(),
{
    if txs.len() == 0 {
        Seq::empty()
    } else if coinbase_transaction(txs.last()) {
        spent_in(txs.drop_last())
    } else {
        spent_in(txs.drop_last()) + txs.last().inputs.map_values(|i: TxInV| outpoint_of(i))
    }
}

/// Whether the output at `k` was spent before it, and none of those before it twice.
pub open spec fn first_repeat(spent: Seq<OutPoint>, k: int) -> bool {
    &&& 0 <= k < spent.len()
    &&& spent.take(k).contains(spent[k])
    &&& spent.take(k).no_duplicates()
}

/// The text of an output as a pair of a list of bytes and a number.
pub open spec fn outpoint_text(p: OutPoint) -> Seq<char> {
    "(["@ + byte_list(p.0@) + "], "@ + decimal(p.1 as nat) + ")"@
}

/// The decimal texts of bytes with commas between them.
pub open spec fn byte_list(b: Seq<u8>) -> Seq<char>
    decreases b.len(),
{
    if b.len() == 0 {
        Seq::empty()
    } else if b.len() == 1 {
        decimal(b[0] as nat)
    } else {
        byte_list(b.drop_last()) + ", "@ + decimal(b.last() as nat)
    }
}

fn push_outpoint(words: &mut String, p: &OutPoint)
    ensures
        final(words)@ == old(words)@ + outpoint_text(*p),
{
    let ghost start = words@;
    words.append("([");
    let ghost open = words@;
    let mut i: usize = 0;
    assert(p.0@.take(0) =~= Seq::<u8>::empty());
    while i < 32
        invariant
            i <= 32,
            words@ == open + byte_list(p.0@.take(i as int)),
        decreases 32 - i,
    {
        let ghost before = p.0@.take(i as int);
        let ghost after = p.0@.take(i + 1);
        assert(after.drop_last() =~= before);
        if i > 0 {
            words.append(", ");
        } else {
            assert(after =~= seq![p.0@[0]]);
        }
        push_decimal(words, p.0[i] as u128);
        assert(words@ =~= open + byte_list(after));
        i += 1;
    }
    assert(p.0@.take(32) =~= p.0@);
    words.append("], ");
    push_decimal(words, p.1 as u128);
    words.append(")");
    assert(words@ =~= start + outpoint_text(*p));
}

/// Checks that no output is spent twice within a block.
pub fn validate_block_no_double_spend(block: &Block) -> (r: Result<(), String>)
    ensures
        match r {
            Ok(()) => spent_in(block@.transactions).no_duplicates(),
            Err(words) => exists|k: int| #[trigger]
                first_repeat(spent_in(block@.transactions), k) && words@
                    == "Double spend detected: "@ + outpoint_text(
                    spent_in(block@.transactions)[k],
                ),
        },
{
    let ghost txs = block@.transactions;
    let ghost mut spent: Seq<OutPoint> = Seq::empty();
    let mut seen: OrdSet<OutPoint> = OrdSet::new();
    let mut i: usize = 0;
    assert(txs.take(0) =~= Seq::<TransactionV>::empty());
    while i < block.transactions.len()
        invariant
            i <= block.transactions@.len(),
            txs == block@.transactions,
            spent == spent_in(txs.take(i as int)),
            spent.no_duplicates(),
            forall|p: OutPoint| #[trigger] seen@.contains(p) <==> spent.contains(p),
        decreases block.transactions@.len() - i,
    {
        let tx = &block.transactions[i];
        assert(txs[i as int] == tx@);
        assert(txs.take(i + 1).drop_last() =~= txs.take(i as int));
        if !tx.is_coinbase() {
            let ghost before = spent;
            let ghost points = tx@.inputs.map_values(|i: TxInV| outpoint_of(i));
            let mut j: usize = 0;
            assert(before + points.take(0) =~= before);
            while j < tx.inputs.len()
                invariant
                    j <= tx.inputs@.len(),
                    i < block.transactions@.len(),
                    txs == block@.transactions,
                    txs[i as int] == tx@,
                    points == tx@.inputs.map_values(|i: TxInV| outpoint_of(i)),
                    spent == before + points.take(j as int),
                    before == spent_in(txs.take(i as int)),
                    spent_in(txs.take(i + 1)) == before + points,
                    spent.no_duplicates(),
                    forall|p: OutPoint| #[trigger] seen@.contains(p) <==> spent.contains(p),
                decreases tx.inputs@.len() - j,
            {
                let outpoint = tx.inputs[j].outpoint();
                assert(points[j as int] == outpoint);
                if seen.contains(&outpoint) {
                    let mut words = "Double spend detected: ".to_string();
                    push_outpoint(&mut words, &outpoint);
                    proof {
                        let k = before.len() + j;
                        lemma_spent_prefix(txs, i + 1);
                        let all = spent_in(txs);
                        assert(all[k] == (before + points)[k]);
                        assert(all.take(k) =~= spent) by {
                            assert forall|x: int| 0 <= x < k implies all[x] == spent[x] by {
                                assert(all[x] == (before + points)[x]);
                            }
                        }
                        assert(first_repeat(all, k));
                    }
                    return Err(words);
                }
                let ghost shorter = spent;
                seen.insert(outpoint);
                proof {
                    spent = spent.push(outpoint);
                    assert(before + points.take(j + 1) =~= spent);
                    assert forall|p: OutPoint| #[trigger] seen@.contains(p) <==> spent.contains(
                        p,
                    ) by {
                        if spent.contains(p) {
                            let x = choose|x: int| 0 <= x < spent.len() && spent[x] == p;
                            if x < shorter.len() {
                                assert(shorter[x] == p);
                            }
                        }
                        if shorter.contains(p) {
                            let x = choose|x: int| 0 <= x < shorter.len() && shorter[x] == p;
                            assert(spent[x] == p);
                        }
                        if p == outpoint {
                            assert(spent[shorter.len() as int] == p);
                        }
                    }
                    assert(spent.no_duplicates()) by {
                        assert forall|x: int, y: int|
                            0 <= x < spent.len() && 0 <= y < spent.len() && x != y implies spent[x]
                            != spent[y] by {
                            if x == shorter.len() && spent[x] == spent[y] {
                                assert(shorter[y] == outpoint);
                            }
                            if y == shorter.len() && spent[x] == spent[y] {
                                assert(shorter[x] == outpoint);
                            }
                        }
                    }
                }
                j += 1;
            }
            assert(points.take(j as int) =~= points);
        }
        i += 1;
    }
    assert(txs.take(i as int) =~= txs);
    Ok(())
}

/// What the first transactions of a block spend comes first in what the block spends.
proof fn lemma_spent_prefix(txs: Seq<TransactionV>, n: int)
    requires
        0 <= n <= txs.len(),
    ensures
        spent_in(txs).len() >= spent_in(txs.take(n)).len(),
        forall|x: int|
            0 <= x < spent_in(txs.take(n)).len() ==> spent_in(txs)[x] == spent_in(txs.take(n))[x],
    decreases txs.len() - n,
{
    if n == txs.len() {
        assert(txs.take(n) =~= txs);
    } else {
        lemma_spent_prefix(txs, n + 1);
        assert(txs.take(n + 1).drop_last() =~= txs.take(n));
        assert forall|x: int| 0 <= x < spent_in(txs.take(n)).len() implies spent_in(txs)[x]
            == spent_in(txs.take(n))[x] by {
            assert(spent_in(txs.take(n + 1))[x] == spent_in(txs.take(n))[x]);
        }
    }
}

/// The identifiers of transactions.
pub open spec fn txids_of(txs: Seq<TransactionV>) -> Seq<Seq<u8>> {
    txs.map_values(|t: TransactionV| txid_of(t))
}

/// The root of the tree over the identifiers of transactions; zeros where there is none.
pub open spec fn transactions_root(txs: Seq<TransactionV>) -> Seq<u8> {
    if txs.len() == 0 {
        Seq::new(32, |i: int| 0u8)
    } else {
        merkle_root_of(txids_of(txs))
    }
}

/// The root of the tree over the identifiers of transactions; zeros where there is none.
pub fn root_of_transactions(txs: &[Transaction]) -> (r: Hash32)
    ensures
        r@ == transactions_root(crate::block::transaction_views(txs@)),
{
    let ghost views = crate::block::transaction_views(txs@);
    if txs.len() == 0 {
        let zero: Hash32 = [0u8; 32];
        assert(zero@ =~= Seq::new(32, |i: int| 0u8));
        return zero;
    }
    let mut hashes: Vec<Hash32> = Vec::new();
    let mut i: usize = 0;
    while i < txs.len()
        invariant
            i <= txs@.len(),
            hashes@.len() == i,
            forall|j: int| 0 <= j < i ==> (#[trigger] hashes@[j])@ == txid_of(txs@[j]@),
        decreases txs@.len() - i,
    {
        hashes.push(txs[i].compute_txid());
        i += 1;
    }
    assert(hash_views(hashes@) =~= txids_of(views));
    merkle_root(hashes)
}

/// A message between peers.
pub enum P2PMessage {
    Version {
        version: u32,
        timestamp: Timestamp,
        height: Height,
        best_hash: Hash32,
        peer_id: PeerId,
    },
    Verack,
    Ping(u64),
    Pong(u64),
    Share(Share),
    Block {
        header: BlockHeader,
        transactions: Vec<Transaction>,
        signature: Option<Vec<u8>>,
        pubkey: Option<Vec<u8>>,
    },
    EpochCommit { epoch: u32, commit_root: Hash32, timestamp: Timestamp },
    GetBlocks { from_height: Height, max_count: u32 },
    Blocks(Vec<Block>),
    GetMempool,
    Mempool(Vec<Transaction>),
    Transaction(Transaction),
    GetPeers,
    Peers(Vec<NetAddr>),
    BanPeer { peer_id: PeerId, reason: String },
    SlashProof { miner_id: MinerId, proof: Box<EquivocationProof> },
    Checkpoint(Box<Checkpoint>),
    SyncRequest { from_height: Height, to_height: Height },
    SyncResponse(Vec<Block>),
    Heartbeat(u64),
}

pub const MAX_MESSAGES_PER_HOUR: u32 = 1000;

pub const MAX_BLOCKS_PER_REQUEST: u32 = 500;

pub const MIN_VERSION: u32 = 1;

pub const MAX_VERSION: u32 = 1;

/// A message as it goes over the wire: its length in four bytes, least significant first, and its
/// bytes. A message that is too large has no such form.
pub fn frame_message(data: &[u8]) -> (r: Result<Vec<u8>, &'static str>)
    ensures
        match r {
            Ok(frame) => data@.len() <= MAX_MESSAGE_SIZE && frame@ == le_bytes(data@.len(), 4)
                + data@,
            Err(words) => data@.len() > MAX_MESSAGE_SIZE && words@ == "Message too large"@,
        },
{
    if data.len() > MAX_MESSAGE_SIZE {
        return Err("Message too large");
    }
    let mut frame: Vec<u8> = Vec::new();
    push_le(&mut frame, data.len() as u64, 4);
    frame.extend_from_slice(data);
    assert(frame@ =~= le_bytes(data@.len(), 4) + data@);
    Ok(frame)
}

/// The length of the message that a four-byte head announces.
pub fn frame_length(head: &[u8; 4]) -> (r: usize)
    ensures
        r == crate::bytes::le_value(head@),
{
    proof {
        crate::bytes::lemma_le_value_bound(head@);
        crate::bytes::lemma_pow256_words();
        assert(head@.subrange(0, 4) =~= head@);
    }
    read_le(head.as_slice(), 0, 4) as usize
}

/// The head of a framed message announces the length of the message.
pub proof fn law_frame_head_announces_length(data: Seq<u8>, head: Seq<u8>)
    requires
        data.len() <= MAX_MESSAGE_SIZE,
        head == (le_bytes(data.len(), 4) + data).take(4),
    ensures
        crate::bytes::le_value(head) == data.len(),
{
    crate::bytes::lemma_pow256_words();
    crate::bytes::lemma_le_bytes_len(data.len(), 4);
    crate::bytes::lemma_le_value_of_bytes(data.len(), 4);
    assert(head =~= le_bytes(data.len(), 4));
}

/// What is known of a connected peer.
#[derive(Debug)]
pub struct PeerConnection {
    pub peer_id: PeerId,
    pub address: NetAddr,
    pub last_message_time: Timestamp,
    pub last_heartbeat: Timestamp,
    pub last_hour_reset: Timestamp,
    pub messages_this_hour: u32,
    pub version: Option<u32>,
    pub height: Option<Height>,
    pub best_hash: Option<Hash32>,
    pub connected_at: Timestamp,
    pub messages_sent: u32,
    pub messages_received: u32,
    pub invalid_messages: u32,
    pub banned: bool,
    pub ban_reason: Option<String>,
    pub ping_nonce: Option<u64>,
    pub ping_time: Option<u64>,
}

/// Whether a peer is banned, and for what: a ban stays as it is.
pub open spec fn ban_recorded(before: PeerConnection, after: PeerConnection, reason: Seq<char>) -> bool {
    if before.banned {
        after == before
    } else {
        &&& after.banned
        &&& after.ban_reason is Some
        &&& after.ban_reason->0@ == reason
        &&& after == (PeerConnection {
            banned: true,
            ban_reason: after.ban_reason,
            ..before
        })
    }
}

/// The messages of the hour at `now`: an hour after the last reset they count from zero.
pub open spec fn hour_at(p: PeerConnection, now: Timestamp) -> PeerConnection {
    if elapsed(now, p.last_hour_reset) > 3600 {
        PeerConnection { messages_this_hour: 0, last_hour_reset: now, ..p }
    } else {
        p
    }
}

/// The peer after one more message in the hour, where it may send one, and banned otherwise.
pub open spec fn message_metered(before: PeerConnection, after: PeerConnection, now: Timestamp) -> bool {
    let p = hour_at(before, now);
    if p.messages_this_hour >= MAX_MESSAGES_PER_HOUR {
        ban_recorded(p, after, "Rate limit exceeded"@)
    } else {
        after == (PeerConnection {
            messages_this_hour: (p.messages_this_hour + 1) as u32,
            ..p
        })
    }
}

/// Whether a peer may send one more message in the hour.
pub open spec fn within_hour_limit(p: PeerConnection, now: Timestamp) -> bool {
    hour_at(p, now).messages_this_hour < MAX_MESSAGES_PER_HOUR
}

/// What is wrong with the version of a peer.
pub open spec fn version_fault(version: Option<u32>) -> Option<Seq<char>> {
    match version {
        Some(v) => if MIN_VERSION <= v <= MAX_VERSION {
            None
        } else {
            Some("Incompatible version"@)
        },
        None => Some("No version received"@),
    }
}

/// What becomes of a message that was received.
pub enum Receipt {
    /// It goes no further.
    Dropped,
    /// It is handled.
    Delivered,
    /// It is answered with a pong and handled.
    Ponged(u64),
}

impl PeerConnection {
    /// A peer that connected at `now`.
    pub fn new(peer_id: PeerId, address: NetAddr, now: Timestamp) -> (r: Self)
        ensures
            r.peer_id == peer_id,
            r.address == address,
            r.last_message_time == now,
            r.last_heartbeat == now,
            r.last_hour_reset == now,
            r.messages_this_hour == 0,
            r.version is None,
            r.height is None,
            r.best_hash is None,
            r.connected_at == now,
            r.messages_sent == 0,
            r.messages_received == 0,
            r.invalid_messages == 0,
            !r.banned,
            r.ban_reason is None,
            r.ping_nonce is None,
            r.ping_time is None,
    {
        PeerConnection {
            peer_id,
            address,
            last_message_time: now,
            last_heartbeat: now,
            last_hour_reset: now,
            messages_this_hour: 0,
            version: None,
            height: None,
            best_hash: None,
            connected_at: now,
            messages_sent: 0,
            messages_received: 0,
            invalid_messages: 0,
            banned: false,
            ban_reason: None,
            ping_nonce: None,
            ping_time: None,
        }
    }

    /// Counts a message of the hour; a peer that sends too many is banned.
    pub fn check_rate_limit(&mut self, current_time: Timestamp) -> (r: bool)
        ensures
            r == within_hour_limit(*old(self), current_time),
            message_metered(*old(self), *final(self), current_time),
    {
        if current_time > self.last_hour_reset && current_time - self.last_hour_reset > 3600 {
            self.messages_this_hour = 0;
            self.last_hour_reset = current_time;
        }
        if self.messages_this_hour >= MAX_MESSAGES_PER_HOUR {
            self.ban("Rate limit exceeded");
            return false;
        }
        self.messages_this_hour = self.messages_this_hour + 1;
        true
    }

    /// Checks the version that the peer told.
    pub fn check_version(&self) -> (r: Result<(), &'static str>)
        ensures
            match r {
                Ok(()) => version_fault(self.version) is None,
                Err(words) => version_fault(self.version) == Some(words@),
            },
    {
        match self.version {
            Some(v) => if v >= MIN_VERSION && v <= MAX_VERSION {
                Ok(())
            } else {
                Err("Incompatible version")
            },
            None => Err("No version received"),
        }
    }

    /// Whether the peer was silent for too long.
    pub fn is_stale(&self, current_time: Timestamp) -> (r: bool)
        ensures
            r == (elapsed(current_time, self.last_message_time) > PEER_TIMEOUT_SECS),
    {
        current_time > self.last_message_time && current_time - self.last_message_time
            > PEER_TIMEOUT_SECS
    }

    /// Whether the peer should be asked for a sign of life.
    pub fn needs_heartbeat(&self, current_time: Timestamp) -> (r: bool)
        ensures
            r == (elapsed(current_time, self.last_heartbeat) > 30),
    {
        current_time > self.last_heartbeat && current_time - self.last_heartbeat > 30
    }

    /// Takes note of a message that was sent at `now`.
    pub fn message_sent(&mut self, now: Timestamp)
        ensures
            *final(self) == (PeerConnection {
                messages_sent: capped_u32(old(self).messages_sent + 1),
                last_message_time: now,
                ..*old(self)
            }),
    {
        self.messages_sent = self.messages_sent.saturating_add(1);
        self.last_message_time = now;
    }

    /// Takes note of a message whose announced length is too large, and bans the peer.
    pub fn message_too_large(&mut self)
        ensures
            ban_recorded(
                (PeerConnection {
                    invalid_messages: capped_u32(old(self).invalid_messages + 1),
                    ..*old(self)
                }),
                *final(self),
                "Message too large"@,
            ),
    {
        self.invalid_messages = self.invalid_messages.saturating_add(1);
        self.ban("Message too large");
    }

    /// Takes note of a message that could not be read.
    pub fn message_unreadable(&mut self)
        ensures
            *final(self) == (PeerConnection {
                invalid_messages: capped_u32(old(self).invalid_messages + 1),
                ..*old(self)
            }),
    {
        self.invalid_messages = self.invalid_messages.saturating_add(1);
    }

    /// Takes note of a message that was received at `now`, and says what becomes of it.
    pub fn message_received(&mut self, msg: &P2PMessage, now: Timestamp) -> (r: Receipt)
        ensures
            received(*old(self), *final(self), *msg, now, r),
    {
        if !self.check_rate_limit(now) {
            return Receipt::Dropped;
        }
        self.messages_received = self.messages_received.saturating_add(1);
        self.last_message_time = now;
        let ghost counted = *self;
        match msg {
            P2PMessage::Heartbeat(nonce) => {
                self.last_heartbeat = now;
                Receipt::Ponged(*nonce)
            },
            P2PMessage::Pong(nonce) => {
                if let Some(ping_nonce) = self.ping_nonce {
                    if *nonce == ping_nonce {
                        self.ping_time = Some(now);
                    }
                }
                self.last_heartbeat = now;
                Receipt::Delivered
            },
            P2PMessage::Version { height, best_hash, version, .. } => {
                self.height = Some(*height);
                self.best_hash = Some(*best_hash);
                self.version = Some(*version);
                match self.check_version() {
                    Ok(()) => Receipt::Delivered,
                    Err(e) => {
                        self.ban(e);
                        Receipt::Dropped
                    },
                }
            },
            P2PMessage::GetBlocks { max_count, .. } => {
                if *max_count > MAX_BLOCKS_PER_REQUEST {
                    self.ban("Requested too many blocks");
                    return Receipt::Dropped;
                }
                Receipt::Delivered
            },
            P2PMessage::BanPeer { peer_id, reason } => {
                if arrays_equal(peer_id, &self.peer_id) {
                    self.ban(reason.as_str());
                }
                Receipt::Delivered
            },
            _ => Receipt::Delivered,
        }
    }

    /// Takes note of the nonce of a ping.
    pub fn ping_with(&mut self, nonce: u64)
        ensures
            *final(self) == (PeerConnection { ping_nonce: Some(nonce), ..*old(self) }),
    {
        self.ping_nonce = Some(nonce);
    }

    /// Takes note of the chain of the peer at `now`.
    pub fn update_state(&mut self, height: Height, hash: Hash32, now: Timestamp)
        ensures
            *final(self) == (PeerConnection {
                height: Some(height),
                best_hash: Some(hash),
                last_message_time: now,
                ..*old(self)
            }),
    {
        self.height = Some(height);
        self.best_hash = Some(hash);
        self.last_message_time = now;
    }

    /// Bans the peer, unless it is banned already.
    pub fn ban(&mut self, reason: &str)
        ensures
            ban_recorded(*old(self), *final(self), reason@),
    {
        if self.banned {
            return;
        }
        self.banned = true;
        self.ban_reason = Some(reason.to_string());
    }

    /// Whether the peer is banned.
    pub fn is_banned(&self) -> (r: bool)
        ensures
            r == self.banned,
    {
        self.banned
    }

    /// The height that the peer told.
    pub fn get_height(&self) -> (r: Option<Height>)
        ensures
            r == self.height,
    {
        self.height
    }

    /// The best hash that the peer told.
    pub fn get_best_hash(&self) -> (r: Option<Hash32>)
        ensures
            r == self.best_hash,
    {
        self.best_hash
    }

    /// The identifier of the peer.
    pub fn get_peer_id(&self) -> (r: PeerId)
        ensures
            r == self.peer_id,
    {
        self.peer_id
    }

    /// The address of the peer.
    pub fn get_address(&self) -> (r: NetAddr)
        ensures
            r == self.address,
    {
        self.address
    }
}

/// The peer after a message was counted at `now`.
pub open spec fn message_counted(p: PeerConnection, now: Timestamp) -> PeerConnection {
    let h = hour_at(p, now);
    PeerConnection {
        messages_this_hour: (h.messages_this_hour + 1) as u32,
        messages_received: capped_u32(h.messages_received + 1),
        last_message_time: now,
        ..h
    }
}

/// The peer and the fate of a message that was received at `now`. Too many messages, a version
/// that does not fit and a request for too many blocks ban the peer and go no further.
pub open spec fn received(
    before: PeerConnection,
    after: PeerConnection,
    msg: P2PMessage,
    now: Timestamp,
    r: Receipt,
) -> bool {
    let p = message_counted(before, now);
    if !within_hour_limit(before, now) {
        message_metered(before, after, now) && r is Dropped
    } else {
        match msg {
            P2PMessage::Heartbeat(nonce) => {
                &&& after == (PeerConnection { last_heartbeat: now, ..p })
                &&& r == Receipt::Ponged(nonce)
            },
            P2PMessage::Pong(nonce) => {
                &&& after == (PeerConnection {
                    last_heartbeat: now,
                    ping_time: if p.ping_nonce == Some(nonce) {
                        Some(now)
                    } else {
                        p.ping_time
                    },
                    ..p
                })
                &&& r is Delivered
            },
            P2PMessage::Version { height, best_hash, version, .. } => {
                let q = PeerConnection {
                    height: Some(height),
                    best_hash: Some(best_hash),
                    version: Some(version),
                    ..p
                };
                match version_fault(Some(version)) {
                    None => after == q && r is Delivered,
                    Some(words) => ban_recorded(q, after, words) && r is Dropped,
                }
            },
            P2PMessage::GetBlocks { max_count, .. } => if max_count > MAX_BLOCKS_PER_REQUEST {
                ban_recorded(p, after, "Requested too many blocks"@) && r is Dropped
            } else {
                after == p && r is Delivered
            },
            P2PMessage::BanPeer { peer_id, reason } => {
                &&& if peer_id == p.peer_id {
                    ban_recorded(p, after, reason@)
                } else {
                    after == p
                }
                &&& r is Delivered
            },
            _ => after == p && r is Delivered,
        }
    }
}

/// A peer to synchronise with.
#[derive(Debug, Clone, Copy, PartialEq, Eq)]
pub struct SyncPeer {
    pub peer_id: PeerId,
    pub address: NetAddr,
    pub height: Height,
    pub best_hash: Hash32,
    pub latency_ms: u64,
    pub last_sync_time: Timestamp,
    pub retries: u32,
    pub banned: bool,
}

/// A synchronisation with a peer.
#[derive(Debug)]
pub struct SyncSession {
    pub peer_id: PeerId,
    pub from_height: Height,
    pub target_height: Height,
    pub current_height: Height,
    pub started_at: Timestamp,
    pub last_activity: Timestamp,
    pub blocks_received: u32,
    pub status: SyncStatus,
}

/// Where a synchronisation stands.
#[derive(Debug)]
pub enum SyncStatus {
    Idle,
    Requesting,
    Receiving,
    Verifying,
    Completed,
    Failed(String),
}

/// The peers to synchronise with, and the synchronisation that is under way.
pub struct SyncManager {
    pub peers: OrdMap<PeerId, SyncPeer>,
    pub active_session: Option<SyncSession>,
    pub local_chain: Vec<BlockHeader>,
    pub local_hashes: OrdMap<Hash32, Height>,
    pub sync_in_progress: bool,
    pub last_sync_attempt: Timestamp,
    pub pending_blocks: Vec<Block>,
    pub last_request_time: Timestamp,
    pub retry_count: OrdMap<PeerId, u32>,
    pub sync_complete_height: Height,
}

/// Whether a peer may be asked for blocks above a height.
pub open spec fn ahead(p: SyncPeer, height: Height) -> bool {
    !p.banned && p.height > height
}

/// What is known of a peer after it told of its chain at `now`: of one that was known before, its
/// address, its failures and its ban stay.
pub open spec fn peer_told(
    peers: Map<PeerId, SyncPeer>,
    peer_id: PeerId,
    address: NetAddr,
    height: Height,
    best_hash: Hash32,
    latency_ms: u64,
    now: Timestamp,
) -> SyncPeer {
    if peers.contains_key(peer_id) {
        SyncPeer { height, best_hash, latency_ms, last_sync_time: now, ..peers[peer_id] }
    } else {
        SyncPeer {
            peer_id,
            address,
            height,
            best_hash,
            latency_ms,
            last_sync_time: now,
            retries: 0,
            banned: false,
        }
    }
}

/// Whether a synchronisation should start at `now`: a peer is ahead, and none is under way that
/// started within the limit.
pub open spec fn sync_needed(m: SyncManager, now: Timestamp) -> bool {
    &&& exists|id: PeerId| #[trigger] m.peers@.contains_key(id) && ahead(m.peers@[id], m.height())
    &&& m.active_session is None || elapsed(now, m.last_sync_attempt)
        > crate::constants::SYNC_TIMEOUT_SECS
}

/// Whether peer `a` scores at least as high as `b`: what it is ahead over its latency.
pub open spec fn scores_at_least(a: SyncPeer, b: SyncPeer, height: Height) -> bool {
    (a.height - height) * (b.latency_ms + 1) >= (b.height - height) * (a.latency_ms + 1)
}

/// Whether `id` is the last of the peers with the highest score.
pub open spec fn is_best_peer(peers: Map<PeerId, SyncPeer>, height: Height, id: PeerId) -> bool {
    &&& peers.contains_key(id)
    &&& ahead(peers[id], height)
    &&& forall|k: PeerId| #[trigger]
        peers.contains_key(k) && ahead(peers[k], height) ==> scores_at_least(
            peers[id],
            peers[k],
            height,
        ) && (id.before(k) ==> !scores_at_least(peers[k], peers[id], height))
}

/// Whether `h` is the largest height of the peers that are not banned.
pub open spec fn is_top_height(peers: Map<PeerId, SyncPeer>, top: Option<Height>) -> bool {
    match top {
        Some(h) => (exists|id: PeerId| #[trigger]
            peers.contains_key(id) && !peers[id].banned && peers[id].height == h) && forall|
            id: PeerId,
        | #[trigger]
            peers.contains_key(id) && !peers[id].banned ==> peers[id].height <= h,
        None => forall|id: PeerId| #[trigger] peers.contains_key(id) ==> peers[id].banned,
    }
}

/// `a/b >= c/d >= e/f` for positive denominators gives `a/b >= e/f`.
proof fn lemma_ratio_transitive(a: nat, b: nat, c: nat, d: nat, e: nat, f: nat)
    requires
        b > 0,
        d > 0,
        f > 0,
        a * d >= c * b,
        c * f >= e * d,
    ensures
        a * f >= e * b,
        a * d > c * b || c * f > e * d ==> a * f > e * b,
{
    assert(a * d * f >= c * b * f) by (nonlinear_arith)
        requires
            a * d >= c * b,
            f > 0,
    ;
    assert(c * f * b >= e * d * b) by (nonlinear_arith)
        requires
            c * f >= e * d,
            b > 0,
    ;
    assert(c * b * f == c * f * b) by (nonlinear_arith);
    assert(a * d * f == (a * f) * d) by (nonlinear_arith);
    assert(e * d * b == (e * b) * d) by (nonlinear_arith);
    assert(a * f >= e * b) by (nonlinear_arith)
        requires
            (a * f) * d >= (e * b) * d,
            d > 0,
    ;
    if a * d > c * b {
        assert(a * d * f > c * b * f) by (nonlinear_arith)
            requires
                a * d > c * b,
                f > 0,
        ;
        assert(a * f > e * b) by (nonlinear_arith)
            requires
                (a * f) * d > (e * b) * d,
                d > 0,
        ;
    }
    if c * f > e * d {
        assert(c * f * b > e * d * b) by (nonlinear_arith)
            requires
                c * f > e * d,
                b > 0,
        ;
        assert(a * f > e * b) by (nonlinear_arith)
            requires
                (a * f) * d > (e * b) * d,
                d > 0,
        ;
    }
}

fn outscores(a: &SyncPeer, b: &SyncPeer, height: Height) -> (r: bool)
    requires
        a.height > height,
        b.height > height,
    ensures
        r == scores_at_least(*a, *b, height),
{
    let da: u128 = (a.height - height) as u128;
    let db: u128 = (b.height - height) as u128;
    let la: u128 = a.latency_ms as u128 + 1;
    let lb: u128 = b.latency_ms as u128 + 1;
    assert(da * lb <= 0xFFFF_FFFF_FFFF_FFFF * 0x1_0000_0000_0000_0000) by (nonlinear_arith)
        requires
            da <= 0xFFFF_FFFF_FFFF_FFFF,
            lb <= 0x1_0000_0000_0000_0000,
    ;
    assert(db * la <= 0xFFFF_FFFF_FFFF_FFFF * 0x1_0000_0000_0000_0000) by (nonlinear_arith)
        requires
            db <= 0xFFFF_FFFF_FFFF_FFFF,
            la <= 0x1_0000_0000_0000_0000,
    ;
    da * lb >= db * la
}

/// A session that starts at `now` with a peer.
pub open spec fn session_started(
    s: SyncSession,
    peer_id: PeerId,
    from: Height,
    current: Height,
    target: Height,
    now: Timestamp,
) -> bool {
    s == (SyncSession {
        peer_id,
        from_height: from,
        target_height: target,
        current_height: current,
        started_at: now,
        last_activity: now,
        blocks_received: 0,
        status: SyncStatus::Requesting,
    })
}

/// What comes next in a synchronisation.
pub enum SyncStep {
    /// Nothing for now.
    Wait,
    /// Ask a peer for the blocks from a height on.
    Request(PeerId, Height),
    /// All blocks are there.
    Done,
}

/// Whether no peer and no block is known, and no synchronisation was tried.
pub open spec fn sync_idle(m: SyncManager) -> bool {
    &&& m.peers@ == Map::<PeerId, SyncPeer>::empty()
    &&& m.active_session is None
    &&& m.local_chain@ == Seq::<BlockHeader>::empty()
    &&& m.local_hashes@ == Map::<Hash32, Height>::empty()
    &&& !m.sync_in_progress
    &&& m.last_sync_attempt == 0
    &&& m.pending_blocks@ == Seq::<Block>::empty()
    &&& m.last_request_time == 0
    &&& m.retry_count@ == Map::<PeerId, u32>::empty()
    &&& m.sync_complete_height == 0
}

impl SyncManager {
    /// Whether the parts that a synchronisation does not touch are the same.
    pub open spec fn same_chain(self, other: Self) -> bool {
        &&& self.local_chain == other.local_chain
        &&& self.local_hashes == other.local_hashes
        &&& self.pending_blocks == other.pending_blocks
        &&& self.retry_count == other.retry_count
        &&& self.sync_complete_height == other.sync_complete_height
    }

    /// The height up to which blocks were synchronised.
    pub open spec fn height(self) -> Height {
        self.local_chain@.len() as u64
    }

    /// No peers and no blocks.
    pub fn new() -> (r: Self)
        ensures
            sync_idle(r),
    {
        SyncManager {
            peers: OrdMap::new(),
            active_session: None,
            local_chain: Vec::new(),
            local_hashes: OrdMap::new(),
            sync_in_progress: false,
            last_sync_attempt: 0,
            pending_blocks: Vec::new(),
            last_request_time: 0,
            retry_count: OrdMap::new(),
            sync_complete_height: 0,
        }
    }

    /// Replaces the chain that was synchronised.
    pub fn set_chain(&mut self, chain: Vec<BlockHeader>, hashes: OrdMap<Hash32, Height>)
        ensures
            *final(self) == (SyncManager {
                local_chain: chain,
                local_hashes: hashes,
                ..*old(self)
            }),
    {
        self.local_chain = chain;
        self.local_hashes = hashes;
    }

    /// Takes note of the chain of a peer at `now`.
    pub fn update_peer_at(
        &mut self,
        peer_id: PeerId,
        address: NetAddr,
        height: Height,
        best_hash: Hash32,
        latency_ms: u64,
        now: Timestamp,
    )
        ensures
            final(self).peers@ == old(self).peers@.insert(
                peer_id,
                peer_told(
                    old(self).peers@,
                    peer_id,
                    address,
                    height,
                    best_hash,
                    latency_ms,
                    now,
                ),
            ),
            *final(self) == (SyncManager { peers: final(self).peers, ..*old(self) }),
    {
        let known = match self.peers.get(&peer_id) {
            Some(p) => Some(*p),
            None => None,
        };
        let peer = match known {
            Some(p) => {
                let mut q = p;
                q.height = height;
                q.best_hash = best_hash;
                q.latency_ms = latency_ms;
                q.last_sync_time = now;
                q
            },
            None => SyncPeer {
                peer_id,
                address,
                height,
                best_hash,
                latency_ms,
                last_sync_time: now,
                retries: 0,
                banned: false,
            },
        };
        self.peers.insert(peer_id, peer);
    }

    /// Takes note of the chain of a peer at the time that the clock shows.
    pub fn update_peer(
        &mut self,
        peer_id: PeerId,
        address: NetAddr,
        height: Height,
        best_hash: Hash32,
        latency_ms: u64,
    )
        ensures
            exists|now: Timestamp|
                final(self).peers@ == old(self).peers@.insert(
                    peer_id,
                    #[trigger] peer_told(
                        old(self).peers@,
                        peer_id,
                        address,
                        height,
                        best_hash,
                        latency_ms,
                        now,
                    ),
                ),
            *final(self) == (SyncManager { peers: final(self).peers, ..*old(self) }),
    {
        let now: Timestamp = current_timestamp();
        self.update_peer_at(peer_id, address, height, best_hash, latency_ms, now)
    }

    /// Forgets a peer.
    pub fn remove_peer(&mut self, peer_id: &PeerId)
        ensures
            final(self).peers@ == old(self).peers@.remove(*peer_id),
            *final(self) == (SyncManager { peers: final(self).peers, ..*old(self) }),
    {
        self.peers.remove(peer_id);
    }

    /// The peer with the highest score among those that are ahead.
    pub fn best_peer(&self) -> (r: Option<SyncPeer>)
        ensures
            match r {
                Some(p) => exists|id: PeerId| #[trigger]
                    is_best_peer(self.peers@, self.height(), id) && p == self.peers@[id],
                None => forall|id: PeerId| #[trigger]
                    self.peers@.contains_key(id) ==> !ahead(self.peers@[id], self.height()),
            },
    {
        let height: Height = self.local_chain.len() as u64;
        let n: usize = self.peers.len();
        let ghost items = self.peers.items();
        let ghost peers = self.peers@;
        let mut best: Option<usize> = None;
        let mut i: usize = 0;
        while i < n
            invariant
                i <= n,
                n == items.len(),
                items == self.peers.items(),
                height == self.height(),
                match best {
                    Some(b) => b < i && ahead(items[b as int].1, height) && forall|j: int|
                        #![trigger items[j]]
                        0 <= j < i && ahead(items[j].1, height) ==> scores_at_least(
                            items[b as int].1,
                            items[j].1,
                            height,
                        ) && (b < j ==> !scores_at_least(items[j].1, items[b as int].1, height)),
                    None => forall|j: int|
                        0 <= j < i ==> !ahead((#[trigger] items[j]).1, height),
                },
            decreases n - i,
        {
            let p = *self.peers.value_at(i);
            assert(p == items[i as int].1);
            if !p.banned && p.height > height {
                match best {
                    None => {
                        best = Some(i);
                    },
                    Some(b) => {
                        let q = *self.peers.value_at(b);
                        if outscores(&p, &q, height) {
                            proof {
                                assert forall|j: int| #![trigger items[j]]
                                    0 <= j < i && ahead(items[j].1, height) implies scores_at_least(
                                    p,
                                    items[j].1,
                                    height,
                                ) by {
                                    let o = items[j].1;
                                    lemma_ratio_transitive(
                                        (p.height - height) as nat,
                                        (p.latency_ms + 1) as nat,
                                        (q.height - height) as nat,
                                        (q.latency_ms + 1) as nat,
                                        (o.height - height) as nat,
                                        (o.latency_ms + 1) as nat,
                                    );
                                }
                            }
                            best = Some(i);
                        }
                    },
                }
            }
            i += 1;
        }
        match best {
            Some(b) => {
                let p = *self.peers.value_at(b);
                proof {
                    let id = items[b as int].0;
                    assert forall|k: PeerId| #[trigger] peers.contains_key(k) && ahead(
                        peers[k],
                        height,
                    ) implies scores_at_least(peers[id], peers[k], height) && (id.before(k)
                        ==> !scores_at_least(peers[k], peers[id], height)) by {
                        let j = choose|j: int| 0 <= j < items.len() && (#[trigger] items[j]).0 == k;
                        assert(items[j].1 == peers[k]);
                        if id.before(k) {
                            if j < b {
                                assert(items[j].0.before(items[b as int].0));
                                PeerId::order_transitive(id, k, id);
                                PeerId::order_irreflexive(id);
                            } else if j == b {
                                PeerId::order_irreflexive(id);
                            }
                        }
                    }
                    assert(is_best_peer(peers, height, id));
                }
                Some(p)
            },
            None => {
                proof {
                    assert forall|id: PeerId| #[trigger] peers.contains_key(id) implies !ahead(
                        peers[id],
                        height,
                    ) by {
                        let j = choose|j: int| 0 <= j < items.len() && (#[trigger] items[j]).0 == id;
                        assert(!ahead(items[j].1, height));
                    }
                }
                None
            },
        }
    }

    /// Whether a synchronisation should start at `now`: a peer that is not banned is ahead, and
    /// none is under way, or the last one started too long ago.
    pub fn needs_sync_at(&self, now: Timestamp) -> (r: bool)
        ensures
            r == sync_needed(*self, now),
    {
        let height: Height = self.local_chain.len() as u64;
        let best: Option<Height> = self.best_peer_height();
        let ahead_of_us: bool = match best {
            Some(h) => h > height,
            None => false,
        };
        let timed_out: bool = now > self.last_sync_attempt && now - self.last_sync_attempt
            > crate::constants::SYNC_TIMEOUT_SECS;
        ahead_of_us && (self.active_session.is_none() || timed_out)
    }

    /// Whether a synchronisation should start at the time that the clock shows.
    pub fn needs_sync(&self) -> (r: bool)
        ensures
            exists|now: Timestamp| r == #[trigger] sync_needed(*self, now),
            self.active_session is None ==> r == exists|id: PeerId| #[trigger]
                self.peers@.contains_key(id) && ahead(self.peers@[id], self.height()),
    {
        let now: Timestamp = current_timestamp();
        self.needs_sync_at(now)
    }

    /// Starts a synchronisation with a peer that is ahead at `now`, unless one is under way.
    pub fn start_sync_at(&mut self, peer: SyncPeer, now: Timestamp) -> (r: bool)
        ensures
            r == (!old(self).sync_in_progress && peer.height > old(self).height()),
            !r ==> *final(self) == *old(self),
            r ==> {
                &&& final(self).active_session is Some
                &&& session_started(
                    final(self).active_session->0,
                    peer.peer_id,
                    old(self).height(),
                    old(self).height(),
                    peer.height,
                    now,
                )
                &&& final(self).sync_in_progress
                &&& final(self).last_sync_attempt == now
                &&& final(self).last_request_time == old(self).last_request_time
                &&& final(self).peers == old(self).peers
                &&& final(self).same_chain(*old(self))
            },
    {
        if self.sync_in_progress {
            return false;
        }
        let current_height: Height = self.local_chain.len() as u64;
        if peer.height <= current_height {
            return false;
        }
        self.active_session = Some(
            SyncSession {
                peer_id: peer.peer_id,
                from_height: current_height,
                target_height: peer.height,
                current_height,
                started_at: now,
                last_activity: now,
                blocks_received: 0,
                status: SyncStatus::Requesting,
            },
        );
        self.sync_in_progress = true;
        self.last_sync_attempt = now;
        true
    }

    /// Starts a synchronisation with a peer that is ahead, unless one is under way.
    pub fn start_sync(&mut self, peer: SyncPeer) -> (r: bool)
        ensures
            r == (!old(self).sync_in_progress && peer.height > old(self).height()),
            !r ==> *final(self) == *old(self),
            r ==> exists|now: Timestamp|
                final(self).last_sync_attempt == now && final(self).active_session is Some
                    && #[trigger] session_started(
                    final(self).active_session->0,
                    peer.peer_id,
                    old(self).height(),
                    old(self).height(),
                    peer.height,
                    now,
                ) && final(self).sync_in_progress && final(self).peers == old(self).peers
                    && final(self).last_request_time == old(self).last_request_time && final(self).same_chain(*old(self)),
    {
        let now: Timestamp = current_timestamp();
        self.start_sync_at(peer, now)
    }

    /// The largest height of the peers that are not banned.
    pub fn best_peer_height(&self) -> (r: Option<Height>)
        ensures
            is_top_height(self.peers@, r),
    {
        let n: usize = self.peers.len();
        let ghost items = self.peers.items();
        let ghost peers = self.peers@;
        let mut top: Option<Height> = None;
        let mut i: usize = 0;
        while i < n
            invariant
                i <= n,
                n == items.len(),
                items == self.peers.items(),
                match top {
                    Some(h) => (exists|j: int|
                        0 <= j < i && !(#[trigger] items[j]).1.banned && items[j].1.height == h)
                        && forall|j: int|
                        0 <= j < i && !(#[trigger] items[j]).1.banned ==> items[j].1.height <= h,
                    None => forall|j: int| 0 <= j < i ==> (#[trigger] items[j]).1.banned,
                },
            decreases n - i,
        {
            let p = *self.peers.value_at(i);
            assert(items[i as int].1 == p);
            if !p.banned {
                match top {
                    Some(h) => {
                        if p.height > h {
                            top = Some(p.height);
                        }
                    },
                    None => {
                        top = Some(p.height);
                    },
                }
            }
            i += 1;
        }
        proof {
            assert forall|id: PeerId| #[trigger] peers.contains_key(id) implies exists|j: int|
                0 <= j < items.len() && (#[trigger] items[j]).0 == id && items[j].1 == peers[id] by {
                let j = choose|j: int| 0 <= j < items.len() && (#[trigger] items[j]).0 == id;
                assert(items[j].1 == peers[id]);
            }
            if let Some(h) = top {
                let j = choose|j: int|
                    0 <= j < n && !(#[trigger] items[j]).1.banned && items[j].1.height == h;
                assert(peers.contains_key(items[j].0));
            }
        }
        top
    }

    /// Whether a synchronisation is under way.
    pub fn is_syncing(&self) -> (r: bool)
        ensures
            r == self.sync_in_progress,
    {
        self.sync_in_progress
    }

    /// The height up to which blocks were synchronised.
    pub fn current_height(&self) -> (r: Height)
        ensures
            r == self.height(),
            r == self.local_chain@.len(),
    {
        self.local_chain.len() as u64
    }
}

/// The proof-of-work hash of a header, as an array.
pub open spec fn header_hash(h: BlockHeader) -> Hash32 {
    choose|a: Hash32| a@ == pow_hash_of(header_bytes(h))
}

/// An array with the bytes of the hash of a header is that hash.
pub proof fn lemma_header_hash(h: BlockHeader, a: Hash32)
    requires
        a@ == pow_hash_of(header_bytes(h)),
    ensures
        header_hash(h) == a,
{
    assert(header_hash(h) =~= a);
}

/// `x + n`, or the largest number where that does not fit.
pub open spec fn capped_height(x: Height, n: nat) -> Height {
    if x + n <= u64::MAX {
        (x + n) as u64
    } else {
        u64::MAX
    }
}

/// An index of hashes after the headers `0..n` were put at the heights after `start`.
pub open spec fn indexed(
    m: Map<Hash32, Height>,
    headers: Seq<BlockHeader>,
    start: Height,
    n: nat,
) -> Map<Hash32, Height>
    decreases n,
{
    if n == 0 {
        m
    } else {
        indexed(m, headers, start, (n - 1) as nat).insert(
            header_hash(headers[n - 1]),
            capped_height(start, n),
        )
    }
}

/// The headers of blocks.
pub open spec fn headers_of(blocks: Seq<Block>) -> Seq<BlockHeader> {
    blocks.map_values(|b: Block| b.header)
}

/// The synchronisation after blocks of its peer came in at `now`.
pub open spec fn blocks_taken_in(
    before: SyncManager,
    after: SyncManager,
    blocks: Seq<Block>,
    now: Timestamp,
) -> bool {
    let s = before.active_session->0;
    let t = after.active_session->0;
    let reached = capped_height(s.current_height, blocks.len());
    &&& after.active_session is Some
    &&& t.peer_id == s.peer_id
    &&& t.from_height == s.from_height
    &&& t.target_height == s.target_height
    &&& t.started_at == s.started_at
    &&& after.peers == before.peers
    &&& after.last_sync_attempt == before.last_sync_attempt
    &&& after.last_request_time == before.last_request_time
    &&& after.pending_blocks == before.pending_blocks
    &&& after.retry_count == before.retry_count
    &&& after.sync_complete_height == before.sync_complete_height
    &&& t.current_height == reached
    &&& after.local_chain@ == before.local_chain@ + headers_of(blocks)
    &&& after.local_hashes@ == indexed(
        before.local_hashes@,
        headers_of(blocks),
        s.current_height,
        blocks.len(),
    )
    &&& if blocks.len() == 0 {
        &&& t.last_activity == s.last_activity
        &&& t.blocks_received == s.blocks_received
        &&& t.status is Completed
        &&& !after.sync_in_progress
    } else {
        &&& t.last_activity == now
        &&& t.blocks_received == capped_u32(s.blocks_received + blocks.len() % 0x1_0000_0000)
        &&& if reached >= s.target_height {
            t.status is Completed && !after.sync_in_progress
        } else {
            t.status is Requesting && after.sync_in_progress == before.sync_in_progress
        }
    }
}

/// The last height of a request that starts at `from`.
pub open spec fn batch_end(from: Height, most: Height) -> Height {
    let end = capped_height(from, 499);
    if end < most {
        end
    } else {
        most
    }
}

/// Why a peer cannot be asked for blocks from a height on at `now`.
pub open spec fn request_fault(
    m: SyncManager,
    peer_id: PeerId,
    from: Height,
    now: Timestamp,
) -> Option<Seq<char>> {
    if !m.peers@.contains_key(peer_id) {
        Some("Peer not found in sync manager"@)
    } else if m.peers@[peer_id].banned {
        Some("Peer is banned"@)
    } else if elapsed(now, m.last_request_time) < 5 && m.sync_in_progress {
        Some("Too frequent requests"@)
    } else if batch_end(from, m.peers@[peer_id].height) < from {
        Some("No blocks to request"@)
    } else if retries_of(m, peer_id) >= crate::constants::SYNC_MAX_RETRIES {
        Some("Peer has too many retries"@)
    } else {
        None
    }
}

/// How often a peer was asked again.
pub open spec fn retries_of(m: SyncManager, peer_id: PeerId) -> u32 {
    if m.retry_count@.contains_key(peer_id) {
        m.retry_count@[peer_id]
    } else {
        0
    }
}

/// Whether `id` is the first of the peers that are ahead with the lowest latency.
pub open spec fn is_fastest(peers: Map<PeerId, SyncPeer>, height: Height, id: PeerId) -> bool {
    &&& peers.contains_key(id)
    &&& ahead(peers[id], height)
    &&& forall|k: PeerId| #[trigger]
        peers.contains_key(k) && ahead(peers[k], height) ==> peers[id].latency_ms
            <= peers[k].latency_ms && (k.before(id) ==> peers[id].latency_ms
            < peers[k].latency_ms)
}

/// Whether `id` is the last of the peers that are not banned with the largest height.
pub open spec fn is_highest(peers: Map<PeerId, SyncPeer>, id: PeerId) -> bool {
    &&& peers.contains_key(id)
    &&& !peers[id].banned
    &&& forall|k: PeerId| #[trigger]
        peers.contains_key(k) && !peers[k].banned ==> peers[k].height <= peers[id].height && (
        id.before(k) ==> peers[k].height < peers[id].height)
}

/// Whether `id` is the peer to synchronise with: the fastest that is ahead, else the highest.
pub open spec fn is_selected(peers: Map<PeerId, SyncPeer>, height: Height, id: PeerId) -> bool {
    if exists|k: PeerId| #[trigger] peers.contains_key(k) && ahead(peers[k], height) {
        is_fastest(peers, height, id)
    } else {
        is_highest(peers, id)
    }
}

impl SyncManager {
    /// Takes in blocks of the peer that is synchronised with at `now`. The height that was
    /// reached is handed back.
    pub fn on_blocks_received_at(&mut self, blocks: &[Block], peer_id: &PeerId, now: Timestamp) -> (r:
        Result<Height, String>)
        ensures
            match r {
                Ok(height) => old(self).active_session is Some && old(self).active_session->0.peer_id == *peer_id && blocks_taken_in(
                    *old(self),
                    *final(self),
                    blocks@,
                    now,
                ) && height == final(self).active_session->0.current_height,
                Err(words) => *final(self) == *old(self) && if old(self).active_session is None {
                    words@ == "No active sync session"@
                } else {
                    old(self).active_session->0.peer_id != *peer_id && words@ == "Wrong peer"@
                },
            },
    {
        let right_peer: bool = match &self.active_session {
            Some(session) => arrays_equal(&session.peer_id, peer_id),
            None => {
                return Err("No active sync session".to_string());
            },
        };
        if !right_peer {
            return Err("Wrong peer".to_string());
        }
        let mut session = match self.active_session.take() {
            Some(session) => session,
            None => {
                return Err("No active sync session".to_string());
            },
        };
        let ghost first = session.current_height;
        let ghost headers = headers_of(blocks@);
        if blocks.len() == 0 {
            session.status = SyncStatus::Completed;
            self.sync_in_progress = false;
            let height: Height = session.current_height;
            self.active_session = Some(session);
            assert(self.local_chain@ =~= old(self).local_chain@ + headers);
            return Ok(height);
        }
        session.blocks_received = session.blocks_received.saturating_add(
            (blocks.len() as u64 % 0x1_0000_0000) as u32,
        );
        session.last_activity = now;
        let mut i: usize = 0;
        assert(self.local_chain@ =~= old(self).local_chain@ + headers.take(0));
        while i < blocks.len()
            invariant
                i <= blocks@.len(),
                headers == headers_of(blocks@),
                session.current_height == capped_height(first, i as nat),
                session.peer_id == old(self).active_session->0.peer_id,
                session.from_height == old(self).active_session->0.from_height,
                session.target_height == old(self).active_session->0.target_height,
                session.started_at == old(self).active_session->0.started_at,
                session.last_activity == now,
                session.blocks_received == capped_u32(
                    old(self).active_session->0.blocks_received + blocks@.len() % 0x1_0000_0000,
                ),
                self.local_chain@ == old(self).local_chain@ + headers.take(i as int),
                self.local_hashes@ == indexed(old(self).local_hashes@, headers, first, i as nat),
                self.peers == old(self).peers,
                self.last_sync_attempt == old(self).last_sync_attempt,
                self.last_request_time == old(self).last_request_time,
                self.pending_blocks == old(self).pending_blocks,
                self.retry_count == old(self).retry_count,
                self.sync_complete_height == old(self).sync_complete_height,
                self.sync_in_progress == old(self).sync_in_progress,
            decreases blocks@.len() - i,
        {
            session.current_height = session.current_height.saturating_add(1);
            let header = blocks[i].header;
            assert(headers[i as int] == header);
            self.local_chain.push(header);
            let mut argon2 = Argon2Cache::new(100);
            let hash = header.hash(&mut argon2);
            proof {
                lemma_header_hash(header, hash);
            }
            self.local_hashes.insert(hash, session.current_height);
            assert(self.local_chain@ =~= old(self).local_chain@ + headers.take(i + 1));
            i += 1;
        }
        assert(headers.take(i as int) =~= headers);
        if session.current_height >= session.target_height {
            session.status = SyncStatus::Completed;
            self.sync_in_progress = false;
        } else {
            session.status = SyncStatus::Requesting;
        }
        let height: Height = session.current_height;
        self.active_session = Some(session);
        Ok(height)
    }

    /// Takes in blocks of the peer that is synchronised with at the time that the clock shows.
    pub fn on_blocks_received(&mut self, blocks: &[Block], peer_id: &PeerId) -> (r: Result<
        Height,
        String,
    >)
        ensures
            match r {
                Ok(height) => old(self).active_session is Some && old(self).active_session->0.peer_id == *peer_id && (exists|now: Timestamp|
                    #[trigger] blocks_taken_in(*old(self), *final(self), blocks@, now)) && height
                    == final(self).active_session->0.current_height,
                Err(words) => *final(self) == *old(self) && if old(self).active_session is None {
                    words@ == "No active sync session"@
                } else {
                    old(self).active_session->0.peer_id != *peer_id && words@ == "Wrong peer"@
                },
            },
    {
        let now: Timestamp = current_timestamp();
        self.on_blocks_received_at(blocks, peer_id, now)
    }

    /// Gives up a synchronisation that was silent for too long at `now`, and counts that against
    /// its peer; the third time bans it.
    pub fn check_timeouts_at(&mut self, now: Timestamp) -> (r: Option<PeerId>)
        ensures
            timeout_checked(*old(self), *final(self), now, r),
    {
        let late: bool = match &self.active_session {
            Some(session) => now > session.last_activity && now - session.last_activity
                > crate::constants::SYNC_TIMEOUT_SECS,
            None => false,
        };
        if !late {
            return None;
        }
        let mut session = match self.active_session.take() {
            Some(session) => session,
            None => {
                return None;
            },
        };
        session.status = SyncStatus::Failed("Timeout".to_string());
        let id = session.peer_id;
        self.active_session = Some(session);
        let found = match self.peers.get(&id) {
            Some(p) => Some(*p),
            None => None,
        };
        if let Some(p) = found {
            let mut peer = p;
            peer.retries = peer.retries.saturating_add(1);
            if peer.retries >= 3 {
                peer.banned = true;
            }
            self.peers.insert(id, peer);
        }
        self.sync_in_progress = false;
        Some(id)
    }

    /// Gives up a synchronisation that was silent for too long by the clock.
    pub fn check_timeouts(&mut self) -> (r: Option<PeerId>)
        ensures
            exists|now: Timestamp| #[trigger]
                timeout_checked(*old(self), *final(self), now, r),
    {
        let now: Timestamp = current_timestamp();
        self.check_timeouts_at(now)
    }

    /// The number of blocks to ask a peer for, from a height up to another.
    pub fn request_blocks(&self, peer_id: &PeerId, from: Height, to: Height) -> (r: Result<
        u32,
        String,
    >)
        requires
            from <= to,
        ensures
            match r {
                Ok(count) => self.peers@.contains_key(*peer_id) && !self.peers@[*peer_id].banned
                    && count == if to - from < MAX_BLOCKS_PER_REQUEST {
                    to - from
                } else {
                    MAX_BLOCKS_PER_REQUEST as int
                },
                Err(words) => if !self.peers@.contains_key(*peer_id) {
                    words@ == "Peer not found"@
                } else {
                    self.peers@[*peer_id].banned && words@ == "Peer is banned"@
                },
            },
    {
        match self.peers.get(peer_id) {
            Some(peer) => {
                if peer.banned {
                    return Err("Peer is banned".to_string());
                }
                if to - from < MAX_BLOCKS_PER_REQUEST as u64 {
                    Ok((to - from) as u32)
                } else {
                    Ok(MAX_BLOCKS_PER_REQUEST)
                }
            },
            None => Err("Peer not found".to_string()),
        }
    }

    /// The number of blocks to ask a peer for at `now`, from a height on.
    pub fn request_blocks_from_peer_at(
        &mut self,
        peer_id: &PeerId,
        from_height: Height,
        now: Timestamp,
    ) -> (r: Result<u32, String>)
        ensures
            match r {
                Ok(count) => request_fault(*old(self), *peer_id, from_height, now) is None && count
                    == batch_end(from_height, old(self).peers@[*peer_id].height) - from_height + 1,
                Err(words) => request_fault(*old(self), *peer_id, from_height, now) == Some(
                    words@,
                ),
            },
            final(self).retry_count@ == if r is Ok || r->Err_0@ == "Peer has too many retries"@ {
                old(self).retry_count@.insert(*peer_id, retries_of(*old(self), *peer_id))
            } else {
                old(self).retry_count@
            },
            *final(self) == (SyncManager { retry_count: final(self).retry_count, ..*old(self) }),
    {
        let peer = match self.peers.get(peer_id) {
            Some(p) => *p,
            None => {
                proof {
                    reveal_strlit("Peer not found in sync manager");
                    reveal_strlit("Peer has too many retries");
                    assert("Peer not found in sync manager"@.len()
                        != "Peer has too many retries"@.len());
                }
                return Err("Peer not found in sync manager".to_string());
            },
        };
        proof {
            reveal_strlit("Peer is banned");
            reveal_strlit("Too frequent requests");
            reveal_strlit("No blocks to request");
            reveal_strlit("Peer has too many retries");
            assert("Peer is banned"@.len() != "Peer has too many retries"@.len());
            assert("Too frequent requests"@.len() != "Peer has too many retries"@.len());
            assert("No blocks to request"@.len() != "Peer has too many retries"@.len());
        }
        if peer.banned {
            return Err("Peer is banned".to_string());
        }
        let recent: bool = now <= self.last_request_time || now - self.last_request_time < 5;
        if recent && self.sync_in_progress {
            return Err("Too frequent requests".to_string());
        }
        let end: Height = from_height.saturating_add(499);
        let to_height: Height = if end < peer.height {
            end
        } else {
            peer.height
        };
        if to_height < from_height {
            return Err("No blocks to request".to_string());
        }
        let count: u32 = (to_height - from_height + 1) as u32;
        let retries: u32 = match self.retry_count.get(peer_id) {
            Some(n) => *n,
            None => 0,
        };
        self.retry_count.insert(*peer_id, retries);
        if retries >= crate::constants::SYNC_MAX_RETRIES {
            return Err("Peer has too many retries".to_string());
        }
        Ok(count)
    }

    /// The number of blocks to ask a peer for at the time that the clock shows, from a height on.
    pub fn request_blocks_from_peer(&mut self, peer_id: &PeerId, from_height: Height) -> (r: Result<
        u32,
        String,
    >)
        ensures
            exists|now: Timestamp|
                match r {
                    Ok(count) => #[trigger] request_fault(*old(self), *peer_id, from_height, now)
                        is None && count == batch_end(
                        from_height,
                        old(self).peers@[*peer_id].height,
                    ) - from_height + 1,
                    Err(words) => request_fault(*old(self), *peer_id, from_height, now) == Some(
                        words@,
                    ),
                },
            final(self).retry_count@ == if r is Ok || r->Err_0@ == "Peer has too many retries"@ {
                old(self).retry_count@.insert(*peer_id, retries_of(*old(self), *peer_id))
            } else {
                old(self).retry_count@
            },
            *final(self) == (SyncManager { retry_count: final(self).retry_count, ..*old(self) }),
    {
        let now: Timestamp = current_timestamp();
        self.request_blocks_from_peer_at(peer_id, from_height, now)
    }

    /// Takes note of a request that was sent at `now`.
    pub fn blocks_requested(&mut self, now: Timestamp)
        ensures
            final(self).last_request_time == now,
            final(self).last_sync_attempt == now,
            final(self).sync_in_progress == old(self).sync_in_progress,
            final(self).peers == old(self).peers,
            final(self).same_chain(*old(self)),
            match old(self).active_session {
                None => final(self).active_session is None,
                Some(s) => final(self).active_session == Some(
                    SyncSession { status: SyncStatus::Receiving, last_activity: now, ..s },
                ),
            },
    {
        match self.active_session.take() {
            Some(s) => {
                let mut session = s;
                session.status = SyncStatus::Receiving;
                session.last_activity = now;
                self.active_session = Some(session);
            },
            None => {},
        }
        self.last_request_time = now;
        self.last_sync_attempt = now;
    }

    /// Gives up the synchronisation that is under way.
    pub fn abandon(&mut self)
        ensures
            final(self).active_session is None,
            !final(self).sync_in_progress,
            final(self).peers == old(self).peers,
            final(self).last_sync_attempt == old(self).last_sync_attempt,
            final(self).last_request_time == old(self).last_request_time,
            final(self).same_chain(*old(self)),
    {
        self.active_session = None;
        self.sync_in_progress = false;
    }

    /// What comes next at `now` in the synchronisation that is under way, when the last request
    /// was sent at `last_request`: at most one request in two seconds.
    pub fn sync_step(&mut self, now: Timestamp, last_request: Timestamp) -> (r: SyncStep)
        ensures
            step_taken(*old(self), *final(self), now, last_request, r),
    {
        if now < last_request || now - last_request < 2 {
            return SyncStep::Wait;
        }
        let next: Option<(PeerId, Height, Height)> = match &self.active_session {
            Some(session) => match &session.status {
                SyncStatus::Requesting => Some(
                    (session.peer_id, session.current_height, session.target_height),
                ),
                _ => None,
            },
            None => None,
        };
        match next {
            None => SyncStep::Wait,
            Some((peer_id, current, target)) => {
                if current < target {
                    SyncStep::Request(peer_id, current + 1)
                } else {
                    match self.active_session.take() {
                        Some(s) => {
                            let mut session = s;
                            session.status = SyncStatus::Completed;
                            self.active_session = Some(session);
                        },
                        None => {},
                    }
                    self.sync_in_progress = false;
                    SyncStep::Done
                }
            },
        }
    }

    /// The peer to synchronise with, its height and its latency.
    pub fn select_best_peer(&self) -> (r: Option<(PeerId, Height, u64)>)
        ensures
            match r {
                Some((id, height, latency)) => is_selected(self.peers@, self.height(), id)
                    && height == self.peers@[id].height && latency == self.peers@[id].latency_ms,
                None => forall|id: PeerId| #[trigger]
                    self.peers@.contains_key(id) ==> self.peers@[id].banned,
            },
    {
        let height: Height = self.local_chain.len() as u64;
        let n: usize = self.peers.len();
        let ghost items = self.peers.items();
        let ghost peers = self.peers@;
        let mut fastest: Option<usize> = None;
        let mut highest: Option<usize> = None;
        let mut i: usize = 0;
        while i < n
            invariant
                i <= n,
                n == items.len(),
                items == self.peers.items(),
                height == self.height(),
                match fastest {
                    Some(b) => b < i && ahead(items[b as int].1, height) && forall|j: int|
                        #![trigger items[j]]
                        0 <= j < i && ahead(items[j].1, height) ==> items[b as int].1.latency_ms
                            <= items[j].1.latency_ms && (j < b ==> items[b as int].1.latency_ms
                            < items[j].1.latency_ms),
                    None => forall|j: int|
                        0 <= j < i ==> !ahead((#[trigger] items[j]).1, height),
                },
                match highest {
                    Some(b) => b < i && !items[b as int].1.banned && forall|j: int|
                        #![trigger items[j]]
                        0 <= j < i && !items[j].1.banned ==> items[j].1.height
                            <= items[b as int].1.height && (b < j ==> items[j].1.height
                            < items[b as int].1.height),
                    None => forall|j: int| 0 <= j < i ==> (#[trigger] items[j]).1.banned,
                },
            decreases n - i,
        {
            let p = *self.peers.value_at(i);
            assert(p == items[i as int].1);
            if !p.banned {
                if p.height > height {
                    match fastest {
                        None => {
                            fastest = Some(i);
                        },
                        Some(b) => {
                            if p.latency_ms < self.peers.value_at(b).latency_ms {
                                fastest = Some(i);
                            }
                        },
                    }
                }
                match highest {
                    None => {
                        highest = Some(i);
                    },
                    Some(b) => {
                        if p.height >= self.peers.value_at(b).height {
                            highest = Some(i);
                        }
                    },
                }
            }
            i += 1;
        }
        proof {
            assert forall|k: PeerId| #[trigger] peers.contains_key(k) implies exists|j: int|
                0 <= j < items.len() && (#[trigger] items[j]).0 == k && items[j].1 == peers[k] by {
                let j = choose|j: int| 0 <= j < items.len() && (#[trigger] items[j]).0 == k;
                assert(items[j].1 == peers[k]);
            }
            if fastest is None {
                assert forall|k: PeerId| #[trigger] peers.contains_key(k) implies !ahead(
                    peers[k],
                    height,
                ) by {
                    let j = choose|j: int|
                        0 <= j < items.len() && (#[trigger] items[j]).0 == k && items[j].1
                            == peers[k];
                    assert(!ahead(items[j].1, height));
                }
            }
        }
        match fastest {
            Some(b) => {
                let id = self.peers.key_at(b);
                let p = *self.peers.value_at(b);
                proof {
                    assert(peers.contains_key(id) && ahead(peers[id], height));
                    assert forall|k: PeerId| #[trigger] peers.contains_key(k) && ahead(
                        peers[k],
                        height,
                    ) implies peers[id].latency_ms <= peers[k].latency_ms && (k.before(id)
                        ==> peers[id].latency_ms < peers[k].latency_ms) by {
                        let j = choose|j: int|
                            0 <= j < items.len() && (#[trigger] items[j]).0 == k && items[j].1
                                == peers[k];
                        if k.before(id) {
                            lemma_order_index(items, j, b as int);
                        }
                    }
                }
                Some((id, p.height, p.latency_ms))
            },
            None => match highest {
                Some(b) => {
                    let id = self.peers.key_at(b);
                    let p = *self.peers.value_at(b);
                    proof {
                        assert forall|k: PeerId| #[trigger] peers.contains_key(k)
                            && !peers[k].banned implies peers[k].height <= peers[id].height && (
                        id.before(k) ==> peers[k].height < peers[id].height) by {
                            let j = choose|j: int|
                                0 <= j < items.len() && (#[trigger] items[j]).0 == k && items[j].1
                                    == peers[k];
                            if id.before(k) {
                                lemma_order_index(items, b as int, j);
                            }
                        }
                    }
                    Some((id, p.height, p.latency_ms))
                },
                None => {
                    proof {
                        assert forall|k: PeerId| #[trigger] peers.contains_key(
                            k,
                        ) implies peers[k].banned by {
                            let j = choose|j: int|
                                0 <= j < items.len() && (#[trigger] items[j]).0 == k && items[j].1
                                    == peers[k];
                            assert(items[j].1.banned);
                        }
                    }
                    None
                },
            },
        }
    }

    /// Starts a synchronisation with the selected peer at `now`, where it is ahead and none is
    /// under way.
    pub fn start_active_sync_at(&mut self, now: Timestamp) -> (r: Result<bool, String>)
        ensures
            r is Ok,
            r->Ok_0 == (!old(self).sync_in_progress && exists|id: PeerId| #[trigger]
                old(self).peers@.contains_key(id) && ahead(
                    old(self).peers@[id],
                    old(self).height(),
                )),
            !r->Ok_0 ==> *final(self) == *old(self),
            r->Ok_0 ==> {
                let s = final(self).active_session->0;
                &&& final(self).active_session is Some
                &&& is_fastest(old(self).peers@, old(self).height(), s.peer_id)
                &&& session_started(
                    s,
                    s.peer_id,
                    (old(self).height() + 1) as u64,
                    old(self).height(),
                    old(self).peers@[s.peer_id].height,
                    now,
                )
                &&& final(self).sync_in_progress
                &&& final(self).last_sync_attempt == now
                &&& final(self).last_request_time == old(self).last_request_time
                &&& final(self).peers == old(self).peers
                &&& final(self).same_chain(*old(self))
            },
    {
        if self.sync_in_progress {
            return Ok(false);
        }
        let current_height: Height = self.local_chain.len() as u64;
        match self.select_best_peer() {
            None => Ok(false),
            Some((peer_id, peer_height, _)) => {
                if peer_height <= current_height {
                    return Ok(false);
                }
                self.active_session = Some(
                    SyncSession {
                        peer_id,
                        from_height: current_height + 1,
                        target_height: peer_height,
                        current_height,
                        started_at: now,
                        last_activity: now,
                        blocks_received: 0,
                        status: SyncStatus::Requesting,
                    },
                );
                self.sync_in_progress = true;
                self.last_sync_attempt = now;
                Ok(true)
            },
        }
    }

    /// Starts a synchronisation with the selected peer at the time that the clock shows, where it
    /// is ahead and none is under way.
    pub fn start_active_sync(&mut self) -> (r: Result<bool, String>)
        ensures
            r is Ok,
            r->Ok_0 == (!old(self).sync_in_progress && exists|id: PeerId| #[trigger]
                old(self).peers@.contains_key(id) && ahead(
                    old(self).peers@[id],
                    old(self).height(),
                )),
            !r->Ok_0 ==> *final(self) == *old(self),
            r->Ok_0 ==> {
                let s = final(self).active_session->0;
                &&& final(self).active_session is Some
                &&& is_fastest(old(self).peers@, old(self).height(), s.peer_id)
                &&& session_started(
                    s,
                    s.peer_id,
                    (old(self).height() + 1) as u64,
                    old(self).height(),
                    old(self).peers@[s.peer_id].height,
                    final(self).last_sync_attempt,
                )
                &&& final(self).sync_in_progress
                &&& final(self).last_request_time == old(self).last_request_time
                &&& final(self).peers == old(self).peers
                &&& final(self).same_chain(*old(self))
            },
    {
        let now: Timestamp = current_timestamp();
        self.start_active_sync_at(now)
    }

    /// How far the synchronisation is, as what is done and what is to do: that of the session
    /// that is under way, else that of the chain towards the highest peer.
    pub fn sync_fraction(&self) -> (r: (u64, u64))
        ensures
            exists|top: Option<Height>| #[trigger]
                is_top_height(self.peers@, top) && r == fraction_done(
                    self.active_session,
                    self.height(),
                    top,
                ),
    {
        let best: Option<Height> = self.best_peer_height();
        assert(is_top_height(self.peers@, best));
        if let Some(session) = &self.active_session {
            if session.target_height > session.from_height {
                let total: u64 = session.target_height - session.from_height;
                let done: u64 = if session.current_height > session.from_height {
                    session.current_height - session.from_height
                } else {
                    0
                };
                return (done, total);
            }
        }
        match best {
            Some(h) => {
                let height: Height = self.local_chain.len() as u64;
                if h > height {
                    (height, h)
                } else {
                    (1, 1)
                }
            },
            None => (1, 1),
        }
    }
}

/// How far a synchronisation is: what is done and what is to do.
pub open spec fn fraction_done(
    session: Option<SyncSession>,
    height: Height,
    top: Option<Height>,
) -> (u64, u64) {
    if session matches Some(s) && s.target_height > s.from_height {
        let s = session->0;
        (
            if s.current_height > s.from_height {
                (s.current_height - s.from_height) as u64
            } else {
                0
            },
            (s.target_height - s.from_height) as u64,
        )
    } else if top matches Some(h) && h > height {
        (height, top->0)
    } else {
        (1, 1)
    }
}

/// A peer after one more failure: the third bans it.
pub open spec fn failed_once_more(p: SyncPeer) -> SyncPeer {
    let retries = capped_u32(p.retries + 1);
    SyncPeer { retries, banned: p.banned || retries >= 3, ..p }
}

/// The synchronisation after it was looked at at `now`. One that was silent for too long has
/// failed, and its peer is handed back with one more failure against it; any other one, and none,
/// stays as it is.
pub open spec fn timeout_checked(
    before: SyncManager,
    after: SyncManager,
    now: Timestamp,
    r: Option<PeerId>,
) -> bool {
    let s = before.active_session->0;
    let t = after.active_session->0;
    if before.active_session is None || elapsed(now, s.last_activity)
        <= crate::constants::SYNC_TIMEOUT_SECS {
        r is None && after == before
    } else {
        &&& r == Some(s.peer_id)
        &&& after.active_session is Some
        &&& t == (SyncSession { status: t.status, ..s })
        &&& (t.status matches SyncStatus::Failed(words) && words@ == "Timeout"@)
        &&& after.peers@ == if before.peers@.contains_key(s.peer_id) {
            before.peers@.insert(s.peer_id, failed_once_more(before.peers@[s.peer_id]))
        } else {
            before.peers@
        }
        &&& after == (SyncManager {
            active_session: after.active_session,
            peers: after.peers,
            sync_in_progress: false,
            ..before
        })
    }
}

/// The step of a synchronisation at `now`.
pub open spec fn step_taken(
    before: SyncManager,
    after: SyncManager,
    now: Timestamp,
    last_request: Timestamp,
    r: SyncStep,
) -> bool {
    if now - last_request >= 2 && before.active_session is Some
        && before.active_session->0.status is Requesting {
        let s = before.active_session->0;
        if s.current_height < s.target_height {
            after == before && r == SyncStep::Request(s.peer_id, (s.current_height + 1) as u64)
        } else {
            r is Done && after == (SyncManager {
                active_session: Some(SyncSession { status: SyncStatus::Completed, ..s }),
                sync_in_progress: false,
                ..before
            })
        }
    } else {
        after == before && r is Wait
    }
}

/// Of two entries of a sorted sequence, the one with the earlier key stands first.
proof fn lemma_order_index<V>(items: Seq<(PeerId, V)>, i: int, j: int)
    requires
        crate::collections::sorted_by_key(items),
        0 <= i < items.len(),
        0 <= j < items.len(),
        items[i].0.before(items[j].0),
    ensures
        i < j,
{
    if j < i {
        assert(items[j].0.before(items[i].0));
        PeerId::order_transitive(items[i].0, items[j].0, items[i].0);
        PeerId::order_irreflexive(items[i].0);
    } else if i == j {
        PeerId::order_irreflexive(items[i].0);
    }
}

/// The peers of a node.
pub struct P2PNode {
    pub peers: OrdMap<NetAddr, PeerConnection>,
    pub port: u16,
    pub ddos_protection: DDoSProtection,
    pub known_peers: OrdSet<NetAddr>,
    pub banned_peers: OrdSet<PeerId>,
    pub sync_manager: SyncManager,
    pub local_height: Height,
    pub local_best_hash: Hash32,
    pub bootnodes: Vec<String>,
}

/// What is to be done about a message.
pub enum PeerAction {
    /// Nothing.
    Nothing,
    /// Answer the sender.
    Reply(P2PMessage),
    /// Answer the sender with the stored blocks from a height up to, but not with, another, as far
    /// as there are any.
    ServeBlocks(Height, Height),
    /// Verify and store blocks that were asked for.
    AcceptBlocks(Vec<Block>),
    /// Take in a share, and relay it where it is accepted.
    TakeShare(Share),
    /// Take in a block, and relay it where it is accepted.
    TakeBlock(Block),
    /// Take in a transaction, and relay it where it is accepted.
    TakeTransaction(Transaction),
    /// Consider each address as a peer.
    ConsiderPeers(Vec<NetAddr>),
}

/// Whether two states differ in their peers only.
pub open spec fn only_peers_changed(before: P2PNode, after: P2PNode) -> bool {
    after == (P2PNode { peers: after.peers, ..before })
}

/// What becomes of a message of a connected peer, and what is to be done about it.
pub open spec fn handled(
    before: P2PNode,
    after: P2PNode,
    msg: P2PMessage,
    addr: NetAddr,
    now: Timestamp,
    r: PeerAction,
) -> bool {
    let peer = before.peers@[addr];
    match msg {
        P2PMessage::Version { timestamp, height, best_hash, peer_id, .. } => {
            &&& r == PeerAction::Reply(P2PMessage::Verack)
            &&& after.peers@ == before.peers@.insert(
                addr,
                PeerConnection {
                    height: Some(height),
                    best_hash: Some(best_hash),
                    last_message_time: now,
                    ..peer
                },
            )
            &&& after.sync_manager.peers@ == before.sync_manager.peers@.insert(
                peer_id,
                peer_told(
                    before.sync_manager.peers@,
                    peer_id,
                    addr,
                    height,
                    best_hash,
                    elapsed(now, timestamp) as u64,
                    now,
                ),
            )
            &&& after == (P2PNode {
                peers: after.peers,
                sync_manager: SyncManager {
                    peers: after.sync_manager.peers,
                    ..before.sync_manager
                },
                ..before
            })
        },
        P2PMessage::Ping(nonce) => after == before && r == PeerAction::Reply(
            P2PMessage::Pong(nonce),
        ),
        P2PMessage::Heartbeat(nonce) => after == before && r == PeerAction::Reply(
            P2PMessage::Pong(nonce),
        ),
        P2PMessage::GetBlocks { from_height, max_count } => after == before && r
            == PeerAction::ServeBlocks(from_height, capped_height(from_height, max_count as nat)),
        P2PMessage::Blocks(blocks) => after == before && r == PeerAction::AcceptBlocks(blocks),
        P2PMessage::Share(share) => after == before && r == PeerAction::TakeShare(share),
        P2PMessage::Block { header, transactions, signature, pubkey } => after == before && r
            == PeerAction::TakeBlock(Block { header, transactions, signature, pubkey }),
        P2PMessage::Transaction(tx) => after == before && r == PeerAction::TakeTransaction(tx),
        P2PMessage::GetPeers => {
            &&& after == before
            &&& r matches PeerAction::Reply(P2PMessage::Peers(list))
            &&& list@ == before.peers.items().map_values(|e: (NetAddr, PeerConnection)| e.0)
        },
        P2PMessage::Peers(list) => after == before && r == PeerAction::ConsiderPeers(list),
        P2PMessage::BanPeer { peer_id, reason } => {
            &&& r is Nothing
            &&& if peer_id == peer.peer_id {
                &&& after.peers@.contains_key(addr)
                &&& ban_recorded(peer, after.peers@[addr], reason@)
                &&& after.peers@ == before.peers@.insert(addr, after.peers@[addr])
                &&& only_peers_changed(before, after)
            } else {
                after == before
            }
        },
        _ => after == before && r is Nothing,
    }
}

impl P2PNode {
    /// A node without peers.
    pub fn new(port: u16, bootnodes: Vec<String>, now: Timestamp) -> (r: Self)
        ensures
            r.peers@ == Map::<NetAddr, PeerConnection>::empty(),
            r.port == port,
            r.known_peers@ == Set::<NetAddr>::empty(),
            r.banned_peers@ == Set::<PeerId>::empty(),
            sync_idle(r.sync_manager),
            crate::network::unlimited(r.ddos_protection, now),
            r.local_height == 0,
            r.local_best_hash@ == Seq::new(32, |i: int| 0u8),
            r.bootnodes == bootnodes,
    {
        let zero: Hash32 = [0u8; 32];
        assert(zero@ =~= Seq::new(32, |i: int| 0u8));
        P2PNode {
            peers: OrdMap::new(),
            port,
            ddos_protection: DDoSProtection::new_at(now),
            known_peers: OrdSet::new(),
            banned_peers: OrdSet::new(),
            sync_manager: SyncManager::new(),
            local_height: 0,
            local_best_hash: zero,
            bootnodes,
        }
    }

    /// Takes note of the chain of the node, and forgets what was synchronised.
    pub fn set_local_state(&mut self, height: Height, best_hash: Hash32)
        ensures
            final(self).local_height == height,
            final(self).local_best_hash == best_hash,
            final(self).sync_manager.local_chain@ == Seq::<BlockHeader>::empty(),
            final(self).sync_manager.local_hashes@ == Map::<Hash32, Height>::empty(),
            *final(self) == (P2PNode {
                local_height: height,
                local_best_hash: best_hash,
                sync_manager: SyncManager {
                    local_chain: final(self).sync_manager.local_chain,
                    local_hashes: final(self).sync_manager.local_hashes,
                    ..old(self).sync_manager
                },
                ..*old(self)
            }),
    {
        self.local_height = height;
        self.local_best_hash = best_hash;
        self.sync_manager.set_chain(Vec::new(), OrdMap::new());
    }

    /// The message that tells a peer of the node's chain.
    pub fn version_message(&self, peer_id: PeerId, now: Timestamp) -> (r: P2PMessage)
        ensures
            r == (P2PMessage::Version {
                version: 1,
                timestamp: now,
                height: self.local_height,
                best_hash: self.local_best_hash,
                peer_id,
            }),
    {
        P2PMessage::Version {
            version: 1,
            timestamp: now,
            height: self.local_height,
            best_hash: self.local_best_hash,
            peer_id,
        }
    }

    /// Whether a peer that connects from an address at `now` is let in.
    pub fn lets_in(&mut self, addr: NetAddr, now: Timestamp) -> (r: bool)
        ensures
            r == (crate::network::connection_allowed(old(self).ddos_protection, addr, now) && old(self).peers@.dom().len() < MAX_PEERS),
            crate::network::connection_counted(
                old(self).ddos_protection,
                final(self).ddos_protection,
                addr,
                now,
            ),
            *final(self) == (P2PNode {
                ddos_protection: final(self).ddos_protection,
                ..*old(self)
            }),
    {
        if !self.ddos_protection.check_connection_limit_at(addr, now) {
            return false;
        }
        self.peers.len() < MAX_PEERS
    }

    /// Whether the node should connect to an address at `now`.
    pub fn may_connect(&mut self, addr: NetAddr, now: Timestamp) -> (r: bool)
        ensures
            r == (!old(self).peers@.contains_key(addr) && crate::network::connection_allowed(
                old(self).ddos_protection,
                addr,
                now,
            )),
            old(self).peers@.contains_key(addr) ==> *final(self) == *old(self),
            !old(self).peers@.contains_key(addr) ==> crate::network::connection_counted(
                old(self).ddos_protection,
                final(self).ddos_protection,
                addr,
                now,
            ),
            *final(self) == (P2PNode {
                ddos_protection: final(self).ddos_protection,
                ..*old(self)
            }),
    {
        if self.peers.contains_key(&addr) {
            return false;
        }
        self.ddos_protection.check_connection_limit_at(addr, now)
    }

    /// Whether peers with this identifier are kept out.
    pub fn is_kept_out(&self, peer_id: &PeerId) -> (r: bool)
        ensures
            r == self.banned_peers@.contains(*peer_id),
    {
        self.banned_peers.contains(peer_id)
    }

    /// Takes in a peer that connected.
    pub fn register_peer(&mut self, peer: PeerConnection)
        ensures
            final(self).peers@ == old(self).peers@.insert(peer.address, peer),
            final(self).known_peers@ == old(self).known_peers@.insert(peer.address),
            *final(self) == (P2PNode {
                peers: final(self).peers,
                known_peers: final(self).known_peers,
                ..*old(self)
            }),
    {
        let addr = peer.address;
        self.peers.insert(addr, peer);
        self.known_peers.insert(addr);
    }

    /// Forgets a peer that disconnected; says whether there was one.
    pub fn drop_peer(&mut self, addr: &NetAddr) -> (r: bool)
        ensures
            r == old(self).peers@.contains_key(*addr),
            !r ==> *final(self) == *old(self),
            r ==> {
                &&& final(self).peers@ == old(self).peers@.remove(*addr)
                &&& final(self).sync_manager.peers@ == old(self).sync_manager.peers@.remove(
                    old(self).peers@[*addr].peer_id,
                )
                &&& *final(self) == (P2PNode {
                    peers: final(self).peers,
                    sync_manager: SyncManager {
                        peers: final(self).sync_manager.peers,
                        ..old(self).sync_manager
                    },
                    ..*old(self)
                })
            },
    {
        if !self.peers.contains_key(addr) {
            return false;
        }
        match self.peers.remove(addr) {
            Some(peer) => {
                self.sync_manager.remove_peer(&peer.peer_id);
                true
            },
            None => false,
        }
    }

    /// The addresses of the connected peers, in increasing order.
    pub fn addresses(&self) -> (r: Vec<NetAddr>)
        ensures
            r@ == self.peers.items().map_values(|e: (NetAddr, PeerConnection)| e.0),
            forall|a: NetAddr| #[trigger] r@.contains(a) <==> self.peers@.contains_key(a),
    {
        let mut r: Vec<NetAddr> = Vec::new();
        let n: usize = self.peers.len();
        let ghost items = self.peers.items();
        let mut i: usize = 0;
        while i < n
            invariant
                i <= n,
                n == items.len(),
                items == self.peers.items(),
                r@.len() == i,
                forall|j: int| 0 <= j < i ==> r@[j] == (#[trigger] items[j]).0,
            decreases n - i,
        {
            r.push(self.peers.key_at(i));
            i += 1;
        }
        proof {
            assert(r@ =~= items.map_values(|e: (NetAddr, PeerConnection)| e.0));
            assert forall|a: NetAddr| #[trigger] r@.contains(a) <==> self.peers@.contains_key(
                a,
            ) by {
                if r@.contains(a) {
                    let j = choose|j: int| 0 <= j < r@.len() && r@[j] == a;
                    assert(items[j].0 == a);
                }
                if self.peers@.contains_key(a) {
                    let j = choose|j: int| 0 <= j < items.len() && (#[trigger] items[j]).0 == a;
                    assert(r@[j] == a);
                }
            }
        }
        r
    }

    /// The addresses that a message is relayed to: those of the other peers that are not banned.
    pub fn relay_targets(&self, from: &NetAddr) -> (r: Vec<NetAddr>)
        ensures
            forall|a: NetAddr| #[trigger]
                r@.contains(a) <==> self.peers@.contains_key(a) && a != *from
                    && !self.peers@[a].banned,
    {
        let mut r: Vec<NetAddr> = Vec::new();
        let n: usize = self.peers.len();
        let ghost items = self.peers.items();
        let mut i: usize = 0;
        while i < n
            invariant
                i <= n,
                n == items.len(),
                items == self.peers.items(),
                forall|j: int|
                    0 <= j < items.len() ==> self.peers@.contains_key((#[trigger] items[j]).0)
                        && self.peers@[items[j].0] == items[j].1,
                forall|a: NetAddr| #[trigger]
                    r@.contains(a) <==> exists|j: int|
                        0 <= j < i && (#[trigger] items[j]).0 == a && a != *from
                            && !items[j].1.banned,
            decreases n - i,
        {
            let addr = self.peers.key_at(i);
            assert(items[i as int].0 == addr);
            let ghost before = r@;
            if !arrays_equal(&addr, from) && !self.peers.value_at(i).banned {
                r.push(addr);
                assert forall|a: NetAddr| #[trigger] r@.contains(a) <==> before.contains(a) || a
                    == addr by {
                    if r@.contains(a) {
                        let k = choose|k: int| 0 <= k < r@.len() && r@[k] == a;
                        if k < before.len() {
                            assert(before[k] == a);
                        }
                    }
                    if before.contains(a) {
                        let k = choose|k: int| 0 <= k < before.len() && before[k] == a;
                        assert(r@[k] == a);
                    }
                    assert(r@[before.len() as int] == addr);
                }
            }
            i += 1;
        }
        proof {
            assert forall|a: NetAddr| #[trigger] r@.contains(a) <==> self.peers@.contains_key(a)
                && a != *from && !self.peers@[a].banned by {
                if self.peers@.contains_key(a) {
                    let j = choose|j: int| 0 <= j < items.len() && (#[trigger] items[j]).0 == a;
                    assert(items[j].1 == self.peers@[a]);
                }
            }
        }
        r
    }

    /// Forgets the peers that are silent at `now`.
    pub fn drop_silent_peers(&mut self, now: Timestamp)
        ensures
            *final(self) == (P2PNode { peers: final(self).peers, ..*old(self) }),
            forall|a: NetAddr| #[trigger]
                final(self).peers@.contains_key(a) <==> old(self).peers@.contains_key(a) && elapsed(
                    now,
                    old(self).peers@[a].last_message_time,
                ) <= PEER_TIMEOUT_SECS,
            forall|a: NetAddr| #[trigger]
                final(self).peers@.contains_key(a) ==> final(self).peers@[a] == old(self).peers@[a],
    {
        let n: usize = self.peers.len();
        let ghost items = self.peers.items();
        let ghost before = self.peers@;
        let mut marks: Vec<bool> = Vec::new();
        let mut i: usize = 0;
        while i < n
            invariant
                i <= n,
                n == items.len(),
                items == self.peers.items(),
                marks@.len() == i,
                forall|j: int|
                    0 <= j < i ==> marks@[j] == (elapsed(
                        now,
                        (#[trigger] items[j]).1.last_message_time,
                    ) <= PEER_TIMEOUT_SECS),
            decreases n - i,
        {
            let peer = self.peers.value_at(i);
            assert(items[i as int].1 == *peer);
            marks.push(!peer.is_stale(now));
            i += 1;
        }
        self.peers.retain_marked(&marks);
        proof {
            assert forall|a: NetAddr| #[trigger] self.peers@.contains_key(a)
                <==> before.contains_key(a) && elapsed(now, before[a].last_message_time)
                <= PEER_TIMEOUT_SECS by {
                if self.peers@.contains_key(a) {
                    let j = choose|j: int|
                        0 <= j < marks@.len() && marks@[j] && (#[trigger] items[j]).0 == a;
                    assert(before.contains_key(items[j].0));
                }
                if before.contains_key(a) && elapsed(now, before[a].last_message_time)
                    <= PEER_TIMEOUT_SECS {
                    let j = choose|j: int| 0 <= j < items.len() && (#[trigger] items[j]).0 == a;
                    assert(marks@[j]);
                }
            }
        }
    }

    /// Whether an address that a peer told of is new, and the node should connect to it.
    pub fn consider_peer(&mut self, addr: NetAddr) -> (r: bool)
        ensures
            r == (!old(self).known_peers@.contains(addr) && !old(self).peers@.contains_key(addr)
                && old(self).peers@.dom().len() < MAX_PEERS),
            final(self).known_peers@ == if old(self).peers@.contains_key(addr) {
                old(self).known_peers@
            } else {
                old(self).known_peers@.insert(addr)
            },
            *final(self) == (P2PNode { known_peers: final(self).known_peers, ..*old(self) }),
    {
        if self.known_peers.contains(&addr) || self.peers.contains_key(&addr) {
            assert(self.known_peers@.contains(addr) ==> self.known_peers@.insert(addr)
                =~= self.known_peers@);
            return false;
        }
        self.known_peers.insert(addr);
        self.peers.len() < MAX_PEERS
    }

    /// Whether a peer is to be disconnected at `now`: it is banned or silent.
    pub fn should_disconnect(&self, addr: &NetAddr, now: Timestamp) -> (r: bool)
        ensures
            r == (self.peers@.contains_key(*addr) && (self.peers@[*addr].banned || elapsed(
                now,
                self.peers@[*addr].last_message_time,
            ) > PEER_TIMEOUT_SECS)),
    {
        match self.peers.get(addr) {
            Some(peer) => peer.is_banned() || peer.is_stale(now),
            None => false,
        }
    }

    /// Counts a message of an address at `now`; a peer that sends too many is banned.
    pub fn meter_message(&mut self, addr: &NetAddr, now: Timestamp) -> (r: bool)
        ensures
            r == crate::network::request_allowed(old(self).ddos_protection, *addr, now),
            crate::network::request_counted(
                old(self).ddos_protection,
                final(self).ddos_protection,
                *addr,
                now,
            ),
            *final(self) == (P2PNode {
                ddos_protection: final(self).ddos_protection,
                peers: final(self).peers,
                ..*old(self)
            }),
            r || !old(self).peers@.contains_key(*addr) ==> final(self).peers@ == old(self).peers@,
            !r && old(self).peers@.contains_key(*addr) ==> {
                &&& final(self).peers@.contains_key(*addr)
                &&& ban_recorded(
                    old(self).peers@[*addr],
                    final(self).peers@[*addr],
                    "Rate limit exceeded"@,
                )
                &&& final(self).peers@ == old(self).peers@.insert(
                    *addr,
                    final(self).peers@[*addr],
                )
            },
    {
        let ghost before = self.peers@;
        if self.ddos_protection.check_rate_limit_at(*addr, now) {
            return true;
        }
        match self.peers.remove(addr) {
            Some(p) => {
                let mut peer = p;
                peer.ban("Rate limit exceeded");
                self.peers.insert(*addr, peer);
                assert(before.remove(*addr).insert(*addr, peer) =~= before.insert(*addr, peer));
            },
            None => {
                assert(before.remove(*addr) =~= before);
            },
        }
        false
    }

    /// What becomes of a message that came from an address at `now`, and what is to be done about
    /// it. A message of nobody is ignored.
    pub fn handle_message(&mut self, msg: P2PMessage, addr: NetAddr, now: Timestamp) -> (r:
        PeerAction)
        ensures
            !old(self).peers@.contains_key(addr) ==> r is Nothing && *final(self) == *old(self),
            old(self).peers@.contains_key(addr) ==> handled(
                *old(self),
                *final(self),
                msg,
                addr,
                now,
                r,
            ),
    {
        if !self.peers.contains_key(&addr) {
            return PeerAction::Nothing;
        }
        let ghost before = self.peers@;
        match msg {
            P2PMessage::Version { timestamp, height, best_hash, peer_id, .. } => {
                let latency: u64 = if now > timestamp {
                    now - timestamp
                } else {
                    0
                };
                self.sync_manager.update_peer_at(peer_id, addr, height, best_hash, latency, now);
                match self.peers.remove(&addr) {
                    Some(p) => {
                        let mut peer = p;
                        peer.update_state(height, best_hash, now);
                        self.peers.insert(addr, peer);
                        assert(before.remove(addr).insert(addr, peer) =~= before.insert(
                            addr,
                            peer,
                        ));
                    },
                    None => {},
                }
                PeerAction::Reply(P2PMessage::Verack)
            },
            P2PMessage::Ping(nonce) => PeerAction::Reply(P2PMessage::Pong(nonce)),
            P2PMessage::Heartbeat(nonce) => PeerAction::Reply(P2PMessage::Pong(nonce)),
            P2PMessage::GetBlocks { from_height, max_count } => PeerAction::ServeBlocks(
                from_height,
                from_height.saturating_add(max_count as u64),
            ),
            P2PMessage::Blocks(blocks) => PeerAction::AcceptBlocks(blocks),
            P2PMessage::Share(share) => PeerAction::TakeShare(share),
            P2PMessage::Block { header, transactions, signature, pubkey } => PeerAction::TakeBlock(
                Block { header, transactions, signature, pubkey },
            ),
            P2PMessage::Transaction(tx) => PeerAction::TakeTransaction(tx),
            P2PMessage::GetPeers => PeerAction::Reply(P2PMessage::Peers(self.addresses())),
            P2PMessage::Peers(list) => PeerAction::ConsiderPeers(list),
            P2PMessage::BanPeer { peer_id, reason } => {
                let same: bool = match self.peers.get(&addr) {
                    Some(p) => arrays_equal(&p.peer_id, &peer_id),
                    None => false,
                };
                if same {
                    match self.peers.remove(&addr) {
                        Some(p) => {
                            let mut peer = p;
                            peer.ban(reason.as_str());
                            self.peers.insert(addr, peer);
                            assert(before.remove(addr).insert(addr, peer) =~= before.insert(
                                addr,
                                peer,
                            ));
                        },
                        None => {},
                    }
                }
                PeerAction::Nothing
            },
            _ => PeerAction::Nothing,
        }
    }

    /// The number of connected peers.
    pub fn peer_count(&self) -> (r: usize)
        ensures
            r == self.peers@.dom().len(),
    {
        self.peers.len()
    }

    /// The largest height of the peers to synchronise with that are not banned.
    pub fn best_peer_height(&self) -> (r: Option<Height>)
        ensures
            is_top_height(self.sync_manager.peers@, r),
    {
        self.sync_manager.best_peer_height()
    }

    /// Whether a synchronisation is under way.
    pub fn is_syncing(&self) -> (r: bool)
        ensures
            r == self.sync_manager.sync_in_progress,
    {
        self.sync_manager.is_syncing()
    }

    /// Whether a synchronisation should start at `now`.
    pub fn needs_sync(&self, now: Timestamp) -> (r: bool)
        ensures
            r == ((exists|id: PeerId| #[trigger]
                self.sync_manager.peers@.contains_key(id) && ahead(
                    self.sync_manager.peers@[id],
                    self.sync_manager.height(),
                )) && (self.sync_manager.active_session is None || elapsed(
                now,
                self.sync_manager.last_sync_attempt,
            ) > crate::constants::SYNC_TIMEOUT_SECS)),
    {
        self.sync_manager.needs_sync_at(now)
    }
}

/// Whether input `a` of transaction `i`, which creates no coins, is one of a block.
pub open spec fn spends_at(txs: Seq<TransactionV>, i: int, a: int) -> bool {
    0 <= i < txs.len() && !coinbase_transaction(txs[i]) && 0 <= a < txs[i].inputs.len()
}

/// The output that input `a` of transaction `i` spends.
pub open spec fn spent_at(txs: Seq<TransactionV>, i: int, a: int) -> OutPoint {
    (txs[i].inputs[a].prev_txid, txs[i].inputs[a].prev_index)
}

/// Whether no output is spent by two inputs of a block.
pub open spec fn all_spent_once(txs: Seq<TransactionV>) -> bool {
    forall|i: int, a: int, j: int, b: int|
        #![trigger spends_at(txs, i, a), spends_at(txs, j, b)]
        spends_at(txs, i, a) && spends_at(txs, j, b) && spent_at(txs, i, a) == spent_at(txs, j, b)
            ==> i == j && a == b
}

proof fn lemma_spent_members(txs: Seq<TransactionV>)
    ensures
        forall|i: int, a: int| #[trigger]
            spends_at(txs, i, a) ==> spent_in(txs).contains(spent_at(txs, i, a)),
        forall|p: OutPoint| #[trigger]
            spent_in(txs).contains(p) ==> exists|i: int, a: int| #[trigger]
                spends_at(txs, i, a) && spent_at(txs, i, a) == p,
    decreases txs.len(),
{
    if txs.len() > 0 {
        let rest = txs.drop_last();
        let last = txs.last();
        let n = txs.len() - 1;
        lemma_spent_members(rest);
        let old = spent_in(rest);
        let new = last.inputs.map_values(|i: TxInV| outpoint_of(i));
        let all = spent_in(txs);
        assert forall|i: int, a: int| #[trigger] spends_at(txs, i, a) implies all.contains(
            spent_at(txs, i, a),
        ) by {
            if i < n {
                assert(spends_at(rest, i, a));
                let x = choose|x: int| 0 <= x < old.len() && old[x] == spent_at(rest, i, a);
                assert(all[x] == spent_at(txs, i, a));
            } else {
                assert(new[a] == spent_at(txs, i, a));
                assert(all[old.len() + a] == spent_at(txs, i, a));
            }
        }
        assert forall|p: OutPoint| #[trigger] all.contains(p) implies exists|i: int, a: int|
            #[trigger] spends_at(txs, i, a) && spent_at(txs, i, a) == p by {
            let x = choose|x: int| 0 <= x < all.len() && all[x] == p;
            if x < old.len() {
                assert(old[x] == p);
                assert(old.contains(p));
                let (i, a) = choose|i: int, a: int| #[trigger]
                    spends_at(rest, i, a) && spent_at(rest, i, a) == p;
                assert(spends_at(txs, i, a) && spent_at(txs, i, a) == p);
            } else {
                let a = x - old.len();
                assert(new[a] == p);
                assert(spends_at(txs, n, a) && spent_at(txs, n, a) == p);
            }
        }
    }
}

/// A block is free of double spends exactly when no output is spent by two inputs of its
/// transactions that create no coins, in one of them or in two.
pub proof fn law_no_output_is_spent_twice(txs: Seq<TransactionV>)
    ensures
        spent_in(txs).no_duplicates() <==> all_spent_once(txs),
    decreases txs.len(),
{
    if txs.len() > 0 {
        let rest = txs.drop_last();
        let last = txs.last();
        let n = txs.len() - 1;
        law_no_output_is_spent_twice(rest);
        lemma_spent_members(rest);
        let old = spent_in(rest);
        let new = last.inputs.map_values(|i: TxInV| outpoint_of(i));
        let all = spent_in(txs);
        if all_spent_once(txs) {
            assert(all_spent_once(rest)) by {
                assert forall|i: int, a: int, j: int, b: int|
                    #![trigger spends_at(rest, i, a), spends_at(rest, j, b)]
                    spends_at(rest, i, a) && spends_at(rest, j, b) && spent_at(rest, i, a)
                        == spent_at(rest, j, b) implies i == j && a == b by {
                    assert(spends_at(txs, i, a) && spends_at(txs, j, b));
                }
            }
            assert forall|x: int, y: int| 0 <= x < all.len() && 0 <= y < all.len() && x
                != y implies all[x] != all[y] by {
                if all[x] == all[y] {
                    if x >= old.len() && y >= old.len() {
                        let a = x - old.len();
                        let b = y - old.len();
                        assert(all[x] == new[a] && all[y] == new[b]);
                        assert(spends_at(txs, n, a) && spends_at(txs, n, b));
                        assert(spent_at(txs, n, a) == spent_at(txs, n, b));
                    } else if x < old.len() && y < old.len() {
                        assert(all[x] == old[x] && all[y] == old[y]);
                    } else {
                        let lo = if x < y {
                            x
                        } else {
                            y
                        };
                        let b = if x < y {
                            y - old.len()
                        } else {
                            x - old.len()
                        };
                        assert(all[lo] == old[lo]);
                        assert(old.contains(old[lo]));
                        let (i, a) = choose|i: int, a: int| #[trigger]
                            spends_at(rest, i, a) && spent_at(rest, i, a) == old[lo];
                        assert(spends_at(txs, i, a) && spends_at(txs, n, b));
                        assert(new[b] == spent_at(txs, n, b));
                        assert(spent_at(txs, i, a) == spent_at(txs, n, b));
                    }
                }
            }
        }
        if all.no_duplicates() {
            assert(old.no_duplicates()) by {
                assert forall|x: int, y: int| 0 <= x < old.len() && 0 <= y < old.len() && x
                    != y implies old[x] != old[y] by {
                    assert(all[x] == old[x] && all[y] == old[y]);
                }
            }
            assert forall|i: int, a: int, j: int, b: int|
                #![trigger spends_at(txs, i, a), spends_at(txs, j, b)]
                spends_at(txs, i, a) && spends_at(txs, j, b) && spent_at(txs, i, a) == spent_at(
                    txs,
                    j,
                    b,
                ) implies i == j && a == b by {
                if i < n && j < n {
                    assert(spends_at(rest, i, a) && spends_at(rest, j, b));
                } else if i == n && j == n {
                    assert(all[old.len() + a] == new[a] && all[old.len() + b] == new[b]);
                } else {
                    let (f, g, h) = if i < n {
                        (i, a, b)
                    } else {
                        (j, b, a)
                    };
                    assert(spends_at(rest, f, g));
                    assert(old.contains(spent_at(rest, f, g)));
                    let x = choose|x: int| 0 <= x < old.len() && old[x] == spent_at(rest, f, g);
                    assert(all[x] == old[x]);
                    assert(all[old.len() + h] == new[h]);
                    assert(new[h] == spent_at(txs, n, h));
                }
            }
        }
    }
}

/// What a peer may send. A thousand messages in an hour are counted and the next one is dropped and
/// bans the peer; more than an hour after the last reset they count from zero. Of the others those
/// are dropped that name another version than the first or ask for more than 500 blocks, and a peer
/// is banned for these, or because it announces its own ban, and for nothing else.
pub proof fn law_what_a_peer_may_send(
    before: PeerConnection,
    after: PeerConnection,
    msg: P2PMessage,
    now: Timestamp,
    r: Receipt,
)
    requires
        received(before, after, msg, now, r),
    ensures
        ({
            let count = if now > before.last_hour_reset + 3_600 {
                0
            } else {
                before.messages_this_hour as int
            };
            let misfit = (msg matches P2PMessage::Version { version, .. } && version != 1) || (
            msg matches P2PMessage::GetBlocks { max_count, .. } && max_count > 500);
            let own_ban = msg matches P2PMessage::BanPeer { peer_id, .. } && peer_id
                == before.peer_id;
            &&& r is Dropped <==> count >= 1_000 || misfit
            &&& after.banned <==> before.banned || count >= 1_000 || misfit || own_ban
            &&& count < 1_000 ==> after.messages_this_hour == count + 1
            &&& count < 1_000 ==> after.last_message_time == now
            &&& now > before.last_hour_reset + 3_600 ==> after.last_hour_reset == now
            &&& now <= before.last_hour_reset + 3_600 ==> after.last_hour_reset
                == before.last_hour_reset
            &&& after.peer_id == before.peer_id && after.address == before.address
            &&& (r matches Receipt::Ponged(n) ==> msg == P2PMessage::Heartbeat(n))
            &&& (msg matches P2PMessage::Heartbeat(n) ==> count < 1_000 ==> r == Receipt::Ponged(n))
            &&& (msg matches P2PMessage::Version { height, best_hash, version, .. } ==> count
                < 1_000 ==> after.height == Some(height) && after.best_hash == Some(best_hash)
                && after.version == Some(version))
            &&& !(msg is Version) ==> after.height == before.height && after.best_hash
                == before.best_hash && after.version == before.version
        }),
{
}

/// A request asks for the blocks from its first height on, for 500 of them where the peer has that
/// many, and else for all that it has.
pub proof fn law_a_request_asks_for_500_blocks(from: Height, most: Height)
    ensures
        from <= most ==> from <= batch_end(from, most) <= most,
        from <= most ==> batch_end(from, most) - from + 1 <= 500,
        from <= most && batch_end(from, most) < most ==> batch_end(from, most) - from + 1 == 500,
        from > most ==> batch_end(from, most) < from,
{
}

/// A peer can be asked for blocks exactly when it is known, not banned, has a block at the height,
/// was not asked three times in vain, and, while a synchronisation runs, the last request is five
/// seconds ago.
pub proof fn law_when_a_peer_is_asked(
    m: SyncManager,
    peer_id: PeerId,
    from: Height,
    now: Timestamp,
)
    ensures
        request_fault(m, peer_id, from, now) is None <==> m.peers@.contains_key(peer_id)
            && !m.peers@[peer_id].banned && m.peers@[peer_id].height >= from && (
        m.retry_count@.contains_key(peer_id) ==> m.retry_count@[peer_id] < 3) && (
        m.sync_in_progress ==> now >= m.last_request_time + 5),
{
}

/// The third failure in a row bans a peer and no failure lifts a ban; nothing else about it
/// changes.
pub proof fn law_three_failures_ban(p: SyncPeer)
    ensures
        ({
            let once = failed_once_more(p);
            let twice = failed_once_more(once);
            let thrice = failed_once_more(twice);
            &&& p.banned ==> once.banned
            &&& thrice.banned
            &&& p.retries == 0 && !p.banned ==> !once.banned && !twice.banned
            &&& once == (SyncPeer { retries: once.retries, banned: once.banned, ..p })
            &&& p.retries < u32::MAX ==> once.retries == p.retries + 1
        }),
{
}

/// A session whose peer was silent for more than a minute fails, and no other one. It costs that
/// peer a failure and leaves all others alone.
pub proof fn law_silence_of_a_minute_fails(
    before: SyncManager,
    after: SyncManager,
    now: Timestamp,
    r: Option<PeerId>,
)
    requires
        timeout_checked(before, after, now, r),
    ensures
        r is Some <==> before.active_session is Some && now
            > before.active_session->0.last_activity + 60,
        r is None ==> after == before,
        r matches Some(id) ==> id == before.active_session->0.peer_id && !after.sync_in_progress
            && after.active_session is Some && after.active_session->0.status is Failed
            && after.local_chain == before.local_chain,
        forall|k: PeerId|
            r != Some(k) ==> (#[trigger] after.peers@.contains_key(k)
                <==> before.peers@.contains_key(k)) && after.peers@[k] == before.peers@[k],
        r matches Some(id) ==> before.peers@.contains_key(id) && before.peers@[id].retries >= 2
            ==> after.peers@[id].banned,
{
}

/// The best peer is one that may be asked, and no other one is at once higher and as quick, or as
/// high and quicker. Where two peers are equally quick the best one is the higher, and where they
/// are equally high it is the quicker.
pub proof fn law_best_peer_is_high_and_quick(
    peers: Map<PeerId, SyncPeer>,
    height: Height,
    id: PeerId,
    k: PeerId,
)
    requires
        is_best_peer(peers, height, id),
        peers.contains_key(k),
        !peers[k].banned,
        peers[k].height > height,
    ensures
        !peers[id].banned && peers[id].height > height,
        peers[k].latency_ms <= peers[id].latency_ms ==> peers[k].height <= peers[id].height,
        peers[k].height >= peers[id].height ==> peers[k].latency_ms >= peers[id].latency_ms,
{
    let (a, b) = (peers[id], peers[k]);
    assert(ahead(b, height));
    assert(scores_at_least(a, b, height));
    let da = a.height - height;
    let db = b.height - height;
    let la = a.latency_ms + 1;
    let lb = b.latency_ms + 1;
    assert(lb <= la ==> db <= da) by (nonlinear_arith)
        requires
            da * lb >= db * la,
            da > 0,
            db > 0,
            la > 0,
            lb > 0,
    ;
    assert(db >= da ==> lb >= la) by (nonlinear_arith)
        requires
            da * lb >= db * la,
            da > 0,
            db > 0,
            la > 0,
            lb > 0,
    ;
}

/// A session starts behind the blocks that are there, aims at the height of its peer, and has
/// received nothing.
pub proof fn law_a_session_starts_with_nothing(
    s: SyncSession,
    peer_id: PeerId,
    from: Height,
    current: Height,
    target: Height,
    now: Timestamp,
)
    requires
        session_started(s, peer_id, from, current, target, now),
    ensures
        s.peer_id == peer_id,
        s.from_height == from && s.current_height == current && s.target_height == target,
        s.started_at == now && s.last_activity == now,
        s.blocks_received == 0,
        s.status is Requesting,
{
}

/// There is one best peer.
pub proof fn law_there_is_one_best_peer(
    peers: Map<PeerId, SyncPeer>,
    height: Height,
    a: PeerId,
    b: PeerId,
)
    requires
        is_best_peer(peers, height, a),
        is_best_peer(peers, height, b),
    ensures
        a == b,
{
    PeerId::order_total(a, b);
    assert(peers.contains_key(a) && ahead(peers[a], height));
    assert(peers.contains_key(b) && ahead(peers[b], height));
}

/// The peer to synchronise with is not banned. While some peer that is not banned is ahead, it is
/// ahead too and none of those is quicker; else none is higher.
pub proof fn law_selected_peer_is_quick_or_high(
    peers: Map<PeerId, SyncPeer>,
    height: Height,
    id: PeerId,
    k: PeerId,
)
    requires
        is_selected(peers, height, id),
        peers.contains_key(k),
        !peers[k].banned,
    ensures
        peers.contains_key(id) && !peers[id].banned,
        peers[k].height > height ==> peers[id].height > height && peers[id].latency_ms
            <= peers[k].latency_ms,
        peers[id].height <= height ==> peers[k].height <= peers[id].height,
{
    if peers[k].height > height {
        assert(peers.contains_key(k) && ahead(peers[k], height));
    }
}

/// A synchronisation is due exactly when a peer that is not banned has more blocks, and none is
/// under way that was tried within the last minute.
pub proof fn law_when_a_synchronisation_is_due(m: SyncManager, now: Timestamp)
    requires
        m.local_chain@.len() <= u64::MAX,
    ensures
        sync_needed(m, now) <==> (exists|id: PeerId| #[trigger]
            m.peers@.contains_key(id) && !m.peers@[id].banned && m.peers@[id].height
                > m.local_chain@.len()) && (m.active_session is None || now > m.last_sync_attempt
            + 60),
{
    if sync_needed(m, now) {
        let id = choose|id: PeerId| #[trigger]
            m.peers@.contains_key(id) && ahead(m.peers@[id], m.height());
        assert(m.peers@.contains_key(id) && !m.peers@[id].banned && m.peers@[id].height
            > m.local_chain@.len());
    }
    if exists|id: PeerId| #[trigger]
        m.peers@.contains_key(id) && !m.peers@[id].banned && m.peers@[id].height
            > m.local_chain@.len() {
        let id = choose|id: PeerId| #[trigger]
            m.peers@.contains_key(id) && !m.peers@[id].banned && m.peers@[id].height
                > m.local_chain@.len();
        assert(m.peers@.contains_key(id) && ahead(m.peers@[id], m.height()));
    }
}

/// Blocks that come in move a session on by their number, are appended to the chain in their order,
/// and stand in the index at their heights, where their hashes differ. The session is done exactly
/// when nothing came or its target is reached.
pub proof fn law_what_blocks_that_come_in_change(
    before: SyncManager,
    after: SyncManager,
    blocks: Seq<Block>,
    now: Timestamp,
    i: int,
)
    requires
        before.active_session is Some,
        blocks_taken_in(before, after, blocks, now),
        before.active_session->0.current_height + blocks.len() <= u64::MAX,
        0 <= i < blocks.len() ==> forall|a: int, b: int|
            #![trigger blocks[a], blocks[b]]
            0 <= a < b < blocks.len() ==> header_hash(blocks[a].header) != header_hash(
                blocks[b].header,
            ),
    ensures
        ({
            let s = before.active_session->0;
            let t = after.active_session->0;
            &&& t.current_height == s.current_height + blocks.len()
            &&& t.status is Completed <==> blocks.len() == 0 || s.current_height + blocks.len()
                >= s.target_height
            &&& t.status is Completed ==> !after.sync_in_progress
            &&& t.target_height == s.target_height && t.peer_id == s.peer_id
            &&& after.local_chain@.len() == before.local_chain@.len() + blocks.len()
            &&& after.local_chain@.take(before.local_chain@.len() as int) == before.local_chain@
            &&& 0 <= i < blocks.len() ==> after.local_chain@[before.local_chain@.len() + i]
                == blocks[i].header && after.local_hashes@.contains_key(
                header_hash(blocks[i].header),
            ) && after.local_hashes@[header_hash(blocks[i].header)] == s.current_height + i + 1
        }),
{
    let headers = headers_of(blocks);
    if 0 <= i < blocks.len() {
        assert forall|a: int, b: int|
            #![trigger headers[a], headers[b]]
            0 <= a < b < headers.len() implies header_hash(headers[a]) != header_hash(
            headers[b],
        ) by {
            assert(headers[a] == blocks[a].header && headers[b] == blocks[b].header);
        }
        crate::chain::law_batch_blocks_stand_at_their_heights(
            before.local_hashes@,
            headers,
            before.active_session->0.current_height,
            blocks.len(),
            i,
        );
    }
}

/// A session that waits for blocks asks its peer for the one behind its height, two seconds after
/// the last request at the earliest, until it is at its target.
pub proof fn law_a_session_asks_for_the_next_block(
    before: SyncManager,
    after: SyncManager,
    now: Timestamp,
    last_request: Timestamp,
    r: SyncStep,
)
    requires
        step_taken(before, after, now, last_request, r),
    ensures
        ({
            let s = before.active_session->0;
            let due = before.active_session is Some && s.status is Requesting && now >= last_request
                + 2;
            &&& r is Wait <==> !due
            &&& r is Done <==> due && s.current_height >= s.target_height
            &&& (r matches SyncStep::Request(id, h) ==> id == s.peer_id && h == s.current_height
                + 1 && h <= s.target_height)
            &&& !(r is Done) ==> after == before
            &&& r is Done ==> !after.sync_in_progress && after.active_session is Some
                && after.active_session->0.status is Completed
            &&& after.peers == before.peers && after.local_chain == before.local_chain
        }),
{
}

/// What a connected peer is answered: a version with an acknowledgement, a ping or a heartbeat with
/// its own number, a request for blocks with those from its height on, no more than it asked for.
/// Nothing but a version or a ban of the peer itself changes anything.
pub proof fn law_what_a_peer_is_answered(
    before: P2PNode,
    after: P2PNode,
    msg: P2PMessage,
    addr: NetAddr,
    now: Timestamp,
    r: PeerAction,
)
    requires
        handled(before, after, msg, addr, now, r),
    ensures
        msg is Version ==> r == PeerAction::Reply(P2PMessage::Verack),
        msg matches P2PMessage::Ping(n) ==> r == PeerAction::Reply(P2PMessage::Pong(n)),
        msg matches P2PMessage::Heartbeat(n) ==> r == PeerAction::Reply(P2PMessage::Pong(n)),
        msg matches P2PMessage::GetBlocks { from_height, max_count } ==> (
        r matches PeerAction::ServeBlocks(a, b) && a == from_height && a <= b && b - a <= max_count
            && (from_height + max_count <= u64::MAX ==> b - a == max_count)),
        msg matches P2PMessage::Transaction(tx) ==> r == PeerAction::TakeTransaction(tx),
        msg matches P2PMessage::Share(s) ==> r == PeerAction::TakeShare(s),
        msg matches P2PMessage::Blocks(b) ==> r == PeerAction::AcceptBlocks(b),
        msg matches P2PMessage::Block { header, transactions, signature, pubkey } ==> (
        r matches PeerAction::TakeBlock(b) && b.header == header && b.transactions == transactions
            && b.signature == signature && b.pubkey == pubkey),
        !(msg is Version || msg is BanPeer) ==> after == before,
        msg matches P2PMessage::BanPeer { peer_id, .. } ==> if peer_id
            == before.peers@[addr].peer_id {
            after.peers@[addr].banned
        } else {
            after == before
        },
        msg matches P2PMessage::Version { height, best_hash, peer_id, .. }
            ==> after.peers@[addr].height == Some(height) && after.peers@[addr].best_hash == Some(
            best_hash,
        )
            && after.sync_manager.peers@.contains_key(peer_id)
            && after.sync_manager.peers@[peer_id].height == height
            && after.sync_manager.peers@[peer_id].best_hash == best_hash && (
        before.sync_manager.peers@.contains_key(peer_id)
            ==> after.sync_manager.peers@[peer_id].banned
            == before.sync_manager.peers@[peer_id].banned),
        forall|a: NetAddr|
            a != addr ==> (#[trigger] after.peers@.contains_key(a)
                <==> before.peers@.contains_key(a)) && after.peers@[a] == before.peers@[a],
{
}

/// What is done of a synchronisation is no more than there is to do, and there is something to do.
pub proof fn law_progress_is_a_part(
    session: Option<SyncSession>,
    height: Height,
    top: Option<Height>,
)
    requires
        session matches Some(s) ==> s.current_height <= s.target_height,
    ensures
        fraction_done(session, height, top).0 <= fraction_done(session, height, top).1,
        fraction_done(session, height, top).1 > 0,
        (session matches Some(s) && s.from_height < s.target_height) ==> fraction_done(
            session,
            height,
            top,
        ).1 == session->0.target_height - session->0.from_height && (session->0.current_height
            >= session->0.from_height ==> fraction_done(session, height, top).0
            == session->0.current_height - session->0.from_height),
        top matches Some(h) ==> session is None && h > height ==> fraction_done(
            session,
            height,
            top,
        ) == (height, h),
{
}

} // verus!
