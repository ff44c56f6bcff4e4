//! What the chain store holds, and the rules on its keys and records.
use crate::block::{address_of, bond_script, p2pkh_script, TxOut};
use crate::bytes::{le_value, read_le};
use crate::collections::{lemma_sum_push, sum_of};
use crate::constants::{BOND_LOCKUP_BLOCKS, MINIMUM_BOND_LYT};
use crate::text::{bytes_of_hex, hex_decode, hex_encode, hex_text, is_hex, law_hex_round_trip};
use crate::types::{Hash32, Height, MinerId, OutPoint, Timestamp};
use vstd::prelude::*;

verus! {

pub const CF_BLOCKS: &'static str = "blocks";

pub const CF_UTXO: &'static str = "utxo";

pub const CF_MINERS: &'static str = "miners";

pub const CF_BONDS: &'static str = "bonds";

pub const CF_STATE: &'static str = "state";

pub const CF_MEMPOOL: &'static str = "mempool";

pub const CF_SLASHES: &'static str = "slashes";

pub const CF_CHECKPOINTS: &'static str = "checkpoints";

/// A miner's locked bond.
#[derive(Debug, Clone, Copy, PartialEq, Eq)]
pub struct Bond {
    pub amount: u64,
    pub created_at: Height,
    pub lock_until: Height,
    pub miner_id: MinerId,
}

/// The height at which a bond made at `created_at` is free again.
pub open spec fn lock_end(created_at: Height) -> Height {
    if created_at + BOND_LOCKUP_BLOCKS <= u64::MAX {
        (created_at + BOND_LOCKUP_BLOCKS) as u64
    } else {
        u64::MAX
    }
}

/// Whether a bond counts at a height: it is made, still locked, and large enough.
pub open spec fn bond_counts(b: Bond, height: Height) -> bool {
    b.created_at <= height < b.lock_until && b.amount >= MINIMUM_BOND_LYT
}

impl Bond {
    /// A bond made at a height.
    pub fn new(amount: u64, created_at: Height, miner_id: MinerId) -> (r: Self)
        ensures
            r == (Bond { amount, created_at, lock_until: lock_end(created_at), miner_id }),
    {
        Bond {
            amount,
            created_at,
            lock_until: created_at.saturating_add(BOND_LOCKUP_BLOCKS),
            miner_id,
        }
    }

    /// Whether the bond is made and still locked.
    pub fn is_active(&self, current_height: Height) -> (r: bool)
        ensures
            r == (self.created_at <= current_height < self.lock_until),
    {
        current_height >= self.created_at && current_height < self.lock_until
    }

    /// Whether the bond is large enough to count.
    pub fn is_valid_for_poci(&self) -> (r: bool)
        ensures
            r == (self.amount >= MINIMUM_BOND_LYT),
    {
        self.amount >= MINIMUM_BOND_LYT
    }

    /// The bond that an output of a block at `height` makes.
    pub fn from_output(output: &TxOut, height: Height) -> (r: Option<Self>)
        ensures
            match r {
                Some(b) => bond_script(output@.script_pubkey) && output.value >= MINIMUM_BOND_LYT
                    && b.amount == output.value && b.created_at == height && b.lock_until
                    == lock_end(height) && b.miner_id@ == output@.script_pubkey.subrange(1, 21),
                None => !bond_script(output@.script_pubkey) || output.value < MINIMUM_BOND_LYT,
            },
    {
        match output.extract_miner_id() {
            Some(miner_id) => {
                if output.value >= MINIMUM_BOND_LYT {
                    Some(Self::new(output.value, height, miner_id))
                } else {
                    None
                }
            },
            None => None,
        }
    }

    /// The number of blocks until the bond is free.
    pub fn remaining_blocks(&self, current_height: Height) -> (r: u64)
        ensures
            r == if current_height < self.lock_until {
                self.lock_until - current_height
            } else {
                0
            },
    {
        if current_height < self.lock_until {
            self.lock_until - current_height
        } else {
            0
        }
    }
}

/// A bond that an output makes counts from its block on until its lock ends, and at no other
/// height.
pub proof fn law_bond_counts_while_locked(b: Bond, made_at: Height, height: Height)
    requires
        b.created_at == made_at,
        b.lock_until == lock_end(made_at),
        b.amount >= MINIMUM_BOND_LYT,
        made_at + BOND_LOCKUP_BLOCKS <= u64::MAX,
    ensures
        bond_counts(b, height) <==> made_at <= height < made_at + BOND_LOCKUP_BLOCKS,
{
}

/// A signed record of the chain at a height.
#[derive(Debug)]
pub struct Checkpoint {
    pub height: Height,
    pub block_hash: Hash32,
    pub state_root: Hash32,
    pub timestamp: Timestamp,
    pub signature: Vec<u8>,
    pub verified: bool,
}

/// The height in the key of a stored block: its first eight bytes, least significant first.
pub fn height_of_key(key: &[u8]) -> (r: Option<Height>)
    ensures
        match r {
            Some(height) => key@.len() >= 8 && height == le_value(key@.subrange(0, 8)),
            None => key@.len() < 8,
        },
{
    if key.len() >= 8 {
        Some(read_le(key, 0, 8))
    } else {
        None
    }
}

/// The height of the last stored block, by its key; zero where there is none.
pub fn last_height(last_key: Option<Vec<u8>>) -> (r: Height)
    ensures
        r == match last_key {
            Some(key) => if key@.len() >= 8 {
                le_value(key@.subrange(0, 8))
            } else {
                0
            },
            None => 0,
        },
{
    match last_key {
        Some(key) => match height_of_key(key.as_slice()) {
            Some(height) => height,
            None => 0,
        },
        None => 0,
    }
}

/// Whether an output pays to an address.
pub open spec fn pays_address(o: TxOut, address: Seq<char>) -> bool {
    p2pkh_script(o@.script_pubkey) && address_of(o@.script_pubkey.subrange(3, 23)) == address
}

fn output_pays(output: &TxOut, address: &String) -> (r: bool)
    ensures
        r == pays_address(*output, address@),
{
    match output.extract_address() {
        Some(a) => a == *address,
        None => false,
    }
}

/// The sum of the values and the number of the outputs that pay to an address.
pub open spec fn balance_of(outputs: Seq<TxOut>, address: Seq<char>) -> (nat, nat)
    decreases outputs.len(),
{
    if outputs.len() == 0 {
        (0, 0)
    } else {
        let (sum, count) = balance_of(outputs.drop_last(), address);
        if pays_address(outputs.last(), address) {
            (sum + outputs.last().value as nat, count + 1)
        } else {
            (sum, count)
        }
    }
}

/// The sum of the values, held to the largest number, and the number of the outputs that pay to
/// an address.
pub fn balance_by_address(outputs: &[TxOut], address: &String) -> (r: (u64, u64))
    ensures
        r.0 == if balance_of(outputs@, address@).0 <= u64::MAX {
            balance_of(outputs@, address@).0
        } else {
            u64::MAX as nat
        },
        r.1 == balance_of(outputs@, address@).1,
{
    let mut total: u64 = 0;
    let mut count: u64 = 0;
    let mut i: usize = 0;
    assert(outputs@.take(0) =~= Seq::<TxOut>::empty());
    while i < outputs.len()
        invariant
            i <= outputs@.len(),
            total == if balance_of(outputs@.take(i as int), address@).0 <= u64::MAX {
                balance_of(outputs@.take(i as int), address@).0
            } else {
                u64::MAX as nat
            },
            count == balance_of(outputs@.take(i as int), address@).1,
            count <= i,
        decreases outputs@.len() - i,
    {
        assert(outputs@.take(i + 1).drop_last() =~= outputs@.take(i as int));
        if output_pays(&outputs[i], address) {
            total = total.saturating_add(outputs[i].value);
            count = count + 1;
        }
        i += 1;
    }
    assert(outputs@.take(i as int) =~= outputs@);
    (total, count)
}

/// The stored outputs that pay to an address, in order.
pub fn utxos_by_address(utxos: Vec<(OutPoint, TxOut)>, address: &String) -> (r: Vec<
    (OutPoint, TxOut),
>)
    ensures
        r@ == utxos@.filter(|e: (OutPoint, TxOut)| pays_address(e.1, address@)),
{
    let ghost all = utxos@;
    let ghost keep = |e: (OutPoint, TxOut)| pays_address(e.1, address@);
    let mut r: Vec<(OutPoint, TxOut)> = utxos;
    let mut i: usize = 0;
    let ghost mut k: int = 0;
    proof {
        reveal(Seq::filter);
        assert(all.take(0).filter(keep) =~= Seq::empty());
        assert(all.skip(0) =~= all);
    }
    while i < r.len()
        invariant
            0 <= k <= all.len(),
            keep == (|e: (OutPoint, TxOut)| pays_address(e.1, address@)),
            i == all.take(k).filter(keep).len(),
            r@ == all.take(k).filter(keep) + all.skip(k),
        decreases all.len() - k,
    {
        proof {
            assert(r@[i as int] == all[k]);
            assert(all.take(k + 1).drop_last() =~= all.take(k));
            reveal(Seq::filter);
        }
        let ghost head = all.take(k).filter(keep);
        if output_pays(&r[i].1, address) {
            i += 1;
            assert(r@ =~= head.push(all[k]) + all.skip(k + 1));
        } else {
            r.remove(i);
            assert((head + all.skip(k)).remove(i as int) =~= head + all.skip(k + 1));
        }
        proof {
            k = k + 1;
        }
    }
    assert(all.skip(k).len() == 0);
    assert(all.take(k) =~= all);
    assert(r@ =~= all.filter(keep));
    r
}

/// Whether a backup is due at a height.
pub fn backup_due(height: Height, interval_blocks: u64) -> (r: bool)
    requires
        interval_blocks != 0,
    ensures
        r == (height > 0 && height as int % interval_blocks as int == 0),
{
    height % interval_blocks == 0 && height > 0
}

/// How many of the oldest backups go when the newest `keep_count` stay.
pub fn backups_to_remove(count: usize, keep_count: usize) -> (r: usize)
    ensures
        r == if count > keep_count {
            count - keep_count
        } else {
            0
        },
{
    if count > keep_count {
        count - keep_count
    } else {
        0
    }
}

/// The bytes `loyalty_`.
pub open spec fn loyalty_prefix() -> Seq<u8> {
    seq![0x6Cu8, 0x6Fu8, 0x79u8, 0x61u8, 0x6Cu8, 0x74u8, 0x79u8, 0x5Fu8]
}

/// The key under which the loyalty of a miner is stored.
pub open spec fn loyalty_key_of(miner_id: Seq<u8>) -> Seq<u8> {
    loyalty_prefix() + hex_text(miner_id)
}

fn prefix_bytes() -> (r: Vec<u8>)
    ensures
        r@ == loyalty_prefix(),
{
    let r: Vec<u8> = vec![0x6Cu8, 0x6Fu8, 0x79u8, 0x61u8, 0x6Cu8, 0x74u8, 0x79u8, 0x5Fu8];
    assert(r@ =~= loyalty_prefix());
    r
}

/// The key under which the loyalty of a miner is stored.
pub fn loyalty_key(miner_id: &MinerId) -> (r: Vec<u8>)
    ensures
        r@ == loyalty_key_of(miner_id@),
{
    let mut r = prefix_bytes();
    let hex = hex_encode(miner_id.as_slice());
    r.extend_from_slice(hex.as_slice());
    assert(r@ =~= loyalty_key_of(miner_id@));
    r
}

/// The miner that a stored key names: the prefix, then 20 bytes in hexadecimal.
pub open spec fn miner_of_key(key: Seq<u8>) -> Option<Seq<u8>> {
    if key.len() == 48 && key.take(8) == loyalty_prefix() && is_hex(key.skip(8)) {
        Some(bytes_of_hex(key.skip(8)))
    } else {
        None
    }
}

/// The miner whose loyalty is stored under a key.
pub fn parse_loyalty_key(key: &[u8]) -> (r: Option<MinerId>)
    ensures
        match r {
            Some(id) => miner_of_key(key@) == Some(id@),
            None => miner_of_key(key@) is None,
        },
{
    if key.len() != 48 {
        return None;
    }
    let prefix = prefix_bytes();
    assert(key@.subrange(0, 8) =~= key@.take(8));
    assert(key@.subrange(8, 48) =~= key@.skip(8));
    if !crate::bytes::slices_equal(&key[0..8], prefix.as_slice()) {
        return None;
    }
    match hex_decode(&key[8..48]) {
        Some(bytes) => Some(crate::bytes::array_of::<20>(bytes.as_slice())),
        None => None,
    }
}

/// The key of a miner's loyalty names the miner.
pub proof fn law_loyalty_key_names_miner(miner_id: MinerId)
    ensures
        miner_of_key(loyalty_key_of(miner_id@)) == Some(miner_id@),
{
    let key = loyalty_key_of(miner_id@);
    law_hex_round_trip(miner_id@);
    assert(key.take(8) =~= loyalty_prefix());
    assert(key.skip(8) =~= hex_text(miner_id@));
}

/// The balance of an address is the sum over all outputs that pay to it, and their number counts
/// each of them once.
pub proof fn law_balance_adds_up(outputs: Seq<TxOut>, address: Seq<char>)
    ensures
        balance_of(outputs, address).0 == sum_of(
            outputs.map_values(
                |o: TxOut|
                    if pays_address(o, address) {
                        o.value as nat
                    } else {
                        0nat
                    },
            ),
        ),
        balance_of(outputs, address).1 == outputs.filter(
            |o: TxOut| pays_address(o, address),
        ).len(),
    decreases outputs.len(),
{
    let f = |o: TxOut|
        if pays_address(o, address) {
            o.value as nat
        } else {
            0nat
        };
    reveal(Seq::filter);
    lemma_sum_push(Seq::<nat>::empty(), 0);
    if outputs.len() == 0 {
        assert(outputs.map_values(f) =~= Seq::<nat>::empty());
    } else {
        let rest = outputs.drop_last();
        law_balance_adds_up(rest, address);
        lemma_sum_push(rest.map_values(f), f(outputs.last()));
        assert(outputs.map_values(f) =~= rest.map_values(f).push(f(outputs.last())));
    }
}

/// An output whose script pays to a hash pays to the address of that hash.
pub proof fn law_script_pays_its_address(o: TxOut, hash: Seq<u8>)
    requires
        hash.len() == 20,
        o@.script_pubkey == seq![0x76u8, 0xA9u8, 0x14u8] + hash + seq![0x88u8, 0xACu8],
    ensures
        pays_address(o, address_of(hash)),
{
    assert(o@.script_pubkey.subrange(3, 23) =~= hash);
}

/// A bond counts from the height at which it was made for 20160 blocks, where it is at least ten
/// million.
pub proof fn law_bond_counts_for_two_weeks(b: Bond, height: Height)
    requires
        b.lock_until == lock_end(b.created_at),
        b.created_at + 20_160 <= u64::MAX,
    ensures
        bond_counts(b, height) <==> b.amount >= 10_000_000 && b.created_at <= height
            < b.created_at + 20_160,
{
}

/// An output pays to an address exactly when its script pays to a hash whose address it is.
pub proof fn law_outputs_of_an_address(o: TxOut, address: Seq<char>)
    ensures
        pays_address(o, address) <==> exists|hash: Seq<u8>|
            hash.len() == 20 && #[trigger] address_of(hash) == address && o@.script_pubkey == seq![
                0x76u8,
                0xA9u8,
                0x14u8,
            ] + hash + seq![0x88u8, 0xACu8],
{
    let script = o@.script_pubkey;
    if pays_address(o, address) {
        let hash = script.subrange(3, 23);
        assert(script =~= seq![0x76u8, 0xA9u8, 0x14u8] + hash + seq![0x88u8, 0xACu8]);
        assert(address_of(hash) == address);
    }
    if exists|hash: Seq<u8>|
        hash.len() == 20 && #[trigger] address_of(hash) == address && script == seq![
            0x76u8,
            0xA9u8,
            0x14u8,
        ] + hash + seq![0x88u8, 0xACu8] {
        let hash = choose|hash: Seq<u8>|
            hash.len() == 20 && #[trigger] address_of(hash) == address && script == seq![
                0x76u8,
                0xA9u8,
                0x14u8,
            ] + hash + seq![0x88u8, 0xACu8];
        assert(script.subrange(3, 23) =~= hash);
    }
}

} // verus!
