//! Transactions and an in-memory set of unspent outputs.
//!
//! - All amounts are in LYT.
//! - The minimum fee is 50 LYT.
//! - Outputs below 100 LYT are dust and rejected.
//! - A coinbase spends the output `0xFFFFFFFF` of the transaction with an identifier of zeros.
use crate::block::{
    coinbase_transaction, input_views, outpoint_of, output_views, TransactionV, TxInV, TxOutV,
};
use crate::bytes::{le_bytes, push_le, slices_equal};
use crate::collections::{
    lemma_map_sum_insert, lemma_pair_sum, lemma_pair_sum_take, map_sum, pair_sum, OrdMap,
    OrdSet,
};
use crate::constants::{DUST_LIMIT_LYT, MINIMUM_FEE_LYT};
use crate::error::Error;
use crate::primitives::{sha256, sha256_of};
use crate::text::{decimal, push_decimal};
use crate::types::{Hash32, OutPoint};
use vstd::prelude::*;
use vstd::string::*;

pub use crate::block::{TxIn, TxOut};

verus! {

/// A transaction.
#[derive(Debug)]
pub struct Transaction {
    pub version: u32,
    pub inputs: Vec<TxIn>,
    pub outputs: Vec<TxOut>,
    pub locktime: u32,
}

impl View for Transaction {
    type V = TransactionV;

    open spec fn view(&self) -> TransactionV {
        TransactionV {
            version: self.version,
            inputs: input_views(self.inputs@),
            outputs: output_views(self.outputs@),
            locktime: self.locktime,
        }
    }
}

/// The canonical bytes of an input.
pub open spec fn canonical_input(i: TxInV) -> Seq<u8> {
    i.prev_txid@ + le_bytes(i.prev_index as nat, 4) + le_bytes(i.script_sig.len(), 8)
        + i.script_sig + le_bytes(i.sequence as nat, 4)
}

/// The canonical bytes of an output.
pub open spec fn canonical_output(o: TxOutV) -> Seq<u8> {
    le_bytes(o.value as nat, 8) + le_bytes(o.script_pubkey.len(), 8) + o.script_pubkey
}

/// The canonical bytes of inputs.
pub open spec fn canonical_inputs(ins: Seq<TxInV>) -> Seq<u8>
    decreases ins.len(),
{
    if ins.len() == 0 {
        Seq::empty()
    } else {
        canonical_inputs(ins.drop_last()) + canonical_input(ins.last())
    }
}

/// The canonical bytes of outputs.
pub open spec fn canonical_outputs(outs: Seq<TxOutV>) -> Seq<u8>
    decreases outs.len(),
{
    if outs.len() == 0 {
        Seq::empty()
    } else {
        canonical_outputs(outs.drop_last()) + canonical_output(outs.last())
    }
}

/// The canonical bytes of a transaction.
pub open spec fn canonical_bytes(t: TransactionV) -> Seq<u8> {
    le_bytes(t.version as nat, 4) + le_bytes(t.inputs.len(), 8) + canonical_inputs(t.inputs)
        + le_bytes(t.outputs.len(), 8) + canonical_outputs(t.outputs) + le_bytes(
        t.locktime as nat,
        4,
    )
}

/// What is wrong with a transaction.
#[verifier::ext_equal]
pub enum TxFault {
    InvalidCoinbase,
    DoubleSpend,
    KeyNotFound,
    InsufficientInput,
    Other(Seq<char>),
}

/// Whether an error stands for what is wrong.
pub open spec fn stands_for(e: Error, f: TxFault) -> bool {
    match f {
        TxFault::InvalidCoinbase => e is InvalidCoinbase,
        TxFault::DoubleSpend => e is DoubleSpend,
        TxFault::KeyNotFound => e is KeyNotFound,
        TxFault::InsufficientInput => e is InsufficientInput,
        TxFault::Other(words) => e matches Error::Other(w) && w@ == words,
    }
}

/// Whether an input before `i` spends what input `i` spends.
pub open spec fn repeats_input(ins: Seq<TxInV>, i: int) -> bool {
    exists|j: int| 0 <= j < i && outpoint_of(#[trigger] ins[j]) == outpoint_of(ins[i])
}

/// The sum of the outputs that the inputs from `i` on spend, or what is wrong with the first that
/// cannot be spent.
pub open spec fn spendable(
    ins: Seq<TxInV>,
    utxos: Map<OutPoint, TxOut>,
    i: int,
    sum: nat,
) -> Result<nat, TxFault>
    decreases ins.len() - i,
{
    if i < 0 || i >= ins.len() {
        Ok(sum)
    } else if repeats_input(ins, i) {
        Err(TxFault::DoubleSpend)
    } else if !utxos.contains_key(outpoint_of(ins[i])) {
        Err(TxFault::KeyNotFound)
    } else if sum + utxos[outpoint_of(ins[i])].value > u64::MAX {
        Err(TxFault::InsufficientInput)
    } else {
        spendable(ins, utxos, i + 1, sum + utxos[outpoint_of(ins[i])].value as nat)
    }
}

/// The sum of the outputs from `i` on, or what is wrong with the first that cannot be paid.
pub open spec fn payable(outs: Seq<TxOutV>, i: int, sum: nat) -> Result<nat, TxFault>
    decreases outs.len() - i,
{
    if i < 0 || i >= outs.len() {
        Ok(sum)
    } else if outs[i].value < DUST_LIMIT_LYT {
        Err(TxFault::Other("Dust output below "@ + decimal(DUST_LIMIT_LYT as nat) + " LYT"@))
    } else if sum + outs[i].value > u64::MAX {
        Err(TxFault::InsufficientInput)
    } else {
        payable(outs, i + 1, sum + outs[i].value as nat)
    }
}

/// Whether an output is dust.
pub open spec fn has_dust(outs: Seq<TxOutV>) -> bool {
    exists|i: int| 0 <= i < outs.len() && (#[trigger] outs[i]).value < DUST_LIMIT_LYT
}

/// The fee of a valid transaction, or what is wrong with it.
pub open spec fn fee_against(t: TransactionV, utxos: Map<OutPoint, TxOut>) -> Result<nat, TxFault> {
    if coinbase_transaction(t) {
        if t.outputs.len() == 0 || has_dust(t.outputs) {
            Err(TxFault::InvalidCoinbase)
        } else {
            Ok(0)
        }
    } else {
        match spendable(t.inputs, utxos, 0, 0) {
            Err(f) => Err(f),
            Ok(total) => match payable(t.outputs, 0, 0) {
                Err(f) => Err(f),
                Ok(paid) => if total < paid {
                    Err(TxFault::InsufficientInput)
                } else if total - paid < MINIMUM_FEE_LYT {
                    Err(
                        TxFault::Other(
                            "Fee below minimum: "@ + decimal((total - paid) as nat) + " < "@
                                + decimal(MINIMUM_FEE_LYT as nat),
                        ),
                    )
                } else {
                    Ok((total - paid) as nat)
                },
            },
        }
    }
}

impl Transaction {
    /// The identifier of the transaction: the digest of its canonical bytes.
    pub fn txid(&self) -> (r: Hash32)
        ensures
            r@ == sha256_of(canonical_bytes(self@)),
    {
        let mut data: Vec<u8> = Vec::new();
        push_le(&mut data, self.version as u64, 4);
        push_le(&mut data, self.inputs.len() as u64, 8);
        let ghost ins = self@.inputs;
        let ghost outs = self@.outputs;
        let ghost head = data@;
        let mut i: usize = 0;
        assert(ins.take(0) =~= Seq::<TxInV>::empty());
        assert(head + canonical_inputs(ins.take(0)) =~= head);
        while i < self.inputs.len()
            invariant
                i <= self.inputs@.len(),
                ins == self@.inputs,
                data@ == head + canonical_inputs(ins.take(i as int)),
            decreases self.inputs@.len() - i,
        {
            let input = &self.inputs[i];
            data.extend_from_slice(input.prev_txid.as_slice());
            push_le(&mut data, input.prev_index as u64, 4);
            push_le(&mut data, input.script_sig.len() as u64, 8);
            data.extend_from_slice(input.script_sig.as_slice());
            push_le(&mut data, input.sequence as u64, 4);
            proof {
                assert(ins[i as int] == input@);
                assert(ins.take(i + 1).drop_last() =~= ins.take(i as int));
                assert(data@ =~= head + canonical_inputs(ins.take(i + 1)));
            }
            i += 1;
        }
        assert(ins.take(i as int) =~= ins);
        push_le(&mut data, self.outputs.len() as u64, 8);
        let ghost middle = data@;
        let mut j: usize = 0;
        assert(outs.take(0) =~= Seq::<TxOutV>::empty());
        assert(middle + canonical_outputs(outs.take(0)) =~= middle);
        while j < self.outputs.len()
            invariant
                j <= self.outputs@.len(),
                outs == self@.outputs,
                data@ == middle + canonical_outputs(outs.take(j as int)),
            decreases self.outputs@.len() - j,
        {
            let output = &self.outputs[j];
            push_le(&mut data, output.value, 8);
            push_le(&mut data, output.script_pubkey.len() as u64, 8);
            data.extend_from_slice(output.script_pubkey.as_slice());
            proof {
                assert(outs[j as int] == output@);
                assert(outs.take(j + 1).drop_last() =~= outs.take(j as int));
                assert(data@ =~= middle + canonical_outputs(outs.take(j + 1)));
            }
            j += 1;
        }
        assert(outs.take(j as int) =~= outs);
        push_le(&mut data, self.locktime as u64, 4);
        assert(data@ =~= canonical_bytes(self@));
        sha256(data.as_slice())
    }

    /// Whether the transaction is a coinbase: it has one input, which spends the output
    /// `0xFFFFFFFF` of the transaction with an identifier of zeros.
    pub fn is_coinbase(&self) -> (r: bool)
        ensures
            r == coinbase_transaction(self@),
    {
        if self.inputs.len() != 1 {
            return false;
        }
        assert(self@.inputs[0] == self.inputs@[0]@);
        self.inputs[0].is_coinbase()
    }

    /// The fee of the transaction, where it is valid against a set of unspent outputs.
    pub fn validate(&self, utxo_set: &UTXOSet) -> (r: Result<u64, Error>)
        ensures
            match r {
                Ok(fee) => fee_against(self@, utxo_set@) == Ok::<nat, TxFault>(fee as nat),
                Err(e) => fee_against(self@, utxo_set@) is Err && stands_for(
                    e,
                    fee_against(self@, utxo_set@)->Err_0,
                ),
            },
    {
        let ghost t = self@;
        let ghost ins = t.inputs;
        let ghost outs = t.outputs;
        if self.is_coinbase() {
            if self.outputs.len() == 0 {
                return Err(Error::InvalidCoinbase);
            }
            let mut k: usize = 0;
            while k < self.outputs.len()
                invariant
                    k <= self.outputs@.len(),
                    t == self@,
                    outs == t.outputs,
                    outs.len() > 0,
                    coinbase_transaction(t),
                    forall|j: int| 0 <= j < k ==> (#[trigger] outs[j]).value >= DUST_LIMIT_LYT,
                decreases self.outputs@.len() - k,
            {
                assert(outs[k as int] == self.outputs@[k as int]@);
                if self.outputs[k].value < DUST_LIMIT_LYT {
                    assert(has_dust(outs));
                    return Err(Error::InvalidCoinbase);
                }
                k += 1;
            }
            return Ok(0);
        }
        let mut seen: OrdSet<OutPoint> = OrdSet::new();
        let mut input_sum: u64 = 0;
        let mut i: usize = 0;
        while i < self.inputs.len()
            invariant
                i <= self.inputs@.len(),
                t == self@,
                ins == t.inputs,
                !coinbase_transaction(t),
                spendable(ins, utxo_set@, 0, 0) == spendable(
                    ins,
                    utxo_set@,
                    i as int,
                    input_sum as nat,
                ),
                forall|p: OutPoint| #[trigger]
                    seen@.contains(p) <==> exists|j: int|
                        0 <= j < i && outpoint_of(#[trigger] ins[j]) == p,
            decreases self.inputs@.len() - i,
        {
            assert(ins[i as int] == self.inputs@[i as int]@);
            let key = self.inputs[i].outpoint();
            let ghost was = seen@;
            if !seen.insert(key) {
                assert(repeats_input(ins, i as int));
                return Err(Error::DoubleSpend);
            }
            assert(!repeats_input(ins, i as int));
            assert forall|p: OutPoint| #[trigger] seen@.contains(p) <==> exists|j: int|
                0 <= j < i + 1 && outpoint_of(#[trigger] ins[j]) == p by {
                if p == key {
                    assert(outpoint_of(ins[i as int]) == p);
                } else if was.contains(p) {
                    let j = choose|j: int| 0 <= j < i && outpoint_of(#[trigger] ins[j]) == p;
                    assert(outpoint_of(ins[j]) == p);
                }
            }
            let value: u64 = match utxo_set.utxos.get(&key) {
                Some(out) => out.value,
                None => {
                    return Err(Error::KeyNotFound);
                },
            };
            input_sum = match input_sum.checked_add(value) {
                Some(sum) => sum,
                None => {
                    return Err(Error::InsufficientInput);
                },
            };
            i += 1;
        }
        let mut output_sum: u64 = 0;
        let mut j: usize = 0;
        while j < self.outputs.len()
            invariant
                j <= self.outputs@.len(),
                t == self@,
                outs == t.outputs,
                !coinbase_transaction(t),
                spendable(t.inputs, utxo_set@, 0, 0) == Ok::<nat, TxFault>(input_sum as nat),
                payable(outs, 0, 0) == payable(outs, j as int, output_sum as nat),
            decreases self.outputs@.len() - j,
        {
            assert(outs[j as int] == self.outputs@[j as int]@);
            if self.outputs[j].value < DUST_LIMIT_LYT {
                let mut words = "Dust output below ".to_string();
                push_decimal(&mut words, DUST_LIMIT_LYT as u128);
                words.append(" LYT");
                return Err(Error::Other(words));
            }
            output_sum = match output_sum.checked_add(self.outputs[j].value) {
                Some(sum) => sum,
                None => {
                    return Err(Error::InsufficientInput);
                },
            };
            j += 1;
        }
        if input_sum < output_sum {
            return Err(Error::InsufficientInput);
        }
        let fee: u64 = input_sum - output_sum;
        if fee < MINIMUM_FEE_LYT {
            let mut words = "Fee below minimum: ".to_string();
            push_decimal(&mut words, fee as u128);
            words.append(" < ");
            push_decimal(&mut words, MINIMUM_FEE_LYT as u128);
            return Err(Error::Other(words));
        }
        Ok(fee)
    }
}

/// A set of unspent outputs.
#[derive(Debug)]
pub struct UTXOSet {
    pub(crate) utxos: OrdMap<OutPoint, TxOut>,
}

impl View for UTXOSet {
    type V = Map<OutPoint, TxOut>;

    closed spec fn view(&self) -> Map<OutPoint, TxOut> {
        self.utxos@
    }
}

impl Default for UTXOSet {
    fn default() -> (r: Self)
        ensures
            r@ == Map::<OutPoint, TxOut>::empty(),
    {
        UTXOSet { utxos: OrdMap::new() }
    }
}

/// What the outputs of a set hold.
pub open spec fn held_outputs(utxos: Map<OutPoint, TxOut>) -> Map<OutPoint, TxOutV> {
    utxos.map_values(|o: TxOut| o@)
}

/// What an output is worth to the owner of a script.
pub open spec fn worth(o: TxOut, script: Seq<u8>) -> nat {
    if o@.script_pubkey == script {
        o.value as nat
    } else {
        0
    }
}

/// What the outputs of a set are worth to the owner of a script.
pub open spec fn balance(utxos: Map<OutPoint, TxOut>, script: Seq<u8>) -> nat {
    map_sum(utxos.map_values(|o: TxOut| worth(o, script)))
}

impl UTXOSet {
    /// Adds an unspent output.
    pub fn add_output(&mut self, txid: Hash32, index: u32, output: TxOut)
        ensures
            final(self)@ == old(self)@.insert((txid, index), output),
    {
        self.utxos.insert((txid, index), output);
    }

    /// Takes an output out of the set.
    pub fn spend_input(&mut self, txid: Hash32, index: u32) -> (r: Result<TxOut, Error>)
        ensures
            match r {
                Ok(output) => old(self)@.contains_key((txid, index)) && output == old(self)@[
                    (txid, index)
                ] && final(self)@ == old(self)@.remove((txid, index)),
                Err(e) => !old(self)@.contains_key((txid, index)) && e is KeyNotFound && final(self)@ == old(self)@,
            },
    {
        let ghost before = self.utxos@;
        match self.utxos.remove(&(txid, index)) {
            Some(output) => Ok(output),
            None => {
                assert(before.remove((txid, index)) =~= before);
                Err(Error::KeyNotFound)
            },
        }
    }

    /// What the outputs are worth to the owner of a script, or the largest number where that does
    /// not fit.
    pub fn get_balance(&self, address: &[u8]) -> (r: u64)
        ensures
            r == if balance(self@, address@) <= u64::MAX {
                balance(self@, address@) as u64
            } else {
                u64::MAX
            },
    {
        let n: usize = self.utxos.len();
        let ghost items = self.utxos.items();
        let ghost f = |o: TxOut| worth(o, address@);
        proof {
            lemma_pair_sum(items, f);
        }
        let mut total: u64 = 0;
        let mut i: usize = 0;
        assert(items.take(0) =~= Seq::<(OutPoint, TxOut)>::empty());
        while i < n
            invariant
                i <= n,
                n == items.len(),
                items == self.utxos.items(),
                f == (|o: TxOut| worth(o, address@)),
                total == pair_sum(items.take(i as int), f),
                pair_sum(items, f) == balance(self@, address@),
            decreases n - i,
        {
            assert(items.take(i + 1).drop_last() =~= items.take(i as int));
            assert(items.take(i + 1).last() == items[i as int]);
            proof {
                lemma_pair_sum_take(items, f, i + 1);
            }
            let output = self.utxos.value_at(i);
            if slices_equal(output.script_pubkey.as_slice(), address) {
                match total.checked_add(output.value) {
                    Some(t) => {
                        total = t;
                    },
                    None => {
                        return u64::MAX;
                    },
                }
            }
            i += 1;
        }
        assert(items.take(i as int) =~= items);
        total
    }
}

/// Spending an output that was just added gives it back, and the set is as it was before, where
/// nothing stood in its place.
pub proof fn law_add_then_spend(
    before: Map<OutPoint, TxOut>,
    p: OutPoint,
    output: TxOut,
)
    requires
        !before.contains_key(p),
    ensures
        before.insert(p, output).contains_key(p),
        before.insert(p, output)[p] == output,
        before.insert(p, output).remove(p) == before,
{
    assert(before.insert(p, output).remove(p) =~= before);
}

/// Adding an output in a free place raises the balance of its owner by its value, and nobody
/// else's.
pub proof fn law_balance_grows_by_output(
    before: Map<OutPoint, TxOut>,
    p: OutPoint,
    output: TxOut,
    script: Seq<u8>,
)
    requires
        before.dom().finite(),
        !before.contains_key(p),
    ensures
        balance(before.insert(p, output), script) == balance(before, script) + worth(
            output,
            script,
        ),
{
    let f = |o: TxOut| worth(o, script);
    let values = before.map_values(f);
    assert(values.dom() =~= before.dom());
    lemma_map_sum_insert(values, p, worth(output, script));
    assert(before.insert(p, output).map_values(f) =~= values.insert(p, worth(output, script)));
}

/// In a valid transaction that is no coinbase the outputs spent are worth what it pays out and its
/// fee, and the fee is at least the minimum.
pub proof fn law_fee_is_the_difference(t: TransactionV, utxos: Map<OutPoint, TxOut>)
    requires
        !coinbase_transaction(t),
        fee_against(t, utxos) is Ok,
    ensures
        spendable(t.inputs, utxos, 0, 0) is Ok,
        payable(t.outputs, 0, 0) is Ok,
        spendable(t.inputs, utxos, 0, 0)->Ok_0 == payable(t.outputs, 0, 0)->Ok_0 + fee_against(
            t,
            utxos,
        )->Ok_0,
        fee_against(t, utxos)->Ok_0 >= MINIMUM_FEE_LYT,
{
}

} // verus!
