//! What holds of every transaction.
use crate::block::{
    authorized, coinbase_input, coinbase_transaction, input_bytes, inputs_bytes, inputs_total,
    law_outputs_add_up, output_bytes, output_values, outputs_bytes, outpoint_of, p2pkh_output,
    p2pkh_payment, parsed_script, sighash_of, signed_apart, signed_in_turn, spent_values,
    taken_count, transaction_bytes, unsigned_payment, validation, value_sum, LookupMap,
    TransactionV, TxInV, TxOut, TxOutV,
};
use crate::bytes::{
    le_bytes, lemma_le_bytes_len, lemma_le_value_of_bytes, lemma_pow256_words, pow256,
};
use crate::collections::{lemma_sum_push, sum_of};
use crate::primitives::{
    ecdsa_valid, is_compact_signature, parsed_public_key, ripemd160_of, sha256_of,
};
use crate::transaction::{
    canonical_bytes, canonical_input, canonical_inputs, canonical_output, canonical_outputs,
    fee_against, payable, repeats_input, spendable,
};
use crate::types::OutPoint;
use crate::wallet::{simple_payment, WalletV};
use vstd::prelude::*;

verus! {

/// Two sequences that begin with parts of one length agree in both parts.
proof fn lemma_cut(a: Seq<u8>, x: Seq<u8>, b: Seq<u8>, y: Seq<u8>)
    requires
        a + x == b + y,
        a.len() == b.len(),
    ensures
        a == b,
        x == y,
{
    assert((a + x).take(a.len() as int) =~= a);
    assert((b + y).take(b.len() as int) =~= b);
    assert((a + x).skip(a.len() as int) =~= x);
    assert((b + y).skip(b.len() as int) =~= y);
}

/// A number is known from its bytes.
proof fn lemma_le_injective(x: nat, y: nat, n: nat)
    requires
        x < pow256(n),
        y < pow256(n),
        le_bytes(x, n) == le_bytes(y, n),
    ensures
        x == y,
{
    lemma_le_value_of_bytes(x, n);
    lemma_le_value_of_bytes(y, n);
}

/// Whether the lengths in a transaction can be written in four bytes.
pub open spec fn writable(t: TransactionV) -> bool {
    &&& t.inputs.len() < 0x1_0000_0000
    &&& t.outputs.len() < 0x1_0000_0000
    &&& forall|i: int|
        0 <= i < t.inputs.len() ==> (#[trigger] t.inputs[i]).script_sig.len() < 0x1_0000_0000
    &&& forall|i: int|
        0 <= i < t.outputs.len() ==> (#[trigger] t.outputs[i]).script_pubkey.len() < 0x1_0000_0000
}

/// An input as it is written: without its script where it is blank.
pub open spec fn as_written(i: TxInV, blank: bool) -> TxInV {
    if blank {
        TxInV { script_sig: Seq::empty(), ..i }
    } else {
        i
    }
}

proof fn lemma_input_read(a: TxInV, b: TxInV, blank: bool, x: Seq<u8>, y: Seq<u8>)
    requires
        input_bytes(a, blank) + x == input_bytes(b, blank) + y,
        a.script_sig.len() < 0x1_0000_0000,
        b.script_sig.len() < 0x1_0000_0000,
    ensures
        as_written(a, blank) == as_written(b, blank),
        x == y,
{
    lemma_pow256_words();
    let s = as_written(a, blank).script_sig;
    let r = as_written(b, blank).script_sig;
    lemma_le_bytes_len(a.prev_index as nat, 4);
    lemma_le_bytes_len(b.prev_index as nat, 4);
    lemma_le_bytes_len(s.len(), 4);
    lemma_le_bytes_len(r.len(), 4);
    lemma_le_bytes_len(a.sequence as nat, 4);
    lemma_le_bytes_len(b.sequence as nat, 4);
    let a4 = le_bytes(a.sequence as nat, 4) + x;
    let b4 = le_bytes(b.sequence as nat, 4) + y;
    let a3 = s + a4;
    let b3 = r + b4;
    let a2 = le_bytes(s.len(), 4) + a3;
    let b2 = le_bytes(r.len(), 4) + b3;
    let a1 = le_bytes(a.prev_index as nat, 4) + a2;
    let b1 = le_bytes(b.prev_index as nat, 4) + b2;
    assert(input_bytes(a, blank) + x =~= a.prev_txid@ + a1);
    assert(input_bytes(b, blank) + y =~= b.prev_txid@ + b1);
    lemma_cut(a.prev_txid@, a1, b.prev_txid@, b1);
    lemma_cut(le_bytes(a.prev_index as nat, 4), a2, le_bytes(b.prev_index as nat, 4), b2);
    lemma_cut(le_bytes(s.len(), 4), a3, le_bytes(r.len(), 4), b3);
    lemma_le_injective(a.prev_index as nat, b.prev_index as nat, 4);
    lemma_le_injective(s.len(), r.len(), 4);
    lemma_cut(s, a4, r, b4);
    lemma_cut(le_bytes(a.sequence as nat, 4), x, le_bytes(b.sequence as nat, 4), y);
    lemma_le_injective(a.sequence as nat, b.sequence as nat, 4);
    assert(a.prev_txid =~= b.prev_txid);
}

/// The bytes of inputs begin with those of the first one.
proof fn lemma_inputs_first(ins: Seq<TxInV>, blank: int)
    requires
        ins.len() > 0,
    ensures
        inputs_bytes(ins, blank) == input_bytes(ins[0], blank == 0) + inputs_bytes(
            ins.drop_first(),
            blank - 1,
        ),
    decreases ins.len(),
{
    if ins.len() == 1 {
        reveal_with_fuel(inputs_bytes, 2);
        assert(ins.drop_last() =~= Seq::<TxInV>::empty());
        assert(ins.drop_first() =~= Seq::<TxInV>::empty());
        assert(Seq::<u8>::empty() + input_bytes(ins[0], blank == 0) =~= input_bytes(
            ins[0],
            blank == 0,
        ) + Seq::<u8>::empty());
    } else {
        lemma_inputs_first(ins.drop_last(), blank);
        let rest = ins.drop_first();
        assert(ins.drop_last().drop_first() =~= rest.drop_last());
        assert(rest.last() == ins.last());
        assert(inputs_bytes(ins, blank) =~= input_bytes(ins[0], blank == 0) + inputs_bytes(
            rest,
            blank - 1,
        ));
    }
}

proof fn lemma_inputs_read(
    a: Seq<TxInV>,
    b: Seq<TxInV>,
    blank: int,
    x: Seq<u8>,
    y: Seq<u8>,
)
    requires
        a.len() == b.len(),
        inputs_bytes(a, blank) + x == inputs_bytes(b, blank) + y,
        forall|i: int| 0 <= i < a.len() ==> (#[trigger] a[i]).script_sig.len() < 0x1_0000_0000,
        forall|i: int| 0 <= i < b.len() ==> (#[trigger] b[i]).script_sig.len() < 0x1_0000_0000,
    ensures
        forall|i: int|
            0 <= i < a.len() ==> as_written(#[trigger] a[i], i == blank) == as_written(
                b[i],
                i == blank,
            ),
        x == y,
    decreases a.len(),
{
    if a.len() == 0 {
        assert(inputs_bytes(a, blank) + x =~= x);
        assert(inputs_bytes(b, blank) + y =~= y);
    } else {
        lemma_inputs_first(a, blank);
        lemma_inputs_first(b, blank);
        let p = a.drop_first();
        let q = b.drop_first();
        let x1 = inputs_bytes(p, blank - 1) + x;
        let y1 = inputs_bytes(q, blank - 1) + y;
        assert(inputs_bytes(a, blank) + x =~= input_bytes(a[0], blank == 0) + x1);
        assert(inputs_bytes(b, blank) + y =~= input_bytes(b[0], blank == 0) + y1);
        lemma_input_read(a[0], b[0], blank == 0, x1, y1);
        assert forall|i: int| 0 <= i < p.len() implies (#[trigger] p[i]).script_sig.len()
            < 0x1_0000_0000 by {
            assert(p[i] == a[i + 1]);
        }
        assert forall|i: int| 0 <= i < q.len() implies (#[trigger] q[i]).script_sig.len()
            < 0x1_0000_0000 by {
            assert(q[i] == b[i + 1]);
        }
        lemma_inputs_read(p, q, blank - 1, x, y);
        assert forall|i: int| 0 <= i < a.len() implies as_written(#[trigger] a[i], i == blank)
            == as_written(b[i], i == blank) by {
            if i > 0 {
                assert(p[i - 1] == a[i]);
                assert(q[i - 1] == b[i]);
            }
        }
    }
}

proof fn lemma_outputs_first(outs: Seq<TxOutV>)
    requires
        outs.len() > 0,
    ensures
        outputs_bytes(outs) == output_bytes(outs[0]) + outputs_bytes(outs.drop_first()),
    decreases outs.len(),
{
    if outs.len() == 1 {
        reveal_with_fuel(outputs_bytes, 2);
        assert(outs.drop_last() =~= Seq::<TxOutV>::empty());
        assert(outs.drop_first() =~= Seq::<TxOutV>::empty());
        assert(Seq::<u8>::empty() + output_bytes(outs[0]) =~= output_bytes(outs[0]) + Seq::<
            u8,
        >::empty());
    } else {
        lemma_outputs_first(outs.drop_last());
        let rest = outs.drop_first();
        assert(outs.drop_last().drop_first() =~= rest.drop_last());
        assert(rest.last() == outs.last());
        assert(outputs_bytes(outs) =~= output_bytes(outs[0]) + outputs_bytes(rest));
    }
}

proof fn lemma_outputs_read(a: Seq<TxOutV>, b: Seq<TxOutV>, x: Seq<u8>, y: Seq<u8>)
    requires
        a.len() == b.len(),
        outputs_bytes(a) + x == outputs_bytes(b) + y,
        forall|i: int| 0 <= i < a.len() ==> (#[trigger] a[i]).script_pubkey.len() < 0x1_0000_0000,
        forall|i: int| 0 <= i < b.len() ==> (#[trigger] b[i]).script_pubkey.len() < 0x1_0000_0000,
    ensures
        a == b,
        x == y,
    decreases a.len(),
{
    if a.len() == 0 {
        assert(outputs_bytes(a) + x =~= x);
        assert(outputs_bytes(b) + y =~= y);
        assert(a =~= b);
    } else {
        lemma_pow256_words();
        lemma_outputs_first(a);
        lemma_outputs_first(b);
        let p = a.drop_first();
        let q = b.drop_first();
        let s = a[0].script_pubkey;
        let r = b[0].script_pubkey;
        lemma_le_bytes_len(a[0].value as nat, 8);
        lemma_le_bytes_len(b[0].value as nat, 8);
        lemma_le_bytes_len(s.len(), 4);
        lemma_le_bytes_len(r.len(), 4);
        let a3 = outputs_bytes(p) + x;
        let b3 = outputs_bytes(q) + y;
        let a2 = s + a3;
        let b2 = r + b3;
        let a1 = le_bytes(s.len(), 4) + a2;
        let b1 = le_bytes(r.len(), 4) + b2;
        assert(outputs_bytes(a) + x =~= le_bytes(a[0].value as nat, 8) + a1);
        assert(outputs_bytes(b) + y =~= le_bytes(b[0].value as nat, 8) + b1);
        lemma_cut(le_bytes(a[0].value as nat, 8), a1, le_bytes(b[0].value as nat, 8), b1);
        lemma_le_injective(a[0].value as nat, b[0].value as nat, 8);
        lemma_cut(le_bytes(s.len(), 4), a2, le_bytes(r.len(), 4), b2);
        lemma_le_injective(s.len(), r.len(), 4);
        lemma_cut(s, a3, r, b3);
        assert forall|i: int| 0 <= i < p.len() implies (#[trigger] p[i]).script_pubkey.len()
            < 0x1_0000_0000 by {
            assert(p[i] == a[i + 1]);
        }
        assert forall|i: int| 0 <= i < q.len() implies (#[trigger] q[i]).script_pubkey.len()
            < 0x1_0000_0000 by {
            assert(q[i] == b[i + 1]);
        }
        lemma_outputs_read(p, q, x, y);
        assert forall|i: int| 0 <= i < a.len() implies a[i] == b[i] by {
            if i > 0 {
                assert(p[i - 1] == a[i]);
                assert(q[i - 1] == b[i]);
            }
        }
        assert(a =~= b);
    }
}

/// The bytes of a transaction tell everything in it, but for the script of the input that is left
/// blank: what is hashed for its identifier tells all of it, and what an input signs tells all but
/// that input's own script.
pub proof fn law_transaction_bytes_tell_all(a: TransactionV, b: TransactionV, blank: int)
    requires
        writable(a),
        writable(b),
        transaction_bytes(a, blank) == transaction_bytes(b, blank),
    ensures
        a.version == b.version,
        a.locktime == b.locktime,
        a.outputs == b.outputs,
        a.inputs.len() == b.inputs.len(),
        forall|i: int|
            0 <= i < a.inputs.len() ==> (#[trigger] a.inputs[i]).prev_txid == b.inputs[i].prev_txid
                && a.inputs[i].prev_index == b.inputs[i].prev_index && a.inputs[i].sequence
                == b.inputs[i].sequence && (i != blank ==> a.inputs[i].script_sig
                == b.inputs[i].script_sig),
        !(0 <= blank < a.inputs.len()) ==> a == b,
{
    lemma_pow256_words();
    lemma_le_bytes_len(a.version as nat, 4);
    lemma_le_bytes_len(b.version as nat, 4);
    lemma_le_bytes_len(a.inputs.len(), 4);
    lemma_le_bytes_len(b.inputs.len(), 4);
    lemma_le_bytes_len(a.outputs.len(), 4);
    lemma_le_bytes_len(b.outputs.len(), 4);
    lemma_le_bytes_len(a.locktime as nat, 4);
    lemma_le_bytes_len(b.locktime as nat, 4);
    let a5 = le_bytes(a.locktime as nat, 4);
    let b5 = le_bytes(b.locktime as nat, 4);
    let a4 = outputs_bytes(a.outputs) + a5;
    let b4 = outputs_bytes(b.outputs) + b5;
    let a3 = le_bytes(a.outputs.len(), 4) + a4;
    let b3 = le_bytes(b.outputs.len(), 4) + b4;
    let a2 = inputs_bytes(a.inputs, blank) + a3;
    let b2 = inputs_bytes(b.inputs, blank) + b3;
    let a1 = le_bytes(a.inputs.len(), 4) + a2;
    let b1 = le_bytes(b.inputs.len(), 4) + b2;
    assert(transaction_bytes(a, blank) =~= le_bytes(a.version as nat, 4) + a1);
    assert(transaction_bytes(b, blank) =~= le_bytes(b.version as nat, 4) + b1);
    lemma_cut(le_bytes(a.version as nat, 4), a1, le_bytes(b.version as nat, 4), b1);
    lemma_le_injective(a.version as nat, b.version as nat, 4);
    lemma_cut(le_bytes(a.inputs.len(), 4), a2, le_bytes(b.inputs.len(), 4), b2);
    lemma_le_injective(a.inputs.len(), b.inputs.len(), 4);
    lemma_inputs_read(a.inputs, b.inputs, blank, a3, b3);
    lemma_cut(le_bytes(a.outputs.len(), 4), a4, le_bytes(b.outputs.len(), 4), b4);
    lemma_le_injective(a.outputs.len(), b.outputs.len(), 4);
    lemma_outputs_read(a.outputs, b.outputs, a5, b5);
    lemma_le_injective(a.locktime as nat, b.locktime as nat, 4);
    assert forall|i: int| 0 <= i < a.inputs.len() implies (#[trigger] a.inputs[i]).prev_txid
        == b.inputs[i].prev_txid && a.inputs[i].prev_index == b.inputs[i].prev_index
        && a.inputs[i].sequence == b.inputs[i].sequence && (i != blank ==> a.inputs[i].script_sig
        == b.inputs[i].script_sig) by {
        assert(as_written(a.inputs[i], i == blank) == as_written(b.inputs[i], i == blank));
    }
    if !(0 <= blank < a.inputs.len()) {
        assert(a.inputs =~= b.inputs);
    }
}

/// What an input signs does not depend on the script in that input.
pub proof fn law_signature_does_not_cover_itself(t: TransactionV, k: int, script: Seq<u8>)
    requires
        0 <= k < t.inputs.len(),
    ensures
        ({
            let u = TransactionV {
                inputs: t.inputs.update(k, TxInV { script_sig: script, ..t.inputs[k] }),
                ..t
            };
            sighash_of(u, k) == sighash_of(t, k)
        }),
{
    let changed = t.inputs.update(k, TxInV { script_sig: script, ..t.inputs[k] });
    lemma_blank_script(t.inputs, changed, k, t.inputs.len() as int);
    assert(t.inputs.take(t.inputs.len() as int) =~= t.inputs);
    assert(changed.take(changed.len() as int) =~= changed);
}

proof fn lemma_blank_script(a: Seq<TxInV>, b: Seq<TxInV>, k: int, n: int)
    requires
        0 <= n <= a.len(),
        a.len() == b.len(),
        forall|i: int|
            0 <= i < a.len() ==> as_written(#[trigger] a[i], i == k) == as_written(b[i], i == k),
    ensures
        inputs_bytes(a.take(n), k) == inputs_bytes(b.take(n), k),
    decreases n,
{
    if n > 0 {
        lemma_blank_script(a, b, k, n - 1);
        assert(a.take(n).drop_last() =~= a.take(n - 1));
        assert(b.take(n).drop_last() =~= b.take(n - 1));
        assert(as_written(a[n - 1], n - 1 == k) == as_written(b[n - 1], n - 1 == k));
        let x = as_written(a[n - 1], n - 1 == k);
        let y = a[n - 1];
        let z = b[n - 1];
        assert(x.prev_txid == y.prev_txid && x.prev_index == y.prev_index && x.sequence
            == y.sequence);
        assert(x.prev_txid == z.prev_txid && x.prev_index == z.prev_index && x.sequence
            == z.sequence);
    } else {
        assert(a.take(0) =~= b.take(0));
    }
}

proof fn lemma_inputs_checked(t: TransactionV, utxos: LookupMap, i: int, sum: nat)
    requires
        0 <= i <= t.inputs.len(),
        sum == sum_of(spent_values(t, utxos).take(i)),
        sum <= u64::MAX,
    ensures
        ({
            let r = inputs_total(t, utxos, i, sum);
            let v = spent_values(t, utxos);
            let fine = forall|k: int|
                i <= k < t.inputs.len() ==> input_in_order(t, utxos, #[trigger] t.inputs[k], k);
            &&& r is Ok <==> fine && sum_of(v) <= u64::MAX
            &&& r is Ok ==> r->Ok_0 == sum_of(v)
        }),
    decreases t.inputs.len() - i,
{
    let v = spent_values(t, utxos);
    if i == t.inputs.len() {
        assert(v.take(i) =~= v);
    } else {
        let input = t.inputs[i];
        lemma_sum_push(v.take(i), v[i]);
        assert(v.take(i + 1) =~= v.take(i).push(v[i]));
        crate::collections::lemma_sum_prefix(v, i + 1);
        assert(outpoint_of(input) == (input.prev_txid, input.prev_index));
        if input_in_order(t, utxos, input, i) && sum + v[i] <= u64::MAX {
            lemma_inputs_checked(t, utxos, i + 1, sum + v[i]);
            if forall|k: int|
                i + 1 <= k < t.inputs.len() ==> input_in_order(
                    t,
                    utxos,
                    #[trigger] t.inputs[k],
                    k,
                ) {
                assert forall|k: int| i <= k < t.inputs.len() implies input_in_order(
                    t,
                    utxos,
                    #[trigger] t.inputs[k],
                    k,
                ) by {}
            }
        }
    }
}

/// Whether the store answers with the output that an input spends, and the input may spend it.
pub open spec fn input_in_order(
    t: TransactionV,
    utxos: LookupMap,
    input: TxInV,
    k: int,
) -> bool {
    &&& utxos.contains_key((input.prev_txid, input.prev_index))
    &&& utxos[(input.prev_txid, input.prev_index)] is Ok
    &&& authorized(input, t, k, utxos[(input.prev_txid, input.prev_index)]->Ok_0@)
}

/// A transaction that creates no coins is valid exactly when it has inputs and outputs, no output
/// is below 100, what it pays out is within the supply, no output is spent by two of its inputs,
/// the store answers with every output that it spends, each input may spend its own, and what is
/// spent, no more than fits, covers what is paid out and at least 50 more. The rest is its fee.
pub proof fn law_when_a_transaction_is_valid(t: TransactionV, utxos: LookupMap)
    requires
        !coinbase_transaction(t),
    ensures
        validation(t, utxos) is Ok <==> {
            &&& t.inputs.len() > 0
            &&& t.outputs.len() > 0
            &&& forall|i: int| 0 <= i < t.outputs.len() ==> (#[trigger] t.outputs[i]).value >= 100
            &&& sum_of(output_values(t.outputs)) <= 1_500_000_000_000_000
            &&& forall|i: int, j: int|
                0 <= i < j < t.inputs.len() && !coinbase_input(#[trigger] t.inputs[i])
                    && !coinbase_input(#[trigger] t.inputs[j]) ==> (
                    t.inputs[i].prev_txid,
                    t.inputs[i].prev_index,
                ) != (t.inputs[j].prev_txid, t.inputs[j].prev_index)
            &&& forall|k: int|
                0 <= k < t.inputs.len() ==> input_in_order(t, utxos, #[trigger] t.inputs[k], k)
            &&& sum_of(spent_values(t, utxos)) <= u64::MAX
            &&& sum_of(spent_values(t, utxos)) >= sum_of(output_values(t.outputs)) + 50
        },
        validation(t, utxos) is Ok ==> validation(t, utxos)->Ok_0 + sum_of(
            output_values(t.outputs),
        ) == sum_of(spent_values(t, utxos)),
{
    law_outputs_add_up(t.outputs);
    lemma_sum_push(Seq::<nat>::empty(), 0);
    assert(spent_values(t, utxos).take(0) =~= Seq::<nat>::empty());
    lemma_inputs_checked(t, utxos, 0, 0);
}

/// An output that pays to the hash of a key is spent only with that key: the script of the input
/// holds a key with that hash, and a signature of what the input signs that verifies under it.
pub proof fn law_only_the_key_spends(i: TxInV, t: TransactionV, k: int, hash: Seq<u8>, value: u64)
    requires
        hash.len() == 20,
        !coinbase_input(i),
    ensures
        ({
            let utxo = TxOutV {
                value,
                script_pubkey: seq![0x76u8, 0xA9u8, 0x14u8] + hash + seq![0x88u8, 0xACu8],
            };
            authorized(i, t, k, utxo) <==> {
                &&& parsed_script(i.script_sig) matches Some((sig, key))
                &&& ripemd160_of(sha256_of(key)) == hash
                &&& parsed_public_key(key) is Some
                &&& is_compact_signature(sig)
                &&& ecdsa_valid(parsed_public_key(key)->0, sig, sighash_of(t, k))
            }
        }),
{
    let script = seq![0x76u8, 0xA9u8, 0x14u8] + hash + seq![0x88u8, 0xACu8];
    assert(script.subrange(3, 23) =~= hash);
}

/// A script of a signature and a key, each behind its length, is read as them.
pub proof fn law_script_gives_signature_and_key(sig: Seq<u8>, key: Seq<u8>)
    requires
        0 < sig.len() < 256,
        key.len() < 256,
    ensures
        parsed_script(seq![sig.len() as u8] + sig + seq![key.len() as u8] + key) == Some((sig, key)),
{
    let script = seq![sig.len() as u8] + sig + seq![key.len() as u8] + key;
    assert(script[0] == sig.len() as u8);
    assert(script[1 + sig.len() as int] == key.len() as u8);
    assert(script.subrange(1, 1 + sig.len() as int) =~= sig);
    assert(script.subrange(2 + sig.len() as int, script.len() as int) =~= key);
}

/// The values of owned outputs.
pub open spec fn owned_values(utxos: Seq<(OutPoint, TxOut)>) -> Seq<nat> {
    utxos.map_values(|u: (OutPoint, TxOut)| u.1.value as nat)
}

proof fn lemma_owned_add_up(utxos: Seq<(OutPoint, TxOut)>)
    ensures
        value_sum(utxos) == sum_of(owned_values(utxos)),
    decreases utxos.len(),
{
    let v = owned_values(utxos);
    lemma_sum_push(Seq::<nat>::empty(), 0);
    if utxos.len() == 0 {
        assert(v =~= Seq::<nat>::empty());
    } else {
        lemma_owned_add_up(utxos.drop_last());
        let w = owned_values(utxos.drop_last());
        lemma_sum_push(w, utxos.last().1.value as nat);
        assert(v =~= w.push(utxos.last().1.value as nat));
    }
}

proof fn lemma_taken(utxos: Seq<(OutPoint, TxOut)>, need: nat, k: nat)
    requires
        k <= utxos.len(),
        k > 0 ==> value_sum(utxos.take(k as int)) < need,
    ensures
        ({
            let n = taken_count(utxos, need, k);
            &&& k <= n <= utxos.len()
            &&& n < utxos.len() ==> value_sum(utxos.take(n as int)) >= need
            &&& n > 0 && n > k ==> (n == 1 || value_sum(utxos.take(n - 1)) < need)
        }),
    decreases utxos.len() - k,
{
    if k < utxos.len() {
        if value_sum(utxos.take(k as int + 1)) < need {
            lemma_taken(utxos, need, k + 1);
        }
    }
}

/// Whether a transaction is a right payment: it spends the first `n` of the outputs, no more of
/// them than it takes, pays the amount to the address first, and keeps of what is left at most 100
/// besides the fee, unless it goes back to its own address.
pub open spec fn pays_right(
    t: TransactionV,
    utxos: Seq<(OutPoint, TxOut)>,
    own_address: Seq<char>,
    to: Seq<char>,
    amount: u64,
    fee: u64,
) -> bool {
    let n = t.inputs.len();
    let spent = sum_of(owned_values(utxos.take(n as int)));
    let paid = sum_of(output_values(t.outputs));
    &&& n <= utxos.len()
    &&& forall|i: int|
        0 <= i < n ==> ((#[trigger] t.inputs[i]).prev_txid, t.inputs[i].prev_index) == utxos[i].0
    &&& n > 1 ==> sum_of(owned_values(utxos.take(n - 1))) < amount + fee
    &&& t.outputs.len() >= 1
    &&& t.outputs[0].value == amount
    &&& p2pkh_output(to) is Ok
    &&& t.outputs[0].script_pubkey == p2pkh_output(to)->Ok_0.script_pubkey
    &&& t.outputs.len() == 1 ==> paid + fee <= spent <= paid + fee + 100
    &&& t.outputs.len() > 1 ==> t.outputs.len() == 2 && spent == paid + fee && t.outputs[1].value
        > 100 && p2pkh_output(own_address) is Ok && t.outputs[1].script_pubkey == p2pkh_output(
        own_address,
    )->Ok_0.script_pubkey
}

proof fn lemma_unsigned_pays(
    utxos: Seq<(OutPoint, TxOut)>,
    own_address: Seq<char>,
    to: Seq<char>,
    amount: u64,
    fee: u64,
    t: TransactionV,
)
    requires
        ({
            let n = taken_count(utxos, (amount + fee) as nat, 0);
            &&& value_sum(utxos.take(n as int)) >= amount + fee
            &&& value_sum(utxos.take(n as int)) <= u64::MAX
            &&& unsigned_payment(utxos, n, own_address, to, amount, fee) == Ok::<
                TransactionV,
                Seq<char>,
            >(t)
        }),
    ensures
        pays_right(t, utxos, own_address, to, amount, fee),
{
    let need = (amount + fee) as nat;
    let n = taken_count(utxos, need, 0);
    lemma_taken(utxos, need, 0);
    lemma_owned_add_up(utxos.take(n as int));
    if n > 1 {
        lemma_owned_add_up(utxos.take(n - 1));
    }
    let v = output_values(t.outputs);
    lemma_sum_push(Seq::<nat>::empty(), amount as nat);
    if t.outputs.len() == 1 {
        assert(v =~= Seq::<nat>::empty().push(amount as nat));
    } else {
        let change = t.outputs[1].value as nat;
        lemma_sum_push(Seq::<nat>::empty().push(amount as nat), change);
        assert(v =~= Seq::<nat>::empty().push(amount as nat).push(change));
    }
}

proof fn lemma_in_turn_keeps(t: TransactionV, w: WalletV, n: int)
    requires
        0 <= n <= t.inputs.len(),
    ensures
        ({
            let u = signed_in_turn(t, w, n);
            &&& u.outputs == t.outputs
            &&& u.inputs.len() == t.inputs.len()
            &&& forall|i: int|
                0 <= i < t.inputs.len() ==> (#[trigger] u.inputs[i]).prev_txid
                    == t.inputs[i].prev_txid && u.inputs[i].prev_index == t.inputs[i].prev_index
        }),
    decreases n,
{
    if n > 0 {
        lemma_in_turn_keeps(t, w, n - 1);
    }
}

/// Every payment that a wallet makes is right: both ways of making one spend only what they need,
/// pay the amount to the address, and account for everything that they spend.
pub proof fn law_payments_account_for_what_they_spend(
    w: WalletV,
    to: Seq<char>,
    amount: u64,
    fee: u64,
    utxos: Seq<(OutPoint, TxOut)>,
)
    requires
        sum_of(owned_values(utxos)) <= u64::MAX,
    ensures
        p2pkh_payment(w, to, amount, fee, utxos) matches Ok(t) ==> pays_right(
            t,
            utxos,
            w.address,
            to,
            amount,
            fee,
        ),
        simple_payment(w, utxos, to, amount, fee) matches Ok(t) ==> pays_right(
            t,
            utxos,
            w.address,
            to,
            amount,
            fee,
        ),
        sum_of(owned_values(utxos)) < amount + fee ==> p2pkh_payment(w, to, amount, fee, utxos)
            is Err && simple_payment(w, utxos, to, amount, fee) is Err,
{
    let need = (amount + fee) as nat;
    let n = taken_count(utxos, need, 0);
    lemma_taken(utxos, need, 0);
    lemma_owned_add_up(utxos.take(n as int));
    lemma_owned_add_up(utxos);
    assert(owned_values(utxos.take(n as int)) =~= owned_values(utxos).take(n as int));
    crate::collections::lemma_sum_prefix(owned_values(utxos), n as int);
    if value_sum(utxos.take(n as int)) >= amount + fee {
        match unsigned_payment(utxos, n, w.address, to, amount, fee) {
            Err(_) => {},
            Ok(t) => {
                lemma_unsigned_pays(utxos, w.address, to, amount, fee, t);
                lemma_in_turn_keeps(t, w, n as int);
                let a = signed_apart(t, w, n as int);
                let b = signed_in_turn(t, w, n as int);
                assert(pays_right(a, utxos, w.address, to, amount, fee)) by {
                    assert forall|i: int| 0 <= i < a.inputs.len() implies (
                        (#[trigger] a.inputs[i]).prev_txid,
                        a.inputs[i].prev_index,
                    ) == utxos[i].0 by {
                        assert((t.inputs[i].prev_txid, t.inputs[i].prev_index) == utxos[i].0);
                    }
                }
                assert(pays_right(b, utxos, w.address, to, amount, fee)) by {
                    assert forall|i: int| 0 <= i < b.inputs.len() implies (
                        (#[trigger] b.inputs[i]).prev_txid,
                        b.inputs[i].prev_index,
                    ) == utxos[i].0 by {
                        assert((t.inputs[i].prev_txid, t.inputs[i].prev_index) == utxos[i].0);
                    }
                }
            },
        }
    }
}

proof fn lemma_canonical_input_read(a: TxInV, b: TxInV, x: Seq<u8>, y: Seq<u8>)
    requires
        canonical_input(a) + x == canonical_input(b) + y,
        a.script_sig.len() <= u64::MAX,
        b.script_sig.len() <= u64::MAX,
    ensures
        a == b,
        x == y,
{
    lemma_pow256_words();
    let s = a.script_sig;
    let r = b.script_sig;
    lemma_le_bytes_len(a.prev_index as nat, 4);
    lemma_le_bytes_len(b.prev_index as nat, 4);
    lemma_le_bytes_len(s.len(), 8);
    lemma_le_bytes_len(r.len(), 8);
    lemma_le_bytes_len(a.sequence as nat, 4);
    lemma_le_bytes_len(b.sequence as nat, 4);
    let a4 = le_bytes(a.sequence as nat, 4) + x;
    let b4 = le_bytes(b.sequence as nat, 4) + y;
    let a3 = s + a4;
    let b3 = r + b4;
    let a2 = le_bytes(s.len(), 8) + a3;
    let b2 = le_bytes(r.len(), 8) + b3;
    let a1 = le_bytes(a.prev_index as nat, 4) + a2;
    let b1 = le_bytes(b.prev_index as nat, 4) + b2;
    assert(canonical_input(a) + x =~= a.prev_txid@ + a1);
    assert(canonical_input(b) + y =~= b.prev_txid@ + b1);
    lemma_cut(a.prev_txid@, a1, b.prev_txid@, b1);
    lemma_cut(le_bytes(a.prev_index as nat, 4), a2, le_bytes(b.prev_index as nat, 4), b2);
    lemma_cut(le_bytes(s.len(), 8), a3, le_bytes(r.len(), 8), b3);
    lemma_le_injective(a.prev_index as nat, b.prev_index as nat, 4);
    lemma_le_injective(s.len(), r.len(), 8);
    lemma_cut(s, a4, r, b4);
    lemma_cut(le_bytes(a.sequence as nat, 4), x, le_bytes(b.sequence as nat, 4), y);
    lemma_le_injective(a.sequence as nat, b.sequence as nat, 4);
    assert(a.prev_txid =~= b.prev_txid);
}

proof fn lemma_canonical_inputs_first(ins: Seq<TxInV>)
    requires
        ins.len() > 0,
    ensures
        canonical_inputs(ins) == canonical_input(ins[0]) + canonical_inputs(ins.drop_first()),
    decreases ins.len(),
{
    if ins.len() == 1 {
        reveal_with_fuel(canonical_inputs, 2);
        assert(ins.drop_last() =~= Seq::<TxInV>::empty());
        assert(ins.drop_first() =~= Seq::<TxInV>::empty());
        assert(Seq::<u8>::empty() + canonical_input(ins[0]) =~= canonical_input(ins[0]) + Seq::<
            u8,
        >::empty());
    } else {
        lemma_canonical_inputs_first(ins.drop_last());
        let rest = ins.drop_first();
        assert(ins.drop_last().drop_first() =~= rest.drop_last());
        assert(rest.last() == ins.last());
        assert(canonical_inputs(ins) =~= canonical_input(ins[0]) + canonical_inputs(rest));
    }
}

proof fn lemma_canonical_inputs_read(a: Seq<TxInV>, b: Seq<TxInV>, x: Seq<u8>, y: Seq<u8>)
    requires
        a.len() == b.len(),
        canonical_inputs(a) + x == canonical_inputs(b) + y,
        forall|i: int| 0 <= i < a.len() ==> (#[trigger] a[i]).script_sig.len() <= u64::MAX,
        forall|i: int| 0 <= i < b.len() ==> (#[trigger] b[i]).script_sig.len() <= u64::MAX,
    ensures
        a == b,
        x == y,
    decreases a.len(),
{
    if a.len() == 0 {
        assert(canonical_inputs(a) + x =~= x);
        assert(canonical_inputs(b) + y =~= y);
        assert(a =~= b);
    } else {
        lemma_canonical_inputs_first(a);
        lemma_canonical_inputs_first(b);
        let p = a.drop_first();
        let q = b.drop_first();
        let x1 = canonical_inputs(p) + x;
        let y1 = canonical_inputs(q) + y;
        assert(canonical_inputs(a) + x =~= canonical_input(a[0]) + x1);
        assert(canonical_inputs(b) + y =~= canonical_input(b[0]) + y1);
        lemma_canonical_input_read(a[0], b[0], x1, y1);
        assert forall|i: int| 0 <= i < p.len() implies (#[trigger] p[i]).script_sig.len()
            <= u64::MAX by {
            assert(p[i] == a[i + 1]);
        }
        assert forall|i: int| 0 <= i < q.len() implies (#[trigger] q[i]).script_sig.len()
            <= u64::MAX by {
            assert(q[i] == b[i + 1]);
        }
        lemma_canonical_inputs_read(p, q, x, y);
        assert forall|i: int| 0 <= i < a.len() implies a[i] == b[i] by {
            if i > 0 {
                assert(p[i - 1] == a[i]);
                assert(q[i - 1] == b[i]);
            }
        }
        assert(a =~= b);
    }
}

proof fn lemma_canonical_outputs_first(outs: Seq<TxOutV>)
    requires
        outs.len() > 0,
    ensures
        canonical_outputs(outs) == canonical_output(outs[0]) + canonical_outputs(
            outs.drop_first(),
        ),
    decreases outs.len(),
{
    if outs.len() == 1 {
        reveal_with_fuel(canonical_outputs, 2);
        assert(outs.drop_last() =~= Seq::<TxOutV>::empty());
        assert(outs.drop_first() =~= Seq::<TxOutV>::empty());
        assert(Seq::<u8>::empty() + canonical_output(outs[0]) =~= canonical_output(outs[0])
            + Seq::<u8>::empty());
    } else {
        lemma_canonical_outputs_first(outs.drop_last());
        let rest = outs.drop_first();
        assert(outs.drop_last().drop_first() =~= rest.drop_last());
        assert(rest.last() == outs.last());
        assert(canonical_outputs(outs) =~= canonical_output(outs[0]) + canonical_outputs(rest));
    }
}

proof fn lemma_canonical_outputs_read(a: Seq<TxOutV>, b: Seq<TxOutV>, x: Seq<u8>, y: Seq<u8>)
    requires
        a.len() == b.len(),
        canonical_outputs(a) + x == canonical_outputs(b) + y,
        forall|i: int| 0 <= i < a.len() ==> (#[trigger] a[i]).script_pubkey.len() <= u64::MAX,
        forall|i: int| 0 <= i < b.len() ==> (#[trigger] b[i]).script_pubkey.len() <= u64::MAX,
    ensures
        a == b,
        x == y,
    decreases a.len(),
{
    if a.len() == 0 {
        assert(canonical_outputs(a) + x =~= x);
        assert(canonical_outputs(b) + y =~= y);
        assert(a =~= b);
    } else {
        lemma_pow256_words();
        lemma_canonical_outputs_first(a);
        lemma_canonical_outputs_first(b);
        let p = a.drop_first();
        let q = b.drop_first();
        let s = a[0].script_pubkey;
        let r = b[0].script_pubkey;
        lemma_le_bytes_len(a[0].value as nat, 8);
        lemma_le_bytes_len(b[0].value as nat, 8);
        lemma_le_bytes_len(s.len(), 8);
        lemma_le_bytes_len(r.len(), 8);
        let a3 = canonical_outputs(p) + x;
        let b3 = canonical_outputs(q) + y;
        let a2 = s + a3;
        let b2 = r + b3;
        let a1 = le_bytes(s.len(), 8) + a2;
        let b1 = le_bytes(r.len(), 8) + b2;
        assert(canonical_outputs(a) + x =~= le_bytes(a[0].value as nat, 8) + a1);
        assert(canonical_outputs(b) + y =~= le_bytes(b[0].value as nat, 8) + b1);
        lemma_cut(le_bytes(a[0].value as nat, 8), a1, le_bytes(b[0].value as nat, 8), b1);
        lemma_le_injective(a[0].value as nat, b[0].value as nat, 8);
        lemma_cut(le_bytes(s.len(), 8), a2, le_bytes(r.len(), 8), b2);
        lemma_le_injective(s.len(), r.len(), 8);
        lemma_cut(s, a3, r, b3);
        assert forall|i: int| 0 <= i < p.len() implies (#[trigger] p[i]).script_pubkey.len()
            <= u64::MAX by {
            assert(p[i] == a[i + 1]);
        }
        assert forall|i: int| 0 <= i < q.len() implies (#[trigger] q[i]).script_pubkey.len()
            <= u64::MAX by {
            assert(q[i] == b[i + 1]);
        }
        lemma_canonical_outputs_read(p, q, x, y);
        assert forall|i: int| 0 <= i < a.len() implies a[i] == b[i] by {
            if i > 0 {
                assert(p[i - 1] == a[i]);
                assert(q[i - 1] == b[i]);
            }
        }
        assert(a =~= b);
    }
}

/// The canonical bytes of a transaction tell all of it.
pub proof fn law_canonical_bytes_tell_all(a: TransactionV, b: TransactionV)
    requires
        a.inputs.len() <= u64::MAX,
        b.inputs.len() <= u64::MAX,
        a.outputs.len() <= u64::MAX,
        b.outputs.len() <= u64::MAX,
        forall|i: int|
            0 <= i < a.inputs.len() ==> (#[trigger] a.inputs[i]).script_sig.len() <= u64::MAX,
        forall|i: int|
            0 <= i < b.inputs.len() ==> (#[trigger] b.inputs[i]).script_sig.len() <= u64::MAX,
        forall|i: int|
            0 <= i < a.outputs.len() ==> (#[trigger] a.outputs[i]).script_pubkey.len() <= u64::MAX,
        forall|i: int|
            0 <= i < b.outputs.len() ==> (#[trigger] b.outputs[i]).script_pubkey.len() <= u64::MAX,
        canonical_bytes(a) == canonical_bytes(b),
    ensures
        a == b,
{
    lemma_pow256_words();
    lemma_le_bytes_len(a.version as nat, 4);
    lemma_le_bytes_len(b.version as nat, 4);
    lemma_le_bytes_len(a.inputs.len(), 8);
    lemma_le_bytes_len(b.inputs.len(), 8);
    lemma_le_bytes_len(a.outputs.len(), 8);
    lemma_le_bytes_len(b.outputs.len(), 8);
    lemma_le_bytes_len(a.locktime as nat, 4);
    lemma_le_bytes_len(b.locktime as nat, 4);
    let a5 = le_bytes(a.locktime as nat, 4);
    let b5 = le_bytes(b.locktime as nat, 4);
    let a4 = canonical_outputs(a.outputs) + a5;
    let b4 = canonical_outputs(b.outputs) + b5;
    let a3 = le_bytes(a.outputs.len(), 8) + a4;
    let b3 = le_bytes(b.outputs.len(), 8) + b4;
    let a2 = canonical_inputs(a.inputs) + a3;
    let b2 = canonical_inputs(b.inputs) + b3;
    let a1 = le_bytes(a.inputs.len(), 8) + a2;
    let b1 = le_bytes(b.inputs.len(), 8) + b2;
    assert(canonical_bytes(a) =~= le_bytes(a.version as nat, 4) + a1);
    assert(canonical_bytes(b) =~= le_bytes(b.version as nat, 4) + b1);
    lemma_cut(le_bytes(a.version as nat, 4), a1, le_bytes(b.version as nat, 4), b1);
    lemma_le_injective(a.version as nat, b.version as nat, 4);
    lemma_cut(le_bytes(a.inputs.len(), 8), a2, le_bytes(b.inputs.len(), 8), b2);
    lemma_le_injective(a.inputs.len(), b.inputs.len(), 8);
    lemma_canonical_inputs_read(a.inputs, b.inputs, a3, b3);
    lemma_cut(le_bytes(a.outputs.len(), 8), a4, le_bytes(b.outputs.len(), 8), b4);
    lemma_le_injective(a.outputs.len(), b.outputs.len(), 8);
    lemma_canonical_outputs_read(a.outputs, b.outputs, a5, b5);
    lemma_le_injective(a.locktime as nat, b.locktime as nat, 4);
}

/// The values of the outputs of a set that inputs spend.
pub open spec fn values_in(ins: Seq<TxInV>, utxos: Map<OutPoint, TxOut>) -> Seq<nat> {
    ins.map_values(|i: TxInV| utxos[(i.prev_txid, i.prev_index)].value as nat)
}

proof fn lemma_spendable(ins: Seq<TxInV>, utxos: Map<OutPoint, TxOut>, i: int, sum: nat)
    requires
        0 <= i <= ins.len(),
        sum == sum_of(values_in(ins, utxos).take(i)),
        sum <= u64::MAX,
    ensures
        ({
            let r = spendable(ins, utxos, i, sum);
            let v = values_in(ins, utxos);
            &&& r is Ok <==> sum_of(v) <= u64::MAX && forall|k: int|
                i <= k < ins.len() ==> !repeats_input(ins, k) && utxos.contains_key(
                    ((#[trigger] ins[k]).prev_txid, ins[k].prev_index),
                )
            &&& r is Ok ==> r->Ok_0 == sum_of(v)
        }),
    decreases ins.len() - i,
{
    let v = values_in(ins, utxos);
    if i == ins.len() {
        assert(v.take(i) =~= v);
    } else {
        lemma_sum_push(v.take(i), v[i]);
        assert(v.take(i + 1) =~= v.take(i).push(v[i]));
        crate::collections::lemma_sum_prefix(v, i + 1);
        assert(outpoint_of(ins[i]) == (ins[i].prev_txid, ins[i].prev_index));
        if sum + v[i] <= u64::MAX {
            lemma_spendable(ins, utxos, i + 1, sum + v[i]);
        }
    }
}

proof fn lemma_payable(outs: Seq<TxOutV>, i: int, sum: nat)
    requires
        0 <= i <= outs.len(),
        sum == sum_of(output_values(outs).take(i)),
        sum <= u64::MAX,
    ensures
        ({
            let r = payable(outs, i, sum);
            let v = output_values(outs);
            &&& r is Ok <==> sum_of(v) <= u64::MAX && forall|k: int|
                i <= k < outs.len() ==> (#[trigger] outs[k]).value >= 100
            &&& r is Ok ==> r->Ok_0 == sum_of(v)
        }),
    decreases outs.len() - i,
{
    let v = output_values(outs);
    if i == outs.len() {
        assert(v.take(i) =~= v);
    } else {
        lemma_sum_push(v.take(i), v[i]);
        assert(v.take(i + 1) =~= v.take(i).push(v[i]));
        crate::collections::lemma_sum_prefix(v, i + 1);
        if sum + v[i] <= u64::MAX {
            lemma_payable(outs, i + 1, sum + v[i]);
        }
    }
}

/// Against a set of outputs a transaction that creates no coins is valid exactly when no two of its
/// inputs spend one output, every one that they spend is in the set, no output that it makes is
/// below 100, both sums fit, and what is spent covers what is paid out and at least 50 more; the
/// rest is its fee. A coinbase is valid exactly when it has outputs, none below 100.
pub proof fn law_when_a_transaction_is_valid_against(
    t: TransactionV,
    utxos: Map<OutPoint, TxOut>,
)
    ensures
        !coinbase_transaction(t) ==> (fee_against(t, utxos) is Ok <==> {
            &&& forall|i: int, j: int|
                0 <= i < j < t.inputs.len() ==> (
                    (#[trigger] t.inputs[i]).prev_txid,
                    t.inputs[i].prev_index,
                ) != ((#[trigger] t.inputs[j]).prev_txid, t.inputs[j].prev_index)
            &&& forall|i: int|
                0 <= i < t.inputs.len() ==> utxos.contains_key(
                    ((#[trigger] t.inputs[i]).prev_txid, t.inputs[i].prev_index),
                )
            &&& forall|i: int| 0 <= i < t.outputs.len() ==> (#[trigger] t.outputs[i]).value >= 100
            &&& sum_of(values_in(t.inputs, utxos)) <= u64::MAX
            &&& sum_of(values_in(t.inputs, utxos)) >= sum_of(output_values(t.outputs)) + 50
        }),
        !coinbase_transaction(t) && fee_against(t, utxos) is Ok ==> fee_against(t, utxos)->Ok_0
            + sum_of(output_values(t.outputs)) == sum_of(values_in(t.inputs, utxos)),
        coinbase_transaction(t) ==> (fee_against(t, utxos) is Ok <==> t.outputs.len() > 0
            && forall|i: int| 0 <= i < t.outputs.len() ==> (#[trigger] t.outputs[i]).value >= 100),
        coinbase_transaction(t) && fee_against(t, utxos) is Ok ==> fee_against(t, utxos)->Ok_0 == 0,
{
    lemma_sum_push(Seq::<nat>::empty(), 0);
    assert(values_in(t.inputs, utxos).take(0) =~= Seq::<nat>::empty());
    assert(output_values(t.outputs).take(0) =~= Seq::<nat>::empty());
    lemma_spendable(t.inputs, utxos, 0, 0);
    lemma_payable(t.outputs, 0, 0);
    if forall|i: int, j: int|
        0 <= i < j < t.inputs.len() ==> (
            (#[trigger] t.inputs[i]).prev_txid,
            t.inputs[i].prev_index,
        ) != ((#[trigger] t.inputs[j]).prev_txid, t.inputs[j].prev_index) {
        assert forall|k: int| 0 <= k < t.inputs.len() implies !repeats_input(t.inputs, k) by {
            if repeats_input(t.inputs, k) {
                let j = choose|j: int|
                    0 <= j < k && outpoint_of(#[trigger] t.inputs[j]) == outpoint_of(t.inputs[k]);
                assert((t.inputs[j].prev_txid, t.inputs[j].prev_index) != (
                    t.inputs[k].prev_txid,
                    t.inputs[k].prev_index,
                ));
            }
        }
    } else {
        let (i, j) = choose|i: int, j: int|
            0 <= i < j < t.inputs.len() && (
                (#[trigger] t.inputs[i]).prev_txid,
                t.inputs[i].prev_index,
            ) == ((#[trigger] t.inputs[j]).prev_txid, t.inputs[j].prev_index);
        assert(repeats_input(t.inputs, j)) by {
            assert(outpoint_of(t.inputs[i]) == outpoint_of(t.inputs[j]));
        }
    }
}

} // verus!
