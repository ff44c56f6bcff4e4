//! The pool of transactions that wait for a block.
use crate::block::{
    basic_fault, coinbase_input, fee_of, outpoint_of, transaction_views, txid_of, validation,
    LookupMap, Transaction, TransactionV, UtxoLookups,
};
use crate::bytes::arrays_equal;
use crate::collections::OrdSet;
use crate::types::{OutPoint, Txid};
use vstd::prelude::*;
use vstd::string::*;

verus! {

/// The identifier of a transaction, as an array.
pub open spec fn txid_array(t: TransactionV) -> Txid {
    choose|a: Txid| a@ == txid_of(t)
}

/// An array with the bytes of the identifier of a transaction is that identifier.
pub proof fn lemma_txid_array(t: TransactionV, a: Txid)
    requires
        a@ == txid_of(t),
    ensures
        txid_array(t) == a,
        txid_array(t)@ == txid_of(t),
{
    assert(txid_array(t) =~= a);
}

/// The fee of a transaction, zero where it cannot be told.
pub open spec fn fee_or_zero(t: TransactionV, utxos: LookupMap) -> nat {
    match fee_of(t, utxos) {
        Ok(fee) => fee,
        Err(_) => 0,
    }
}

/// A list by falling fees with a transaction put behind all that pay no less.
pub open spec fn insert_by_fee(
    list: Seq<TransactionV>,
    t: TransactionV,
    utxos: LookupMap,
) -> Seq<TransactionV>
    decreases list.len(),
{
    if list.len() == 0 || fee_or_zero(list.last(), utxos) >= fee_or_zero(t, utxos) {
        list.push(t)
    } else {
        insert_by_fee(list.drop_last(), t, utxos).push(list.last())
    }
}

/// Transactions by falling fees; those with one fee keep their order.
pub open spec fn sorted_by_fee(list: Seq<TransactionV>, utxos: LookupMap) -> Seq<TransactionV>
    decreases list.len(),
{
    if list.len() == 0 {
        Seq::empty()
    } else {
        insert_by_fee(sorted_by_fee(list.drop_last(), utxos), list.last(), utxos)
    }
}

/// Whether the fees of a list do not rise.
pub open spec fn fees_fall(list: Seq<TransactionV>, utxos: LookupMap) -> bool {
    forall|i: int, j: int|
        0 <= i < j < list.len() ==> fee_or_zero(#[trigger] list[i], utxos) >= fee_or_zero(
            #[trigger] list[j],
            utxos,
        )
}

proof fn lemma_insert_by_fee(list: Seq<TransactionV>, t: TransactionV, utxos: LookupMap)
    requires
        fees_fall(list, utxos),
    ensures
        fees_fall(insert_by_fee(list, t, utxos), utxos),
        insert_by_fee(list, t, utxos).to_multiset() == list.to_multiset().insert(t),
        insert_by_fee(list, t, utxos).len() == list.len() + 1,
        forall|i: int|
            0 <= i < insert_by_fee(list, t, utxos).len() ==> (#[trigger] insert_by_fee(
                list,
                t,
                utxos,
            )[i] == t || list.contains(insert_by_fee(list, t, utxos)[i])),
    decreases list.len(),
{
    let r = insert_by_fee(list, t, utxos);
    broadcast use vstd::seq_lib::group_to_multiset_ensures;

    if list.len() == 0 || fee_or_zero(list.last(), utxos) >= fee_or_zero(t, utxos) {
        vstd::seq_lib::to_multiset_build(list, t);
        assert forall|i: int, j: int| 0 <= i < j < r.len() implies fee_or_zero(
            #[trigger] r[i],
            utxos,
        ) >= fee_or_zero(#[trigger] r[j], utxos) by {
            if j == list.len() && i < list.len() - 1 {
                assert(fee_or_zero(list[i], utxos) >= fee_or_zero(list[list.len() - 1], utxos));
            }
        }
        assert forall|i: int| 0 <= i < r.len() implies (#[trigger] r[i] == t || list.contains(
            r[i],
        )) by {
            if i < list.len() {
                assert(list[i] == r[i]);
            }
        }
    } else {
        let rest = list.drop_last();
        let last = list.last();
        assert forall|i: int, j: int| 0 <= i < j < rest.len() implies fee_or_zero(
            #[trigger] rest[i],
            utxos,
        ) >= fee_or_zero(#[trigger] rest[j], utxos) by {
            assert(list[i] == rest[i] && list[j] == rest[j]);
        }
        lemma_insert_by_fee(rest, t, utxos);
        let inner = insert_by_fee(rest, t, utxos);
        vstd::seq_lib::to_multiset_build(inner, last);
        vstd::seq_lib::to_multiset_build(rest, last);
        assert(rest.push(last) =~= list);
        assert(rest.to_multiset().insert(t).insert(last) =~= rest.to_multiset().insert(
            last,
        ).insert(t));
        assert forall|i: int| 0 <= i < r.len() implies (#[trigger] r[i] == t || list.contains(
            r[i],
        )) by {
            if i < inner.len() {
                assert(inner[i] == r[i]);
                if inner[i] != t {
                    let k = choose|k: int| 0 <= k < rest.len() && rest[k] == inner[i];
                    assert(list[k] == r[i]);
                }
            } else {
                assert(list[list.len() - 1] == r[i]);
            }
        }
        assert forall|i: int, j: int| 0 <= i < j < r.len() implies fee_or_zero(
            #[trigger] r[i],
            utxos,
        ) >= fee_or_zero(#[trigger] r[j], utxos) by {
            if j < inner.len() {
                assert(inner[i] == r[i] && inner[j] == r[j]);
            } else {
                assert(inner[i] == r[i]);
                if inner[i] != t {
                    let k = choose|k: int| 0 <= k < rest.len() && rest[k] == inner[i];
                    assert(list[k] == inner[i]);
                }
            }
        }
    }
}

/// Sorting by fees puts the fees in falling order and neither adds nor drops a transaction.
pub proof fn law_sorted_by_fee(list: Seq<TransactionV>, utxos: LookupMap)
    ensures
        fees_fall(sorted_by_fee(list, utxos), utxos),
        sorted_by_fee(list, utxos).to_multiset() == list.to_multiset(),
        sorted_by_fee(list, utxos).len() == list.len(),
    decreases list.len(),
{
    if list.len() > 0 {
        let rest = list.drop_last();
        law_sorted_by_fee(rest, utxos);
        lemma_insert_by_fee(sorted_by_fee(rest, utxos), list.last(), utxos);
        vstd::seq_lib::to_multiset_build(rest, list.last());
        assert(rest.push(list.last()) =~= list);
    } else {
        assert(list =~= Seq::<TransactionV>::empty());
    }
}

/// Whether an input of a list of transactions spends an output.
pub open spec fn spends(list: Seq<TransactionV>, p: OutPoint) -> bool {
    exists|i: int, j: int|
        0 <= i < list.len() && 0 <= j < (#[trigger] list[i]).inputs.len() && !coinbase_input(
            #[trigger] list[i].inputs[j],
        ) && outpoint_of(list[i].inputs[j]) == p
}

/// Whether a transaction spends what a list of transactions spends.
pub open spec fn conflicts(list: Seq<TransactionV>, t: TransactionV) -> bool {
    exists|k: int|
        0 <= k < t.inputs.len() && !coinbase_input(#[trigger] t.inputs[k]) && spends(
            list,
            outpoint_of(t.inputs[k]),
        )
}

/// Whether a transaction with the identifier of `t` is in a list.
pub open spec fn listed(list: Seq<TransactionV>, t: TransactionV) -> bool {
    exists|i: int| 0 <= i < list.len() && txid_of(#[trigger] list[i]) == txid_of(t)
}

/// Why a transaction is not taken into the pool.
pub open spec fn pool_fault(
    list: Seq<TransactionV>,
    processed: Set<Txid>,
    t: TransactionV,
    utxos: LookupMap,
) -> Option<Seq<char>> {
    if basic_fault(t) is Some {
        Some("Invalid transaction: "@ + basic_fault(t)->0)
    } else if validation(t, utxos) is Err {
        Some("Transaction validation failed: "@ + validation(t, utxos)->Err_0)
    } else if processed.contains(txid_array(t)) {
        Some("Transaction already processed"@)
    } else if listed(list, t) {
        Some("Transaction already in mempool"@)
    } else if conflicts(list, t) {
        Some("Input already used in mempool transaction"@)
    } else {
        None
    }
}

/// The first `n` elements, or all where there are fewer.
pub open spec fn at_most(list: Seq<TransactionV>, n: nat) -> Seq<TransactionV> {
    if list.len() > n {
        list.take(n as int)
    } else {
        list
    }
}

/// The identifiers that stay known when the transactions from `n` on leave the pool.
pub open spec fn forgotten(processed: Set<Txid>, list: Seq<TransactionV>, n: int) -> Set<Txid>
    decreases list.len() - n,
{
    if n < 0 || n >= list.len() {
        processed
    } else {
        forgotten(processed, list, n + 1).remove(txid_array(list[n]))
    }
}

/// The fees of transactions.
fn fees_of(list: &Vec<Transaction>, utxos: &UtxoLookups) -> (r: Vec<u64>)
    ensures
        r@.len() == list@.len(),
        forall|i: int|
            0 <= i < list@.len() ==> r@[i] == fee_or_zero((#[trigger] list@[i])@, utxos@),
{
    let mut r: Vec<u64> = Vec::new();
    let mut i: usize = 0;
    while i < list.len()
        invariant
            i <= list@.len(),
            r@.len() == i,
            forall|j: int| 0 <= j < i ==> r@[j] == fee_or_zero((#[trigger] list@[j])@, utxos@),
        decreases list@.len() - i,
    {
        let fee: u64 = match list[i].fee(utxos) {
            Ok(fee) => fee,
            Err(_) => 0,
        };
        r.push(fee);
        i += 1;
    }
    r
}

/// Sorts transactions by falling fees; those with one fee keep their order.
pub fn sort_mempool_by_fee(list: &mut Vec<Transaction>, utxos: &UtxoLookups)
    ensures
        transaction_views(final(list)@) == sorted_by_fee(transaction_views(old(list)@), utxos@),
{
    let ghost all = transaction_views(list@);
    let mut fees = fees_of(list, utxos);
    let n: usize = list.len();
    let mut i: usize = 0;
    proof {
        assert(all.take(0) =~= Seq::<TransactionV>::empty());
        assert(transaction_views(list@) =~= sorted_by_fee(all.take(0), utxos@) + all.skip(0));
    }
    while i < n
        invariant
            i <= n,
            n == list@.len(),
            n == all.len(),
            fees@.len() == n,
            forall|k: int|
                0 <= k < n ==> fees@[k] == fee_or_zero((#[trigger] list@[k])@, utxos@),
            transaction_views(list@) == sorted_by_fee(all.take(i as int), utxos@) + all.skip(
                i as int,
            ),
            sorted_by_fee(all.take(i as int), utxos@).len() == i,
        decreases n - i,
    {
        let ghost head = sorted_by_fee(all.take(i as int), utxos@);
        let ghost x = all[i as int];
        let ghost before = list@;
        let ghost views = transaction_views(list@);
        proof {
            assert(all.take(i + 1).drop_last() =~= all.take(i as int));
            assert(views[i as int] == x);
            assert(head.take(i as int) =~= head);
            assert(head.skip(i as int) =~= Seq::<TransactionV>::empty());
            assert forall|k: int| 0 <= k < i implies #[trigger] head[k] == before[k]@ by {
                assert(views[k] == head[k]);
            }
        }
        let fee: u64 = fees[i];
        assert(fee == fee_or_zero(before[i as int]@, utxos@));
        let mut j: usize = i;
        assert(insert_by_fee(head, x, utxos@) =~= insert_by_fee(head.take(j as int), x, utxos@)
            + head.skip(j as int));
        while j > 0 && fees[j - 1] < fee
            invariant
                j <= i,
                i < n,
                n == before.len(),
                fees@.len() == n,
                head.len() == i,
                fee == fee_or_zero(x, utxos@),
                before == list@,
                forall|k: int| 0 <= k < i ==> #[trigger] head[k] == before[k]@,
                forall|k: int|
                    0 <= k < n ==> fees@[k] == fee_or_zero((#[trigger] before[k])@, utxos@),
                insert_by_fee(head, x, utxos@) == insert_by_fee(head.take(j as int), x, utxos@)
                    + head.skip(j as int),
            decreases j,
        {
            proof {
                let t = head.take(j as int);
                assert(t.last() == before[j - 1]@);
                assert(t.drop_last() =~= head.take(j - 1));
                assert(insert_by_fee(t, x, utxos@) == insert_by_fee(
                    head.take(j - 1),
                    x,
                    utxos@,
                ).push(head[j - 1]));
                assert(insert_by_fee(head.take(j - 1), x, utxos@).push(head[j - 1]) + head.skip(
                    j as int,
                ) =~= insert_by_fee(head.take(j - 1), x, utxos@) + head.skip(j - 1));
            }
            j -= 1;
        }
        proof {
            let t = head.take(j as int);
            if j > 0 {
                assert(t.last() == before[j - 1]@);
            }
            assert(insert_by_fee(t, x, utxos@) =~= t.push(x));
        }
        let tx = list.remove(i);
        list.insert(j, tx);
        let f: u64 = fees.remove(i);
        fees.insert(j, f);
        proof {
            let moved = before.remove(i as int).insert(j as int, before[i as int]);
            assert(list@ =~= moved);
            assert forall|k: int| 0 <= k < n implies fees@[k] == fee_or_zero(
                (#[trigger] list@[k])@,
                utxos@,
            ) by {
                let o = if k < j {
                    k
                } else if k == j {
                    i as int
                } else if k <= i {
                    k - 1
                } else {
                    k
                };
                assert(list@[k] == before[o]);
            }
            let t = head.take(j as int);
            assert(transaction_views(list@) =~= t.push(x) + head.skip(j as int) + all.skip(i + 1))
                by {
                assert forall|k: int| 0 <= k < n implies transaction_views(list@)[k]
                    == #[trigger] (t.push(x) + head.skip(j as int) + all.skip(i + 1))[k] by {
                    if k < j {
                        assert(list@[k] == before[k]);
                    } else if k == j {
                    } else if k <= i {
                        assert(list@[k] == before[k - 1]);
                        assert(head[k - 1] == before[k - 1]@);
                    } else {
                        assert(list@[k] == before[k]);
                        assert(views[k] == (head + all.skip(i as int))[k]);
                    }
                }
            }
        }
        i += 1;
    }
    assert(all.take(n as int) =~= all);
    assert(transaction_views(list@) =~= sorted_by_fee(all, utxos@));
}

fn has_txid(list: &Vec<Transaction>, txid: &Txid, t: Ghost<TransactionV>) -> (r: bool)
    requires
        txid@ == txid_of(t@),
    ensures
        r == listed(transaction_views(list@), t@),
{
    let ghost views = transaction_views(list@);
    let mut i: usize = 0;
    while i < list.len()
        invariant
            i <= list@.len(),
            views == transaction_views(list@),
            txid@ == txid_of(t@),
            forall|j: int| 0 <= j < i ==> txid_of(#[trigger] views[j]) != txid_of(t@),
        decreases list@.len() - i,
    {
        let other = list[i].compute_txid();
        assert(views[i as int] == list@[i as int]@);
        proof {
            if other@ == txid@ {
                assert(other =~= *txid);
            }
        }
        if arrays_equal(&other, txid) {
            return true;
        }
        i += 1;
    }
    false
}

/// The outputs that a list of transactions spends.
fn spent_outputs(list: &Vec<Transaction>) -> (r: OrdSet<OutPoint>)
    ensures
        forall|p: OutPoint| #[trigger]
            r@.contains(p) <==> spends(transaction_views(list@), p),
{
    let ghost views = transaction_views(list@);
    let mut used: OrdSet<OutPoint> = OrdSet::new();
    let mut i: usize = 0;
    while i < list.len()
        invariant
            i <= list@.len(),
            views == transaction_views(list@),
            forall|p: OutPoint| #[trigger]
                used@.contains(p) <==> exists|a: int, b: int|
                    0 <= a < i && 0 <= b < (#[trigger] views[a]).inputs.len() && !coinbase_input(
                        #[trigger] views[a].inputs[b],
                    ) && outpoint_of(views[a].inputs[b]) == p,
        decreases list@.len() - i,
    {
        let tx = &list[i];
        assert(views[i as int] == tx@);
        let mut j: usize = 0;
        while j < tx.inputs.len()
            invariant
                j <= tx.inputs@.len(),
                i < list@.len(),
                views == transaction_views(list@),
                views[i as int] == tx@,
                forall|p: OutPoint| #[trigger]
                    used@.contains(p) <==> exists|a: int, b: int|
                        (0 <= a < i || (a == i && b < j)) && 0 <= b < (
                        #[trigger] views[a]).inputs.len() && !coinbase_input(
                            #[trigger] views[a].inputs[b],
                        ) && outpoint_of(views[a].inputs[b]) == p,
            decreases tx.inputs@.len() - j,
        {
            assert(views[i as int].inputs[j as int] == tx.inputs@[j as int]@);
            let ghost was = used@;
            if !tx.inputs[j].is_coinbase() {
                let point = tx.inputs[j].outpoint();
                used.insert(point);
                assert forall|p: OutPoint| #[trigger] used@.contains(p) implies exists|
                    a: int,
                    b: int,
                |
                    (0 <= a < i || (a == i && b < j + 1)) && 0 <= b < (
                    #[trigger] views[a]).inputs.len() && !coinbase_input(
                        #[trigger] views[a].inputs[b],
                    ) && outpoint_of(views[a].inputs[b]) == p by {
                    if p == point {
                        assert(!coinbase_input(views[i as int].inputs[j as int]));
                    } else {
                        assert(was.contains(p));
                    }
                }
            }
            j += 1;
        }
        i += 1;
    }
    used
}

/// Takes a transaction into the pool where nothing speaks against it. The pool is then sorted by
/// falling fees, and what does not fit leaves it from the end.
pub fn take_transaction(
    list: &mut Vec<Transaction>,
    processed: &mut OrdSet<Txid>,
    tx: Transaction,
    utxos: &UtxoLookups,
    max_size: usize,
) -> (r: Result<(), String>)
    ensures
        match r {
            Err(words) => pool_fault(
                transaction_views(old(list)@),
                old(processed)@,
                tx@,
                utxos@,
            ) == Some(words@) && *final(list) == *old(list) && *final(processed) == *old(
                processed),
            Ok(()) => {
                let sorted = sorted_by_fee(transaction_views(old(list)@).push(tx@), utxos@);
                &&& pool_fault(transaction_views(old(list)@), old(processed)@, tx@, utxos@) is None
                &&& transaction_views(final(list)@) == at_most(sorted, max_size as nat)
                &&& final(processed)@ == forgotten(
                    old(processed)@.insert(txid_array(tx@)),
                    sorted,
                    max_size as int,
                )
            },
        },
{
    match tx.validate_basic() {
        Ok(()) => {},
        Err(e) => {
            let mut words = "Invalid transaction: ".to_string();
            words.append(e);
            return Err(words);
        },
    }
    match tx.validate(utxos) {
        Ok(_) => {},
        Err(e) => {
            let mut words = "Transaction validation failed: ".to_string();
            words.append(e);
            return Err(words);
        },
    }
    let txid = tx.compute_txid();
    proof {
        lemma_txid_array(tx@, txid);
    }
    if processed.contains(&txid) {
        return Err("Transaction already processed".to_string());
    }
    if has_txid(list, &txid, Ghost(tx@)) {
        return Err("Transaction already in mempool".to_string());
    }
    let used = spent_outputs(list);
    let ghost views = transaction_views(list@);
    let mut k: usize = 0;
    while k < tx.inputs.len()
        invariant
            k <= tx.inputs@.len(),
            forall|p: OutPoint| #[trigger] used@.contains(p) <==> spends(views, p),
            forall|j: int|
                0 <= j < k ==> coinbase_input(#[trigger] tx@.inputs[j]) || !spends(
                    views,
                    outpoint_of(tx@.inputs[j]),
                ),
            views == transaction_views(list@),
            *list == *old(list),
            *processed == *old(processed),
            basic_fault(tx@) is None,
            validation(tx@, utxos@) is Ok,
            !processed@.contains(txid_array(tx@)),
            !listed(views, tx@),
        decreases tx.inputs@.len() - k,
    {
        assert(tx@.inputs[k as int] == tx.inputs@[k as int]@);
        if !tx.inputs[k].is_coinbase() {
            let point = tx.inputs[k].outpoint();
            if used.contains(&point) {
                assert(conflicts(views, tx@));
                return Err("Input already used in mempool transaction".to_string());
            }
        }
        k += 1;
    }
    assert(!conflicts(views, tx@));
    list.push(tx);
    processed.insert(txid);
    assert(transaction_views(list@) =~= views.push(tx@));
    sort_mempool_by_fee(list, utxos);
    let ghost sorted = transaction_views(list@);
    let ghost known = processed@;
    while list.len() > max_size
        invariant
            list@.len() <= sorted.len(),
            transaction_views(list@) == sorted.take(list@.len() as int),
            list@.len() >= max_size || list@.len() == sorted.len(),
            processed@ == forgotten(known, sorted, list@.len() as int),
        decreases list@.len(),
    {
        let ghost n = list@.len() as int;
        match list.pop() {
            Some(removed) => {
                let removed_txid = removed.compute_txid();
                proof {
                    assert(sorted[n - 1] == sorted.take(n)[n - 1]);
                    lemma_txid_array(removed@, removed_txid);
                    assert(transaction_views(list@) =~= sorted.take(n - 1));
                }
                processed.remove(&removed_txid);
            },
            None => {},
        }
    }
    proof {
        if sorted.len() <= max_size {
            assert(sorted.take(sorted.len() as int) =~= sorted);
        }
    }
    Ok(())
}

/// Whether two transactions spend no output in common.
pub open spec fn apart(t: TransactionV, u: TransactionV) -> bool {
    forall|i: int, j: int|
        0 <= i < t.inputs.len() && 0 <= j < u.inputs.len() && !coinbase_input(
            #[trigger] t.inputs[i],
        ) && !coinbase_input(#[trigger] u.inputs[j]) ==> outpoint_of(t.inputs[i]) != outpoint_of(
            u.inputs[j],
        )
}

/// Whether no two transactions of a list spend one output.
pub open spec fn no_conflicts(list: Seq<TransactionV>) -> bool {
    forall|a: int, b: int|
        0 <= a < b < list.len() ==> apart(#[trigger] list[a], #[trigger] list[b])
}

proof fn lemma_insert_apart(list: Seq<TransactionV>, t: TransactionV, utxos: LookupMap)
    requires
        fees_fall(list, utxos),
        no_conflicts(list),
        forall|i: int| 0 <= i < list.len() ==> apart(#[trigger] list[i], t) && apart(t, list[i]),
    ensures
        no_conflicts(insert_by_fee(list, t, utxos)),
    decreases list.len(),
{
    let r = insert_by_fee(list, t, utxos);
    if list.len() == 0 || fee_or_zero(list.last(), utxos) >= fee_or_zero(t, utxos) {
        assert forall|a: int, b: int| 0 <= a < b < r.len() implies apart(
            #[trigger] r[a],
            #[trigger] r[b],
        ) by {
            assert(r[a] == list[a]);
            if b < list.len() {
                assert(r[b] == list[b]);
            }
        }
    } else {
        let rest = list.drop_last();
        let last = list.last();
        assert(fees_fall(rest, utxos)) by {
            assert forall|i: int, j: int| 0 <= i < j < rest.len() implies fee_or_zero(
                #[trigger] rest[i],
                utxos,
            ) >= fee_or_zero(#[trigger] rest[j], utxos) by {
                assert(list[i] == rest[i] && list[j] == rest[j]);
            }
        }
        assert forall|a: int, b: int| 0 <= a < b < rest.len() implies apart(
            #[trigger] rest[a],
            #[trigger] rest[b],
        ) by {
            assert(apart(list[a], list[b]));
        }
        assert forall|i: int| 0 <= i < rest.len() implies apart(#[trigger] rest[i], t) && apart(
            t,
            rest[i],
        ) by {
            assert(list[i] == rest[i]);
        }
        lemma_insert_apart(rest, t, utxos);
        lemma_insert_by_fee(rest, t, utxos);
        let inner = insert_by_fee(rest, t, utxos);
        assert forall|a: int, b: int| 0 <= a < b < r.len() implies apart(
            #[trigger] r[a],
            #[trigger] r[b],
        ) by {
            assert(r[a] == inner[a]);
            if b < inner.len() {
                assert(r[b] == inner[b]);
            } else {
                assert(r[b] == list[list.len() - 1]);
                if inner[a] != t {
                    let k = choose|k: int| 0 <= k < rest.len() && rest[k] == inner[a];
                    assert(list[k] == inner[a]);
                }
            }
        }
    }
}

/// What is in the sorted list is in the list.
proof fn lemma_sorted_members(list: Seq<TransactionV>, utxos: LookupMap, i: int)
    requires
        0 <= i < sorted_by_fee(list, utxos).len(),
    ensures
        list.contains(sorted_by_fee(list, utxos)[i]),
    decreases list.len(),
{
    if list.len() > 0 {
        let rest = list.drop_last();
        let inner = sorted_by_fee(rest, utxos);
        let r = sorted_by_fee(list, utxos);
        law_sorted_by_fee(rest, utxos);
        lemma_insert_by_fee(inner, list.last(), utxos);
        if r[i] == list.last() {
            assert(list[list.len() - 1] == r[i]);
        } else {
            let k = choose|k: int| 0 <= k < inner.len() && inner[k] == r[i];
            lemma_sorted_members(rest, utxos, k);
            let q = choose|q: int| 0 <= q < rest.len() && rest[q] == inner[k];
            assert(list[q] == r[i]);
        }
    }
}

proof fn lemma_sorted_apart(list: Seq<TransactionV>, utxos: LookupMap)
    requires
        no_conflicts(list),
    ensures
        no_conflicts(sorted_by_fee(list, utxos)),
    decreases list.len(),
{
    if list.len() > 0 {
        let rest = list.drop_last();
        let last = list.last();
        assert forall|a: int, b: int| 0 <= a < b < rest.len() implies apart(
            #[trigger] rest[a],
            #[trigger] rest[b],
        ) by {
            assert(apart(list[a], list[b]));
        }
        lemma_sorted_apart(rest, utxos);
        law_sorted_by_fee(rest, utxos);
        let inner = sorted_by_fee(rest, utxos);
        assert forall|i: int| 0 <= i < inner.len() implies apart(#[trigger] inner[i], last)
            && apart(last, inner[i]) by {
            lemma_sorted_members(rest, utxos, i);
            let q = choose|q: int| 0 <= q < rest.len() && rest[q] == inner[i];
            assert(apart(list[q], list[list.len() - 1]));
        }
        lemma_insert_apart(inner, last, utxos);
    }
}

/// Taking a transaction into a pool in which no output is spent by two transactions keeps it so,
/// also after sorting and trimming.
pub proof fn law_pool_stays_free_of_conflicts(
    list: Seq<TransactionV>,
    processed: Set<Txid>,
    t: TransactionV,
    utxos: LookupMap,
    max_size: nat,
)
    requires
        no_conflicts(list),
        pool_fault(list, processed, t, utxos) is None,
    ensures
        no_conflicts(at_most(sorted_by_fee(list.push(t), utxos), max_size)),
{
    let with = list.push(t);
    assert forall|a: int, b: int| 0 <= a < b < with.len() implies apart(
        #[trigger] with[a],
        #[trigger] with[b],
    ) by {
        assert(with[a] == list[a]);
        if b == list.len() {
            assert forall|i: int, j: int|
                0 <= i < with[a].inputs.len() && 0 <= j < t.inputs.len() && !coinbase_input(
                    #[trigger] with[a].inputs[i],
                ) && !coinbase_input(#[trigger] t.inputs[j]) implies outpoint_of(with[a].inputs[i])
                != outpoint_of(t.inputs[j]) by {
                if outpoint_of(list[a].inputs[i]) == outpoint_of(t.inputs[j]) {
                    assert(spends(list, outpoint_of(t.inputs[j])));
                    assert(conflicts(list, t));
                }
            }
        } else {
            assert(apart(list[a], list[b]));
        }
    }
    lemma_sorted_apart(with, utxos);
    let sorted = sorted_by_fee(with, utxos);
    let r = at_most(sorted, max_size);
    assert forall|a: int, b: int| 0 <= a < b < r.len() implies apart(
        #[trigger] r[a],
        #[trigger] r[b],
    ) by {
        assert(r[a] == sorted[a] && r[b] == sorted[b]);
    }
}

/// A transaction is taken into the pool exactly when it is valid, is not known, does not wait yet,
/// and spends nothing that a waiting one spends.
pub proof fn law_when_a_transaction_may_wait(
    list: Seq<TransactionV>,
    processed: Set<Txid>,
    t: TransactionV,
    utxos: LookupMap,
)
    ensures
        pool_fault(list, processed, t, utxos) is None <==> {
            &&& validation(t, utxos) is Ok
            &&& !processed.contains(txid_array(t))
            &&& forall|i: int| 0 <= i < list.len() ==> txid_of(#[trigger] list[i]) != txid_of(t)
            &&& forall|i: int, a: int, b: int|
                #![trigger list[i].inputs[a], t.inputs[b]]
                0 <= i < list.len() && 0 <= a < list[i].inputs.len() && 0 <= b < t.inputs.len()
                    && !coinbase_input(list[i].inputs[a]) && !coinbase_input(t.inputs[b]) ==> (
                    list[i].inputs[a].prev_txid,
                    list[i].inputs[a].prev_index,
                ) != (t.inputs[b].prev_txid, t.inputs[b].prev_index)
        },
{
    if conflicts(list, t) {
        let b = choose|b: int|
            0 <= b < t.inputs.len() && !coinbase_input(#[trigger] t.inputs[b]) && spends(
                list,
                outpoint_of(t.inputs[b]),
            );
        let (i, a) = choose|i: int, a: int|
            0 <= i < list.len() && 0 <= a < (#[trigger] list[i]).inputs.len() && !coinbase_input(
                #[trigger] list[i].inputs[a],
            ) && outpoint_of(list[i].inputs[a]) == outpoint_of(t.inputs[b]);
        assert((list[i].inputs[a].prev_txid, list[i].inputs[a].prev_index) == (
            t.inputs[b].prev_txid,
            t.inputs[b].prev_index,
        ));
    } else {
        assert forall|i: int, a: int, b: int|
            #![trigger list[i].inputs[a], t.inputs[b]]
            0 <= i < list.len() && 0 <= a < list[i].inputs.len() && 0 <= b < t.inputs.len()
                && !coinbase_input(list[i].inputs[a]) && !coinbase_input(t.inputs[b]) implies (
            list[i].inputs[a].prev_txid,
            list[i].inputs[a].prev_index,
        ) != (t.inputs[b].prev_txid, t.inputs[b].prev_index) by {
            if outpoint_of(list[i].inputs[a]) == outpoint_of(t.inputs[b]) {
                assert(spends(list, outpoint_of(t.inputs[b]))) by {
                    assert(!coinbase_input(list[i].inputs[a]));
                }
                assert(conflicts(list, t));
            }
        }
    }
}

/// After a transaction was taken in, the pool holds no more than it may. Where there is room for
/// all, it holds all that waited and the new one; otherwise it holds as many as it may, of which
/// none pays less than one that had to go. The fees do not rise from first to last.
pub proof fn law_pool_keeps_the_best_payers(
    list: Seq<TransactionV>,
    t: TransactionV,
    utxos: LookupMap,
    max_size: nat,
    i: int,
    j: int,
)
    ensures
        ({
            let sorted = sorted_by_fee(list.push(t), utxos);
            let kept = at_most(sorted, max_size);
            let gone = sorted.skip(kept.len() as int);
            &&& kept.len() <= max_size
            &&& list.len() < max_size ==> kept.to_multiset() == list.push(t).to_multiset()
            &&& list.len() >= max_size ==> kept.len() == max_size
            &&& (kept + gone).to_multiset() == list.push(t).to_multiset()
            &&& 0 <= i < kept.len() && 0 <= j < gone.len() ==> fee_or_zero(kept[i], utxos)
                >= fee_or_zero(gone[j], utxos)
            &&& 0 <= i < j < kept.len() ==> fee_or_zero(kept[i], utxos) >= fee_or_zero(
                kept[j],
                utxos,
            )
        }),
{
    let all = list.push(t);
    let sorted = sorted_by_fee(all, utxos);
    law_sorted_by_fee(all, utxos);
    let kept = at_most(sorted, max_size);
    let gone = sorted.skip(kept.len() as int);
    assert(kept + gone =~= sorted);
    if 0 <= i < kept.len() && 0 <= j < gone.len() {
        assert(gone[j] == sorted[kept.len() + j]);
        assert(kept[i] == sorted[i]);
        assert(fee_or_zero(sorted[i], utxos) >= fee_or_zero(sorted[kept.len() + j], utxos));
    }
    if 0 <= i < j < kept.len() {
        assert(kept[i] == sorted[i] && kept[j] == sorted[j]);
    }
}

/// Transactions with one fee keep their order when the pool is sorted: one that is put behind
/// another with the same fee stays behind it.
pub proof fn law_equal_fees_keep_their_order(
    list: Seq<TransactionV>,
    t: TransactionV,
    utxos: LookupMap,
)
    requires
        forall|i: int|
            0 <= i < list.len() ==> fee_or_zero(#[trigger] list[i], utxos) >= fee_or_zero(t, utxos),
    ensures
        sorted_by_fee(list.push(t), utxos) == sorted_by_fee(list, utxos).push(t),
{
    assert(list.push(t).drop_last() =~= list);
    let inner = sorted_by_fee(list, utxos);
    law_sorted_by_fee(list, utxos);
    if inner.len() > 0 {
        lemma_sorted_members(list, utxos, inner.len() - 1);
        let q = choose|q: int| 0 <= q < list.len() && list[q] == inner[inner.len() - 1];
        assert(fee_or_zero(list[q], utxos) >= fee_or_zero(t, utxos));
    }
}

/// What leaves the pool for want of room may be handed in again, and what stays is known.
pub proof fn law_only_what_leaves_is_forgotten(
    processed: Set<Txid>,
    list: Seq<TransactionV>,
    n: int,
    id: Txid,
)
    requires
        0 <= n,
    ensures
        forgotten(processed, list, n).contains(id) <==> processed.contains(id) && forall|i: int|
            n <= i < list.len() ==> txid_array(#[trigger] list[i]) != id,
    decreases list.len() - n,
{
    if n < list.len() {
        law_only_what_leaves_is_forgotten(processed, list, n + 1, id);
    }
}

} // verus!
