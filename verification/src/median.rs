//! The middle one of the last timestamps.
use crate::types::Timestamp;
use vstd::prelude::*;

verus! {

/// Whether a sequence of numbers does not fall.
pub open spec fn rising(s: Seq<Timestamp>) -> bool {
    forall|i: int, j: int| 0 <= i < j < s.len() ==> s[i] <= s[j]
}

/// Whether `m` is the middle one of eleven numbers when they are put in order.
pub open spec fn is_median(s: Seq<Timestamp>, m: Timestamp) -> bool {
    exists|t: Seq<Timestamp>| #[trigger]
        rising(t) && t.to_multiset() == s.to_multiset() && t.len() == 11 && t[5] == m
}

/// The middle one of the last eleven timestamps, where there are that many.
pub open spec fn median_of(timestamps: Seq<Timestamp>) -> Option<Timestamp> {
    if timestamps.len() < 11 {
        None
    } else {
        let last = timestamps.skip(timestamps.len() - 11);
        Some(choose|m: Timestamp| is_median(last, m))
    }
}

/// There is but one middle one.
pub proof fn lemma_median_unique(s: Seq<Timestamp>, a: Timestamp, b: Timestamp)
    requires
        is_median(s, a),
        is_median(s, b),
    ensures
        a == b,
{
    let x = choose|t: Seq<Timestamp>| #[trigger]
        rising(t) && t.to_multiset() == s.to_multiset() && t.len() == 11 && t[5] == a;
    let y = choose|t: Seq<Timestamp>| #[trigger]
        rising(t) && t.to_multiset() == s.to_multiset() && t.len() == 11 && t[5] == b;
    let leq = |i: Timestamp, j: Timestamp| i <= j;
    assert(vstd::relations::sorted_by(x, leq));
    assert(vstd::relations::sorted_by(y, leq));
    vstd::seq_lib::lemma_sorted_unique(x, y, leq);
}

/// The middle one of the last eleven timestamps, where there are that many.
pub fn median_of_last(timestamps: &Vec<Timestamp>) -> (r: Option<Timestamp>)
    ensures
        r == median_of(timestamps@),
{
    let n: usize = timestamps.len();
    if n < 11 {
        return None;
    }
    let ghost last = timestamps@.skip(n - 11);
    let mut sorted: Vec<Timestamp> = Vec::new();
    let mut i: usize = 0;
    assert(last.take(0) =~= Seq::<Timestamp>::empty());
    assert(sorted@ =~= Seq::<Timestamp>::empty());
    while i < 11
        invariant
            i <= 11,
            n == timestamps@.len(),
            n >= 11,
            last == timestamps@.skip(n - 11),
            sorted@.len() == i,
            rising(sorted@),
            sorted@.to_multiset() == last.take(i as int).to_multiset(),
        decreases 11 - i,
    {
        let x: Timestamp = timestamps[n - 11 + i];
        assert(last[i as int] == x);
        let mut j: usize = i;
        while j > 0 && sorted[j - 1] > x
            invariant
                j <= i,
                i < 11,
                sorted@.len() == i,
                forall|k: int| j <= k < i ==> sorted@[k] > x,
            decreases j,
        {
            j -= 1;
        }
        let ghost before = sorted@;
        sorted.insert(j, x);
        proof {
            assert(sorted@ =~= before.insert(j as int, x));
            vstd::seq_lib::to_multiset_insert(before, j as int, x);
            vstd::seq_lib::to_multiset_build(last.take(i as int), x);
            assert(last.take(i as int).push(x) =~= last.take(i + 1));
            assert forall|a: int, b: int| 0 <= a < b < sorted@.len() implies sorted@[a]
                <= sorted@[b] by {
                let a2 = if a < j { a } else { a - 1 };
                let b2 = if b < j { b } else { b - 1 };
                if a != j && b != j {
                    assert(sorted@[a] == before[a2]);
                    assert(sorted@[b] == before[b2]);
                } else if a == j {
                    assert(sorted@[b] == before[b - 1]);
                } else {
                    assert(sorted@[a] == before[a]);
                    if a < j - 1 {
                        assert(before[a] <= before[j - 1]);
                    }
                }
            }
        }
        i += 1;
    }
    assert(last.take(11) =~= last);
    assert(rising(sorted@) && sorted@.to_multiset() == last.to_multiset());
    proof {
        assert(is_median(last, sorted@[5]));
        let c = choose|m: Timestamp| is_median(last, m);
        assert(median_of(timestamps@) == Some(c));
        lemma_median_unique(last, sorted@[5], c);
    }
    Some(sorted[5])
}

/// Of eleven timestamps or more that do not fall, the middle one of the last eleven is the sixth
/// from the end; there is none of fewer.
pub proof fn law_median_of_rising_times(timestamps: Seq<Timestamp>)
    ensures
        timestamps.len() < 11 ==> median_of(timestamps) is None,
        timestamps.len() >= 11 && (forall|i: int, j: int|
            0 <= i < j < timestamps.len() ==> timestamps[i] <= timestamps[j]) ==> median_of(
            timestamps,
        ) == Some(timestamps[timestamps.len() - 6]),
{
    if timestamps.len() >= 11 && (forall|i: int, j: int|
        0 <= i < j < timestamps.len() ==> timestamps[i] <= timestamps[j]) {
        let last = timestamps.skip(timestamps.len() - 11);
        let m = timestamps[timestamps.len() - 6];
        assert(rising(last));
        assert(is_median(last, m)) by {
            assert(last[5] == m);
        }
        let c = choose|m: Timestamp| is_median(last, m);
        lemma_median_unique(last, m, c);
    }
}

/// The middle one does not depend on the order of the last eleven timestamps, nor on any before
/// them.
pub proof fn law_median_ignores_order(a: Seq<Timestamp>, b: Seq<Timestamp>)
    requires
        a.len() >= 11,
        b.len() >= 11,
        a.skip(a.len() - 11).to_multiset() == b.skip(b.len() - 11).to_multiset(),
    ensures
        median_of(a) == median_of(b),
{
    let x = a.skip(a.len() - 11);
    let y = b.skip(b.len() - 11);
    assert forall|m: Timestamp| is_median(x, m) == is_median(y, m) by {
        if is_median(x, m) {
            let t = choose|t: Seq<Timestamp>| #[trigger]
                rising(t) && t.to_multiset() == x.to_multiset() && t.len() == 11 && t[5] == m;
            assert(rising(t) && t.to_multiset() == y.to_multiset());
        }
        if is_median(y, m) {
            let t = choose|t: Seq<Timestamp>| #[trigger]
                rising(t) && t.to_multiset() == y.to_multiset() && t.len() == 11 && t[5] == m;
            assert(rising(t) && t.to_multiset() == x.to_multiset());
        }
    }
    let leq = |i: Timestamp, j: Timestamp| i <= j;
    x.lemma_sort_by_ensures(leq);
    let t = x.sort_by(leq);
    vstd::seq_lib::to_multiset_len(x);
    vstd::seq_lib::to_multiset_len(t);
    assert(rising(t)) by {
        assert forall|i: int, j: int| 0 <= i < j < t.len() implies t[i] <= t[j] by {
            assert(leq(t[i], t[j]));
        }
    }
    assert(rising(t) && t.to_multiset() == x.to_multiset() && t.len() == 11);
    assert(is_median(x, t[5]));
    let c = choose|m: Timestamp| is_median(x, m);
    let d = choose|m: Timestamp| is_median(y, m);
    assert(is_median(y, c));
    lemma_median_unique(y, c, d);
}

} // verus!
