//! Maps and sets that keep their entries sorted by key.
use crate::bytes::{arrays_equal, array_less, be_value, lemma_be_value_injective};
use vstd::prelude::*;

verus! {

/// A key with a strict total order that can be decided at run time.
pub trait OrdKey: Sized {
    /// The strict order on keys.
    spec fn before(self, other: Self) -> bool;

    /// No key comes before itself.
    proof fn order_irreflexive(a: Self)
        ensures
            !a.before(a),
    ;

    /// The order is transitive.
    proof fn order_transitive(a: Self, b: Self, c: Self)
        requires
            a.before(b),
            b.before(c),
        ensures
            a.before(c),
    ;

    /// Two different keys are ordered one way or the other.
    proof fn order_total(a: Self, b: Self)
        ensures
            a == b || a.before(b) || b.before(a),
    ;

    /// Decides the order.
    fn is_before(&self, other: &Self) -> (r: bool)
        ensures
            r == self.before(*other),
    ;

    /// The key once more.
    fn same(&self) -> (r: Self)
        ensures
            r == *self,
    ;
}

impl OrdKey for u32 {
    open spec fn before(self, other: Self) -> bool {
        self < other
    }

    proof fn order_irreflexive(a: Self) {
    }

    proof fn order_transitive(a: Self, b: Self, c: Self) {
    }

    proof fn order_total(a: Self, b: Self) {
    }

    fn is_before(&self, other: &Self) -> (r: bool) {
        *self < *other
    }

    fn same(&self) -> (r: Self) {
        *self
    }
}

impl OrdKey for u64 {
    open spec fn before(self, other: Self) -> bool {
        self < other
    }

    proof fn order_irreflexive(a: Self) {
    }

    proof fn order_transitive(a: Self, b: Self, c: Self) {
    }

    proof fn order_total(a: Self, b: Self) {
    }

    fn is_before(&self, other: &Self) -> (r: bool) {
        *self < *other
    }

    fn same(&self) -> (r: Self) {
        *self
    }
}

/// Byte arrays are ordered as the numbers they write, most significant byte first.
impl<const N: usize> OrdKey for [u8; N] {
    open spec fn before(self, other: Self) -> bool {
        be_value(self@) < be_value(other@)
    }

    proof fn order_irreflexive(a: Self) {
    }

    proof fn order_transitive(a: Self, b: Self, c: Self) {
    }

    proof fn order_total(a: Self, b: Self) {
        if be_value(a@) == be_value(b@) {
            lemma_be_value_injective(a@, b@);
            assert(a =~= b);
        }
    }

    fn is_before(&self, other: &Self) -> (r: bool) {
        array_less(self, other)
    }

    fn same(&self) -> (r: Self) {
        *self
    }
}

/// Pairs are ordered by their first component, then by their second.
impl<const N: usize> OrdKey for ([u8; N], u32) {
    open spec fn before(self, other: Self) -> bool {
        self.0.before(other.0) || (self.0 == other.0 && self.1 < other.1)
    }

    proof fn order_irreflexive(a: Self) {
    }

    proof fn order_transitive(a: Self, b: Self, c: Self) {
    }

    proof fn order_total(a: Self, b: Self) {
        <[u8; N] as OrdKey>::order_total(a.0, b.0);
    }

    fn is_before(&self, other: &Self) -> (r: bool) {
        if array_less(&self.0, &other.0) {
            return true;
        }
        arrays_equal(&self.0, &other.0) && self.1 < other.1
    }

    fn same(&self) -> (r: Self) {
        (self.0, self.1)
    }
}

/// Whether the keys of `items` strictly increase.
pub open spec fn sorted_by_key<K: OrdKey, V>(items: Seq<(K, V)>) -> bool {
    forall|i: int, j: int|
        #![trigger items[i], items[j]]
        0 <= i < j < items.len() ==> items[i].0.before(items[j].0)
}

/// The map that a sequence of pairs stands for; of pairs with one key the last counts.
pub open spec fn map_of<K, V>(items: Seq<(K, V)>) -> Map<K, V>
    decreases items.len(),
{
    if items.len() == 0 {
        Map::empty()
    } else {
        map_of(items.drop_last()).insert(items.last().0, items.last().1)
    }
}

/// The keys of a sorted sequence of pairs are distinct.
pub proof fn lemma_sorted_distinct<K: OrdKey, V>(items: Seq<(K, V)>, i: int, j: int)
    requires
        sorted_by_key(items),
        0 <= i < items.len(),
        0 <= j < items.len(),
        items[i].0 == items[j].0,
    ensures
        i == j,
{
    if i < j {
        K::order_irreflexive(items[i].0);
    } else if j < i {
        K::order_irreflexive(items[j].0);
    }
}

/// A sorted sequence of pairs and its map hold the same entries.
pub proof fn lemma_map_of<K: OrdKey, V>(items: Seq<(K, V)>)
    requires
        sorted_by_key(items),
    ensures
        map_of(items).dom().finite(),
        map_of(items).dom().len() == items.len(),
        forall|i: int|
            0 <= i < items.len() ==> map_of(items).contains_key((#[trigger] items[i]).0) && map_of(
                items,
            )[items[i].0] == items[i].1,
        forall|k: K| #[trigger]
            map_of(items).contains_key(k) ==> exists|i: int|
                0 <= i < items.len() && (#[trigger] items[i]).0 == k,
    decreases items.len(),
{
    if items.len() > 0 {
        let rest = items.drop_last();
        assert(sorted_by_key(rest)) by {
            assert forall|i: int, j: int| 0 <= i < j < rest.len() implies rest[i].0.before(
                rest[j].0,
            ) by {
                assert(items[i].0.before(items[j].0));
            }
        }
        lemma_map_of(rest);
        let last = items.last();
        assert forall|i: int| 0 <= i < rest.len() implies rest[i].0 != last.0 by {
            if items[i].0 == last.0 {
                lemma_sorted_distinct(items, i, items.len() - 1);
            }
        }
        assert(!map_of(rest).contains_key(last.0));
        assert forall|i: int| 0 <= i < items.len() implies map_of(items).contains_key(
            (#[trigger] items[i]).0,
        ) && map_of(items)[items[i].0] == items[i].1 by {
            if i < rest.len() {
                assert(rest[i] == items[i]);
            }
        }
        assert forall|k: K| #[trigger] map_of(items).contains_key(k) implies exists|i: int|
            0 <= i < items.len() && (#[trigger] items[i]).0 == k by {
            if k == last.0 {
                assert(items[items.len() - 1].0 == k);
            } else {
                assert(map_of(rest).contains_key(k));
                let i = choose|i: int| 0 <= i < rest.len() && (#[trigger] rest[i]).0 == k;
                assert(items[i].0 == k);
            }
        }
        assert(map_of(items).dom() =~= map_of(rest).dom().insert(last.0));
    }
}

/// Two sorted sequences that stand for one map are equal.
pub proof fn lemma_map_of_injective<K: OrdKey, V>(a: Seq<(K, V)>, b: Seq<(K, V)>)
    requires
        sorted_by_key(a),
        sorted_by_key(b),
        map_of(a) == map_of(b),
    ensures
        a == b,
    decreases a.len(),
{
    lemma_map_of(a);
    lemma_map_of(b);
    if a.len() == 0 {
        assert(a =~= b);
    } else {
        let la = a.last();
        let lb = b.last();
        assert(map_of(b).contains_key(a[a.len() - 1].0));
        assert(map_of(a).contains_key(b[b.len() - 1].0));
        let i = choose|i: int| 0 <= i < b.len() && (#[trigger] b[i]).0 == la.0;
        let j = choose|j: int| 0 <= j < a.len() && (#[trigger] a[j]).0 == lb.0;
        if i < b.len() - 1 {
            assert(b[i].0.before(b[b.len() - 1].0));
            if j < a.len() - 1 {
                assert(a[j].0.before(a[a.len() - 1].0));
                K::order_transitive(la.0, lb.0, la.0);
                K::order_irreflexive(la.0);
            } else {
                K::order_irreflexive(la.0);
            }
        }
        assert(la.0 == lb.0);
        assert(la == lb);
        let ra = a.drop_last();
        let rb = b.drop_last();
        assert forall|x: int, y: int| 0 <= x < y < ra.len() implies (#[trigger] ra[x]).0.before(
            (#[trigger] ra[y]).0,
        ) by {
            assert(a[x].0.before(a[y].0));
        }
        assert forall|x: int, y: int| 0 <= x < y < rb.len() implies (#[trigger] rb[x]).0.before(
            (#[trigger] rb[y]).0,
        ) by {
            assert(b[x].0.before(b[y].0));
        }
        lemma_map_of(ra);
        lemma_map_of(rb);
        assert(!map_of(ra).contains_key(la.0)) by {
            if map_of(ra).contains_key(la.0) {
                let x = choose|x: int| 0 <= x < ra.len() && (#[trigger] ra[x]).0 == la.0;
                lemma_sorted_distinct(a, x, a.len() - 1);
            }
        }
        assert(!map_of(rb).contains_key(la.0)) by {
            if map_of(rb).contains_key(la.0) {
                let x = choose|x: int| 0 <= x < rb.len() && (#[trigger] rb[x]).0 == la.0;
                lemma_sorted_distinct(b, x, b.len() - 1);
            }
        }
        assert(map_of(ra) =~= map_of(a).remove(la.0));
        assert(map_of(rb) =~= map_of(b).remove(la.0));
        lemma_map_of_injective(ra, rb);
        assert(a =~= ra.push(la));
        assert(b =~= rb.push(lb));
    }
}

/// A map that keeps its entries sorted by key.
#[derive(Debug)]
pub struct OrdMap<K: OrdKey, V> {
    items: Vec<(K, V)>,
}

impl<K: OrdKey, V> View for OrdMap<K, V> {
    type V = Map<K, V>;

    closed spec fn view(&self) -> Map<K, V> {
        map_of(self.items@)
    }
}

impl<K: OrdKey, V> OrdMap<K, V> {
    #[verifier::type_invariant]
    spec fn well_formed(self) -> bool {
        sorted_by_key(self.items@)
    }

    /// The entries in increasing order of their keys.
    pub closed spec fn items(self) -> Seq<(K, V)> {
        self.items@
    }

    /// A map without entries.
    pub fn new() -> (r: Self)
        ensures
            r@ == Map::<K, V>::empty(),
            r.items() == Seq::<(K, V)>::empty(),
    {
        OrdMap { items: Vec::new() }
    }

    /// The number of entries, and what the sorted entries say of the map: each entry is in it,
    /// and each key is in an entry.
    pub fn len(&self) -> (r: usize)
        ensures
            r == self.items().len(),
            sorted_by_key(self.items()),
            self@ == map_of(self.items()),
            self@.dom().finite(),
            self@.dom().len() == r,
            forall|i: int|
                0 <= i < self.items().len() ==> self@.contains_key(
                    (#[trigger] self.items()[i]).0,
                ) && self@[self.items()[i].0] == self.items()[i].1,
            forall|k: K| #[trigger]
                self@.contains_key(k) ==> exists|i: int|
                    0 <= i < self.items().len() && (#[trigger] self.items()[i]).0 == k,
    {
        proof {
            use_type_invariant(self);
            let items = self.items@;
            lemma_map_of(items);
            assert forall|k: K| #[trigger] self@.contains_key(k) implies exists|i: int|
                0 <= i < self.items().len() && (#[trigger] self.items()[i]).0 == k by {
                let i = choose|i: int| 0 <= i < items.len() && (#[trigger] items[i]).0 == k;
                assert(self.items()[i].0 == k);
            }
        }
        self.items.len()
    }

    /// Whether there is no entry.
    pub fn is_empty(&self) -> (r: bool)
        ensures
            r == (self.items().len() == 0),
            r == (self@ == Map::<K, V>::empty()),
    {
        proof {
            use_type_invariant(self);
            lemma_map_of(self.items@);
            if self.items@.len() == 0 {
                assert(self@ =~= Map::<K, V>::empty());
            } else {
                assert(self@.contains_key(self.items@[0].0));
            }
        }
        self.items.len() == 0
    }

    /// The key of the entry at `i`, in increasing order.
    pub fn key_at(&self, i: usize) -> (r: K)
        requires
            i < self.items().len(),
        ensures
            r == self.items()[i as int].0,
            self@.contains_key(r),
    {
        proof {
            use_type_invariant(self);
            lemma_map_of(self.items@);
            assert(self@.contains_key(self.items()[i as int].0));
        }
        self.items[i].0.same()
    }

    /// The value of the entry at `i`, in increasing order of the keys.
    pub fn value_at(&self, i: usize) -> (r: &V)
        requires
            i < self.items().len(),
        ensures
            *r == self.items()[i as int].1,
            *r == self@[self.items()[i as int].0],
    {
        proof {
            use_type_invariant(self);
            lemma_map_of(self.items@);
            assert(self@.contains_key(self.items()[i as int].0));
        }
        &self.items[i].1
    }

    /// The position of the first entry whose key does not come before `k`.
    fn position(&self, k: &K) -> (r: usize)
        ensures
            r <= self.items@.len(),
            forall|i: int| 0 <= i < r ==> (#[trigger] self.items@[i]).0.before(*k),
            forall|i: int|
                r <= i < self.items@.len() ==> !(#[trigger] self.items@[i]).0.before(*k),
    {
        proof {
            use_type_invariant(self);
        }
        let mut lo: usize = 0;
        let mut hi: usize = self.items.len();
        while lo < hi
            invariant
                lo <= hi <= self.items@.len(),
                sorted_by_key(self.items@),
                forall|i: int| 0 <= i < lo ==> (#[trigger] self.items@[i]).0.before(*k),
                forall|i: int|
                    hi <= i < self.items@.len() ==> !(#[trigger] self.items@[i]).0.before(*k),
            decreases hi - lo,
        {
            let mid: usize = lo + (hi - lo) / 2;
            if self.items[mid].0.is_before(k) {
                proof {
                    assert forall|i: int| 0 <= i < mid + 1 implies (#[trigger] self.items@[i]).0.before(
                        *k,
                    ) by {
                        if i < mid {
                            K::order_transitive(self.items@[i].0, self.items@[mid as int].0, *k);
                        }
                    }
                }
                lo = mid + 1;
            } else {
                proof {
                    assert forall|i: int| mid <= i < self.items@.len() implies !(
                    #[trigger] self.items@[i]).0.before(*k) by {
                        if i > mid && self.items@[i].0.before(*k) {
                            K::order_transitive(self.items@[mid as int].0, self.items@[i].0, *k);
                        }
                    }
                }
                hi = mid;
            }
        }
        lo
    }

    /// The position of the entry with key `k`.
    fn find(&self, k: &K) -> (r: Option<usize>)
        ensures
            match r {
                Some(i) => i < self.items@.len() && self.items@[i as int].0 == *k
                    && self@.contains_key(*k) && self@[*k] == self.items@[i as int].1,
                None => !self@.contains_key(*k),
            },
    {
        let p: usize = self.position(k);
        proof {
            use_type_invariant(self);
            lemma_map_of(self.items@);
        }
        if p < self.items.len() && !k.is_before(&self.items[p].0) {
            proof {
                K::order_total(self.items@[p as int].0, *k);
                assert(self@.contains_key(self.items()[p as int].0));
            }
            Some(p)
        } else {
            proof {
                if self@.contains_key(*k) {
                    let i = choose|i: int|
                        0 <= i < self.items().len() && (#[trigger] self.items()[i]).0 == *k;
                    K::order_irreflexive(*k);
                    assert(self.items@[i].0 == *k);
                    assert(p <= i);
                    if p < i {
                        assert(self.items@[p as int].0.before(self.items@[i].0));
                    }
                }
            }
            None
        }
    }

    /// The value under `k`.
    pub fn get(&self, k: &K) -> (r: Option<&V>)
        ensures
            match r {
                Some(v) => self@.contains_key(*k) && *v == self@[*k],
                None => !self@.contains_key(*k),
            },
    {
        match self.find(k) {
            Some(i) => Some(&self.items[i].1),
            None => None,
        }
    }

    /// Whether there is a value under `k`.
    pub fn contains_key(&self, k: &K) -> (r: bool)
        ensures
            r == self@.contains_key(*k),
    {
        self.find(k).is_some()
    }

    /// Puts `v` under `k` and gives back what was there.
    pub fn insert(&mut self, k: K, v: V) -> (r: Option<V>)
        ensures
            final(self)@ == old(self)@.insert(k, v),
            match r {
                Some(w) => old(self)@.contains_key(k) && w == old(self)@[k],
                None => !old(self)@.contains_key(k),
            },
    {
        let ghost before = self.items@;
        proof {
            use_type_invariant(&*self);
            lemma_map_of(before);
        }
        let p: usize = self.position(&k);
        let found = self.find(&k);
        let mut items: Vec<(K, V)> = Vec::new();
        std::mem::swap(&mut self.items, &mut items);
        match found {
            Some(i) => {
                let (_, w) = items.remove(i);
                items.insert(i, (k, v));
                proof {
                    assert(items@ =~= before.update(i as int, (k, v)));
                    assert forall|a: int, b: int| 0 <= a < b < items@.len() implies (
                    #[trigger] items@[a]).0.before((#[trigger] items@[b]).0) by {
                        assert(before[a].0.before(before[b].0));
                    }
                    lemma_map_of(items@);
                    assert(map_of(items@) =~= map_of(before).insert(k, v)) by {
                        assert forall|q: K| map_of(items@).contains_key(q) == map_of(before).insert(
                            k,
                            v,
                        ).contains_key(q) by {
                            if map_of(items@).contains_key(q) {
                                let a = choose|a: int|
                                    0 <= a < items@.len() && (#[trigger] items@[a]).0 == q;
                                assert(before[a].0 == q);
                            }
                            if map_of(before).contains_key(q) {
                                let a = choose|a: int|
                                    0 <= a < before.len() && (#[trigger] before[a]).0 == q;
                                assert(items@[a].0 == q);
                            }
                        }
                        assert forall|q: K| #[trigger] map_of(items@).contains_key(q) implies map_of(
                            items@,
                        )[q] == map_of(before).insert(k, v)[q] by {
                            let a = choose|a: int|
                                0 <= a < items@.len() && (#[trigger] items@[a]).0 == q;
                            assert(map_of(before)[before[a].0] == before[a].1);
                            if q == k {
                                lemma_sorted_distinct(before, a, i as int);
                            }
                        }
                    }
                }
                self.items = items;
                Some(w)
            },
            None => {
                items.insert(p, (k, v));
                proof {
                    lemma_insert_sorted(before, p as int, k, v);
                    assert(items@ =~= before.insert(p as int, (k, v)));
                }
                self.items = items;
                None
            },
        }
    }

    /// Takes out the value under `k`.
    pub fn remove(&mut self, k: &K) -> (r: Option<V>)
        ensures
            final(self)@ == old(self)@.remove(*k),
            match r {
                Some(w) => old(self)@.contains_key(*k) && w == old(self)@[*k],
                None => !old(self)@.contains_key(*k),
            },
    {
        let ghost before = self.items@;
        proof {
            use_type_invariant(&*self);
            lemma_map_of(before);
        }
        match self.find(k) {
            Some(i) => {
                let mut items: Vec<(K, V)> = Vec::new();
                std::mem::swap(&mut self.items, &mut items);
                let (_, w) = items.remove(i);
                proof {
                    lemma_remove_sorted(before, i as int);
                    assert(items@ =~= before.remove(i as int));
                }
                self.items = items;
                Some(w)
            },
            None => {
                assert(self@.remove(*k) =~= self@);
                None
            },
        }
    }

    /// Keeps the entries at the positions that are marked.
    pub fn retain_marked(&mut self, marks: &Vec<bool>)
        requires
            marks@.len() == old(self).items().len(),
        ensures
            forall|k: K| #[trigger]
                final(self)@.contains_key(k) <==> exists|i: int|
                    0 <= i < marks@.len() && marks@[i] && (#[trigger] old(self).items()[i]).0 == k,
            forall|k: K| #[trigger]
                final(self)@.contains_key(k) ==> final(self)@[k] == old(self)@[k],
    {
        let ghost before = self.items@;
        proof {
            use_type_invariant(&*self);
            lemma_map_of(before);
        }
        let mut items: Vec<(K, V)> = Vec::new();
        std::mem::swap(&mut self.items, &mut items);
        let mut i: usize = items.len();
        while i > 0
            invariant
                i <= before.len(),
                marks@.len() == before.len(),
                sorted_by_key(before),
                sorted_by_key(items@),
                i <= items@.len(),
                items@.take(i as int) == before.take(i as int),
                forall|j: int|
                    i <= j < items@.len() ==> exists|x: int|
                        i <= x < before.len() && marks@[x] && (#[trigger] items@[j])
                            == before[x],
                forall|x: int|
                    i <= x < before.len() && marks@[x] ==> items@.skip(i as int).contains(
                        #[trigger] before[x],
                    ),
            decreases i,
        {
            let ghost was = items@;
            i -= 1;
            assert(was[i as int] == before[i as int]) by {
                assert(was.take(i + 1)[i as int] == before.take(i + 1)[i as int]);
            }
            if !marks[i] {
                items.remove(i);
                proof {
                    lemma_remove_sorted(was, i as int);
                    assert(items@ =~= was.remove(i as int));
                    assert(items@.skip(i as int) =~= was.skip(i + 1));
                }
            } else {
                proof {
                    assert(items@.skip(i as int)[0] == before[i as int]);
                    assert forall|x: int|
                        i <= x < before.len() && marks@[x] implies items@.skip(
                        i as int,
                    ).contains(#[trigger] before[x]) by {
                        if x > i {
                            let tail = was.skip(i + 1);
                            let y = choose|y: int| 0 <= y < tail.len() && tail[y] == before[x];
                            assert(items@.skip(i as int)[y + 1] == before[x]);
                        }
                    }
                }
            }
            proof {
                assert(items@.take(i as int) =~= before.take(i as int)) by {
                    assert forall|x: int| 0 <= x < i implies items@[x] == before[x] by {
                        assert(was.take(i + 1)[x] == before.take(i + 1)[x]);
                    }
                }
                assert forall|j: int| i <= j < items@.len() implies exists|x: int|
                    i <= x < before.len() && marks@[x] && (#[trigger] items@[j]) == before[x] by {
                    if marks@[i as int] {
                        if j > i {
                            assert(was[j] == items@[j]);
                        }
                    } else {
                        assert(was[j + 1] == items@[j]);
                    }
                }
            }
        }
        proof {
            lemma_map_of(items@);
            let after = map_of(items@);
            assert forall|k: K| #[trigger] after.contains_key(k) <==> exists|x: int|
                0 <= x < marks@.len() && marks@[x] && (#[trigger] before[x]).0 == k by {
                if after.contains_key(k) {
                    let j = choose|j: int| 0 <= j < items@.len() && (#[trigger] items@[j]).0 == k;
                    let x = choose|x: int|
                        0 <= x < before.len() && marks@[x] && items@[j] == before[x];
                    assert(before[x].0 == k);
                }
                if exists|x: int| 0 <= x < marks@.len() && marks@[x] && (#[trigger] before[x]).0
                    == k {
                    let x = choose|x: int|
                        0 <= x < marks@.len() && marks@[x] && (#[trigger] before[x]).0 == k;
                    assert(items@.skip(0).contains(before[x]));
                    let all = items@.skip(0);
                    let y = choose|y: int| 0 <= y < all.len() && all[y] == before[x];
                    assert(items@[y] == before[x]);
                }
            }
            assert forall|k: K| #[trigger] after.contains_key(k) implies after[k] == map_of(
                before,
            )[k] by {
                let j = choose|j: int| 0 <= j < items@.len() && (#[trigger] items@[j]).0 == k;
                let x = choose|x: int|
                    0 <= x < before.len() && marks@[x] && items@[j] == before[x];
                assert(map_of(before)[before[x].0] == before[x].1);
            }
        }
        self.items = items;
        assert(self.items@ == items@);
        assert(before == old(self).items());
    }

    /// Takes out every entry.
    pub fn clear(&mut self)
        ensures
            final(self)@ == Map::<K, V>::empty(),
            final(self).items() == Seq::<(K, V)>::empty(),
    {
        self.items = Vec::new();
    }
}

proof fn lemma_insert_sorted<K: OrdKey, V>(items: Seq<(K, V)>, p: int, k: K, v: V)
    requires
        sorted_by_key(items),
        0 <= p <= items.len(),
        forall|i: int| 0 <= i < p ==> (#[trigger] items[i]).0.before(k),
        forall|i: int| p <= i < items.len() ==> !(#[trigger] items[i]).0.before(k),
        !map_of(items).contains_key(k),
    ensures
        sorted_by_key(items.insert(p, (k, v))),
        map_of(items.insert(p, (k, v))) == map_of(items).insert(k, v),
{
    let after = items.insert(p, (k, v));
    lemma_map_of(items);
    assert forall|i: int| p <= i < items.len() implies k.before((#[trigger] items[i]).0) by {
        K::order_total(items[i].0, k);
        assert(map_of(items).contains_key(items[i].0));
    }
    assert forall|a: int, b: int| 0 <= a < b < after.len() implies (#[trigger] after[a]).0.before(
        (#[trigger] after[b]).0,
    ) by {
        let x = if a < p { a } else { a - 1 };
        let y = if b < p { b } else { b - 1 };
        if a == p {
            assert(after[b] == items[b - 1]);
        } else if b == p {
            assert(after[a] == items[a]);
        } else {
            assert(after[a] == items[x]);
            assert(after[b] == items[y]);
        }
    }
    lemma_map_of(after);
    assert forall|q: K| map_of(after).contains_key(q) == map_of(items).insert(k, v).contains_key(q) by {
        if map_of(after).contains_key(q) {
            let a = choose|a: int| 0 <= a < after.len() && (#[trigger] after[a]).0 == q;
            if a != p {
                let x = if a < p { a } else { a - 1 };
                assert(items[x] == after[a]);
            }
        }
        if map_of(items).contains_key(q) {
            let a = choose|a: int| 0 <= a < items.len() && (#[trigger] items[a]).0 == q;
            let x = if a < p { a } else { a + 1 };
            assert(after[x] == items[a]);
        }
        assert(after[p].0 == k);
    }
    assert forall|q: K| #[trigger] map_of(after).contains_key(q) implies map_of(after)[q] == map_of(
        items,
    ).insert(k, v)[q] by {
        let a = choose|a: int| 0 <= a < after.len() && (#[trigger] after[a]).0 == q;
        if a != p {
            let x = if a < p { a } else { a - 1 };
            assert(items[x] == after[a]);
            assert(map_of(items).contains_key(items[x].0));
        }
    }
    assert(map_of(after) =~= map_of(items).insert(k, v));
}

proof fn lemma_remove_sorted<K: OrdKey, V>(items: Seq<(K, V)>, p: int)
    requires
        sorted_by_key(items),
        0 <= p < items.len(),
    ensures
        sorted_by_key(items.remove(p)),
        map_of(items.remove(p)) == map_of(items).remove(items[p].0),
{
    let after = items.remove(p);
    let k = items[p].0;
    lemma_map_of(items);
    assert forall|a: int, b: int| 0 <= a < b < after.len() implies (#[trigger] after[a]).0.before(
        (#[trigger] after[b]).0,
    ) by {
        let x = if a < p { a } else { a + 1 };
        let y = if b < p { b } else { b + 1 };
        assert(after[a] == items[x]);
        assert(after[b] == items[y]);
    }
    lemma_map_of(after);
    assert forall|q: K| map_of(after).contains_key(q) == map_of(items).remove(k).contains_key(q) by {
        if map_of(after).contains_key(q) {
            let a = choose|a: int| 0 <= a < after.len() && (#[trigger] after[a]).0 == q;
            let x = if a < p { a } else { a + 1 };
            assert(after[a] == items[x]);
            if q == k {
                lemma_sorted_distinct(items, x, p);
            }
        }
        if map_of(items).remove(k).contains_key(q) {
            let a = choose|a: int| 0 <= a < items.len() && (#[trigger] items[a]).0 == q;
            let x = if a < p { a } else { a - 1 };
            assert(after[x] == items[a]);
        }
    }
    assert forall|q: K| #[trigger] map_of(after).contains_key(q) implies map_of(after)[q] == map_of(
        items,
    ).remove(k)[q] by {
        let a = choose|a: int| 0 <= a < after.len() && (#[trigger] after[a]).0 == q;
        let x = if a < p { a } else { a + 1 };
        assert(after[a] == items[x]);
        assert(map_of(items).contains_key(items[x].0));
    }
    assert(map_of(after) =~= map_of(items).remove(k));
}

/// The sum of the values of a finite map.
pub open spec fn map_sum<K>(m: Map<K, nat>) -> nat
    decreases m.dom().len(),
    when m.dom().finite()
{
    if m.dom().len() == 0 {
        0
    } else {
        let k = m.dom().choose();
        m[k] + map_sum(m.remove(k))
    }
}

/// The sum of the values of a map is that of any one entry and of the rest.
pub proof fn lemma_map_sum_remove<K>(m: Map<K, nat>, k: K)
    requires
        m.dom().finite(),
        m.contains_key(k),
    ensures
        map_sum(m) == m[k] + map_sum(m.remove(k)),
    decreases m.dom().len(),
{
    let c = m.dom().choose();
    assert(m.dom().contains(k));
    if c != k {
        lemma_map_sum_remove(m.remove(c), k);
        lemma_map_sum_remove(m.remove(k), c);
        assert(m.remove(c).remove(k) =~= m.remove(k).remove(c));
    }
}

/// What an insertion does to the sum of the values.
pub proof fn lemma_map_sum_insert<K>(m: Map<K, nat>, k: K, v: nat)
    requires
        m.dom().finite(),
    ensures
        map_sum(m.insert(k, v)) == map_sum(m.remove(k)) + v,
        m.contains_key(k) ==> map_sum(m) == map_sum(m.remove(k)) + m[k],
        !m.contains_key(k) ==> m.remove(k) == m,
{
    let n = m.insert(k, v);
    lemma_map_sum_remove(n, k);
    assert(n.remove(k) =~= m.remove(k));
    if m.contains_key(k) {
        lemma_map_sum_remove(m, k);
    } else {
        assert(m.remove(k) =~= m);
    }
}

/// The values of a map as natural numbers.
pub open spec fn as_nats<K>(m: Map<K, u64>) -> Map<K, nat> {
    m.map_values(|v: u64| v as nat)
}

/// The sum of what `f` makes of the values of pairs.
pub open spec fn pair_sum<K, V>(items: Seq<(K, V)>, f: spec_fn(V) -> nat) -> nat
    decreases items.len(),
{
    if items.len() == 0 {
        0
    } else {
        pair_sum(items.drop_last(), f) + f(items.last().1)
    }
}

/// Summing over the sorted entries of a map sums over its values.
pub proof fn lemma_pair_sum<K: OrdKey, V>(items: Seq<(K, V)>, f: spec_fn(V) -> nat)
    requires
        sorted_by_key(items),
    ensures
        pair_sum(items, f) == map_sum(map_of(items).map_values(f)),
    decreases items.len(),
{
    if items.len() == 0 {
        assert(map_of(items).map_values(f).dom() =~= Set::empty());
    } else {
        let rest = items.drop_last();
        let last = items.last();
        assert forall|i: int, j: int| 0 <= i < j < rest.len() implies (#[trigger] rest[i]).0.before(
            (#[trigger] rest[j]).0,
        ) by {
            assert(items[i].0.before(items[j].0));
        }
        lemma_pair_sum(rest, f);
        lemma_map_of(rest);
        assert(!map_of(rest).contains_key(last.0)) by {
            if map_of(rest).contains_key(last.0) {
                let i = choose|i: int| 0 <= i < rest.len() && (#[trigger] rest[i]).0 == last.0;
                lemma_sorted_distinct(items, i, items.len() - 1);
            }
        }
        let values = map_of(rest).map_values(f);
        assert(values.dom() =~= map_of(rest).dom());
        lemma_map_sum_insert(values, last.0, f(last.1));
        assert(map_of(items).map_values(f) =~= values.insert(last.0, f(last.1)));
    }
}

/// The sum over the first pairs is at most the sum over all.
pub proof fn lemma_pair_sum_take<K, V>(items: Seq<(K, V)>, f: spec_fn(V) -> nat, n: int)
    requires
        0 <= n <= items.len(),
    ensures
        pair_sum(items.take(n), f) <= pair_sum(items, f),
    decreases items.len() - n,
{
    if n == items.len() {
        assert(items.take(n) =~= items);
    } else {
        lemma_pair_sum_take(items, f, n + 1);
        assert(items.take(n + 1).drop_last() =~= items.take(n));
    }
}

impl<K: OrdKey> OrdMap<K, u64> {
    /// The sum of the values, or the largest number where it does not fit.
    pub fn sum(&self) -> (r: u64)
        ensures
            r == if map_sum(as_nats(self@)) <= u64::MAX {
                map_sum(as_nats(self@)) as u64
            } else {
                u64::MAX
            },
    {
        let ghost f = |v: u64| v as nat;
        proof {
            use_type_invariant(self);
            lemma_pair_sum(self.items@, f);
        }
        let mut total: u64 = 0;
        let mut i: usize = 0;
        assert(self.items@.take(0) =~= Seq::<(K, u64)>::empty());
        while i < self.items.len()
            invariant
                i <= self.items@.len(),
                f == (|v: u64| v as nat),
                total == pair_sum(self.items@.take(i as int), f),
                pair_sum(self.items@, f) == map_sum(as_nats(self@)),
            decreases self.items@.len() - i,
        {
            assert(self.items@.take(i + 1).drop_last() =~= self.items@.take(i as int));
            proof {
                lemma_pair_sum_take(self.items@, f, i + 1);
            }
            match total.checked_add(self.items[i].1) {
                Some(t) => {
                    total = t;
                },
                None => {
                    return u64::MAX;
                },
            }
            i += 1;
        }
        assert(self.items@.take(i as int) =~= self.items@);
        total
    }
}

/// A set that keeps its members sorted.
#[derive(Debug)]
pub struct OrdSet<K: OrdKey> {
    map: OrdMap<K, ()>,
}

impl<K: OrdKey> View for OrdSet<K> {
    type V = Set<K>;

    closed spec fn view(&self) -> Set<K> {
        self.map@.dom()
    }
}

impl<K: OrdKey> OrdSet<K> {
    /// The members in increasing order.
    pub closed spec fn members(self) -> Seq<K> {
        self.map.items().map_values(|e: (K, ())| e.0)
    }

    /// A set without members.
    pub fn new() -> (r: Self)
        ensures
            r@ == Set::<K>::empty(),
            r.members() == Seq::<K>::empty(),
    {
        let r = OrdSet { map: OrdMap::new() };
        assert(r@ =~= Set::<K>::empty());
        assert(r.members() =~= Seq::<K>::empty());
        r
    }

    /// The number of members, which in increasing order are exactly the set.
    pub fn len(&self) -> (r: usize)
        ensures
            self@.finite(),
            r == self@.len(),
            r == self.members().len(),
            forall|i: int, j: int|
                #![trigger self.members()[i], self.members()[j]]
                0 <= i < j < self.members().len() ==> self.members()[i].before(self.members()[j]),
            forall|k: K| #[trigger] self@.contains(k) <==> self.members().contains(k),
    {
        let n: usize = self.map.len();
        proof {
            let items = self.map.items();
            assert forall|i: int, j: int| 0 <= i < j < self.members().len() implies (
            #[trigger] self.members()[i]).before(#[trigger] self.members()[j]) by {
                assert(items[i].0.before(items[j].0));
            }
            assert forall|k: K| #[trigger] self@.contains(k) <==> self.members().contains(k) by {
                if self@.contains(k) {
                    assert(self.map@.contains_key(k));
                    let i = choose|i: int| 0 <= i < items.len() && (#[trigger] items[i]).0 == k;
                    assert(self.members()[i] == k);
                }
                if self.members().contains(k) {
                    let i = choose|i: int| 0 <= i < self.members().len() && self.members()[i] == k;
                    assert(items[i].0 == k);
                }
            }
        }
        n
    }

    /// Whether `k` is a member.
    pub fn contains(&self, k: &K) -> (r: bool)
        ensures
            r == self@.contains(*k),
    {
        self.map.contains_key(k)
    }

    /// Adds `k`; says whether it was new.
    pub fn insert(&mut self, k: K) -> (r: bool)
        ensures
            final(self)@ == old(self)@.insert(k),
            r == !old(self)@.contains(k),
    {
        let was = self.map.insert(k, ());
        assert(self@ =~= old(self)@.insert(k));
        was.is_none()
    }

    /// Takes out `k`; says whether it was a member.
    pub fn remove(&mut self, k: &K) -> (r: bool)
        ensures
            final(self)@ == old(self)@.remove(*k),
            r == old(self)@.contains(*k),
    {
        let was = self.map.remove(k);
        assert(self@ =~= old(self)@.remove(*k));
        was.is_some()
    }

    /// Takes out every member.
    pub fn clear(&mut self)
        ensures
            final(self)@ == Set::<K>::empty(),
    {
        self.map.clear();
        assert(self@ =~= Set::<K>::empty());
    }

    /// The member at `i`, in increasing order.
    pub fn member_at(&self, i: usize) -> (r: K)
        requires
            i < self.members().len(),
        ensures
            r == self.members()[i as int],
            self@.contains(r),
    {
        self.map.key_at(i)
    }
}

/// The sum of numbers.
pub open spec fn sum_of(s: Seq<nat>) -> nat {
    s.fold_left(0nat, |a: nat, x: nat| a + x)
}

/// One more number adds to a sum.
pub proof fn lemma_sum_push(s: Seq<nat>, x: nat)
    ensures
        sum_of(s.push(x)) == sum_of(s) + x,
        sum_of(Seq::<nat>::empty()) == 0,
{
    reveal(Seq::fold_left);
    assert(s.push(x).drop_last() =~= s);
}

/// The first numbers add up to no more than all of them.
pub proof fn lemma_sum_prefix(s: Seq<nat>, n: int)
    requires
        0 <= n <= s.len(),
    ensures
        sum_of(s.take(n)) <= sum_of(s),
    decreases s.len() - n,
{
    if n == s.len() {
        assert(s.take(n) =~= s);
    } else {
        lemma_sum_prefix(s, n + 1);
        lemma_sum_push(s.take(n), s[n]);
        assert(s.take(n + 1) =~= s.take(n).push(s[n]));
    }
}

/// A sum is that of the first number and of the rest.
pub proof fn lemma_sum_first(s: Seq<nat>)
    requires
        s.len() > 0,
    ensures
        sum_of(s) == s[0] + sum_of(s.drop_first()),
    decreases s.len(),
{
    let rest = s.drop_last();
    lemma_sum_push(rest, s.last());
    assert(rest.push(s.last()) =~= s);
    if s.len() == 1 {
        assert(rest =~= Seq::<nat>::empty());
        assert(s.drop_first() =~= Seq::<nat>::empty());
    } else {
        lemma_sum_first(rest);
        lemma_sum_push(rest.drop_first(), s.last());
        assert(rest.drop_first().push(s.last()) =~= s.drop_first());
    }
}

} // verus!
