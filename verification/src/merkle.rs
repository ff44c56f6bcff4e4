//! Merkle trees over SHA-256.
use crate::primitives::{sha256, sha256_of};
use crate::types::Hash32;
use vstd::prelude::*;

verus! {

/// The bytes of a list of hashes.
pub open spec fn hash_views(s: Seq<Hash32>) -> Seq<Seq<u8>> {
    s.map_values(|h: Hash32| h@)
}

/// The level above a level of a tree: the digest of each pair of neighbours. A node without a
/// neighbour is paired with itself.
pub open spec fn merkle_level(hashes: Seq<Seq<u8>>) -> Seq<Seq<u8>> {
    Seq::new(
        (hashes.len() + 1) / 2,
        |i: int|
            sha256_of(
                hashes[2 * i] + if 2 * i + 1 < hashes.len() {
                    hashes[2 * i + 1]
                } else {
                    hashes[2 * i]
                },
            ),
    )
}

/// The root of the tree over a list of hashes.
pub open spec fn merkle_root_of(hashes: Seq<Seq<u8>>) -> Seq<u8>
    decreases hashes.len(),
{
    if hashes.len() <= 1 {
        hashes[0]
    } else {
        merkle_root_of(merkle_level(hashes))
    }
}

fn next_level(hashes: &Vec<Hash32>) -> (r: Vec<Hash32>)
    ensures
        hash_views(r@) == merkle_level(hash_views(hashes@)),
        r@.len() == (hashes@.len() + 1) / 2,
{
    let ghost level = hash_views(hashes@);
    let mut next: Vec<Hash32> = Vec::new();
    let mut i: usize = 0;
    let n: usize = hashes.len();
    let half: usize = n / 2 + n % 2;
    while i < half
        invariant
            n == hashes@.len(),
            half == (n + 1) / 2,
            i <= half,
            level == hash_views(hashes@),
            next@.len() == i,
            forall|j: int| 0 <= j < i ==> (#[trigger] next@[j])@ == merkle_level(level)[j],
        decreases half - i,
    {
        let mut data: Vec<u8> = Vec::new();
        data.extend_from_slice(hashes[2 * i].as_slice());
        if 2 * i < n - 1 {
            data.extend_from_slice(hashes[2 * i + 1].as_slice());
        } else {
            data.extend_from_slice(hashes[2 * i].as_slice());
        }
        assert(data@ =~= level[2 * i] + if 2 * i + 1 < level.len() {
            level[2 * i + 1]
        } else {
            level[2 * i]
        });
        next.push(sha256(data.as_slice()));
        i += 1;
    }
    assert(hash_views(next@) =~= merkle_level(level));
    next
}

/// The root of the tree over a list of hashes.
pub fn merkle_root(hashes: Vec<Hash32>) -> (r: Hash32)
    requires
        hashes@.len() > 0,
    ensures
        r@ == merkle_root_of(hash_views(hashes@)),
{
    let mut current: Vec<Hash32> = hashes;
    while current.len() > 1
        invariant
            current@.len() > 0,
            merkle_root_of(hash_views(current@)) == merkle_root_of(hash_views(hashes@)),
        decreases current@.len(),
    {
        current = next_level(&current);
    }
    assert(hash_views(current@)[0] == current@[0]@);
    current[0]
}

/// The tree over a single hash is that hash.
pub proof fn law_single_leaf(h: Seq<u8>)
    ensures
        merkle_root_of(seq![h]) == h,
{
}

/// A list of odd length has the root of the list with its last hash repeated.
pub proof fn law_odd_level_repeats_last(hashes: Seq<Seq<u8>>)
    requires
        hashes.len() % 2 == 1,
        hashes.len() > 1,
    ensures
        merkle_root_of(hashes) == merkle_root_of(hashes.push(hashes.last())),
{
    assert(merkle_level(hashes) =~= merkle_level(hashes.push(hashes.last())));
}

/// The roots of small trees: a node is the digest of its two children, in order.
pub proof fn law_roots_of_small_trees(a: Seq<u8>, b: Seq<u8>, c: Seq<u8>, d: Seq<u8>)
    ensures
        merkle_root_of(seq![a, b]) == sha256_of(a + b),
        merkle_root_of(seq![a, b, c]) == sha256_of(sha256_of(a + b) + sha256_of(c + c)),
        merkle_root_of(seq![a, b, c, d]) == sha256_of(sha256_of(a + b) + sha256_of(c + d)),
{
    reveal_with_fuel(merkle_root_of, 4);
    assert(merkle_level(seq![a, b]) =~= seq![sha256_of(a + b)]);
    assert(merkle_level(seq![a, b, c]) =~= seq![sha256_of(a + b), sha256_of(c + c)]);
    assert(merkle_level(seq![a, b, c, d]) =~= seq![sha256_of(a + b), sha256_of(c + d)]);
    let x = sha256_of(a + b);
    let y = sha256_of(c + c);
    let z = sha256_of(c + d);
    assert(merkle_level(seq![x, y]) =~= seq![sha256_of(x + y)]);
    assert(merkle_level(seq![x, z]) =~= seq![sha256_of(x + z)]);
}

/// Two lists of as many hashes, a power of two of them, have above both the digest of their two
/// roots.
pub proof fn law_root_is_over_both_halves(a: Seq<Seq<u8>>, b: Seq<Seq<u8>>, k: nat)
    requires
        a.len() == vstd::arithmetic::power2::pow2(k),
        b.len() == a.len(),
    ensures
        merkle_root_of(a + b) == sha256_of(merkle_root_of(a) + merkle_root_of(b)),
    decreases k,
{
    let all = a + b;
    if k == 0 {
        vstd::arithmetic::power2::lemma2_to64();
        assert(a =~= seq![a[0]]);
        assert(b =~= seq![b[0]]);
        assert(all =~= seq![a[0], b[0]]);
        law_roots_of_small_trees(a[0], b[0], a[0], b[0]);
    } else {
        vstd::arithmetic::power2::lemma_pow2_unfold(k);
        vstd::arithmetic::power2::lemma_pow2_pos((k - 1) as nat);
        let x = merkle_level(a);
        let y = merkle_level(b);
        assert(a.len() >= 2);
        assert(x.len() == vstd::arithmetic::power2::pow2((k - 1) as nat));
        assert(merkle_level(all) =~= x + y);
        law_root_is_over_both_halves(x, y, (k - 1) as nat);
    }
}

} // verus!
