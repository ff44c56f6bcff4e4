//! The contribution index, equivocation and slashing.
use crate::block::{
    bond_script, coinbase_transaction, ecdsa_accepts, header_bytes, Block, BlockV, TxOutV,
};
use crate::bytes::{arrays_equal, vec_of};
use crate::collections::{lemma_sum_push, sum_of, OrdMap, OrdSet};
use crate::constants::{
    EPOCH_REWARD_LYT, POCI_SCALE, POCI_WEIGHT_BOND, POCI_WEIGHT_LOYALTY, POCI_WEIGHT_SHARES,
};
use crate::crypto::{pow_hash_of, Argon2Cache};
use crate::miner::{LoyaltyData, MinerData};
use crate::primitives::{
    ecdsa_valid, is_compact_signature, parse_public_key, parsed_public_key, ripemd160_of, sha256_of,
};
use crate::storage::{bond_counts, Bond};
use crate::types::{current_timestamp, Hash32, Height, MinerId, Timestamp};
use crate::wallet::{hash160, Wallet};
use vstd::prelude::*;

verus! {

/// Whether `r` is the square root of `n`, rounded down.
pub open spec fn is_isqrt(r: nat, n: nat) -> bool {
    r * r <= n && n < (r + 1) * (r + 1)
}

/// The square root of `n`, rounded down.
pub open spec fn isqrt_of(n: nat) -> nat {
    choose|r: nat| is_isqrt(r, n)
}

/// There is but one square root.
pub proof fn lemma_isqrt_unique(a: nat, b: nat, n: nat)
    requires
        is_isqrt(a, n),
        is_isqrt(b, n),
    ensures
        a == b,
        isqrt_of(n) == a,
{
    let c = isqrt_of(n);
    assert(is_isqrt(c, n));
    assert(a == b && a == c) by (nonlinear_arith)
        requires
            a * a <= n,
            n < (a + 1) * (a + 1),
            b * b <= n,
            n < (b + 1) * (b + 1),
            c * c <= n,
            n < (c + 1) * (c + 1),
    ;
}

/// One step of the iteration stays at or above the root.
proof fn lemma_newton_step(n: nat, x: nat, q: nat, y: nat)
    requires
        x >= 1,
        q == n / x,
        y == (x + q) / 2,
    ensures
        n < (y + 1) * (y + 1),
{
    assert(n < x * (q + 1)) by (nonlinear_arith)
        requires
            x >= 1,
            q == n / x,
    ;
    assert(x + q + 1 <= 2 * (y + 1));
    assert((x + q + 1) * (x + q + 1) >= 4 * (x * (q + 1))) by (nonlinear_arith)
        requires
            x >= 0,
            q >= 0,
    ;
    assert((2 * (y + 1)) * (2 * (y + 1)) >= (x + q + 1) * (x + q + 1)) by (nonlinear_arith)
        requires
            x + q + 1 <= 2 * (y + 1),
            x >= 0,
            q >= 0,
    ;
    assert((2 * (y + 1)) * (2 * (y + 1)) == 4 * ((y + 1) * (y + 1))) by (nonlinear_arith);
}

/// The square root, rounded down, by Newton's iteration from above.
pub fn isqrt(n: u64) -> (r: u64)
    ensures
        is_isqrt(r as nat, n as nat),
        r == isqrt_of(n as nat),
{
    if n == 0 {
        proof {
            lemma_isqrt_unique(0, 0, 0);
        }
        return 0;
    }
    let mut x: u64 = n;
    let mut y: u64 = n / 2 + n % 2;
    proof {
        assert(n / n == 1) by (nonlinear_arith)
            requires
                n > 0,
        ;
        assert(n < (n + 1) * (n + 1)) by (nonlinear_arith)
            requires
                n >= 0,
        ;
    }
    while y < x
        invariant
            n > 0,
            x >= 1,
            y == (x + n as nat / x as nat) / 2,
            n < (x + 1) * (x + 1),
        decreases x,
    {
        proof {
            lemma_newton_step(n as nat, x as nat, n as nat / x as nat, y as nat);
            if y == 0 {
                assert(x == 1);
                assert(n as nat / 1nat == n);
            }
        }
        x = y;
        let q: u64 = n / x;
        y = x / 2 + q / 2 + (x % 2 + q % 2) / 2;
    }
    proof {
        let q = n as nat / x as nat;
        assert(q >= x);
        assert(x * x <= n) by (nonlinear_arith)
            requires
                q == n as nat / x as nat,
                q >= x,
                x >= 1,
        ;
        lemma_isqrt_unique(x as nat, x as nat, n as nat);
    }
    x
}

/// The outcome of an epoch for a miner.
#[derive(Debug, Clone, Copy, PartialEq, Eq)]
pub struct PoCIResult {
    pub miner_id: MinerId,
    pub poci: u64,
    pub shares: u64,
    pub loyalty: u64,
    pub bond: u64,
    pub reward: u64,
}

/// The loyalty of a miner, zero where none is known.
pub open spec fn loyalty_of(loyalty: Map<MinerId, LoyaltyData>, m: MinerId) -> u64 {
    if loyalty.contains_key(m) {
        loyalty[m].value
    } else {
        0
    }
}

/// The bond of a miner, zero where there is none.
pub open spec fn bond_of(bonds: Map<MinerId, Bond>, m: MinerId) -> u64 {
    if bonds.contains_key(m) {
        bonds[m].amount
    } else {
        0
    }
}

/// The root of the bond of a miner, where it counts at a height.
pub open spec fn bond_weight(bonds: Map<MinerId, Bond>, m: MinerId, height: Height) -> nat {
    if bonds.contains_key(m) && bond_counts(bonds[m], height) {
        isqrt_of(bonds[m].amount as nat)
    } else {
        0
    }
}

/// The largest value of `f` on a sequence, and at least 1.
pub open spec fn max_at_least_one<T>(s: Seq<T>, f: spec_fn(T) -> nat) -> nat
    decreases s.len(),
{
    if s.len() == 0 {
        1
    } else {
        let m = max_at_least_one(s.drop_last(), f);
        if f(s.last()) > m {
            f(s.last())
        } else {
            m
        }
    }
}

/// What the index is computed from.
pub struct PociInput {
    pub miners: Seq<(MinerId, MinerData)>,
    pub bonds: Map<MinerId, Bond>,
    pub loyalty: Map<MinerId, LoyaltyData>,
    pub height: Height,
}

/// The largest root of a number of shares.
pub open spec fn max_shares(p: PociInput) -> nat {
    max_at_least_one(p.miners, |e: (MinerId, MinerData)| isqrt_of(e.1.shares as nat))
}

/// The largest loyalty.
pub open spec fn max_loyalty(p: PociInput) -> nat {
    max_at_least_one(p.miners, |e: (MinerId, MinerData)| loyalty_of(p.loyalty, e.0) as nat)
}

/// The largest root of a bond that counts.
pub open spec fn max_bond(p: PociInput) -> nat {
    max_at_least_one(p.miners, |e: (MinerId, MinerData)| bond_weight(p.bonds, e.0, p.height))
}

/// The contribution index of a miner: the weighted parts of the largest share work, loyalty and
/// bond, in fixed point.
pub open spec fn poci_of(p: PociInput, i: int) -> nat {
    let e = p.miners[i];
    let shares = isqrt_of(e.1.shares as nat) * POCI_SCALE as nat / max_shares(p);
    let loyalty = loyalty_of(p.loyalty, e.0) as nat * POCI_SCALE as nat / max_loyalty(p);
    let bond = bond_weight(p.bonds, e.0, p.height) * POCI_SCALE as nat / max_bond(p);
    (POCI_WEIGHT_SHARES as nat * shares + POCI_WEIGHT_LOYALTY as nat * loyalty
        + POCI_WEIGHT_BOND as nat * bond) / POCI_SCALE as nat
}

/// The sum of the indices of the first `n` miners.
pub open spec fn poci_total(p: PociInput, n: int) -> nat
    decreases n,
{
    if n <= 0 {
        0
    } else {
        poci_total(p, n - 1) + poci_of(p, n - 1)
    }
}

/// The part of the epoch's reward that goes to a miner.
pub open spec fn reward_of(p: PociInput, i: int) -> nat {
    let total = poci_total(p, p.miners.len() as int);
    if total == 0 {
        0
    } else {
        poci_of(p, i) * EPOCH_REWARD_LYT as nat / total
    }
}

/// The sum of the rewards of the first `n` miners.
pub open spec fn reward_total(p: PociInput, n: int) -> nat
    decreases n,
{
    if n <= 0 {
        0
    } else {
        reward_total(p, n - 1) + reward_of(p, n - 1)
    }
}

/// Whether `r` is the outcome for miner `i`.
pub open spec fn poci_outcome(p: PociInput, i: int, r: PoCIResult) -> bool {
    let e = p.miners[i];
    &&& r.miner_id == e.0
    &&& r.poci == poci_of(p, i)
    &&& r.shares == e.1.shares
    &&& r.loyalty == loyalty_of(p.loyalty, e.0)
    &&& r.bond == bond_of(p.bonds, e.0)
    &&& r.reward == reward_of(p, i)
}

proof fn lemma_max_bounds<T>(s: Seq<T>, f: spec_fn(T) -> nat, i: int)
    requires
        0 <= i < s.len(),
    ensures
        f(s[i]) <= max_at_least_one(s, f),
        max_at_least_one(s, f) >= 1,
    decreases s.len(),
{
    lemma_max_positive(s.drop_last(), f);
    if i < s.len() - 1 {
        lemma_max_bounds(s.drop_last(), f, i);
    }
}

proof fn lemma_max_positive<T>(s: Seq<T>, f: spec_fn(T) -> nat)
    ensures
        max_at_least_one(s, f) >= 1,
    decreases s.len(),
{
    if s.len() > 0 {
        lemma_max_positive(s.drop_last(), f);
    }
}

proof fn lemma_part_bound(x: nat, m: nat)
    requires
        x <= m,
        m >= 1,
    ensures
        x * POCI_SCALE as nat / m <= POCI_SCALE,
{
    let s = POCI_SCALE as nat;
    assert(x * s <= s * m) by (nonlinear_arith)
        requires
            x <= m,
    ;
    assert((x * s) / m <= s) by (nonlinear_arith)
        requires
            x * s <= s * m,
            m >= 1,
    ;
}

/// No index is above one whole.
pub proof fn law_poci_at_most_one(p: PociInput, i: int)
    requires
        0 <= i < p.miners.len(),
    ensures
        poci_of(p, i) <= POCI_SCALE,
{
    let e = p.miners[i];
    lemma_max_bounds(p.miners, |e: (MinerId, MinerData)| isqrt_of(e.1.shares as nat), i);
    lemma_max_bounds(p.miners, |e: (MinerId, MinerData)| loyalty_of(p.loyalty, e.0) as nat, i);
    lemma_max_bounds(
        p.miners,
        |e: (MinerId, MinerData)| bond_weight(p.bonds, e.0, p.height),
        i,
    );
    lemma_part_bound(isqrt_of(e.1.shares as nat), max_shares(p));
    lemma_part_bound(loyalty_of(p.loyalty, e.0) as nat, max_loyalty(p));
    lemma_part_bound(bond_weight(p.bonds, e.0, p.height), max_bond(p));
}

/// The rewards of an epoch add up to no more than the epoch's reward.
pub proof fn law_rewards_within_budget(p: PociInput)
    ensures
        reward_total(p, p.miners.len() as int) <= EPOCH_REWARD_LYT,
{
    let n = p.miners.len() as int;
    let total = poci_total(p, n);
    if total == 0 {
        lemma_no_rewards(p, n);
    } else {
        lemma_rewards_scaled(p, n);
        let r = reward_total(p, n);
        let e = EPOCH_REWARD_LYT as nat;
        assert(r <= e) by (nonlinear_arith)
            requires
                r * total <= total * e,
                total > 0,
        ;
    }
}

proof fn lemma_no_rewards(p: PociInput, n: int)
    requires
        poci_total(p, p.miners.len() as int) == 0,
    ensures
        reward_total(p, n) == 0,
    decreases n,
{
    if n > 0 {
        lemma_no_rewards(p, n - 1);
    }
}

proof fn lemma_rewards_scaled(p: PociInput, n: int)
    requires
        poci_total(p, p.miners.len() as int) > 0,
    ensures
        reward_total(p, n) * poci_total(p, p.miners.len() as int) <= poci_total(p, n)
            * EPOCH_REWARD_LYT as nat,
    decreases n,
{
    if n > 0 {
        lemma_rewards_scaled(p, n - 1);
        let t = poci_total(p, p.miners.len() as int);
        let e = EPOCH_REWARD_LYT as nat;
        let x = poci_of(p, n - 1);
        let a = reward_total(p, n - 1);
        let b = poci_total(p, n - 1);
        let q = x * e / t;
        assert(q * t <= x * e) by (nonlinear_arith)
            requires
                q == x * e / t,
                t > 0,
        ;
        assert((a + q) * t <= (b + x) * e) by (nonlinear_arith)
            requires
                a * t <= b * e,
                q * t <= x * e,
        ;
        assert(reward_total(p, n) == a + q);
        assert(poci_total(p, n) == b + x);
    } else {
        assert(0 * poci_total(p, p.miners.len() as int) == 0) by (nonlinear_arith);
    }
}

proof fn lemma_poci_total_bound(p: PociInput, n: int)
    requires
        0 <= n <= p.miners.len(),
    ensures
        poci_total(p, n) <= n * POCI_SCALE,
    decreases n,
{
    if n > 0 {
        lemma_poci_total_bound(p, n - 1);
        law_poci_at_most_one(p, n - 1);
    }
}

proof fn lemma_poci_total_monotonic(p: PociInput, m: int, n: int)
    requires
        0 <= m <= n,
    ensures
        poci_total(p, m) <= poci_total(p, n),
    decreases n,
{
    if m < n {
        lemma_poci_total_monotonic(p, m, n - 1);
    }
}

/// The part that `x` is of `m`, in fixed point.
fn part(x: u64, m: u64) -> (r: u64)
    requires
        x <= m,
        m >= 1,
    ensures
        r == x as nat * POCI_SCALE as nat / m as nat,
        r <= POCI_SCALE,
{
    proof {
        lemma_part_bound(x as nat, m as nat);
    }
    (x as u128 * POCI_SCALE as u128 / m as u128) as u64
}

/// The root of the bond of a miner, where it counts at a height.
fn bond_root(bonds: &OrdMap<MinerId, Bond>, m: &MinerId, height: Height) -> (r: u64)
    ensures
        r == bond_weight(bonds@, *m, height),
{
    match bonds.get(m) {
        Some(b) => if b.is_active(height) && b.is_valid_for_poci() {
            isqrt(b.amount)
        } else {
            0
        },
        None => 0,
    }
}

/// The loyalty of a miner, zero where none is known.
fn loyalty_value(loyalty: &OrdMap<MinerId, LoyaltyData>, m: &MinerId) -> (r: u64)
    ensures
        r == loyalty_of(loyalty@, *m),
{
    match loyalty.get(m) {
        Some(l) => l.value,
        None => 0,
    }
}

/// The contribution index and the reward of each miner, in increasing order of their identifiers.
/// The rewards add up to no more than the epoch's reward.
pub fn calculate_poci(
    miners: &OrdMap<MinerId, MinerData>,
    bonds: &OrdMap<MinerId, Bond>,
    loyalty: &OrdMap<MinerId, LoyaltyData>,
    current_height: Height,
) -> (r: Vec<PoCIResult>)
    requires
        forall|m: MinerId| #[trigger] miners@.contains_key(m) ==> miners@[m].miner_id == m,
    ensures
        ({
            let p = PociInput {
                miners: miners.items(),
                bonds: bonds@,
                loyalty: loyalty@,
                height: current_height,
            };
            &&& r@.len() == p.miners.len()
            &&& forall|i: int| 0 <= i < r@.len() ==> poci_outcome(p, i, #[trigger] r@[i])
            &&& reward_total(p, r@.len() as int) <= EPOCH_REWARD_LYT
        }),
{
    let n: usize = miners.len();
    let ghost p = PociInput {
        miners: miners.items(),
        bonds: bonds@,
        loyalty: loyalty@,
        height: current_height,
    };
    let ghost fs = |e: (MinerId, MinerData)| isqrt_of(e.1.shares as nat);
    let ghost fl = |e: (MinerId, MinerData)| loyalty_of(p.loyalty, e.0) as nat;
    let ghost fb = |e: (MinerId, MinerData)| bond_weight(p.bonds, e.0, p.height);
    let mut top_shares: u64 = 1;
    let mut top_loyalty: u64 = 1;
    let mut top_bond: u64 = 1;
    let mut i: usize = 0;
    while i < n
        invariant
            i <= n,
            n == p.miners.len(),
            p.miners == miners.items(),
            p.bonds == bonds@,
            p.loyalty == loyalty@,
            p.height == current_height,
            fs == (|e: (MinerId, MinerData)| isqrt_of(e.1.shares as nat)),
            fl == (|e: (MinerId, MinerData)| loyalty_of(p.loyalty, e.0) as nat),
            fb == (|e: (MinerId, MinerData)| bond_weight(p.bonds, e.0, p.height)),
            top_shares == max_at_least_one(p.miners.take(i as int), fs),
            top_loyalty == max_at_least_one(p.miners.take(i as int), fl),
            top_bond == max_at_least_one(p.miners.take(i as int), fb),
        decreases n - i,
    {
        let id = miners.key_at(i);
        let data = miners.value_at(i);
        assert(p.miners.take(i + 1).drop_last() =~= p.miners.take(i as int));
        assert(p.miners.take(i + 1).last() == p.miners[i as int]);
        let shares: u64 = isqrt(data.shares);
        if shares > top_shares {
            top_shares = shares;
        }
        let loyal: u64 = loyalty_value(loyalty, &id);
        if loyal > top_loyalty {
            top_loyalty = loyal;
        }
        let bond: u64 = bond_root(bonds, &id, current_height);
        if bond > top_bond {
            top_bond = bond;
        }
        i += 1;
    }
    assert(p.miners.take(n as int) =~= p.miners);
    assert(top_shares == max_shares(p));
    assert(top_loyalty == max_loyalty(p));
    assert(top_bond == max_bond(p));
    let mut results: Vec<PoCIResult> = Vec::new();
    let mut total_poci: u128 = 0;
    let mut j: usize = 0;
    while j < n
        invariant
            j <= n,
            n == p.miners.len(),
            p.miners == miners.items(),
            p.bonds == bonds@,
            p.loyalty == loyalty@,
            p.height == current_height,
            fs == (|e: (MinerId, MinerData)| isqrt_of(e.1.shares as nat)),
            fl == (|e: (MinerId, MinerData)| loyalty_of(p.loyalty, e.0) as nat),
            fb == (|e: (MinerId, MinerData)| bond_weight(p.bonds, e.0, p.height)),
            top_shares == max_shares(p),
            top_loyalty == max_loyalty(p),
            top_bond == max_bond(p),
            results@.len() == j,
            total_poci == poci_total(p, j as int),
            total_poci <= j * POCI_SCALE,
            forall|k: int|
                0 <= k < j ==> poci_outcome(
                    p,
                    k,
                    PoCIResult { reward: reward_of(p, k) as u64, ..#[trigger] results@[k] },
                ) || reward_of(p, k) > u64::MAX,
            forall|k: int|
                0 <= k < j ==> (#[trigger] results@[k]).reward == 0 && results@[k].poci == poci_of(
                    p,
                    k,
                ),
        decreases n - j,
    {
        let id = miners.key_at(j);
        let data = miners.value_at(j);
        proof {
            lemma_max_bounds(p.miners, fs, j as int);
            lemma_max_bounds(p.miners, fl, j as int);
            lemma_max_bounds(p.miners, fb, j as int);
        }
        let share_norm: u64 = part(isqrt(data.shares), top_shares);
        let loyalty_val: u64 = loyalty_value(loyalty, &id);
        let loyalty_norm: u64 = part(loyalty_val, top_loyalty);
        let bond_norm: u64 = part(bond_root(bonds, &id, current_height), top_bond);
        let bond_amount: u64 = match bonds.get(&id) {
            Some(b) => b.amount,
            None => 0,
        };
        let poci: u64 = ((POCI_WEIGHT_SHARES as u128 * share_norm as u128
            + POCI_WEIGHT_LOYALTY as u128 * loyalty_norm as u128 + POCI_WEIGHT_BOND as u128
            * bond_norm as u128) / POCI_SCALE as u128) as u64;
        assert(poci == poci_of(p, j as int));
        total_poci = total_poci + poci as u128;
        results.push(
            PoCIResult {
                miner_id: id,
                poci,
                shares: data.shares,
                loyalty: loyalty_val,
                bond: bond_amount,
                reward: 0,
            },
        );
        j += 1;
    }
    proof {
        law_rewards_within_budget(p);
    }
    if total_poci == 0 {
        return results;
    }
    let mut k: usize = 0;
    while k < n
        invariant
            k <= n,
            n == p.miners.len(),
            results@.len() == n,
            total_poci == poci_total(p, n as int),
            total_poci > 0,
            forall|q: int| 0 <= q < k ==> poci_outcome(p, q, #[trigger] results@[q]),
            forall|q: int|
                k <= q < n ==> (poci_outcome(
                    p,
                    q,
                    PoCIResult { reward: reward_of(p, q) as u64, ..#[trigger] results@[q] },
                ) || reward_of(p, q) > u64::MAX) && results@[q].poci == poci_of(p, q),
        decreases n - k,
    {
        let mut result = results[k];
        proof {
            law_poci_at_most_one(p, k as int);
            lemma_poci_total_monotonic(p, k + 1, n as int);
            let x = result.poci as nat;
            let e = EPOCH_REWARD_LYT as nat;
            let t = total_poci as nat;
            assert(x <= t);
            assert(x * e <= e * t) by (nonlinear_arith)
                requires
                    x <= t,
            ;
            assert((x * e) / t <= e) by (nonlinear_arith)
                requires
                    x * e <= e * t,
                    t > 0,
            ;
        }
        result.reward = (result.poci as u128 * EPOCH_REWARD_LYT as u128 / total_poci) as u64;
        results.set(k, result);
        k += 1;
    }
    results
}

/// A bond that was taken away.
#[derive(Debug)]
pub struct SlashRecord {
    pub miner_id: MinerId,
    pub amount: u64,
    pub height: Height,
    pub timestamp: Timestamp,
    pub proof: Vec<u8>,
}

/// What a record of a slashing holds.
#[verifier::ext_equal]
pub struct SlashRecordV {
    pub miner_id: MinerId,
    pub amount: u64,
    pub height: Height,
    pub timestamp: Timestamp,
    pub proof: Seq<u8>,
}

impl View for SlashRecord {
    type V = SlashRecordV;

    open spec fn view(&self) -> SlashRecordV {
        SlashRecordV {
            miner_id: self.miner_id,
            amount: self.amount,
            height: self.height,
            timestamp: self.timestamp,
            proof: self.proof@,
        }
    }
}

/// The charge that a miner signed two blocks at one height.
#[derive(Debug)]
pub struct EquivocationProof {
    pub miner_id: MinerId,
    pub block_height: Height,
    pub block_hash_1: Hash32,
    pub block_hash_2: Hash32,
    pub signature_1: Vec<u8>,
    pub signature_2: Vec<u8>,
    pub timestamp: Timestamp,
    pub proven: bool,
}

/// What a store answers when it is asked for a block.
pub type BlockLookup = Result<Option<Block>, String>;

/// What a store answers when it is asked for a bond.
pub type BondLookup = Result<Option<Bond>, String>;

/// The proof-of-work hash of a block.
pub open spec fn block_hash_of(b: BlockV) -> Seq<u8> {
    pow_hash_of(header_bytes(b.header))
}

/// Whether a block carries a key and a signature of its hash that verifies under the key.
pub open spec fn signed_by_key(b: BlockV) -> bool {
    b.signature matches Some(sig) && b.pubkey matches Some(key) && (key.len() == 33 || key.len()
        == 65) && ecdsa_accepts(key, sig, sha256_of(block_hash_of(b)))
}

/// The miner that the first output with a bond names.
pub open spec fn first_bond(outs: Seq<TxOutV>) -> Option<Seq<u8>>
    decreases outs.len(),
{
    if outs.len() == 0 {
        None
    } else if bond_script(outs[0].script_pubkey) {
        Some(outs[0].script_pubkey.subrange(1, 21))
    } else {
        first_bond(outs.drop_first())
    }
}

/// The miner of a block: the one that the first bond of its coinbase names, else the one whose
/// key it carries.
pub open spec fn block_miner(b: BlockV) -> Option<Seq<u8>> {
    if b.transactions.len() > 0 && coinbase_transaction(b.transactions[0]) && first_bond(
        b.transactions[0].outputs,
    ) is Some {
        first_bond(b.transactions[0].outputs)
    } else {
        match b.pubkey {
            Some(key) => match parsed_public_key(key) {
                Some(k) => Some(hash160(k)),
                None => None,
            },
            None => None,
        }
    }
}

/// Whether two blocks convict a miner: they differ, both are signed, and both are the miner's.
/// `Err` where no miner can be told.
pub open spec fn convicts(miner_id: MinerId, a: BlockV, b: BlockV) -> Result<bool, Seq<char>> {
    if block_hash_of(a) == block_hash_of(b) || !signed_by_key(a) || !signed_by_key(b) {
        Ok(false)
    } else if block_miner(a) is None || block_miner(b) is None {
        Err("Cannot extract miner_id from block"@)
    } else {
        Ok(block_miner(a) == block_miner(b) && block_miner(a)->0 == miner_id@)
    }
}

/// The verdict on a charge, given what the store answers when it is asked for the two blocks.
pub open spec fn verdict(miner_id: MinerId, found_1: BlockLookup, found_2: BlockLookup) -> Result<
    bool,
    Seq<char>,
> {
    match found_1 {
        Err(words) => Err(words@),
        Ok(None) => Err("Block 1 not found"@),
        Ok(Some(a)) => match found_2 {
            Err(words) => Err(words@),
            Ok(None) => Err("Block 2 not found"@),
            Ok(Some(b)) => convicts(miner_id, a@, b@),
        },
    }
}

fn block_signature_holds(block: &Block, hash: &Hash32) -> (r: bool)
    requires
        hash@ == block_hash_of(block@),
    ensures
        r == signed_by_key(block@),
{
    match (&block.signature, &block.pubkey) {
        (Some(sig), Some(key)) => Wallet::verify_signature(
            key.as_slice(),
            sig.as_slice(),
            hash.as_slice(),
        ),
        _ => false,
    }
}

impl EquivocationProof {
    /// The height of the second block: that of the first.
    pub fn block_height_2(&self) -> (r: Height)
        ensures
            r == self.block_height,
    {
        self.block_height
    }

    /// The verdict on the charge, given what the store answers when it is asked for the two
    /// blocks.
    pub fn verify(
        &self,
        found_1: &BlockLookup,
        found_2: &BlockLookup,
        argon2: &mut Argon2Cache,
    ) -> (r: Result<bool, String>)
        ensures
            match r {
                Ok(proven) => verdict(self.miner_id, *found_1, *found_2) == Ok::<bool, Seq<char>>(
                    proven,
                ),
                Err(words) => verdict(self.miner_id, *found_1, *found_2) == Err::<
                    bool,
                    Seq<char>,
                >(words@),
            },
            final(argon2).max_size() == old(argon2).max_size(),
    {
        let block1 = match found_1 {
            Err(words) => {
                return Err(words.clone());
            },
            Ok(None) => {
                return Err("Block 1 not found".to_string());
            },
            Ok(Some(block)) => block,
        };
        let block2 = match found_2 {
            Err(words) => {
                return Err(words.clone());
            },
            Ok(None) => {
                return Err("Block 2 not found".to_string());
            },
            Ok(Some(block)) => block,
        };
        let hash1 = block1.header.hash(argon2);
        let hash2 = block2.header.hash(argon2);
        proof {
            if hash1@ == hash2@ {
                assert(hash1 =~= hash2);
            }
        }
        if arrays_equal(&hash1, &hash2) {
            return Ok(false);
        }
        let sig1_ok = block_signature_holds(block1, &hash1);
        let sig2_ok = block_signature_holds(block2, &hash2);
        if !sig1_ok || !sig2_ok {
            return Ok(false);
        }
        let miner1 = match Self::extract_miner_id_from_block(block1) {
            Ok(id) => id,
            Err(words) => {
                return Err(words);
            },
        };
        let miner2 = match Self::extract_miner_id_from_block(block2) {
            Ok(id) => id,
            Err(words) => {
                return Err(words);
            },
        };
        proof {
            if miner1@ == miner2@ {
                assert(miner1 =~= miner2);
            }
            if miner1@ == self.miner_id@ {
                assert(miner1 =~= self.miner_id);
            }
        }
        if !arrays_equal(&miner1, &miner2) {
            return Ok(false);
        }
        if !arrays_equal(&miner1, &self.miner_id) {
            return Ok(false);
        }
        Ok(true)
    }

    /// The miner of a block.
    pub fn extract_miner_id_from_block(block: &Block) -> (r: Result<MinerId, String>)
        ensures
            match r {
                Ok(id) => block_miner(block@) == Some(id@),
                Err(words) => block_miner(block@) is None && words@
                    == "Cannot extract miner_id from block"@,
            },
    {
        if block.transactions.len() > 0 {
            let coinbase = &block.transactions[0];
            assert(block@.transactions[0] == coinbase@);
            if coinbase.is_coinbase() {
                let ghost outs = coinbase@.outputs;
                let mut i: usize = 0;
                assert(outs.skip(0) =~= outs);
                while i < coinbase.outputs.len()
                    invariant
                        i <= coinbase.outputs@.len(),
                        outs == coinbase@.outputs,
                        block.transactions@.len() > 0,
                        block@.transactions[0] == coinbase@,
                        coinbase_transaction(coinbase@),
                        first_bond(outs) == first_bond(outs.skip(i as int)),
                    decreases coinbase.outputs@.len() - i,
                {
                    assert(outs.skip(i as int)[0] == coinbase.outputs@[i as int]@);
                    assert(outs.skip(i as int).drop_first() =~= outs.skip(i + 1));
                    if let Some(id) = coinbase.outputs[i].extract_miner_id() {
                        return Ok(id);
                    }
                    i += 1;
                }
                assert(outs.skip(i as int) =~= Seq::<TxOutV>::empty());
            }
        }
        if let Some(key) = &block.pubkey {
            if let Some(k) = parse_public_key(key.as_slice()) {
                return Ok(Wallet::miner_id_from_pubkey(&k));
            }
        }
        Err("Cannot extract miner_id from block".to_string())
    }

    /// The record of the slashing at a height and a time, given what the store answers when it is
    /// asked for the bond, and the written form of the charge.
    pub fn execute_slash(
        &self,
        bond: &BondLookup,
        height: Height,
        now: Timestamp,
        proof: Vec<u8>,
    ) -> (r: Result<SlashRecord, String>)
        ensures
            match r {
                Ok(record) => *bond is Ok && (*bond)->Ok_0 is Some && record@ == (SlashRecordV {
                    miner_id: self.miner_id,
                    amount: (*bond)->Ok_0->0.amount,
                    height,
                    timestamp: now,
                    proof: proof@,
                }),
                Err(words) => match *bond {
                    Err(w) => words@ == w@,
                    Ok(None) => words@ == "No bond found for miner"@,
                    Ok(Some(_)) => false,
                },
            },
    {
        match bond {
            Err(words) => Err(words.clone()),
            Ok(None) => Err("No bond found for miner".to_string()),
            Ok(Some(b)) => Ok(
                SlashRecord {
                    miner_id: self.miner_id,
                    amount: b.amount,
                    height,
                    timestamp: now,
                    proof,
                },
            ),
        }
    }

    /// The charge that the miner of the first block signed both, made at `now`.
    pub fn from_blocks_at(block1: &Block, block2: &Block, height: Height, now: Timestamp) -> (r:
        Result<Self, String>)
        ensures
            match r {
                Ok(p) => block_miner(block1@) == Some(p.miner_id@) && charge_made(
                    p,
                    block1@,
                    block2@,
                    height,
                ) && p.timestamp == now,
                Err(words) => block_miner(block1@) is None && words@
                    == "Cannot extract miner_id from block"@,
            },
    {
        let miner_id = match Self::extract_miner_id_from_block(block1) {
            Ok(id) => id,
            Err(words) => {
                return Err(words);
            },
        };
        let mut argon2 = Argon2Cache::new(100);
        let hash1 = block1.header.hash(&mut argon2);
        let hash2 = block2.header.hash(&mut argon2);
        Ok(
            EquivocationProof {
                miner_id,
                block_height: height,
                block_hash_1: hash1,
                block_hash_2: hash2,
                signature_1: bytes_or_none(&block1.signature),
                signature_2: bytes_or_none(&block2.signature),
                timestamp: now,
                proven: false,
            },
        )
    }

    /// The charge that the miner of the first block signed both, made at the time that the clock
    /// shows.
    pub fn from_blocks(block1: &Block, block2: &Block, height: Height) -> (r: Result<Self, String>)
        ensures
            match r {
                Ok(p) => block_miner(block1@) == Some(p.miner_id@) && charge_made(
                    p,
                    block1@,
                    block2@,
                    height,
                ),
                Err(words) => block_miner(block1@) is None && words@
                    == "Cannot extract miner_id from block"@,
            },
    {
        Self::from_blocks_at(block1, block2, height, current_timestamp())
    }
}

/// Whether a charge names two blocks at a height.
pub open spec fn charge_made(p: EquivocationProof, a: BlockV, b: BlockV, height: Height) -> bool {
    &&& p.block_height == height
    &&& p.block_hash_1@ == block_hash_of(a)
    &&& p.block_hash_2@ == block_hash_of(b)
    &&& p.signature_1@ == or_empty(a.signature)
    &&& p.signature_2@ == or_empty(b.signature)
    &&& !p.proven
}

/// The bytes, or none where there are none.
pub open spec fn or_empty(b: Option<Seq<u8>>) -> Seq<u8> {
    match b {
        Some(bytes) => bytes,
        None => Seq::empty(),
    }
}

fn bytes_or_none(b: &Option<Vec<u8>>) -> (r: Vec<u8>)
    ensures
        r@ == or_empty(crate::block::optional_bytes(*b)),
{
    match b {
        Some(bytes) => vec_of(bytes.as_slice()),
        None => Vec::new(),
    }
}

/// A block found twice convicts nobody.
pub proof fn law_one_block_convicts_nobody(miner_id: MinerId, found: BlockLookup)
    ensures
        verdict(miner_id, found, found) != Ok::<bool, Seq<char>>(true),
{
}

/// What the store answers on a charge: the two blocks, the bond of the miner, and the written
/// form of the charge.
pub struct SlashEvidence {
    pub found_1: BlockLookup,
    pub found_2: BlockLookup,
    pub bond: BondLookup,
    pub written: Vec<u8>,
}

/// Where the processing of charges stands.
#[verifier::ext_equal]
pub struct SlashProgress {
    pub processed: Set<MinerId>,
    pub records: Seq<SlashRecordV>,
    pub fault: Option<Seq<char>>,
}

/// Where the processing stands after the first `n` charges: each that convicts a miner who was
/// not slashed before makes a record, and the first error ends it.
pub open spec fn slashing(
    pending: Seq<EquivocationProof>,
    evidence: Seq<SlashEvidence>,
    processed: Set<MinerId>,
    height: Height,
    now: Timestamp,
    n: int,
) -> SlashProgress
    decreases n,
{
    if n <= 0 {
        SlashProgress { processed, records: Seq::empty(), fault: None }
    } else {
        let p = slashing(pending, evidence, processed, height, now, n - 1);
        let miner = pending[n - 1].miner_id;
        let e = evidence[n - 1];
        if p.fault is Some || p.processed.contains(miner) {
            p
        } else {
            match verdict(miner, e.found_1, e.found_2) {
                Err(words) => SlashProgress { fault: Some(words), ..p },
                Ok(false) => p,
                Ok(true) => match e.bond {
                    Err(words) => SlashProgress { fault: Some(words@), ..p },
                    Ok(None) => SlashProgress { fault: Some("No bond found for miner"@), ..p },
                    Ok(Some(bond)) => SlashProgress {
                        processed: p.processed.insert(miner),
                        records: p.records.push(
                            SlashRecordV {
                                miner_id: miner,
                                amount: bond.amount,
                                height,
                                timestamp: now,
                                proof: e.written@,
                            },
                        ),
                        fault: None,
                    },
                },
            }
        }
    }
}

/// What a list of records holds.
pub open spec fn record_views(s: Seq<SlashRecord>) -> Seq<SlashRecordV> {
    s.map_values(|r: SlashRecord| r@)
}

/// The charges that wait, and the miners who were slashed.
pub struct SlashingPool {
    pub pending_slashes: Vec<EquivocationProof>,
    pub processed_slashes: OrdSet<MinerId>,
    pub slash_height: Height,
}

impl SlashingPool {
    /// A pool without charges.
    pub fn new() -> (r: Self)
        ensures
            r.pending_slashes@ == Seq::<EquivocationProof>::empty(),
            r.processed_slashes@ == Set::<MinerId>::empty(),
            r.slash_height == 0,
    {
        SlashingPool {
            pending_slashes: Vec::new(),
            processed_slashes: OrdSet::new(),
            slash_height: 0,
        }
    }

    /// Takes in a charge against a miner who was not slashed before.
    pub fn add_proof(&mut self, proof: EquivocationProof)
        ensures
            final(self).pending_slashes@ == if old(self).processed_slashes@.contains(
                proof.miner_id,
            ) {
                old(self).pending_slashes@
            } else {
                old(self).pending_slashes@.push(proof)
            },
            final(self).processed_slashes@ == old(self).processed_slashes@,
            final(self).slash_height == old(self).slash_height,
    {
        if !self.processed_slashes.contains(&proof.miner_id) {
            self.pending_slashes.push(proof);
        }
    }

    /// Decides the waiting charges in order, given what the store answers on each. The records
    /// are those of the slashings that took place; an error ends the processing and leaves the
    /// charges waiting.
    pub fn process_all(
        &mut self,
        evidence: &Vec<SlashEvidence>,
        argon2: &mut Argon2Cache,
        current_height: Height,
        now: Timestamp,
    ) -> (r: (Vec<SlashRecord>, Result<(), String>))
        requires
            evidence@.len() == old(self).pending_slashes@.len(),
        ensures
            ({
                let p = slashing(
                    old(self).pending_slashes@,
                    evidence@,
                    old(self).processed_slashes@,
                    current_height,
                    now,
                    old(self).pending_slashes@.len() as int,
                );
                &&& record_views(r.0@) == p.records
                &&& final(self).processed_slashes@ == p.processed
                &&& match r.1 {
                    Ok(()) => p.fault is None && final(self).pending_slashes@ == Seq::<
                        EquivocationProof,
                    >::empty() && final(self).slash_height == current_height,
                    Err(words) => p.fault == Some(words@) && final(self).pending_slashes@ == old(
                        self,
                    ).pending_slashes@ && final(self).slash_height == old(self).slash_height,
                }
            }),
            final(argon2).max_size() == old(argon2).max_size(),
    {
        let ghost pending = self.pending_slashes@;
        let ghost start = self.processed_slashes@;
        let mut records: Vec<SlashRecord> = Vec::new();
        let mut i: usize = 0;
        assert(record_views(records@) =~= Seq::<SlashRecordV>::empty());
        while i < self.pending_slashes.len()
            invariant
                i <= pending.len(),
                pending == self.pending_slashes@,
                pending == old(self).pending_slashes@,
                self.slash_height == old(self).slash_height,
                evidence@.len() == pending.len(),
                slashing(pending, evidence@, start, current_height, now, i as int) == (
                SlashProgress {
                    processed: self.processed_slashes@,
                    records: record_views(records@),
                    fault: None,
                }),
                start == old(self).processed_slashes@,
                argon2.max_size() == old(argon2).max_size(),
            decreases pending.len() - i,
        {
            let ghost here = slashing(pending, evidence@, start, current_height, now, i + 1);
            let charge = &self.pending_slashes[i];
            let e = &evidence[i];
            if !self.processed_slashes.contains(&charge.miner_id) {
                match charge.verify(&e.found_1, &e.found_2, argon2) {
                    Err(words) => {
                        proof {
                            lemma_slashing_stops(
                                pending,
                                evidence@,
                                start,
                                current_height,
                                now,
                                i + 1,
                                pending.len() as int,
                            );
                        }
                        return (records, Err(words));
                    },
                    Ok(false) => {},
                    Ok(true) => {
                        let written = vec_of(e.written.as_slice());
                        match charge.execute_slash(&e.bond, current_height, now, written) {
                            Err(words) => {
                                proof {
                                    lemma_slashing_stops(
                                        pending,
                                        evidence@,
                                        start,
                                        current_height,
                                        now,
                                        i + 1,
                                        pending.len() as int,
                                    );
                                }
                                return (records, Err(words));
                            },
                            Ok(record) => {
                                let ghost before = record_views(records@);
                                let miner_id = charge.miner_id;
                                self.processed_slashes.insert(miner_id);
                                records.push(record);
                                assert(record_views(records@) =~= before.push(record@));
                                assert(record_views(records@) =~= here.records);
                            },
                        }
                    },
                }
            }
            i += 1;
        }
        self.pending_slashes.clear();
        self.slash_height = current_height;
        (records, Ok(()))
    }

    /// Whether a miner was slashed.
    pub fn is_slashed(&self, miner_id: &MinerId) -> (r: bool)
        ensures
            r == self.processed_slashes@.contains(*miner_id),
    {
        self.processed_slashes.contains(miner_id)
    }
}

proof fn lemma_slashing_stops(
    pending: Seq<EquivocationProof>,
    evidence: Seq<SlashEvidence>,
    processed: Set<MinerId>,
    height: Height,
    now: Timestamp,
    m: int,
    n: int,
)
    requires
        m <= n,
        slashing(pending, evidence, processed, height, now, m).fault is Some,
    ensures
        slashing(pending, evidence, processed, height, now, n) == slashing(
            pending,
            evidence,
            processed,
            height,
            now,
            m,
        ),
    decreases n - m,
{
    if m < n {
        lemma_slashing_stops(pending, evidence, processed, height, now, m, n - 1);
    }
}

/// Nobody is slashed twice: the records of a processing name miners who were not slashed before
/// it, each of them once, and afterwards those are slashed, with those who were before.
pub proof fn law_slashed_once(
    pending: Seq<EquivocationProof>,
    evidence: Seq<SlashEvidence>,
    processed: Set<MinerId>,
    height: Height,
    now: Timestamp,
    n: int,
)
    ensures
        ({
            let p = slashing(pending, evidence, processed, height, now, n);
            &&& processed.subset_of(p.processed)
            &&& forall|i: int|
                0 <= i < p.records.len() ==> !processed.contains((#[trigger] p.records[i]).miner_id)
                    && p.processed.contains(p.records[i].miner_id)
            &&& forall|i: int, j: int|
                0 <= i < j < p.records.len() ==> (#[trigger] p.records[i]).miner_id != (
                #[trigger] p.records[j]).miner_id
        }),
    decreases n,
{
    if n > 0 {
        law_slashed_once(pending, evidence, processed, height, now, n - 1);
    }
}

/// Every number has a square root.
proof fn lemma_isqrt_exists(n: nat)
    ensures
        is_isqrt(isqrt_of(n), n),
    decreases n,
{
    if n == 0 {
        assert(is_isqrt(0, 0)) by (nonlinear_arith);
    } else {
        lemma_isqrt_exists((n - 1) as nat);
        let r = isqrt_of((n - 1) as nat);
        if (r + 1) * (r + 1) <= n {
            assert((r + 2) * (r + 2) > n) by (nonlinear_arith)
                requires
                    n - 1 < (r + 1) * (r + 1),
            ;
            assert(is_isqrt(r + 1, n));
        } else {
            assert(is_isqrt(r, n));
        }
    }
}

/// The root of a square is its side, and a larger number has no smaller root.
pub proof fn law_root_of_a_square(r: nat, a: nat, b: nat)
    ensures
        isqrt_of(r * r) == r,
        a <= b ==> isqrt_of(a) <= isqrt_of(b),
        isqrt_of(a) * isqrt_of(a) <= a,
        a < (isqrt_of(a) + 1) * (isqrt_of(a) + 1),
{
    assert(r * r < (r + 1) * (r + 1)) by (nonlinear_arith);
    assert(is_isqrt(r, r * r));
    lemma_isqrt_unique(r, r, r * r);
    lemma_isqrt_exists(a);
    lemma_isqrt_exists(b);
    let x = isqrt_of(a);
    let y = isqrt_of(b);
    assert(a <= b ==> x <= y) by (nonlinear_arith)
        requires
            x * x <= a,
            b < (y + 1) * (y + 1),
    ;
}

/// The largest value is the one that no other exceeds.
proof fn lemma_max_is_top<T>(s: Seq<T>, f: spec_fn(T) -> nat, x: nat)
    requires
        x >= 1,
        forall|j: int| 0 <= j < s.len() ==> f(#[trigger] s[j]) <= x,
    ensures
        max_at_least_one(s, f) <= x,
    decreases s.len(),
{
    if s.len() > 0 {
        let rest = s.drop_last();
        assert forall|j: int| 0 <= j < rest.len() implies f(#[trigger] rest[j]) <= x by {
            assert(f(s[j]) <= x);
        }
        lemma_max_is_top(rest, f, x);
    }
}

/// Whether a miner has no loyalty.
pub open spec fn disloyal(p: PociInput, m: MinerId) -> bool {
    p.loyalty.contains_key(m) ==> p.loyalty[m].value == 0
}

/// Whether a miner has a bond that counts: it is locked and no less than ten million.
pub open spec fn bonded(p: PociInput, m: MinerId) -> bool {
    &&& p.bonds.contains_key(m)
    &&& p.bonds[m].created_at <= p.height
    &&& p.height < p.bonds[m].lock_until
    &&& p.bonds[m].amount >= 10_000_000
}

/// Whether no miner has more shares than one, and it has some.
pub open spec fn most_shares(p: PociInput, i: int) -> bool {
    &&& p.miners[i].1.shares > 0
    &&& forall|j: int|
        0 <= j < p.miners.len() ==> (#[trigger] p.miners[j]).1.shares <= p.miners[i].1.shares
}

/// Whether no miner has more loyalty than one, and it has some.
pub open spec fn most_loyalty(p: PociInput, i: int) -> bool {
    &&& !disloyal(p, p.miners[i].0)
    &&& forall|j: int|
        0 <= j < p.miners.len() && p.loyalty.contains_key((#[trigger] p.miners[j]).0)
            ==> p.loyalty[p.miners[j].0].value <= p.loyalty[p.miners[i].0].value
}

/// Whether no miner has a larger bond that counts than one, and it has one.
pub open spec fn most_bond(p: PociInput, i: int) -> bool {
    &&& bonded(p, p.miners[i].0)
    &&& forall|j: int|
        0 <= j < p.miners.len() && bonded(p, (#[trigger] p.miners[j]).0)
            ==> p.bonds[p.miners[j].0].amount <= p.bonds[p.miners[i].0].amount
}

/// The three parts of an index: full for whoever leads, nothing for whoever has none.
proof fn lemma_parts(p: PociInput, i: int)
    requires
        0 <= i < p.miners.len(),
    ensures
        ({
            let e = p.miners[i];
            let shares = isqrt_of(e.1.shares as nat) * 1_000_000_000 / max_shares(p);
            let loyalty = loyalty_of(p.loyalty, e.0) as nat * 1_000_000_000 / max_loyalty(p);
            let bond = bond_weight(p.bonds, e.0, p.height) * 1_000_000_000 / max_bond(p);
            &&& most_shares(p, i) ==> shares == 1_000_000_000
            &&& e.1.shares == 0 ==> shares == 0
            &&& most_loyalty(p, i) ==> loyalty == 1_000_000_000
            &&& disloyal(p, e.0) ==> loyalty == 0
            &&& most_bond(p, i) ==> bond == 1_000_000_000
            &&& !bonded(p, e.0) ==> bond == 0
            &&& poci_of(p, i) == (600_000_000 * shares + 200_000_000 * loyalty + 200_000_000
                * bond) / 1_000_000_000
        }),
{
    let e = p.miners[i];
    let fs = |e: (MinerId, MinerData)| isqrt_of(e.1.shares as nat);
    let fl = |e: (MinerId, MinerData)| loyalty_of(p.loyalty, e.0) as nat;
    let fb = |e: (MinerId, MinerData)| bond_weight(p.bonds, e.0, p.height);
    lemma_max_bounds(p.miners, fs, i);
    lemma_max_bounds(p.miners, fl, i);
    lemma_max_bounds(p.miners, fb, i);
    law_root_of_a_square(0, 0, 0);
    if most_shares(p, i) {
        law_root_of_a_square(1, 1, e.1.shares as nat);
        assert forall|j: int| 0 <= j < p.miners.len() implies fs(#[trigger] p.miners[j]) <= fs(
            e,
        ) by {
            law_root_of_a_square(0, p.miners[j].1.shares as nat, e.1.shares as nat);
        }
        lemma_max_is_top(p.miners, fs, fs(e));
        lemma_whole(fs(e), max_shares(p));
    }
    if most_loyalty(p, i) {
        assert forall|j: int| 0 <= j < p.miners.len() implies fl(#[trigger] p.miners[j]) <= fl(
            e,
        ) by {}
        lemma_max_is_top(p.miners, fl, fl(e));
        lemma_whole(fl(e), max_loyalty(p));
    }
    if most_bond(p, i) {
        law_root_of_a_square(1, 1, p.bonds[e.0].amount as nat);
        assert forall|j: int| 0 <= j < p.miners.len() implies fb(#[trigger] p.miners[j]) <= fb(
            e,
        ) by {
            if bonded(p, p.miners[j].0) {
                law_root_of_a_square(
                    0,
                    p.bonds[p.miners[j].0].amount as nat,
                    p.bonds[e.0].amount as nat,
                );
            }
        }
        lemma_max_is_top(p.miners, fb, fb(e));
        lemma_whole(fb(e), max_bond(p));
    }
    lemma_nothing(max_shares(p));
    lemma_nothing(max_loyalty(p));
    lemma_nothing(max_bond(p));
}

proof fn lemma_whole(x: nat, m: nat)
    requires
        x == m,
        m >= 1,
    ensures
        x * 1_000_000_000 / m == 1_000_000_000,
{
    assert(x * 1_000_000_000 / m == 1_000_000_000) by (nonlinear_arith)
        requires
            x == m,
            m >= 1,
    ;
}

proof fn lemma_nothing(m: nat)
    requires
        m >= 1,
    ensures
        0nat * 1_000_000_000nat / m == 0,
{
    assert(0nat * 1_000_000_000nat / m == 0) by (nonlinear_arith)
        requires
            m >= 1,
    ;
}

/// What each contribution alone is worth: the most shares six tenths of the scale, the most loyalty
/// two tenths, the largest bond that counts two tenths; all three together the whole scale, and
/// none of them nothing.
pub proof fn law_weights_of_contributions(p: PociInput, i: int)
    requires
        0 <= i < p.miners.len(),
    ensures
        ({
            let (m, d) = p.miners[i];
            &&& most_shares(p, i) && disloyal(p, m) && !bonded(p, m) ==> poci_of(p, i)
                == 600_000_000
            &&& d.shares == 0 && most_loyalty(p, i) && !bonded(p, m) ==> poci_of(p, i)
                == 200_000_000
            &&& d.shares == 0 && disloyal(p, m) && most_bond(p, i) ==> poci_of(p, i)
                == 200_000_000
            &&& most_shares(p, i) && most_loyalty(p, i) && most_bond(p, i) ==> poci_of(p, i)
                == 1_000_000_000
            &&& d.shares == 0 && disloyal(p, m) && !bonded(p, m) ==> poci_of(p, i) == 0
        }),
{
    lemma_parts(p, i);
}

/// Shares count by the root of their number: a miner with `r * r` of them, where the most that a
/// miner has is `t * t`, has `r` in `t` parts of six tenths of the scale.
pub proof fn law_shares_count_by_their_root(p: PociInput, i: int, top: int, r: nat, t: nat)
    requires
        0 <= i < p.miners.len(),
        0 <= top < p.miners.len(),
        most_shares(p, top),
        p.miners[i].1.shares == r * r,
        p.miners[top].1.shares == t * t,
        disloyal(p, p.miners[i].0),
        !bonded(p, p.miners[i].0),
    ensures
        poci_of(p, i) == 600_000_000 * (r * 1_000_000_000 / t) / 1_000_000_000,
{
    let fs = |e: (MinerId, MinerData)| isqrt_of(e.1.shares as nat);
    lemma_parts(p, i);
    law_root_of_a_square(r, 0, 0);
    law_root_of_a_square(t, 1, p.miners[top].1.shares as nat);
    law_root_of_a_square(1, 0, 0);
    lemma_max_bounds(p.miners, fs, top);
    assert forall|j: int| 0 <= j < p.miners.len() implies fs(#[trigger] p.miners[j]) <= t by {
        law_root_of_a_square(
            0,
            p.miners[j].1.shares as nat,
            p.miners[top].1.shares as nat,
        );
    }
    lemma_max_is_top(p.miners, fs, t);
    assert(max_shares(p) == t);
}

/// Whoever contributes no less in every way has no lower index, and no lower reward.
pub proof fn law_more_contribution_is_no_worse(p: PociInput, i: int, j: int)
    requires
        0 <= i < p.miners.len(),
        0 <= j < p.miners.len(),
        p.miners[i].1.shares <= p.miners[j].1.shares,
        !disloyal(p, p.miners[i].0) ==> p.loyalty.contains_key(p.miners[j].0)
            && p.loyalty[p.miners[i].0].value <= p.loyalty[p.miners[j].0].value,
        bonded(p, p.miners[i].0) ==> bonded(p, p.miners[j].0) && p.bonds[p.miners[i].0].amount
            <= p.bonds[p.miners[j].0].amount,
    ensures
        poci_of(p, i) <= poci_of(p, j),
        reward_of(p, i) <= reward_of(p, j),
{
    let a = p.miners[i];
    let b = p.miners[j];
    let fs = |e: (MinerId, MinerData)| isqrt_of(e.1.shares as nat);
    let fl = |e: (MinerId, MinerData)| loyalty_of(p.loyalty, e.0) as nat;
    let fb = |e: (MinerId, MinerData)| bond_weight(p.bonds, e.0, p.height);
    lemma_max_bounds(p.miners, fs, i);
    lemma_max_bounds(p.miners, fl, i);
    lemma_max_bounds(p.miners, fb, i);
    law_root_of_a_square(0, a.1.shares as nat, b.1.shares as nat);
    if bonded(p, a.0) {
        law_root_of_a_square(0, p.bonds[a.0].amount as nat, p.bonds[b.0].amount as nat);
    }
    let scale = POCI_SCALE as nat;
    lemma_scaled_monotonic(fs(a), fs(b), scale, max_shares(p));
    lemma_scaled_monotonic(fl(a), fl(b), scale, max_loyalty(p));
    lemma_scaled_monotonic(fb(a), fb(b), scale, max_bond(p));
    let total = poci_total(p, p.miners.len() as int);
    if total > 0 {
        lemma_scaled_monotonic(poci_of(p, i), poci_of(p, j), EPOCH_REWARD_LYT as nat, total);
    }
}

proof fn lemma_scaled_monotonic(x: nat, y: nat, s: nat, m: nat)
    requires
        x <= y,
        m >= 1,
    ensures
        x * s / m <= y * s / m,
{
    assert(x * s <= y * s) by (nonlinear_arith)
        requires
            x <= y,
    ;
    vstd::arithmetic::div_mod::lemma_div_is_ordered((x * s) as int, (y * s) as int, m as int);
}

/// The indices of the miners.
pub open spec fn indices(p: PociInput) -> Seq<nat> {
    Seq::new(p.miners.len(), |i: int| poci_of(p, i))
}

proof fn lemma_indices_add_up(p: PociInput, n: int)
    requires
        0 <= n <= p.miners.len(),
    ensures
        poci_total(p, n) == sum_of(indices(p).take(n)),
    decreases n,
{
    let v = indices(p);
    if n == 0 {
        lemma_sum_push(Seq::<nat>::empty(), 0);
        assert(v.take(0) =~= Seq::<nat>::empty());
    } else {
        lemma_indices_add_up(p, n - 1);
        lemma_sum_push(v.take(n - 1), v[n - 1]);
        assert(v.take(n) =~= v.take(n - 1).push(v[n - 1]));
    }
}

proof fn lemma_rewards_reach(p: PociInput, n: int)
    requires
        0 <= n,
        poci_total(p, p.miners.len() as int) > 0,
    ensures
        poci_total(p, n) * EPOCH_REWARD_LYT as nat <= (reward_total(p, n) + n) * poci_total(
            p,
            p.miners.len() as int,
        ),
    decreases n,
{
    let t = poci_total(p, p.miners.len() as int);
    let e = EPOCH_REWARD_LYT as nat;
    if n > 0 {
        lemma_rewards_reach(p, n - 1);
        let x = poci_of(p, n - 1);
        let a = reward_total(p, n - 1);
        let b = poci_total(p, n - 1);
        let q = x * e / t;
        assert(x * e <= (q + 1) * t) by (nonlinear_arith)
            requires
                q == x * e / t,
                t > 0,
        ;
        assert((b + x) * e <= (a + q + n) * t) by (nonlinear_arith)
            requires
                b * e <= (a + (n - 1)) * t,
                x * e <= (q + 1) * t,
        ;
        assert(reward_total(p, n) == a + q);
        assert(poci_total(p, n) == b + x);
    } else {
        assert(0 * e == 0 && (0 + 0) * t == 0) by (nonlinear_arith);
    }
}

/// The 720000000 of an epoch go to the miners in proportion to their indices, rounded down for
/// each, and all of it goes out but for that rounding; nothing does where no index is above zero.
pub proof fn law_epoch_reward_is_shared_out(p: PociInput, i: int)
    requires
        0 <= i < p.miners.len(),
    ensures
        ({
            let n = p.miners.len() as int;
            let all = sum_of(indices(p));
            &&& all > 0 ==> reward_of(p, i) * all <= poci_of(p, i) * 720_000_000 < (reward_of(p, i)
                + 1) * all
            &&& all > 0 ==> 720_000_000 - n <= reward_total(p, n) <= 720_000_000
            &&& all == 0 ==> reward_of(p, i) == 0
        }),
{
    let n = p.miners.len() as int;
    lemma_indices_add_up(p, n);
    assert(indices(p).take(n) =~= indices(p));
    law_rewards_within_budget(p);
    let t = poci_total(p, n);
    let x = poci_of(p, i) * 720_000_000nat;
    if t > 0 {
        let q = x / t;
        assert(q * t <= x && x < (q + 1) * t) by (nonlinear_arith)
            requires
                q == x / t,
                t > 0,
        ;
        lemma_rewards_reach(p, n);
        let r = reward_total(p, n);
        assert(720_000_000 <= r + n) by (nonlinear_arith)
            requires
                t * 720_000_000 <= (r + n) * t,
                t > 0,
        ;
    }
}

/// A miner is convicted only by two blocks that the store found, whose work differs, both of which
/// carry a signature that verifies under their key, and both of which are the accused miner's; two
/// such blocks do convict it.
pub proof fn law_conviction_needs_two_blocks_of_the_miner(
    miner_id: MinerId,
    found_1: BlockLookup,
    found_2: BlockLookup,
)
    ensures
        verdict(miner_id, found_1, found_2) == Ok::<bool, Seq<char>>(true) <==> {
            &&& found_1 matches Ok(Some(a))
            &&& found_2 matches Ok(Some(b))
            &&& pow_hash_of(header_bytes(a.header)) != pow_hash_of(header_bytes(b.header))
            &&& signature_verifies(a@)
            &&& signature_verifies(b@)
            &&& block_miner(a@) == Some(miner_id@)
            &&& block_miner(b@) == Some(miner_id@)
        },
{
}

/// Whether the signature of a block verifies over the digest of its work under its key.
pub open spec fn signature_verifies(b: BlockV) -> bool {
    &&& b.signature is Some
    &&& b.pubkey is Some
    &&& b.pubkey->0.len() == 33 || b.pubkey->0.len() == 65
    &&& parsed_public_key(b.pubkey->0) is Some
    &&& is_compact_signature(b.signature->0)
    &&& ecdsa_valid(
        parsed_public_key(b.pubkey->0)->0,
        b.signature->0,
        sha256_of(pow_hash_of(header_bytes(b.header))),
    )
}

/// A block whose first transaction has no output with a bond is that of the miner whose key it
/// carries; a bond in an output of its coinbase names the miner instead, the first where there are
/// several.
pub proof fn law_miner_of_a_block(b: BlockV, k: int)
    ensures
        b.pubkey is Some && parsed_public_key(b.pubkey->0) is Some && (b.transactions.len() == 0
            || forall|i: int|
            0 <= i < b.transactions[0].outputs.len() ==> (
            #[trigger] b.transactions[0].outputs[i]).script_pubkey.len() != 21) ==> block_miner(b)
            == Some(ripemd160_of(sha256_of(parsed_public_key(b.pubkey->0)->0))),
        b.transactions.len() > 0 && coinbase_transaction(b.transactions[0]) && 0 <= k
            < b.transactions[0].outputs.len() && bond_script(
            b.transactions[0].outputs[k].script_pubkey,
        ) && (forall|i: int|
            0 <= i < k ==> !bond_script(
                (#[trigger] b.transactions[0].outputs[i]).script_pubkey,
            )) ==> block_miner(b) == Some(
            b.transactions[0].outputs[k].script_pubkey.subrange(1, 21),
        ),
{
    if b.transactions.len() > 0 {
        let outs = b.transactions[0].outputs;
        if forall|i: int|
            0 <= i < outs.len() ==> (#[trigger] outs[i]).script_pubkey.len() != 21 {
            lemma_no_bond(outs);
        }
        if 0 <= k < outs.len() && bond_script(outs[k].script_pubkey) && (forall|i: int|
            0 <= i < k ==> !bond_script((#[trigger] outs[i]).script_pubkey)) {
            lemma_bond_at(outs, k);
        }
    }
}

proof fn lemma_no_bond(outs: Seq<TxOutV>)
    requires
        forall|i: int| 0 <= i < outs.len() ==> (#[trigger] outs[i]).script_pubkey.len() != 21,
    ensures
        first_bond(outs) is None,
    decreases outs.len(),
{
    if outs.len() > 0 {
        let rest = outs.drop_first();
        assert(outs[0].script_pubkey.len() != 21);
        assert forall|i: int| 0 <= i < rest.len() implies (
        #[trigger] rest[i]).script_pubkey.len() != 21 by {
            assert(rest[i] == outs[i + 1]);
        }
        lemma_no_bond(rest);
    }
}

proof fn lemma_bond_at(outs: Seq<TxOutV>, k: int)
    requires
        0 <= k < outs.len(),
        bond_script(outs[k].script_pubkey),
        forall|i: int| 0 <= i < k ==> !bond_script((#[trigger] outs[i]).script_pubkey),
    ensures
        first_bond(outs) == Some(outs[k].script_pubkey.subrange(1, 21)),
    decreases outs.len(),
{
    if k > 0 {
        let rest = outs.drop_first();
        assert(!bond_script(outs[0].script_pubkey));
        assert forall|i: int| 0 <= i < k - 1 implies !bond_script(
            (#[trigger] rest[i]).script_pubkey,
        ) by {
            assert(rest[i] == outs[i + 1]);
        }
        lemma_bond_at(rest, k - 1);
    }
}

/// Every record of a slashing stands for a charge that waited: the evidence on it convicts the
/// miner, and the record takes the whole of the miner's bond.
pub proof fn law_slashing_takes_the_whole_bond(
    pending: Seq<EquivocationProof>,
    evidence: Seq<SlashEvidence>,
    processed: Set<MinerId>,
    height: Height,
    now: Timestamp,
    n: int,
    i: int,
)
    requires
        0 <= n <= pending.len(),
        evidence.len() == pending.len(),
        0 <= i < slashing(pending, evidence, processed, height, now, n).records.len(),
    ensures
        ({
            let r = slashing(pending, evidence, processed, height, now, n).records[i];
            exists|j: int|
                {
                    &&& 0 <= j < n
                    &&& (#[trigger] pending[j]).miner_id == r.miner_id
                    &&& verdict(r.miner_id, evidence[j].found_1, evidence[j].found_2) == Ok::<
                        bool,
                        Seq<char>,
                    >(true)
                    &&& evidence[j].bond matches Ok(Some(bond))
                    &&& r.amount == bond.amount
                    &&& r.height == height
                    &&& r.proof == evidence[j].written@
                }
        }),
    decreases n,
{
    if n > 0 {
        let before = slashing(pending, evidence, processed, height, now, n - 1);
        if i < before.records.len() {
            law_slashing_takes_the_whole_bond(
                pending,
                evidence,
                processed,
                height,
                now,
                n - 1,
                i,
            );
        } else {
            assert(pending[n - 1].miner_id == pending[n - 1].miner_id);
        }
    }
}

/// A charge that the evidence proves against a miner who has a bond and was not slashed before is
/// carried out, where no charge before it failed: afterwards the miner is slashed.
pub proof fn law_proven_charges_are_carried_out(
    pending: Seq<EquivocationProof>,
    evidence: Seq<SlashEvidence>,
    processed: Set<MinerId>,
    height: Height,
    now: Timestamp,
    n: int,
    j: int,
)
    requires
        0 <= j < n <= pending.len(),
        evidence.len() == pending.len(),
        slashing(pending, evidence, processed, height, now, n).fault is None,
        verdict(pending[j].miner_id, evidence[j].found_1, evidence[j].found_2) == Ok::<
            bool,
            Seq<char>,
        >(true),
    ensures
        slashing(pending, evidence, processed, height, now, n).processed.contains(
            pending[j].miner_id,
        ),
    decreases n,
{
    if j < n - 1 {
        law_proven_charges_are_carried_out(pending, evidence, processed, height, now, n - 1, j);
    }
}

} // verus!
