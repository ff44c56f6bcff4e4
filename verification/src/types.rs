//! Elementary types: hashes, identifiers and proof-of-work targets.
use crate::bytes::{array_less, be_value, lemma_be_value_bound, lemma_be_value_first, pow256};
use crate::constants::{SHARE_DIFFICULTY_RATIO, SHARE_PREFILTER_RATIO};
use vstd::prelude::*;

verus! {

pub type Hash32 = [u8; 32];

pub type MinerId = [u8; 20];

pub type Timestamp = u64;

pub type Height = u64;

pub type Txid = Hash32;

pub type OutPoint = (Txid, u32);

pub type PeerId = [u8; 32];

pub type Amount = u64;

pub type EpochIndex = u32;

/// An upper bound on block hashes: 32 bytes, most significant first.
#[derive(Debug, Clone, Copy, PartialEq, Eq)]
pub struct Target(pub Hash32);

/// The bytes of the easiest target: four zeros, then ones throughout.
pub open spec fn genesis_bytes() -> Seq<u8> {
    Seq::new(32, |i: int| if i < 4 { 0u8 } else { 0xFFu8 })
}

/// `v * factor`, held to what 32 bytes can write.
pub open spec fn saturated_product(v: nat, factor: nat) -> nat {
    if factor * v < pow256(32) {
        factor * v
    } else {
        (pow256(32) - 1) as nat
    }
}

/// The index of the first byte of `b` that is not zero, or the length of `b`.
pub open spec fn leading_zeros(b: Seq<u8>) -> nat
    decreases b.len(),
{
    if b.len() == 0 || b[0] != 0 {
        0
    } else {
        1 + leading_zeros(b.drop_first())
    }
}

/// The three bytes from `at` on as a number.
pub open spec fn three_bytes(b: Seq<u8>, at: int) -> nat {
    (b[at] * 65536 + b[at + 1] * 256 + b[at + 2]) as nat
}

/// Whether a target can be written in compact form: it is zero, or its leading byte has two
/// bytes behind it.
pub open spec fn compactible(b: Seq<u8>) -> bool {
    leading_zeros(b) == 32 || leading_zeros(b) <= 29
}

/// The compact form of a target: the number of bytes from its leading byte on, and the first
/// three of them.
pub open spec fn compact_of(b: Seq<u8>) -> nat {
    if leading_zeros(b) == 32 {
        0
    } else {
        ((32 - leading_zeros(b)) * 0x100_0000 + three_bytes(b, leading_zeros(b) as int)) as nat
    }
}

/// The byte at `k` of the mantissa of a compact form.
pub open spec fn mantissa_byte(compact: u32, k: int) -> u8 {
    if k == 0 {
        (compact / 65536 % 256) as u8
    } else if k == 1 {
        (compact / 256 % 256) as u8
    } else {
        (compact % 256) as u8
    }
}

/// The bytes that a compact form stands for: the mantissa where its exponent puts it, and zeros.
pub open spec fn bytes_of_compact(compact: u32) -> Seq<u8> {
    let pos = 32 - compact / 0x100_0000;
    Seq::new(
        32,
        |i: int|
            if pos <= i < pos + 3 {
                mantissa_byte(compact, i - pos)
            } else {
                0u8
            },
    )
}

/// `v * numerator / denominator`, rounded down and held to what 32 bytes can write; zero over a
/// zero denominator.
pub open spec fn scaled_value(v: nat, numerator: nat, denominator: nat) -> nat {
    if denominator == 0 {
        0
    } else if v * numerator / denominator < pow256(32) {
        v * numerator / denominator
    } else {
        (pow256(32) - 1) as nat
    }
}

/// What the bytes behind `i` carry into byte `i` when a target is multiplied by `factor`.
pub open spec fn carry_into(b: Seq<u8>, factor: nat, i: int) -> nat {
    (factor * be_value(b.skip(i + 1)) / pow256((b.len() - i - 1) as nat)) as nat
}

/// What the bytes behind `i` leave over, in millionths, when each byte is scaled.
pub open spec fn millionths_rest(b: Seq<u8>, factor: nat, i: int) -> nat
    decreases b.len() - i,
{
    if i >= b.len() {
        0
    } else {
        ((b[i] * factor + millionths_rest(b, factor, i + 1)) % 1_000_000) as nat
    }
}

/// Byte `i` of a target whose bytes are scaled by `factor` millionths from the last to the first.
pub open spec fn millionths_byte(b: Seq<u8>, factor: nat, i: int) -> u8 {
    ((b[i] * factor + millionths_rest(b, factor, i + 1)) / 1_000_000 % 256) as u8
}

/// The bits that stay in byte `x` when it is shifted left by `s < 8`.
pub open spec fn kept_bits(x: u8, s: int) -> u8 {
    (x * two_to(s) % 256) as u8
}

/// The bits that leave byte `x` when it is shifted left by `s < 8`.
pub open spec fn spilled_bits(x: u8, s: int) -> u8 {
    (x * two_to(s) / 256) as u8
}

/// `2^s` for `s < 8`.
pub open spec fn two_to(s: int) -> int {
    if s <= 0 {
        1
    } else if s == 1 {
        2
    } else if s == 2 {
        4
    } else if s == 3 {
        8
    } else if s == 4 {
        16
    } else if s == 5 {
        32
    } else if s == 6 {
        64
    } else {
        128
    }
}

/// Byte `j` of a target shifted left by `bits`. A shift by the whole width leaves nothing. The
/// whole-byte part of a shorter one leaves the three leading bytes in place and moves those behind
/// them; the byte that lands on `j` keeps its low bits there, and the byte that lands one place
/// before spills its high bits into it.
pub open spec fn shifted_byte(b: Seq<u8>, bits: int, j: int) -> u8 {
    let k = bits / 8;
    let s = bits % 8;
    let kept = if bits >= 256 {
        0u8
    } else if j < 3 {
        kept_bits(b[j], s)
    } else if j - k >= 3 {
        kept_bits(b[j - k], s)
    } else {
        0u8
    };
    let spilled = if bits >= 256 {
        0u8
    } else if 1 <= j <= 3 {
        spilled_bits(b[j - 1], s)
    } else if j - 1 - k >= 3 {
        spilled_bits(b[j - 1 - k], s)
    } else {
        0u8
    };
    kept | spilled
}


impl Target {
    /// The easiest target.
    pub fn genesis() -> (r: Self)
        ensures
            r.0@ == genesis_bytes(),
    {
        let mut b: Hash32 = [0xFFu8; 32];
        b[0] = 0;
        b[1] = 0;
        b[2] = 0;
        b[3] = 0;
        assert(b@ =~= genesis_bytes());
        Target(b)
    }

    /// Whether a hash is at most the target, both read as numbers.
    pub fn is_met_by(&self, hash: &Hash32) -> (r: bool)
        ensures
            r == (be_value(hash@) <= be_value(self.0@)),
    {
        !array_less(&self.0, hash)
    }

    /// The target that shares have to meet.
    pub fn share_target(&self) -> (r: Self)
        ensures
            be_value(r.0@) == saturated_product(be_value(self.0@), SHARE_DIFFICULTY_RATIO as nat),
    {
        multiplied(&self.0, SHARE_DIFFICULTY_RATIO)
    }

    /// The target that a cheap hash has to meet before the expensive one is computed.
    pub fn prefilter_target(&self) -> (r: Self)
        ensures
            be_value(r.0@) == saturated_product(
                saturated_product(be_value(self.0@), SHARE_DIFFICULTY_RATIO as nat),
                SHARE_PREFILTER_RATIO as nat,
            ),
    {
        let share_target = self.share_target();
        multiplied(&share_target.0, SHARE_PREFILTER_RATIO)
    }

    /// The target with each byte scaled by `factor_fixed` millionths, from the last byte to the
    /// first; what a byte leaves over goes into the byte before it.
    pub fn adjust_millionths(&self, factor_fixed: u64) -> (r: Self)
        requires
            forall|i: int|
                0 <= i < 32 ==> #[trigger] self.0@[i] * factor_fixed + millionths_rest(
                    self.0@,
                    factor_fixed as nat,
                    i + 1,
                ) <= u64::MAX,
        ensures
            r.0@ == Seq::new(32, |i: int| millionths_byte(self.0@, factor_fixed as nat, i)),
    {
        let mut result: Hash32 = [0u8; 32];
        let mut carry: u64 = 0;
        let mut i: usize = 32;
        while i > 0
            invariant
                i <= 32,
                carry == millionths_rest(self.0@, factor_fixed as nat, i as int),
                forall|j: int|
                    0 <= j < 32 ==> #[trigger] self.0@[j] * factor_fixed + millionths_rest(
                        self.0@,
                        factor_fixed as nat,
                        j + 1,
                    ) <= u64::MAX,
                forall|j: int|
                    i <= j < 32 ==> result@[j] == millionths_byte(
                        self.0@,
                        factor_fixed as nat,
                        j,
                    ),
            decreases i,
        {
            i -= 1;
            let x: u64 = self.0[i] as u64;
            assert(self.0@[i as int] * factor_fixed + carry <= u64::MAX);
            assert(0 <= x * factor_fixed) by (nonlinear_arith)
                requires
                    x >= 0,
                    factor_fixed >= 0,
            ;
            let val: u64 = x * factor_fixed + carry;
            result[i] = ((val / 1_000_000) % 256) as u8;
            carry = val % 1_000_000;
        }
        assert(result@ =~= Seq::new(
            32,
            |i: int| millionths_byte(self.0@, factor_fixed as nat, i),
        ));
        Target(result)
    }

    /// The 16 low-order bytes of the target as a number.
    pub fn low_u128(&self) -> (r: u128)
        ensures
            r == be_value(self.0@.skip(16)),
    {
        let mut r: u128 = 0;
        let mut i: usize = 16;
        proof {
            assert(self.0@.subrange(16, 16) =~= Seq::<u8>::empty());
        }
        while i < 32
            invariant
                16 <= i <= 32,
                r == be_value(self.0@.subrange(16, i as int)),
            decreases 32 - i,
        {
            proof {
                let longer = self.0@.subrange(16, i + 1);
                assert(longer.drop_last() =~= self.0@.subrange(16, i as int));
                lemma_be_value_bound(longer);
                crate::bytes::lemma_pow256_monotonic(longer.len(), 16);
                lemma_pow256_16();
            }
            r = 256 * r + self.0[i] as u128;
            i += 1;
        }
        assert(self.0@.subrange(16, 32) =~= self.0@.skip(16));
        r
    }

    /// The target shifted left by `bits`.
    pub fn shift_left(&self, bits: usize) -> (r: Self)
        ensures
            r.0@ == Seq::new(32, |j: int| shifted_byte(self.0@, bits as int, j)),
            bits >= 256 ==> r.0@ == Seq::new(32, |j: int| 0u8),
    {
        let mut result: Hash32 = [0u8; 32];
        if bits >= 256 {
            proof {
                assert(0u8 | 0u8 == 0u8) by (bit_vector);
                assert(result@ =~= Seq::new(32, |j: int| 0u8));
                assert(result@ =~= Seq::new(32, |j: int| shifted_byte(self.0@, bits as int, j)));
            }
            return Target(result);
        }
        let k: usize = bits / 8;
        let s: usize = bits % 8;
        let factor: u16 = match s {
            0 => 1,
            1 => 2,
            2 => 4,
            3 => 8,
            4 => 16,
            5 => 32,
            6 => 64,
            _ => 128,
        };
        let mut j: usize = 0;
        while j < 32
            invariant
                j <= 32,
                bits < 256,
                k == bits / 8,
                s == bits % 8,
                factor == two_to(s as int),
                1 <= factor <= 128,
                forall|i: int| 0 <= i < j ==> result@[i] == shifted_byte(self.0@, bits as int, i),
            decreases 32 - j,
        {
            let kept: u8 = if j < 3 {
                kept_part(self.0[j], factor)
            } else if j >= k && j - k >= 3 {
                kept_part(self.0[j - k], factor)
            } else {
                0
            };
            let spilled: u8 = if 1 <= j && j <= 3 {
                spilled_part(self.0[j - 1], factor)
            } else if j >= 1 && j - 1 >= k && j - 1 - k >= 3 {
                spilled_part(self.0[j - 1 - k], factor)
            } else {
                0
            };
            result[j] = kept | spilled;
            j += 1;
        }
        assert(result@ =~= Seq::new(32, |j: int| shifted_byte(self.0@, bits as int, j)));
        Target(result)
    }

    /// The target multiplied by `factor`, or all ones where the product does not fit.
    pub fn scaled_by_256ths(&self, factor: u16) -> (r: Self)
        requires
            forall|i: int|
                0 <= i < 32 ==> #[trigger] self.0@[i] * factor + carry_into(
                    self.0@,
                    factor as nat,
                    i,
                ) <= u16::MAX,
        ensures
            be_value(r.0@) == saturated_product(be_value(self.0@), factor as nat),
    {
        multiplied(&self.0, factor as u64)
    }

    /// The target times `numerator / denominator`, rounded down, or all ones where that does not
    /// fit; zero over a zero denominator.
    pub fn scaled_integer(&self, numerator: u64, denominator: u64) -> (r: Self)
        ensures
            be_value(r.0@) == scaled_value(
                be_value(self.0@),
                numerator as nat,
                denominator as nat,
            ),
    {
        let ghost v = be_value(self.0@);
        if denominator == 0 {
            let zero: Hash32 = [0u8; 32];
            proof {
                lemma_all_zeros(zero@);
            }
            return Target(zero);
        }
        let (low, carry) = product(&self.0, numerator);
        proof {
            assert(v * numerator == numerator * v) by (nonlinear_arith);
        }
        if carry >= denominator {
            let ones: Hash32 = [0xFFu8; 32];
            proof {
                lemma_all_ones(ones@);
                let p = pow256(32);
                let d = denominator as nat;
                assert(numerator * v >= d * p) by (nonlinear_arith)
                    requires
                        numerator * v >= carry * p,
                        carry >= d,
                ;
                assert(numerator * v / (d as int) >= p) by (nonlinear_arith)
                    requires
                        numerator * v >= d * p,
                        d > 0,
                ;
            }
            return Target(ones);
        }
        quotient(&low, carry, denominator)
    }

    /// The compact form of the target.
    pub fn compact(&self) -> (r: u32)
        requires
            compactible(self.0@),
        ensures
            r == compact_of(self.0@),
    {
        let size: usize = first_nonzero(&self.0);
        if size == 32 {
            return 0;
        }
        let exponent: u32 = (32 - size) as u32;
        let mantissa: u32 = self.0[size] as u32 * 65536 + self.0[size + 1] as u32 * 256
            + self.0[size + 2] as u32;
        exponent * 0x100_0000 + mantissa
    }

    /// The target that a compact form stands for.
    pub fn from_compact(compact: u32) -> (r: Self)
        requires
            compact / 0x100_0000 <= 32,
        ensures
            r.0@ == bytes_of_compact(compact),
    {
        let exponent: usize = (compact / 0x100_0000) as usize;
        let pos: usize = 32 - exponent;
        let mut bytes: Hash32 = [0u8; 32];
        if pos < 32 {
            bytes[pos] = (compact / 65536 % 256) as u8;
        }
        if pos + 1 < 32 {
            bytes[pos + 1] = (compact / 256 % 256) as u8;
        }
        if pos + 2 < 32 {
            bytes[pos + 2] = (compact % 256) as u8;
        }
        assert(bytes@ =~= bytes_of_compact(compact));
        Target(bytes)
    }
}

#[verifier::external_type_specification]
#[verifier::external_body]
pub struct ExSystemTime(std::time::SystemTime);

/// `std::time::SystemTime::now`. Nothing is claimed of the instant.
#[verifier::external_body]
fn read_clock() -> std::time::SystemTime {
    std::time::SystemTime::now()
}

/// `std::time::SystemTime::duration_since` the Unix epoch, `None` where it reports an error.
/// Nothing is claimed of the duration.
#[verifier::external_body]
fn since_epoch(instant: std::time::SystemTime) -> Option<std::time::Duration> {
    instant.duration_since(std::time::UNIX_EPOCH).ok()
}

/// `std::time::Duration::as_secs`. Nothing is claimed of the number.
#[verifier::external_body]
fn whole_seconds(span: std::time::Duration) -> u64 {
    span.as_secs()
}

/// The seconds since the Unix epoch that the machine's clock shows; zero while it shows a time
/// before the epoch. What it shows is not stated.
pub fn current_timestamp() -> Timestamp {
    match since_epoch(read_clock()) {
        Some(span) => whole_seconds(span),
        None => 0,
    }
}

/// Zeros write zero.
proof fn lemma_all_zeros(s: Seq<u8>)
    requires
        forall|i: int| 0 <= i < s.len() ==> s[i] == 0,
    ensures
        be_value(s) == 0,
    decreases s.len(),
{
    if s.len() > 0 {
        lemma_all_zeros(s.drop_last());
    }
}

proof fn lemma_pow256_16()
    ensures
        pow256(16) == 0x1_0000_0000_0000_0000_0000_0000_0000_0000,
{
    crate::bytes::lemma_pow256_words();
    assert(pow256(12) == 0x1_0000_0000 * pow256(8)) by {
        reveal_with_fuel(pow256, 5);
    }
    assert(pow256(16) == 0x1_0000_0000 * pow256(12)) by {
        reveal_with_fuel(pow256, 5);
    }
}

fn kept_part(x: u8, factor: u16) -> (r: u8)
    requires
        1 <= factor <= 128,
    ensures
        r == (x * factor % 256) as u8,
{
    assert(x * factor <= 255 * 128) by (nonlinear_arith)
        requires
            0 <= x <= 255,
            1 <= factor <= 128,
    ;
    ((x as u16 * factor) % 256) as u8
}

fn spilled_part(x: u8, factor: u16) -> (r: u8)
    requires
        1 <= factor <= 128,
    ensures
        r == (x * factor / 256) as u8,
{
    assert(x * factor <= 255 * 128) by (nonlinear_arith)
        requires
            0 <= x <= 255,
            1 <= factor <= 128,
    ;
    ((x as u16 * factor) / 256) as u8
}

/// A string of `n` bytes of ones is the largest number of `n` bytes.
proof fn lemma_all_ones(s: Seq<u8>)
    requires
        forall|i: int| 0 <= i < s.len() ==> s[i] == 0xFF,
    ensures
        be_value(s) == pow256(s.len()) - 1,
    decreases s.len(),
{
    if s.len() > 0 {
        lemma_all_ones(s.drop_last());
    }
}

/// `bytes * factor`: its 32 low-order bytes, and what is above them.
fn product(bytes: &Hash32, factor: u64) -> (r: (Hash32, u64))
    ensures
        be_value(r.0@) + r.1 * pow256(32) == factor * be_value(bytes@),
{
    let mut result: Hash32 = [0u8; 32];
    let mut carry: u64 = 0;
    let mut i: usize = 32;
    proof {
        assert(result@.skip(32) =~= Seq::<u8>::empty());
        assert(bytes@.skip(32) =~= Seq::<u8>::empty());
        assert(be_value(Seq::<u8>::empty()) == 0);
        assert(factor * 0 == 0);
    }
    while i > 0
        invariant
            i <= 32,
            carry <= factor,
            be_value(result@.skip(i as int)) + carry * pow256((32 - i) as nat) == factor * be_value(
                bytes@.skip(i as int),
            ),
        decreases i,
    {
        let ghost tail = result@.skip(i as int);
        let ghost n = (32 - i) as nat;
        let ghost old_carry = carry;
        i -= 1;
        let x: u64 = bytes[i] as u64;
        assert(x * factor <= 255 * factor) by (nonlinear_arith)
            requires
                x <= 255,
        ;
        let val: u128 = x as u128 * factor as u128 + carry as u128;
        let low: u8 = (val % 256) as u8;
        result[i] = low;
        carry = (val / 256) as u64;
        proof {
            let after = result@.skip(i as int);
            let src = bytes@.skip(i as int);
            assert(after.drop_first() =~= tail);
            assert(src.drop_first() =~= bytes@.skip(i + 1));
            lemma_be_value_first(after);
            lemma_be_value_first(src);
            let p = pow256(n);
            let v = be_value(src.drop_first());
            assert(pow256(n + 1) == 256 * p);
            assert(factor * (x * p + v) == x * factor * p + factor * v) by (nonlinear_arith);
            assert(low * p + (val / 256) * (256 * p) == val * p) by (nonlinear_arith)
                requires
                    low == val % 256,
            ;
            assert(val * p == x * factor * p + old_carry * p) by (nonlinear_arith)
                requires
                    val == x * factor + old_carry,
            ;
        }
    }
    proof {
        assert(result@.skip(0) =~= result@);
        assert(bytes@.skip(0) =~= bytes@);
    }
    (result, carry)
}

/// The number with `carry` above the bytes `low`, divided by `divisor` and rounded down.
fn quotient(low: &Hash32, carry: u64, divisor: u64) -> (r: Target)
    requires
        carry < divisor,
    ensures
        be_value(r.0@) == (be_value(low@) + carry * pow256(32)) / divisor as int,
        be_value(r.0@) < pow256(32),
{
    let mut result: Hash32 = [0u8; 32];
    let mut remaining: u64 = carry;
    let mut i: usize = 0;
    proof {
        assert(result@.take(0) =~= Seq::<u8>::empty());
        assert(low@.take(0) =~= Seq::<u8>::empty());
        assert(be_value(Seq::<u8>::empty()) == 0);
        assert(0 * divisor == 0);
        assert(pow256(0) == 1);
        assert(carry * 1 == carry);
    }
    while i < 32
        invariant
            i <= 32,
            remaining < divisor,
            be_value(result@.take(i as int)) * divisor + remaining == carry * pow256(i as nat)
                + be_value(low@.take(i as int)),
        decreases 32 - i,
    {
        let ghost head = result@.take(i as int);
        let ghost before = remaining;
        let cur: u128 = remaining as u128 * 256 + low[i] as u128;
        let d: u128 = divisor as u128;
        let q: u128 = cur / d;
        proof {
            assert(q < 256 && q * d + cur % d == cur && cur % d < d) by (nonlinear_arith)
                requires
                    cur < 256 * d,
                    q == cur / d,
                    d > 0,
            ;
        }
        result[i] = q as u8;
        remaining = (cur % d) as u64;
        proof {
            let after = result@.take(i + 1);
            let src = low@.take(i + 1);
            assert(after.drop_last() =~= head);
            assert(src.drop_last() =~= low@.take(i as int));
            let v = be_value(head);
            let w = be_value(low@.take(i as int));
            let p = pow256(i as nat);
            assert(pow256((i + 1) as nat) == 256 * p);
            assert((256 * v + q) * divisor == 256 * (v * divisor) + q * divisor)
                by (nonlinear_arith);
            assert(carry * (256 * p) == 256 * (carry * p)) by (nonlinear_arith);
        }
        i += 1;
    }
    proof {
        assert(result@.take(32) =~= result@);
        assert(low@.take(32) =~= low@);
        lemma_be_value_bound(result@);
        vstd::arithmetic::div_mod::lemma_fundamental_div_mod_converse(
            be_value(low@) + carry * pow256(32),
            divisor as int,
            be_value(result@) as int,
            remaining as int,
        );
    }
    Target(result)
}

/// `bytes * factor`, or all ones where the product does not fit.
fn multiplied(bytes: &Hash32, factor: u64) -> (r: Target)
    ensures
        be_value(r.0@) == saturated_product(be_value(bytes@), factor as nat),
{
    let (result, carry) = product(bytes, factor);
    proof {
        lemma_be_value_bound(result@);
        let p = pow256(32);
        assert(carry > 0 ==> carry * p >= p) by (nonlinear_arith)
            requires
                p >= 0,
        ;
        assert(carry == 0 ==> carry * p == 0) by (nonlinear_arith);
    }
    if carry > 0 {
        let ones: Hash32 = [0xFFu8; 32];
        proof {
            lemma_all_ones(ones@);
        }
        return Target(ones);
    }
    Target(result)
}

/// The index of the first byte that is not zero, or 32.
fn first_nonzero(bytes: &Hash32) -> (r: usize)
    ensures
        r == leading_zeros(bytes@),
        r <= 32,
        r < 32 ==> bytes@[r as int] != 0,
{
    let mut i: usize = 0;
    proof {
        assert(bytes@.skip(0) =~= bytes@);
    }
    while i < 32
        invariant
            i <= 32,
            leading_zeros(bytes@) == i + leading_zeros(bytes@.skip(i as int)),
        decreases 32 - i,
    {
        if bytes[i] != 0 {
            return i;
        }
        assert(bytes@.skip(i as int).drop_first() =~= bytes@.skip(i + 1));
        i += 1;
    }
    assert(bytes@.skip(32) =~= Seq::<u8>::empty());
    32
}

/// A hash that meets a target also meets its share target, and one that meets the share target
/// also meets the prefilter target.
pub proof fn law_share_target_is_easier(target: nat, hash: nat)
    requires
        hash < pow256(32),
    ensures
        hash <= target ==> hash <= saturated_product(target, SHARE_DIFFICULTY_RATIO as nat),
        hash <= saturated_product(target, SHARE_DIFFICULTY_RATIO as nat) ==> hash
            <= saturated_product(
            saturated_product(target, SHARE_DIFFICULTY_RATIO as nat),
            SHARE_PREFILTER_RATIO as nat,
        ),
{
}

proof fn lemma_leading_zeros(b: Seq<u8>)
    ensures
        leading_zeros(b) <= b.len(),
        forall|i: int| 0 <= i < leading_zeros(b) ==> b[i] == 0,
        leading_zeros(b) < b.len() ==> b[leading_zeros(b) as int] != 0,
    decreases b.len(),
{
    if b.len() > 0 && b[0] == 0 {
        let t = b.drop_first();
        lemma_leading_zeros(t);
        assert forall|i: int| 0 <= i < leading_zeros(b) implies b[i] == 0 by {
            if i > 0 {
                assert(t[i - 1] == 0);
            }
        }
    }
}

proof fn lemma_leading_zeros_at(b: Seq<u8>, n: nat)
    requires
        n <= b.len(),
        forall|i: int| 0 <= i < n ==> b[i] == 0,
        n < b.len() ==> b[n as int] != 0,
    ensures
        leading_zeros(b) == n,
    decreases n,
{
    if n > 0 {
        lemma_leading_zeros_at(b.drop_first(), (n - 1) as nat);
    }
}

/// Writing a target in compact form and reading it back keeps its first three bytes from the
/// leading one on, and replaces those behind them by zeros.
pub proof fn law_compact_keeps_leading_bytes(target: Target, compact: u32)
    requires
        compactible(target.0@),
        compact == compact_of(target.0@),
    ensures
        compact / 0x100_0000 <= 32,
        bytes_of_compact(compact) == Seq::new(
            32,
            |i: int|
                if i < leading_zeros(target.0@) + 3 {
                    target.0@[i]
                } else {
                    0u8
                },
        ),
{
    let b = target.0@;
    let n = leading_zeros(b);
    lemma_leading_zeros(b);
    if n < 32 {
        let m = three_bytes(b, n as int);
        assert(compact == (32 - n) * 0x100_0000 + m);
        assert(m < 0x100_0000);
        assert(compact / 0x100_0000 == 32 - n);
        let hi = b[n as int] as int;
        let mid = b[n as int + 1] as int;
        let lo = b[n as int + 2] as int;
        assert(compact % 256 == lo);
        assert(compact / 256 % 256 == mid);
        assert(compact / 65536 % 256 == hi);
    }
    assert(bytes_of_compact(compact) =~= Seq::new(
        32,
        |i: int|
            if i < leading_zeros(target.0@) + 3 {
                target.0@[i]
            } else {
                0u8
            },
    ));
}

/// Reading a compact form with a leading byte and writing it again gives the form back.
pub proof fn law_compact_form_survives(compact: u32, target: Target)
    requires
        3 <= compact / 0x100_0000 <= 32,
        compact / 65536 % 256 != 0,
        target.0@ == bytes_of_compact(compact),
    ensures
        compactible(target.0@),
        compact_of(target.0@) == compact,
{
    let b = target.0@;
    let pos = (32 - compact / 0x100_0000) as nat;
    assert(b[pos as int] == mantissa_byte(compact, 0));
    assert(b[pos as int + 1] == mantissa_byte(compact, 1));
    assert(b[pos as int + 2] == mantissa_byte(compact, 2));
    lemma_leading_zeros_at(b, pos);
}

/// A shift by whole bytes leaves the three leading bytes, puts zeros behind them, and then the
/// other bytes, as many places on as there are zeros.
pub proof fn law_shift_by_whole_bytes(b: Seq<u8>, k: int, j: int)
    requires
        b.len() == 32,
        0 <= k < 32,
        0 <= j < 32,
    ensures
        j < 3 ==> shifted_byte(b, 8 * k, j) == b[j],
        3 <= j < 3 + k ==> shifted_byte(b, 8 * k, j) == 0,
        3 + k <= j ==> shifted_byte(b, 8 * k, j) == b[j - k],
{
    assert(8 * k / 8 == k && 8 * k % 8 == 0);
    let x = if j < 3 {
        b[j]
    } else if j - k >= 3 {
        b[j - k]
    } else {
        0u8
    };
    assert(kept_bits(x, 0) == x);
    assert(forall|y: u8| spilled_bits(y, 0) == 0);
    assert(x | 0u8 == x) by (bit_vector);
}

/// What stays in a byte and what leaves it are together the byte moved by that many bits.
pub proof fn law_shift_loses_no_bits(x: u8, s: int)
    requires
        0 <= s < 8,
    ensures
        kept_bits(x, s) + 256 * spilled_bits(x, s) == x * vstd::arithmetic::power2::pow2(s as nat),
{
    vstd::arithmetic::power2::lemma2_to64();
    let p = two_to(s);
    assert(p == vstd::arithmetic::power2::pow2(s as nat));
    assert(0 <= x * p < 256 * 256) by (nonlinear_arith)
        requires
            0 <= x < 256,
            1 <= p <= 128,
    ;
}

/// The target of shares is 256 times the target of blocks, and the prefilter target 65536 times
/// that, as far as 32 bytes can write it.
pub proof fn law_share_target_ratios(v: nat)
    ensures
        256 * v < pow256(32) ==> saturated_product(v, SHARE_DIFFICULTY_RATIO as nat) == 256 * v,
        16_777_216 * v < pow256(32) ==> saturated_product(
            saturated_product(v, SHARE_DIFFICULTY_RATIO as nat),
            SHARE_PREFILTER_RATIO as nat,
        ) == 16_777_216 * v,
        256 * v >= pow256(32) ==> saturated_product(v, SHARE_DIFFICULTY_RATIO as nat) == pow256(32)
            - 1,
{
    crate::bytes::lemma_pow256_positive(32);
}

proof fn lemma_no_millionths_left(b: Seq<u8>, k: nat, i: int)
    requires
        0 <= i <= b.len(),
    ensures
        millionths_rest(b, 1_000_000 * k, i) == 0,
    decreases b.len() - i,
{
    if i < b.len() {
        lemma_no_millionths_left(b, k, i + 1);
        let x = b[i] as int;
        assert(x * (1_000_000 * k) == 1_000_000 * (x * k)) by (nonlinear_arith);
    }
}

/// A whole factor multiplies every byte of a target by itself; one leaves the target as it is.
pub proof fn law_whole_factors_multiply_bytes(b: Seq<u8>, k: nat, i: int)
    requires
        0 <= i < b.len(),
    ensures
        b[i] * k < 256 ==> millionths_byte(b, 1_000_000 * k, i) == b[i] * k,
{
    lemma_no_millionths_left(b, k, i + 1);
    let x = b[i] as int;
    assert(x * (1_000_000 * k) == 1_000_000 * (x * k)) by (nonlinear_arith);
}

proof fn lemma_value_of_three_bytes(hi: u8, mid: u8, lo: u8)
    ensures
        be_value(seq![hi, mid, lo]) == hi * 65536 + mid * 256 + lo,
{
    let e = Seq::<u8>::empty();
    let a = e.push(hi);
    let b = a.push(mid);
    let c = b.push(lo);
    assert(a.drop_last() =~= e && b.drop_last() =~= a && c.drop_last() =~= b);
    assert(be_value(e) == 0);
    assert(be_value(a) == hi);
    assert(be_value(b) == 256 * hi + mid);
    assert(c =~= seq![hi, mid, lo]);
}

proof fn lemma_bytes_of_compact(c: u32)
    requires
        3 <= c / 0x100_0000 <= 32,
    ensures
        bytes_of_compact(c) == Seq::new((32 - c / 0x100_0000) as nat, |i: int| 0u8) + seq![
            mantissa_byte(c, 0),
            mantissa_byte(c, 1),
            mantissa_byte(c, 2),
        ] + Seq::new((c / 0x100_0000 - 3) as nat, |i: int| 0u8),
{
    let pos = 32 - c / 0x100_0000;
    let whole = Seq::new(pos as nat, |i: int| 0u8) + seq![
        mantissa_byte(c, 0),
        mantissa_byte(c, 1),
        mantissa_byte(c, 2),
    ] + Seq::new((c / 0x100_0000 - 3) as nat, |i: int| 0u8);
    assert(whole.len() == 32);
    assert forall|i: int| 0 <= i < 32 implies whole[i] == bytes_of_compact(c)[i] by {
        if pos <= i < pos + 3 {
            assert(i - pos == 0 || i - pos == 1 || i - pos == 2);
        }
    }
    assert(bytes_of_compact(c) =~= whole);
}

/// A compact form stands for its mantissa times 256 to the power of its exponent less three.
pub proof fn law_value_of_a_compact_form(exponent: u32, mantissa: u32)
    requires
        3 <= exponent <= 32,
        mantissa < 0x100_0000,
    ensures
        be_value(bytes_of_compact((exponent * 0x100_0000 + mantissa) as u32)) == mantissa * pow256(
            (exponent - 3) as nat,
        ),
{
    let c = (exponent * 0x100_0000 + mantissa) as u32;
    assert(c / 0x100_0000 == exponent);
    let n = (exponent - 3) as nat;
    let head = Seq::new((32 - exponent) as nat, |i: int| 0u8);
    let tail = Seq::new(n, |i: int| 0u8);
    let (hi, mid, lo) = (mantissa_byte(c, 0), mantissa_byte(c, 1), mantissa_byte(c, 2));
    let middle = seq![hi, mid, lo];
    lemma_bytes_of_compact(c);
    lemma_all_zeros(head);
    lemma_all_zeros(tail);
    lemma_value_of_three_bytes(hi, mid, lo);
    assert(hi == mantissa / 65536 && mid == mantissa / 256 % 256 && lo == mantissa % 256);
    assert(be_value(middle) == mantissa);
    crate::bytes::lemma_be_value_concat(head, middle);
    crate::bytes::lemma_be_value_concat(head + middle, tail);
    assert(0 * pow256(3) == 0);
}

/// A target times a fraction is rounded down, and held to what 32 bytes can write.
pub proof fn law_scaled_target_is_rounded_down(v: nat, numerator: nat, denominator: nat)
    requires
        denominator > 0,
    ensures
        scaled_value(v, numerator, denominator) < pow256(32),
        scaled_value(v, numerator, denominator) * denominator <= v * numerator,
        scaled_value(v, numerator, denominator) < pow256(32) - 1 ==> v * numerator < (scaled_value(
            v,
            numerator,
            denominator,
        ) + 1) * denominator,
{
    crate::bytes::lemma_pow256_positive(32);
    let p = v * numerator;
    let q = p / denominator;
    assert(q * denominator <= p < (q + 1) * denominator) by (nonlinear_arith)
        requires
            denominator > 0,
            q == p / denominator,
    ;
    let r = scaled_value(v, numerator, denominator);
    assert(r * denominator <= q * denominator) by (nonlinear_arith)
        requires
            r <= q,
    ;
}

} // verus!
