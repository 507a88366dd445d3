use crate::sortable::BlueWork;
use crate::wide::{lemma_limbs_bound, lemma_word_pow_pow2, word_pow, WideUint};
use vstd::arithmetic::power2::{
    lemma2_to64, lemma_pow2_adds, lemma_pow2_pos, lemma_pow2_strictly_increases, pow2,
};
use vstd::prelude::*;

verus! {

/// `256` raised to `k`.
pub open spec fn byte_pow(k: nat) -> nat {
    pow2(8 * k)
}

/// The target that 32 compact bits encode: the top byte is a size in bytes,
/// the low 23 bits a mantissa, bit 23 a sign (a negative mantissa encodes
/// zero). The result is reduced to 256 bits.
pub open spec fn compact_target(bits: u32) -> nat {
    let e = bits as nat / 0x1000000;
    let raw = bits as nat % 0x1000000;
    let mant = if e <= 3 {
        raw / byte_pow((3 - e) as nat)
    } else {
        raw
    };
    if mant > 0x7fffff {
        0
    } else if e <= 3 {
        mant
    } else {
        (mant * byte_pow((e - 3) as nat)) % word_pow(4)
    }
}

/// The number of bytes a number needs.
pub open spec fn byte_len(v: nat) -> nat
    decreases v,
{
    if v == 0 {
        0
    } else {
        1 + byte_len(v / 256)
    }
}

/// The three most significant bytes of `v`, aligned to its byte length.
pub open spec fn compact_mantissa(v: nat) -> nat {
    let s = byte_len(v);
    if s <= 3 {
        v * byte_pow((3 - s) as nat)
    } else {
        v / byte_pow((s - 3) as nat)
    }
}

/// The compact encoding of a target: the mantissa is kept non-negative by
/// moving it one byte down when its top bit would be set.
pub open spec fn compact_bits_of(v: nat) -> nat {
    let s = byte_len(v);
    let m = compact_mantissa(v);
    if m >= 0x800000 {
        m / 256 + (s + 1) * 0x1000000
    } else {
        m + s * 0x1000000
    }
}

/// The expected number of hashes to find a block under target `t`:
/// `(2^256 - 1 - t) / (t + 1) + 1`.
pub open spec fn work_of_target(t: nat) -> nat {
    ((word_pow(4) - 1 - t) / ((t + 1) as int) + 1) as nat
}

proof fn lemma_byte_pow_adds(a: nat, b: nat)
    ensures
        byte_pow(a + b) == byte_pow(a) * byte_pow(b),
{
    lemma_pow2_adds(8 * a, 8 * b);
    assert(8 * a + 8 * b == 8 * (a + b));
}

proof fn lemma_byte_pow_small()
    ensures
        byte_pow(0) == 1,
        byte_pow(1) == 0x100,
        byte_pow(2) == 0x10000,
        byte_pow(3) == 0x1000000,
        byte_pow(4) == 0x100000000,
{
    lemma2_to64();
}

proof fn lemma_byte_pow_le(a: nat, b: nat)
    requires
        a <= b,
    ensures
        byte_pow(a) <= byte_pow(b),
{
    if a < b {
        lemma_pow2_strictly_increases(8 * a, 8 * b);
    }
}

/// `byte_len(v)` bytes hold `v`, and one fewer would not.
pub proof fn lemma_byte_len(v: nat)
    ensures
        v < byte_pow(byte_len(v)),
        v > 0 ==> byte_pow((byte_len(v) - 1) as nat) <= v,
    decreases v,
{
    lemma_byte_pow_small();
    if v > 0 {
        let u = v / 256;
        lemma_byte_len(u);
        let s1 = byte_len(u);
        lemma_byte_pow_adds(s1, 1);
        assert(byte_len(v) == s1 + 1);
        assert(v < 256 * byte_pow(s1)) by (nonlinear_arith)
            requires
                u < byte_pow(s1),
                u == v / 256,
        ;
        if u > 0 {
            lemma_byte_pow_adds((s1 - 1) as nat, 1);
            assert((s1 - 1) as nat + 1 == s1);
            assert(256 * byte_pow((s1 - 1) as nat) <= v) by (nonlinear_arith)
                requires
                    byte_pow((s1 - 1) as nat) <= u,
                    u == v / 256,
            ;
        } else {
            assert(s1 == 0);
        }
    }
}

/// A number below `256^k` needs at most `k` bytes.
pub proof fn lemma_byte_len_le(v: nat, k: nat)
    requires
        v < byte_pow(k),
    ensures
        byte_len(v) <= k,
{
    lemma_byte_len(v);
    if byte_len(v) > k {
        lemma_byte_pow_le(k, (byte_len(v) - 1) as nat);
    }
}

/// A compact target fits in 256 bits.
pub proof fn lemma_compact_target_bound(bits: u32)
    ensures
        compact_target(bits) < word_pow(4),
{
    lemma_word_pow_pow2(4);
    lemma_pow2_strictly_increases(23, 256);
    lemma2_to64();
    let e = bits as nat / 0x1000000;
    if e > 3 {
        lemma_pow2_pos(256);
        let raw = bits as nat % 0x1000000;
        vstd::arithmetic::div_mod::lemma_mod_bound(
            (raw * byte_pow((e - 3) as nat)) as int,
            word_pow(4) as int,
        );
    }
}

/// Work falls as the target that compact bits encode grows: an easier target
/// takes fewer expected hashes.
pub proof fn lemma_calc_work_decreasing(easier: u32, harder: u32)
    requires
        compact_target(harder) <= compact_target(easier),
    ensures
        work_of_target(compact_target(easier)) <= work_of_target(compact_target(harder)),
{
    lemma_compact_target_bound(easier);
    lemma_compact_target_bound(harder);
    let te = compact_target(easier) as int;
    let th = compact_target(harder) as int;
    let top = word_pow(4) as int - 1;
    vstd::arithmetic::div_mod::lemma_div_is_ordered(top - te, top - th, te + 1);
    vstd::arithmetic::div_mod::lemma_div_is_ordered_by_denominator(top - th, th + 1, te + 1);
}

proof fn lemma_byte_len_shift(v: nat, k: nat)
    requires
        v > 0,
    ensures
        byte_len(v * byte_pow(k)) == byte_len(v) + k,
    decreases k,
{
    lemma_byte_pow_small();
    if k == 0 {
        assert(v * byte_pow(0) == v);
    } else {
        lemma_byte_len_shift(v, (k - 1) as nat);
        lemma_byte_pow_adds((k - 1) as nat, 1);
        lemma_pow2_pos(8 * (k - 1) as nat);
        let u = v * byte_pow((k - 1) as nat);
        assert(v * byte_pow(k) == u * 256) by (nonlinear_arith)
            requires
                byte_pow(k) == byte_pow((k - 1) as nat) * 256,
                u == v * byte_pow((k - 1) as nat),
        ;
        assert(u > 0) by (nonlinear_arith)
            requires
                v > 0,
                byte_pow((k - 1) as nat) > 0,
                u == v * byte_pow((k - 1) as nat),
        ;
        vstd::arithmetic::div_mod::lemma_div_multiples_vanish(u as int, 256);
        assert((u * 256) / 256 == u);
        assert(byte_len(u * 256) == 1 + byte_len(u));
    }
}

proof fn lemma_byte_len_exact(v: nat, s: nat)
    requires
        s >= 1,
        byte_pow((s - 1) as nat) <= v < byte_pow(s),
    ensures
        byte_len(v) == s,
{
    lemma_byte_len(v);
    lemma_byte_len_le(v, s);
    if byte_len(v) < s {
        lemma_byte_pow_le(byte_len(v), (s - 1) as nat);
    }
}

/// Normalized compact bits, those with a size byte from 3 to 32 and a
/// mantissa from `0x8000` to `0x7fffff`, are what encoding their own target
/// gives back.
pub proof fn lemma_compact_round_trip(bits: u32)
    requires
        3 <= bits / 0x1000000 <= 32,
        0x8000 <= bits % 0x1000000 <= 0x7fffff,
    ensures
        compact_bits_of(compact_target(bits)) == bits,
{
    lemma_byte_pow_small();
    lemma2_to64();
    let e = (bits / 0x1000000) as nat;
    let m = (bits % 0x1000000) as nat;
    let k = (e - 3) as nat;
    let t = m * byte_pow(k);
    // The target fits without reduction.
    lemma_word_pow_pow2(4);
    lemma_pow2_adds(23, 8 * k);
    lemma_pow2_strictly_increases(23 + 8 * k, 256);
    lemma_pow2_pos(8 * k);
    assert(t < pow2(23) * byte_pow(k)) by (nonlinear_arith)
        requires
            t == m * byte_pow(k),
            m < pow2(23),
            byte_pow(k) > 0,
    ;
    vstd::arithmetic::div_mod::lemma_small_mod(t, word_pow(4));
    if e == 3 {
        assert(byte_pow(k) == 1);
        assert(t == m);
        assert(m / 1 == m);
    }
    assert(compact_target(bits) == t);
    lemma_byte_len_shift(m, k);
    if m >= 0x10000 {
        lemma_byte_len_exact(m, 3);
        assert(byte_len(t) == e);
        assert(compact_mantissa(t) == m) by {
            vstd::arithmetic::div_mod::lemma_div_multiples_vanish(m as int, byte_pow(k) as int);
            assert(m * byte_pow(k) == byte_pow(k) * m) by (nonlinear_arith);
        }
    } else {
        lemma_byte_len_exact(m, 2);
        assert(byte_len(t) == e - 1);
        if e == 3 {
            assert(k == 0);
            assert(t == m);
            assert(compact_mantissa(t) == m * 256);
        } else {
            let k1 = (k - 1) as nat;
            lemma_byte_pow_adds(k1, 1);
            lemma_pow2_pos(8 * k1);
            assert(t == (m * 256) * byte_pow(k1)) by (nonlinear_arith)
                requires
                    t == m * byte_pow(k),
                    byte_pow(k) == byte_pow(k1) * 256,
            ;
            vstd::arithmetic::div_mod::lemma_div_multiples_vanish((m * 256) as int, byte_pow(k1) as int);
            assert((m * 256) * byte_pow(k1) == byte_pow(k1) * (m * 256)) by (nonlinear_arith);
            assert(compact_mantissa(t) == m * 256);
        }
        assert((m * 256) / 256 == m);
    }
}

/// `v / 256^k`, by `k` divisions by one byte.
fn shr_bytes(v: &WideUint, k: u32) -> (r: WideUint)
    ensures
        r.width() == v.width(),
        r.value() == v.value() / byte_pow(k as nat),
{
    let mut cur = v.widen(v.limbs.len());
    let mut i: u32 = 0;
    proof {
        lemma_byte_pow_small();
    }
    while i < k
        invariant
            i <= k,
            cur.width() == v.width(),
            cur.value() == v.value() / byte_pow(i as nat),
        decreases k - i,
    {
        let (next, _) = cur.div_rem_u64(256);
        proof {
            lemma_pow2_pos(8 * i as nat);
            vstd::arithmetic::div_mod::lemma_div_denominator(
                v.value() as int,
                byte_pow(i as nat) as int,
                256,
            );
            lemma_byte_pow_adds(i as nat, 1);
            lemma_byte_pow_small();
        }
        cur = next;
        i = i + 1;
    }
    cur
}

/// The 256-bit target that compact bits encode.
pub fn target_from_compact_bits(bits: u32) -> (r: WideUint)
    ensures
        r.width() == 4,
        r.value() == compact_target(bits),
{
    let e: u32 = bits / 0x1000000;
    let raw: u32 = bits % 0x1000000;
    proof {
        lemma_byte_pow_small();
    }
    let mant: u32 = if e <= 3 {
        let d: u32 = if e == 0 {
            0x1000000
        } else if e == 1 {
            0x10000
        } else if e == 2 {
            0x100
        } else {
            1
        };
        raw / d
    } else {
        raw
    };
    if mant > 0x7fffff {
        return WideUint::zero(4);
    }
    if e <= 3 {
        return WideUint::from_u64(mant as u64, 4);
    }
    let k: u32 = e - 3;
    if k >= 32 {
        proof {
            lemma_word_pow_pow2(4);
            lemma_pow2_adds(256, (8 * k - 256) as nat);
            let m = mant as int;
            let rest = pow2((8 * k - 256) as nat) as int;
            assert(m * byte_pow(k as nat) == (m * rest) * pow2(256)) by (nonlinear_arith)
                requires
                    byte_pow(k as nat) == pow2(256) * rest,
            ;
            lemma_pow2_pos(256);
            vstd::arithmetic::div_mod::lemma_mod_multiples_basic(m * rest, pow2(256) as int);
        }
        return WideUint::zero(4);
    }
    let mut x = WideUint::from_u64(mant as u64, 5);
    let mut j: u32 = 0;
    proof {
        lemma_word_pow_pow2(5);
        lemma_pow2_strictly_increases(23, 256);
        lemma2_to64();
        assert(mant * byte_pow(0) == mant);
    }
    while j < k
        invariant
            j <= k < 32,
            mant <= 0x7fffff,
            x.width() == 5,
            x.value() == mant * byte_pow(j as nat),
            word_pow(5) == pow2(320),
        decreases k - j,
    {
        let (y, c) = x.mul_u64(256);
        proof {
            lemma_byte_pow_adds(j as nat, 1);
            lemma_byte_pow_small();
            lemma_pow2_adds(23, 8 * (j + 1) as nat);
            lemma2_to64();
            lemma_pow2_strictly_increases((23 + 8 * (j + 1)) as nat, 320);
            lemma_pow2_pos(8 * (j + 1) as nat);
            let bp = byte_pow(j as nat);
            assert(mant * bp * 256 == mant * (bp * 256)) by (nonlinear_arith);
            assert(mant * byte_pow((j + 1) as nat) < pow2(23) * byte_pow((j + 1) as nat))
                by (nonlinear_arith)
                requires
                    mant < pow2(23),
                    byte_pow((j + 1) as nat) > 0,
            ;
            lemma_pow2_pos(8 * (j + 1) as nat);
            if c > 0 {
                assert(c * word_pow(5) >= word_pow(5)) by (nonlinear_arith)
                    requires
                        c >= 1,
                ;
            }
            assert(c == 0);
            assert(c * word_pow(5) == 0) by (nonlinear_arith)
                requires
                    c == 0,
            ;
        }
        x = y;
        j = j + 1;
    }
    x.truncate(4)
}

/// The compact encoding of a target of at most 256 bits.
pub fn compact_target_bits(target: &WideUint) -> (r: u32)
    requires
        target.width() >= 1,
        target.value() < word_pow(4),
    ensures
        r == compact_bits_of(target.value()),
{
    let ghost v = target.value();
    let mut cur = target.widen(target.limbs.len());
    let mut size: u32 = 0;
    proof {
        lemma_byte_pow_small();
        lemma_word_pow_pow2(4);
        lemma_byte_len_le(v, 32);
    }
    while !cur.is_zero()
        invariant
            cur.width() == target.width(),
            cur.value() == v / byte_pow(size as nat),
            size + byte_len(cur.value()) == byte_len(v),
            byte_len(v) <= 32,
        decreases cur.value(),
    {
        let (next, _) = cur.div_rem_u64(256);
        proof {
            lemma_pow2_pos(8 * size as nat);
            vstd::arithmetic::div_mod::lemma_div_denominator(
                v as int,
                byte_pow(size as nat) as int,
                256,
            );
            lemma_byte_pow_adds(size as nat, 1);
            lemma_byte_pow_small();
        }
        cur = next;
        size = size + 1;
    }
    proof {
        lemma_byte_len(v);
    }
    let m: u64;
    if size <= 3 {
        let low = target.low_u64();
        proof {
            lemma_byte_pow_le(size as nat, 3);
            lemma2_to64();
        }
        let mult: u64 = if size == 0 {
            0x1000000
        } else if size == 1 {
            0x10000
        } else if size == 2 {
            0x100
        } else {
            1
        };
        proof {
            lemma_byte_pow_adds(size as nat, (3 - size) as nat);
            assert(low * mult < byte_pow(size as nat) * mult) by (nonlinear_arith)
                requires
                    low < byte_pow(size as nat),
                    mult > 0,
            ;
        }
        m = low * mult;
    } else {
        let t = shr_bytes(target, size - 3);
        proof {
            lemma_byte_pow_adds((size - 3) as nat, 3);
            lemma_pow2_pos(8 * (size - 3) as nat);
            vstd::arithmetic::div_mod::lemma_multiply_divide_lt(
                v as int,
                byte_pow((size - 3) as nat) as int,
                byte_pow(3) as int,
            );
            lemma2_to64();
        }
        m = t.low_u64();
    }
    assert(m == compact_mantissa(v));
    if m >= 0x800000 {
        (m / 256 + (size as u64 + 1) * 0x1000000) as u32
    } else {
        (m + size as u64 * 0x1000000) as u32
    }
}

/// The work that compact bits stand for, as blue work.
pub fn calc_work(bits: u32) -> (r: BlueWork)
    requires
        work_of_target(compact_target(bits)) < word_pow(3),
    ensures
        r.value() == work_of_target(compact_target(bits)),
{
    let target = target_from_compact_bits(bits);
    let ghost t = target.value();
    proof {
        lemma_compact_target_bound(bits);
        lemma_limbs_bound(target.limbs@);
    }
    let numerator = target.complement().widen(5);
    let (denominator, c1) = target.widen(5).add_with_carry(&WideUint::from_u64(1, 5));
    proof {
        assert(word_pow(5) == crate::wide::word_base() * word_pow(4));
        assert(t + 1 < word_pow(5));
        if c1 > 0 {
            assert(c1 * word_pow(5) >= word_pow(5)) by (nonlinear_arith)
                requires
                    c1 >= 1,
            ;
        }
        assert(c1 == 0);
        assert(c1 * word_pow(5) == 0) by (nonlinear_arith)
            requires
                c1 == 0,
        ;
    }
    let (q, _) = numerator.div_rem(&denominator);
    let (work, c2) = q.add_with_carry(&WideUint::from_u64(1, 5));
    proof {
        vstd::arithmetic::div_mod::lemma_div_is_ordered_by_denominator(
            numerator.value() as int,
            1,
            denominator.value() as int,
        );
        assert(q.value() + 1 < word_pow(5));
        if c2 > 0 {
            assert(c2 * word_pow(5) >= word_pow(5)) by (nonlinear_arith)
                requires
                    c2 >= 1,
            ;
        }
        assert(c2 == 0);
        assert(c2 * word_pow(5) == 0) by (nonlinear_arith)
            requires
                c2 == 0,
        ;
        vstd::arithmetic::div_mod::lemma_small_mod(work.value(), word_pow(3));
    }
    BlueWork::from_wide(&work.truncate(3))
}

} // verus!
