use vstd::arithmetic::power2::{lemma2_to64, lemma_pow2_adds, lemma_pow2_pos, pow2};
use vstd::prelude::*;

verus! {

/// The base of one 64-bit limb.
pub open spec fn word_base() -> nat {
    0x1_0000_0000_0000_0000
}

/// `word_base()` raised to `n`.
pub open spec fn word_pow(n: nat) -> nat
    decreases n,
{
    if n == 0 {
        1
    } else {
        word_base() * word_pow((n - 1) as nat)
    }
}

/// The number that little-endian 64-bit limbs stand for.
pub open spec fn limbs_value(s: Seq<u64>) -> nat
    decreases s.len(),
{
    if s.len() == 0 {
        0
    } else {
        s[0] as nat + word_base() * limbs_value(s.skip(1))
    }
}

pub proof fn lemma_word_pow_positive(n: nat)
    ensures
        word_pow(n) >= 1,
    decreases n,
{
    if n > 0 {
        lemma_word_pow_positive((n - 1) as nat);
        assert(word_base() * word_pow((n - 1) as nat) >= 1) by (nonlinear_arith)
            requires
                word_pow((n - 1) as nat) >= 1,
        ;
    }
}

/// The limbs below index `i` and those from `i` on add up to the whole.
pub proof fn lemma_limbs_split(s: Seq<u64>, i: int)
    requires
        0 <= i <= s.len(),
    ensures
        limbs_value(s) == limbs_value(s.take(i)) + word_pow(i as nat) * limbs_value(s.skip(i)),
    decreases i,
{
    if i == 0 {
        assert(s.take(0).len() == 0);
        assert(limbs_value(s.take(0)) == 0);
        assert(word_pow(0) == 1);
        assert(s.skip(0) =~= s);
        assert(limbs_value(s) == limbs_value(s.take(0)) + word_pow(0) * limbs_value(s.skip(0)));
    } else {
        let t = s.skip(1);
        lemma_limbs_split(t, i - 1);
        assert(s.take(i).skip(1) =~= t.take(i - 1));
        assert(t.skip(i - 1) =~= s.skip(i));
        let a = limbs_value(t.take(i - 1));
        let b = limbs_value(s.skip(i));
        let p = word_pow((i - 1) as nat);
        assert(s.take(i)[0] == s[0]);
        assert(limbs_value(s.take(i)) == s[0] as nat + word_base() * a);
        assert(limbs_value(s) == s[0] as nat + word_base() * limbs_value(t));
        assert(word_pow(i as nat) == word_base() * p);
        assert(word_base() * (a + p * b) == word_base() * a + (word_base() * p) * b)
            by (nonlinear_arith);
        assert(limbs_value(t) == a + p * b);
    }
}

/// A number of `n` limbs is below `word_pow(n)`.
pub proof fn lemma_limbs_bound(s: Seq<u64>)
    ensures
        limbs_value(s) < word_pow(s.len()),
    decreases s.len(),
{
    if s.len() > 0 {
        let t = s.skip(1);
        lemma_limbs_bound(t);
        let v = limbs_value(t);
        let p = word_pow(t.len());
        assert(s.len() - 1 == t.len());
        assert(s[0] as nat + word_base() * v < word_base() * p) by (nonlinear_arith)
            requires
                v < p,
                s[0] < word_base(),
        ;
    }
}

/// Adding the limb at index `i` to the limbs below it.
pub proof fn lemma_limbs_take_step(s: Seq<u64>, i: int)
    requires
        0 <= i < s.len(),
    ensures
        limbs_value(s.take(i + 1)) == limbs_value(s.take(i)) + s[i] * word_pow(i as nat),
{
    let u = s.take(i + 1);
    lemma_limbs_split(u, i);
    assert(u.take(i) =~= s.take(i));
    let last = u.skip(i);
    assert(last.len() == 1 && last[0] == s[i]);
    assert(last.skip(1).len() == 0);
    assert(limbs_value(last.skip(1)) == 0);
    assert(limbs_value(last) == s[i] as nat);
}

/// The limb at index `i` and those above it.
pub proof fn lemma_limbs_skip_step(s: Seq<u64>, i: int)
    requires
        0 <= i < s.len(),
    ensures
        limbs_value(s.skip(i)) == s[i] as nat + word_base() * limbs_value(s.skip(i + 1)),
{
    assert(s.skip(i).skip(1) =~= s.skip(i + 1));
}

/// Appending zero limbs keeps the number.
pub proof fn lemma_limbs_push_zero(s: Seq<u64>)
    ensures
        limbs_value(s.push(0)) == limbs_value(s),
{
    let u = s.push(0);
    lemma_limbs_take_step(u, s.len() as int);
    assert(u.take(s.len() as int) =~= s);
    assert(u.take(s.len() as int + 1) =~= u);
    assert(u[s.len() as int] == 0);
    assert(0 * word_pow(s.len()) == 0) by (nonlinear_arith);
}

/// `word_pow(n)` is `2` to the `64 * n`.
pub proof fn lemma_word_pow_pow2(n: nat)
    ensures
        word_pow(n) == pow2(64 * n),
    decreases n,
{
    if n == 0 {
        lemma2_to64();
    } else {
        lemma_word_pow_pow2((n - 1) as nat);
        lemma2_to64();
        lemma_pow2_adds(64, 64 * (n - 1) as nat);
        assert(64 + 64 * (n - 1) as nat == 64 * n);
    }
}

/// Two sequences of limbs of one length that stand for one number are equal.
pub proof fn lemma_limbs_injective(s: Seq<u64>, t: Seq<u64>)
    requires
        s.len() == t.len(),
        limbs_value(s) == limbs_value(t),
    ensures
        s == t,
    decreases s.len(),
{
    if s.len() > 0 {
        let v = limbs_value(s) as int;
        vstd::arithmetic::div_mod::lemma_fundamental_div_mod_converse(
            v,
            word_base() as int,
            limbs_value(s.skip(1)) as int,
            s[0] as int,
        );
        vstd::arithmetic::div_mod::lemma_fundamental_div_mod_converse(
            v,
            word_base() as int,
            limbs_value(t.skip(1)) as int,
            t[0] as int,
        );
        lemma_limbs_injective(s.skip(1), t.skip(1));
        assert(s =~= t) by {
            assert forall|i: int| 0 <= i < s.len() implies s[i] == t[i] by {
                if i > 0 {
                    assert(s[i] == s.skip(1)[i - 1]);
                    assert(t[i] == t.skip(1)[i - 1]);
                }
            }
        }
    }
}

/// A multi-limb unsigned integer: 64-bit limbs, least significant first. Its
/// width, the number of limbs, is fixed when it is made; results that would not
/// fit are reported through a carry, never wrapped silently.
pub struct WideUint {
    pub limbs: Vec<u64>,
}

impl WideUint {
    pub open spec fn value(&self) -> nat {
        limbs_value(self.limbs@)
    }

    pub open spec fn width(&self) -> nat {
        self.limbs@.len()
    }

    /// `x` held in `width` limbs.
    pub fn from_u64(x: u64, width: usize) -> (r: WideUint)
        requires
            width >= 1,
        ensures
            r.value() == x,
            r.width() == width,
    {
        let mut limbs: Vec<u64> = Vec::new();
        limbs.push(x);
        proof {
            assert(limbs@.skip(1).len() == 0);
            assert(limbs_value(limbs@.skip(1)) == 0);
        }
        while limbs.len() < width
            invariant
                1 <= limbs.len() <= width,
                limbs_value(limbs@) == x,
            decreases width - limbs.len(),
        {
            proof {
                lemma_limbs_push_zero(limbs@);
            }
            limbs.push(0);
        }
        WideUint { limbs }
    }

    /// Zero in `width` limbs.
    pub fn zero(width: usize) -> (r: WideUint)
        requires
            width >= 1,
        ensures
            r.value() == 0,
            r.width() == width,
    {
        WideUint::from_u64(0, width)
    }

    /// The same number in `width` limbs, which must be no fewer than it has.
    pub fn widen(&self, width: usize) -> (r: WideUint)
        requires
            self.width() <= width,
        ensures
            r.value() == self.value(),
            r.width() == width,
    {
        let mut limbs = self.limbs.clone();
        assert(limbs@ =~= self.limbs@);
        while limbs.len() < width
            invariant
                self.width() <= limbs.len() <= width,
                limbs_value(limbs@) == self.value(),
            decreases width - limbs.len(),
        {
            proof {
                lemma_limbs_push_zero(limbs@);
            }
            limbs.push(0);
        }
        WideUint { limbs }
    }

    /// The lowest `width` limbs: the number modulo `word_pow(width)`.
    pub fn truncate(&self, width: usize) -> (r: WideUint)
        requires
            width <= self.width(),
        ensures
            r.value() == self.value() % word_pow(width as nat),
            r.width() == width,
    {
        let mut limbs: Vec<u64> = Vec::new();
        let mut i: usize = 0;
        while i < width
            invariant
                i <= width <= self.width(),
                limbs@ =~= self.limbs@.take(i as int),
            decreases width - i,
        {
            limbs.push(self.limbs[i]);
            i = i + 1;
            assert(limbs@ =~= self.limbs@.take(i as int));
        }
        proof {
            let s = self.limbs@;
            lemma_limbs_split(s, width as int);
            lemma_limbs_bound(s.take(width as int));
            assert(s.take(width as int).len() == width);
            let hi = limbs_value(s.skip(width as int));
            assert(word_pow(width as nat) * hi == hi * word_pow(width as nat)) by (nonlinear_arith);
            lemma_word_pow_positive(width as nat);
            vstd::arithmetic::div_mod::lemma_fundamental_div_mod_converse(
                self.value() as int,
                word_pow(width as nat) as int,
                limbs_value(s.skip(width as int)) as int,
                limbs_value(s.take(width as int)) as int,
            );
        }
        WideUint { limbs }
    }

    /// The bitwise complement within the width: `word_pow(width) - 1 - self`.
    pub fn complement(&self) -> (r: WideUint)
        ensures
            r.width() == self.width(),
            r.value() + self.value() + 1 == word_pow(self.width()),
    {
        let n = self.limbs.len();
        let mut limbs: Vec<u64> = Vec::new();
        let mut i: usize = 0;
        proof {
            assert(limbs_value(self.limbs@.take(0)) == 0);
        }
        while i < n
            invariant
                i <= n == self.limbs@.len(),
                limbs@.len() == i,
                limbs_value(limbs@) + limbs_value(self.limbs@.take(i as int)) + 1 == word_pow(
                    i as nat,
                ),
            decreases n - i,
        {
            let x: u64 = self.limbs[i];
            let y: u64 = 0xffff_ffff_ffff_ffff - x;
            proof {
                lemma_limbs_take_step(self.limbs@, i as int);
                lemma_limbs_take_step(limbs@.push(y), i as int);
                assert(limbs@.push(y).take(i as int) =~= limbs@);
                assert(limbs@.push(y).take(i + 1) =~= limbs@.push(y));
                let p = word_pow(i as nat);
                assert(y * p + x * p == word_base() * p - p) by (nonlinear_arith)
                    requires
                        y + x == word_base() - 1,
                ;
            }
            limbs.push(y);
            i = i + 1;
        }
        assert(self.limbs@.take(n as int) =~= self.limbs@);
        WideUint { limbs }
    }

    /// Whether the number is zero.
    pub fn is_zero(&self) -> (r: bool)
        ensures
            r == (self.value() == 0),
    {
        let n = self.limbs.len();
        let mut i: usize = 0;
        while i < n
            invariant
                i <= n == self.limbs@.len(),
                limbs_value(self.limbs@.take(i as int)) == 0,
            decreases n - i,
        {
            proof {
                lemma_limbs_take_step(self.limbs@, i as int);
            }
            if self.limbs[i] != 0 {
                proof {
                    let s = self.limbs@;
                    lemma_limbs_split(s, i + 1);
                    lemma_word_pow_positive(i as nat);
                    let p = word_pow(i as nat);
                    assert(s[i as int] * p >= 1) by (nonlinear_arith)
                        requires
                            s[i as int] >= 1,
                            p >= 1,
                    ;
                }
                return false;
            }
            proof {
                let z = self.limbs@[i as int];
                let p = word_pow(i as nat);
                assert(z * p == 0) by (nonlinear_arith)
                    requires
                        z == 0,
                ;
            }
            i = i + 1;
        }
        assert(self.limbs@.take(n as int) =~= self.limbs@);
        true
    }

    /// The least significant limb: the number modulo `word_base()`.
    pub fn low_u64(&self) -> (r: u64)
        requires
            self.width() >= 1,
        ensures
            r == self.value() % word_base(),
            self.value() < word_base() ==> r == self.value(),
    {
        let ghost s = self.limbs@;
        proof {
            vstd::arithmetic::div_mod::lemma_fundamental_div_mod_converse(
                self.value() as int,
                word_base() as int,
                limbs_value(s.skip(1)) as int,
                s[0] as int,
            );
        }
        self.limbs[0]
    }

    /// Sum of two numbers of one width, with the carry out of the top limb.
    pub fn add_with_carry(&self, other: &WideUint) -> (r: (WideUint, u64))
        requires
            self.width() == other.width(),
        ensures
            r.0.width() == self.width(),
            r.1 <= 1,
            r.0.value() + r.1 * word_pow(self.width()) == self.value() + other.value(),
    {
        let n = self.limbs.len();
        let mut limbs: Vec<u64> = Vec::new();
        let mut carry: u64 = 0;
        let mut i: usize = 0;
        while i < n
            invariant
                i <= n == self.limbs@.len() == other.limbs@.len(),
                limbs@.len() == i,
                carry <= 1,
                limbs_value(limbs@) + carry * word_pow(i as nat) == limbs_value(
                    self.limbs@.take(i as int),
                ) + limbs_value(other.limbs@.take(i as int)),
            decreases n - i,
        {
            let sum: u128 = self.limbs[i] as u128 + other.limbs[i] as u128 + carry as u128;
            let lo: u64 = (sum % 0x1_0000_0000_0000_0000) as u64;
            let next: u64 = (sum / 0x1_0000_0000_0000_0000) as u64;
            proof {
                let a = self.limbs@;
                let b = other.limbs@;
                lemma_limbs_take_step(a, i as int);
                lemma_limbs_take_step(b, i as int);
                lemma_limbs_take_step(limbs@.push(lo), i as int);
                assert(limbs@.push(lo).take(i as int) =~= limbs@);
                assert(limbs@.push(lo).take(i + 1) =~= limbs@.push(lo));
                let p = word_pow(i as nat);
                assert(sum == lo + next * word_base());
                assert((lo + next * word_base()) * p == lo * p + next * (word_base() * p))
                    by (nonlinear_arith);
                assert((a[i as int] + b[i as int] + carry) * p == a[i as int] * p + b[i as int]
                    * p + carry * p) by (nonlinear_arith);
            }
            limbs.push(lo);
            carry = next;
            i = i + 1;
        }
        assert(self.limbs@.take(n as int) =~= self.limbs@);
        assert(other.limbs@.take(n as int) =~= other.limbs@);
        (WideUint { limbs }, carry)
    }

    /// Difference of two numbers of one width, with the borrow into the top limb.
    pub fn sub_with_borrow(&self, other: &WideUint) -> (r: (WideUint, u64))
        requires
            self.width() == other.width(),
        ensures
            r.0.width() == self.width(),
            r.1 <= 1,
            r.0.value() as int == self.value() as int - other.value() as int + r.1 * word_pow(
                self.width(),
            ),
    {
        let n = self.limbs.len();
        let mut limbs: Vec<u64> = Vec::new();
        let mut borrow: u64 = 0;
        let mut i: usize = 0;
        while i < n
            invariant
                i <= n == self.limbs@.len() == other.limbs@.len(),
                limbs@.len() == i,
                borrow <= 1,
                limbs_value(limbs@) as int == limbs_value(self.limbs@.take(i as int)) as int
                    - limbs_value(other.limbs@.take(i as int)) as int + borrow * word_pow(
                    i as nat,
                ),
            decreases n - i,
        {
            let x: u128 = self.limbs[i] as u128;
            let y: u128 = other.limbs[i] as u128 + borrow as u128;
            let lo: u64;
            let next: u64;
            if x >= y {
                lo = (x - y) as u64;
                next = 0;
            } else {
                lo = (x + 0x1_0000_0000_0000_0000 - y) as u64;
                next = 1;
            }
            proof {
                let a = self.limbs@;
                let b = other.limbs@;
                lemma_limbs_take_step(a, i as int);
                lemma_limbs_take_step(b, i as int);
                lemma_limbs_take_step(limbs@.push(lo), i as int);
                assert(limbs@.push(lo).take(i as int) =~= limbs@);
                assert(limbs@.push(lo).take(i + 1) =~= limbs@.push(lo));
                let p = word_pow(i as nat);
                assert(lo as int == a[i as int] as int - b[i as int] as int - borrow as int + next
                    * word_base());
                assert((a[i as int] as int - b[i as int] as int - borrow as int + next
                    * word_base()) * p == a[i as int] * p - b[i as int] * p - borrow * p + next * (
                word_base() * p)) by (nonlinear_arith);
            }
            limbs.push(lo);
            borrow = next;
            i = i + 1;
        }
        assert(self.limbs@.take(n as int) =~= self.limbs@);
        assert(other.limbs@.take(n as int) =~= other.limbs@);
        (WideUint { limbs }, borrow)
    }

    /// Whether this number is below `other`, of the same width.
    pub fn lt(&self, other: &WideUint) -> (r: bool)
        requires
            self.width() == other.width(),
        ensures
            r == (self.value() < other.value()),
    {
        let (d, borrow) = self.sub_with_borrow(other);
        proof {
            lemma_limbs_bound(d.limbs@);
        }
        borrow == 1
    }

    /// `self - other`, where `other` is no greater, of the same width.
    pub fn sub(&self, other: &WideUint) -> (r: WideUint)
        requires
            self.width() == other.width(),
            other.value() <= self.value(),
        ensures
            r.value() == self.value() - other.value(),
            r.width() == self.width(),
    {
        let (d, borrow) = self.sub_with_borrow(other);
        proof {
            lemma_limbs_bound(d.limbs@);
            if borrow == 1 {
                assert(d.value() as int >= word_pow(self.width()));
            }
        }
        d
    }

    /// Product with a machine word, with the limb carried out of the top.
    pub fn mul_u64(&self, m: u64) -> (r: (WideUint, u64))
        ensures
            r.0.width() == self.width(),
            r.0.value() + r.1 * word_pow(self.width()) == self.value() * m,
    {
        let n = self.limbs.len();
        let mut limbs: Vec<u64> = Vec::new();
        let mut carry: u64 = 0;
        let mut i: usize = 0;
        proof {
            assert(self.limbs@.take(0).len() == 0);
            assert(limbs_value(self.limbs@.take(0)) == 0);
            assert(limbs_value(limbs@) == 0);
            assert(0 * m == 0);
        }
        while i < n
            invariant
                i <= n == self.limbs@.len(),
                limbs@.len() == i,
                limbs_value(limbs@) + carry * word_pow(i as nat) == limbs_value(
                    self.limbs@.take(i as int),
                ) * m,
            decreases n - i,
        {
            let x: u64 = self.limbs[i];
            proof {
                assert(x as u128 * m as u128 + carry as u128 <= 0xffff_ffff_ffff_ffff_ffff_ffff_ffff_ffff)
                    by (nonlinear_arith)
                    requires
                        x <= 0xffff_ffff_ffff_ffff,
                        m <= 0xffff_ffff_ffff_ffff,
                        carry <= 0xffff_ffff_ffff_ffff,
                ;
            }
            let prod: u128 = x as u128 * m as u128 + carry as u128;
            let lo: u64 = (prod % 0x1_0000_0000_0000_0000) as u64;
            let next: u64 = (prod / 0x1_0000_0000_0000_0000) as u64;
            proof {
                let a = self.limbs@;
                lemma_limbs_take_step(a, i as int);
                lemma_limbs_take_step(limbs@.push(lo), i as int);
                assert(limbs@.push(lo).take(i as int) =~= limbs@);
                assert(limbs@.push(lo).take(i + 1) =~= limbs@.push(lo));
                let p = word_pow(i as nat);
                let v = limbs_value(a.take(i as int));
                assert(prod == lo + next * word_base());
                assert((lo + next * word_base()) * p == lo * p + next * (word_base() * p))
                    by (nonlinear_arith);
                assert((v + x * p) * m == v * m + (x * m) * p) by (nonlinear_arith);
                assert((x * m + carry) * p == (x * m) * p + carry * p) by (nonlinear_arith);
            }
            limbs.push(lo);
            carry = next;
            i = i + 1;
        }
        assert(self.limbs@.take(n as int) =~= self.limbs@);
        (WideUint { limbs }, carry)
    }

    /// Quotient and remainder by a nonzero number of the same width, by long
    /// division one bit at a time.
    pub fn div_rem(&self, d: &WideUint) -> (r: (WideUint, WideUint))
        requires
            self.width() == d.width(),
            1 <= self.width() <= 16,
            d.value() > 0,
        ensures
            r.0.width() == self.width(),
            r.1.width() == self.width(),
            r.0.value() == self.value() / d.value(),
            r.1.value() == self.value() % d.value(),
    {
        let n = self.limbs.len();
        let nbits: usize = n * 64;
        let ghost x = self.value();
        let ghost dv = d.value();
        // The bits of the dividend, least significant first.
        let mut bits: Vec<u64> = Vec::new();
        let mut cur = self.widen(n);
        let mut k: usize = 0;
        proof {
            lemma2_to64();
            assert(x / 1 == x);
        }
        while k < nbits
            invariant
                k <= nbits == n * 64,
                n == self.width(),
                x == self.value(),
                bits@.len() == k,
                cur.width() == n,
                cur.value() == x / pow2(k as nat),
                forall|j: int| 0 <= j < k ==> #[trigger] bits@[j] == (x / pow2(j as nat)) % 2,
            decreases nbits - k,
        {
            let (next, b) = cur.div_rem_u64(2);
            proof {
                lemma_pow2_pos(k as nat);
                vstd::arithmetic::div_mod::lemma_div_denominator(x as int, pow2(k as nat) as int, 2);
                lemma_pow2_adds(k as nat, 1);
                lemma2_to64();
            }
            bits.push(b);
            cur = next;
            k = k + 1;
        }
        proof {
            lemma_limbs_bound(self.limbs@);
            lemma_word_pow_pow2(n as nat);
            vstd::arithmetic::div_mod::lemma_basic_div(x as int, pow2(nbits as nat) as int);
        }
        let w = n + 1;
        let dw = d.widen(w);
        let mut q = WideUint::zero(w);
        let mut rem = WideUint::zero(w);
        proof {
            lemma_limbs_bound(d.limbs@);
            lemma_word_pow_positive(n as nat);
            assert(word_pow(w as nat) == word_base() * word_pow(n as nat));
            assert(0 * dv == 0);
        }
        while k > 0
            invariant
                k <= nbits == n * 64,
                w == n + 1,
                x == self.value(),
                dv == d.value(),
                dv == dw.value(),
                0 < dv < word_pow(n as nat),
                x < word_pow(n as nat),
                word_pow(w as nat) == word_base() * word_pow(n as nat),
                bits@.len() == nbits,
                forall|j: int| 0 <= j < nbits ==> #[trigger] bits@[j] == (x / pow2(j as nat)) % 2,
                q.width() == w,
                rem.width() == w,
                dw.width() == w,
                q.value() * dv + rem.value() == x / pow2(k as nat),
                rem.value() < dv,
            decreases k,
        {
            let j = k - 1;
            let b = bits[j];
            let ghost xk = x / pow2(k as nat);
            let ghost xj = x / pow2(j as nat);
            proof {
                lemma_pow2_pos(j as nat);
                lemma_pow2_pos(k as nat);
                vstd::arithmetic::div_mod::lemma_div_denominator(x as int, pow2(j as nat) as int, 2);
                lemma_pow2_adds(j as nat, 1);
                lemma2_to64();
                assert(xj / 2 == xk);
                vstd::arithmetic::div_mod::lemma_fundamental_div_mod(xj as int, 2);
                assert(xj == 2 * xk + b);
                vstd::arithmetic::div_mod::lemma_div_is_ordered_by_denominator(
                    x as int,
                    1,
                    pow2(k as nat) as int,
                );
                assert(xk <= x);
                let qv = q.value();
                let rv = rem.value();
                assert(qv <= xk) by (nonlinear_arith)
                    requires
                        qv * dv + rv == xk,
                        dv >= 1,
                ;
            }
            proof {
                let pn = word_pow(n as nat);
                assert(word_base() * pn >= 2 * pn) by (nonlinear_arith)
                    requires
                        pn >= 1,
                ;
                assert(2 * q.value() < word_pow(w as nat));
                assert(2 * rem.value() + 1 < word_pow(w as nat));
            }
            let (r2, c1) = rem.mul_u64(2);
            proof {
                if c1 > 0 {
                    assert(c1 * word_pow(w as nat) >= word_pow(w as nat)) by (nonlinear_arith)
                        requires
                            c1 >= 1,
                    ;
                }
                assert(c1 == 0);
                assert(c1 * word_pow(w as nat) == 0) by (nonlinear_arith)
                    requires
                        c1 == 0,
                ;
            }
            let (r3, c2) = r2.add_with_carry(&WideUint::from_u64(b, w));
            proof {
                if c2 > 0 {
                    assert(c2 * word_pow(w as nat) >= word_pow(w as nat)) by (nonlinear_arith)
                        requires
                            c2 >= 1,
                    ;
                }
                assert(c2 == 0);
                assert(c2 * word_pow(w as nat) == 0) by (nonlinear_arith)
                    requires
                        c2 == 0,
                ;
            }
            let (q2, c3) = q.mul_u64(2);
            proof {
                if c3 > 0 {
                    assert(c3 * word_pow(w as nat) >= word_pow(w as nat)) by (nonlinear_arith)
                        requires
                            c3 >= 1,
                    ;
                }
                assert(c3 == 0);
                assert(c3 * word_pow(w as nat) == 0) by (nonlinear_arith)
                    requires
                        c3 == 0,
                ;
                assert(q2.value() == 2 * q.value());
                assert(r3.value() == 2 * rem.value() + b);
                assert((2 * q.value()) * dv == 2 * (q.value() * dv)) by (nonlinear_arith);
            }
            if r3.lt(&dw) {
                rem = r3;
                q = q2;
            } else {
                rem = r3.sub(&dw);
                let (q3, c4) = q2.add_with_carry(&WideUint::from_u64(1, w));
                proof {
                    if c4 > 0 {
                        assert(c4 * word_pow(w as nat) >= word_pow(w as nat)) by (nonlinear_arith)
                            requires
                                c4 >= 1,
                        ;
                    }
                    assert(c4 == 0);
                    assert(c4 * word_pow(w as nat) == 0) by (nonlinear_arith)
                        requires
                            c4 == 0,
                    ;
                    assert((q2.value() + 1) * dv == q2.value() * dv + dv) by (nonlinear_arith);
                }
                q = q3;
            }
            k = j;
        }
        proof {
            lemma2_to64();
            vstd::arithmetic::div_mod::lemma_fundamental_div_mod_converse(
                x as int,
                dv as int,
                q.value() as int,
                rem.value() as int,
            );
            assert(q.value() <= x) by (nonlinear_arith)
                requires
                    q.value() * dv + rem.value() == x,
                    dv >= 1,
            ;
            vstd::arithmetic::div_mod::lemma_small_mod(q.value(), word_pow(n as nat));
            vstd::arithmetic::div_mod::lemma_small_mod(rem.value(), word_pow(n as nat));
        }
        (q.truncate(n), rem.truncate(n))
    }

    /// Quotient and remainder by a nonzero machine word.
    pub fn div_rem_u64(&self, d: u64) -> (r: (WideUint, u64))
        requires
            d > 0,
        ensures
            r.0.width() == self.width(),
            r.0.value() == self.value() / (d as nat),
            r.1 == self.value() % (d as nat),
    {
        let n = self.limbs.len();
        let mut q: Vec<u64> = Vec::new();
        let mut k: usize = 0;
        while k < n
            invariant
                k <= n,
                q@.len() == k,
            decreases n - k,
        {
            q.push(0);
            k = k + 1;
        }
        let mut rem: u64 = 0;
        let mut i: usize = n;
        assert(self.limbs@.skip(n as int).len() == 0);
        assert(q@.skip(n as int).len() == 0);
        assert(limbs_value(self.limbs@.skip(n as int)) == 0);
        assert(limbs_value(q@.skip(n as int)) == 0);
        assert(0 * d == 0);
        while i > 0
            invariant
                i <= n == self.limbs@.len() == q@.len(),
                rem < d,
                limbs_value(self.limbs@.skip(i as int)) == limbs_value(q@.skip(i as int)) * d
                    + rem,
            decreases i,
        {
            let j = i - 1;
            let x: u64 = self.limbs[j];
            proof {
                assert(rem as u128 * 0x1_0000_0000_0000_0000 + x as u128 <= 0xffff_ffff_ffff_ffff_ffff_ffff_ffff_ffff)
                    by (nonlinear_arith)
                    requires
                        x <= 0xffff_ffff_ffff_ffff,
                        rem < 0xffff_ffff_ffff_ffff,
                ;
            }
            let cur: u128 = rem as u128 * 0x1_0000_0000_0000_0000 + x as u128;
            proof {
                assert(cur / (d as u128) < 0x1_0000_0000_0000_0000) by (nonlinear_arith)
                    requires
                        cur == rem * 0x1_0000_0000_0000_0000 + x,
                        x < 0x1_0000_0000_0000_0000,
                        rem < d,
                        d > 0,
                ;
            }
            let digit: u64 = (cur / (d as u128)) as u64;
            let next: u64 = (cur % (d as u128)) as u64;
            let ghost old_q = q@;
            q.set(j, digit);
            proof {
                assert(q@.skip(i as int) =~= old_q.skip(i as int));
                lemma_limbs_skip_step(self.limbs@, j as int);
                lemma_limbs_skip_step(q@, j as int);
                let qv = limbs_value(old_q.skip(i as int));
                vstd::arithmetic::div_mod::lemma_fundamental_div_mod(cur as int, d as int);
                assert(digit == cur / (d as u128));
                assert(next == cur % (d as u128));
                assert(d * digit == digit * d) by (nonlinear_arith);
                assert(cur == digit * d + next);
                assert(x + word_base() * (qv * d + rem) == (digit + word_base() * qv) * d + next)
                    by (nonlinear_arith)
                    requires
                        cur == digit * d + next,
                        cur == rem * word_base() + x,
                ;
            }
            rem = next;
            i = j;
        }
        proof {
            assert(self.limbs@.skip(0) =~= self.limbs@);
            assert(q@.skip(0) =~= q@);
            vstd::arithmetic::div_mod::lemma_fundamental_div_mod_converse(
                self.value() as int,
                d as int,
                limbs_value(q@) as int,
                rem as int,
            );
        }
        (WideUint { limbs: q }, rem)
    }
}

} // verus!
