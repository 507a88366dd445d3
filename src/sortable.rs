use crate::hash::{hash_lt, lemma_hash_order, BlockHash};
use crate::wide::{lemma_limbs_bound, lemma_limbs_injective, limbs_value, word_pow, WideUint};
use vstd::prelude::*;

verus! {

/// Cumulative proof-of-work of a block: an unsigned integer of 192 bits, held
/// as three 64-bit words, least significant first.
#[derive(Clone, Copy, Debug, PartialEq, Eq, Structural)]
pub struct BlueWork {
    pub lo: u64,
    pub mid: u64,
    pub hi: u64,
}

impl BlueWork {
    pub open spec fn limbs(&self) -> Seq<u64> {
        seq![self.lo, self.mid, self.hi]
    }

    pub open spec fn value(&self) -> nat {
        limbs_value(self.limbs())
    }

    pub fn from_u64(x: u64) -> (r: BlueWork)
        ensures
            r.value() == x,
    {
        BlueWork::from_wide(&WideUint::from_u64(x, 3))
    }

    /// The largest blue work, `2^192 - 1`: every bit set.
    pub fn max_value() -> (r: BlueWork)
        ensures
            r == (BlueWork {
                lo: 0xffff_ffff_ffff_ffff,
                mid: 0xffff_ffff_ffff_ffff,
                hi: 0xffff_ffff_ffff_ffff,
            }),
            r.value() + 1 == word_pow(3),
    {
        proof {
            lemma_max_value();
        }
        BlueWork { lo: 0xffff_ffff_ffff_ffff, mid: 0xffff_ffff_ffff_ffff, hi: 0xffff_ffff_ffff_ffff }
    }

    pub fn from_wide(w: &WideUint) -> (r: BlueWork)
        requires
            w.width() == 3,
        ensures
            r.value() == w.value(),
    {
        let r = BlueWork { lo: w.limbs[0], mid: w.limbs[1], hi: w.limbs[2] };
        assert(r.limbs() =~= w.limbs@);
        r
    }

    pub fn to_wide(&self) -> (r: WideUint)
        ensures
            r.value() == self.value(),
            r.width() == 3,
    {
        let mut limbs: Vec<u64> = Vec::new();
        limbs.push(self.lo);
        limbs.push(self.mid);
        limbs.push(self.hi);
        assert(limbs@ =~= self.limbs());
        WideUint { limbs }
    }

    pub fn less_than(&self, other: &BlueWork) -> (r: bool)
        ensures
            r == (self.value() < other.value()),
    {
        self.to_wide().lt(&other.to_wide())
    }

    /// Blue work is below `2^192`.
    pub proof fn lemma_bound(&self)
        ensures
            self.value() < word_pow(3),
    {
        lemma_limbs_bound(self.limbs());
    }

    /// Equal numbers are equal words.
    pub proof fn lemma_injective(&self, other: &BlueWork)
        requires
            self.value() == other.value(),
        ensures
            *self == *other,
    {
        lemma_limbs_injective(self.limbs(), other.limbs());
        assert(self.limbs()[0] == other.limbs()[0]);
        assert(self.limbs()[1] == other.limbs()[1]);
        assert(self.limbs()[2] == other.limbs()[2]);
    }
}

/// Three words of all bits set stand for `2^192 - 1`.
pub proof fn lemma_max_value()
    ensures
        (BlueWork {
            lo: 0xffff_ffff_ffff_ffff,
            mid: 0xffff_ffff_ffff_ffff,
            hi: 0xffff_ffff_ffff_ffff,
        }).value() + 1 == word_pow(3),
{
    let m: u64 = 0xffff_ffff_ffff_ffff;
    let b = BlueWork { lo: m, mid: m, hi: m };
    let s = b.limbs();
    assert(s.skip(1) =~= seq![m, m]);
    assert(s.skip(1).skip(1) =~= seq![m]);
    assert(s.skip(1).skip(1).skip(1) =~= Seq::<u64>::empty());
    assert(limbs_value(Seq::<u64>::empty()) == 0);
    assert(limbs_value(seq![m]) == m as nat);
    assert(limbs_value(seq![m, m]) == m + crate::wide::word_base() * m);
    assert(word_pow(0) == 1);
    assert(word_pow(1) == crate::wide::word_base());
    assert(word_pow(2) == crate::wide::word_base() * crate::wide::word_base());
    assert(word_pow(3) == crate::wide::word_base() * (crate::wide::word_base() * crate::wide::word_base()));
}

/// A block as it is ranked: by blue work, then by hash.
#[derive(Clone, Copy, Debug, PartialEq, Eq, Structural)]
pub struct SortableBlock {
    pub hash: BlockHash,
    pub blue_work: BlueWork,
}

/// The ranking of blocks: blue work first, ties broken by hash.
pub open spec fn sortable_lt(a: SortableBlock, b: SortableBlock) -> bool {
    ||| a.blue_work.value() < b.blue_work.value()
    ||| (a.blue_work.value() == b.blue_work.value() && hash_lt(a.hash, b.hash))
}

pub open spec fn sortable_le(a: SortableBlock, b: SortableBlock) -> bool {
    a == b || sortable_lt(a, b)
}

impl SortableBlock {
    pub fn new(hash: BlockHash, blue_work: BlueWork) -> (r: SortableBlock)
        ensures
            r == (SortableBlock { hash, blue_work }),
    {
        SortableBlock { hash, blue_work }
    }

    pub fn less_than(&self, other: &SortableBlock) -> (r: bool)
        ensures
            r == sortable_lt(*self, *other),
    {
        if self.blue_work.less_than(&other.blue_work) {
            true
        } else if other.blue_work.less_than(&self.blue_work) {
            false
        } else {
            self.hash.less_than(&other.hash)
        }
    }
}

/// The ranking of blocks is a strict total order: irreflexive, asymmetric,
/// transitive and total, where two blocks of equal blue work and equal hash are
/// the same block.
pub proof fn lemma_sortable_order(a: SortableBlock, b: SortableBlock, c: SortableBlock)
    ensures
        !sortable_lt(a, a),
        sortable_lt(a, b) ==> !sortable_lt(b, a),
        sortable_lt(a, b) && sortable_lt(b, c) ==> sortable_lt(a, c),
        a == b || sortable_lt(a, b) || sortable_lt(b, a),
        a.blue_work.value() == b.blue_work.value() && a.hash == b.hash ==> a == b,
{
    lemma_hash_order(a.hash, b.hash, c.hash);
    if a.blue_work.value() == b.blue_work.value() {
        a.blue_work.lemma_injective(&b.blue_work);
    }
}

} // verus!
