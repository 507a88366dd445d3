use vstd::prelude::*;

verus! {

/// A fixed-width block identifier of 256 bits, held as four 64-bit words
/// (most significant first). Its order serves only to break ties.
#[derive(Clone, Copy, Debug, PartialEq, Eq, Structural)]
pub struct BlockHash {
    pub w0: u64,
    pub w1: u64,
    pub w2: u64,
    pub w3: u64,
}

/// Lexicographic order over the four words.
pub open spec fn hash_lt(a: BlockHash, b: BlockHash) -> bool {
    ||| a.w0 < b.w0
    ||| (a.w0 == b.w0 && a.w1 < b.w1)
    ||| (a.w0 == b.w0 && a.w1 == b.w1 && a.w2 < b.w2)
    ||| (a.w0 == b.w0 && a.w1 == b.w1 && a.w2 == b.w2 && a.w3 < b.w3)
}

/// The word repeated in each position of the origin sentinel.
pub const ORIGIN_WORD: u64 = 0xfefefefefefefefe;

/// The sentinel that stands for the virtual root below genesis; no query
/// over real blocks ever reaches it.
pub open spec fn origin_hash() -> BlockHash {
    BlockHash { w0: ORIGIN_WORD, w1: ORIGIN_WORD, w2: ORIGIN_WORD, w3: ORIGIN_WORD }
}

impl BlockHash {
    pub fn from_words(w0: u64, w1: u64, w2: u64, w3: u64) -> (r: BlockHash)
        ensures
            r == (BlockHash { w0, w1, w2, w3 }),
    {
        BlockHash { w0, w1, w2, w3 }
    }

    /// The hash whose least significant word is `word` and whose other words are zero.
    pub fn from_u64_word(word: u64) -> (r: BlockHash)
        ensures
            r == (BlockHash { w0: 0, w1: 0, w2: 0, w3: word }),
    {
        BlockHash { w0: 0, w1: 0, w2: 0, w3: word }
    }

    pub fn origin() -> (r: BlockHash)
        ensures
            r == origin_hash(),
    {
        BlockHash { w0: ORIGIN_WORD, w1: ORIGIN_WORD, w2: ORIGIN_WORD, w3: ORIGIN_WORD }
    }

    pub fn is_origin(&self) -> (r: bool)
        ensures
            r == (*self == origin_hash()),
    {
        self.w0 == ORIGIN_WORD && self.w1 == ORIGIN_WORD && self.w2 == ORIGIN_WORD
            && self.w3 == ORIGIN_WORD
    }

    /// Strict lexicographic comparison.
    pub fn less_than(&self, other: &BlockHash) -> (r: bool)
        ensures
            r == hash_lt(*self, *other),
    {
        if self.w0 != other.w0 {
            self.w0 < other.w0
        } else if self.w1 != other.w1 {
            self.w1 < other.w1
        } else if self.w2 != other.w2 {
            self.w2 < other.w2
        } else {
            self.w3 < other.w3
        }
    }
}

/// The hash order is a strict total order.
pub proof fn lemma_hash_order(a: BlockHash, b: BlockHash, c: BlockHash)
    ensures
        !hash_lt(a, a),
        hash_lt(a, b) ==> !hash_lt(b, a),
        hash_lt(a, b) && hash_lt(b, c) ==> hash_lt(a, c),
        a == b || hash_lt(a, b) || hash_lt(b, a),
{
}

/// Whether `h` occurs in `v`.
pub fn contains_hash(v: &Vec<BlockHash>, h: BlockHash) -> (r: bool)
    ensures
        r == v@.contains(h),
{
    let mut i: usize = 0;
    while i < v.len()
        invariant
            i <= v@.len(),
            forall|k: int| 0 <= k < i ==> v@[k] != h,
        decreases v@.len() - i,
    {
        if v[i] == h {
            return true;
        }
        i = i + 1;
    }
    false
}

} // verus!
