use crate::compact::{
    calc_work, compact_bits_of, compact_target, compact_target_bits, lemma_compact_target_bound,
    target_from_compact_bits,
};
use crate::hash::BlockHash;
use crate::sortable::{lemma_sortable_order, sortable_lt, BlueWork, SortableBlock};
use crate::stores::{GhostdagData, GhostdagStoreReader, HeaderStoreReader};
use crate::wide::{lemma_limbs_bound, word_base, word_pow, WideUint};
use crate::window::{is_lowest_of, BlockWindowHeap};
use vstd::prelude::*;

verus! {

/// The fewest blocks from which the network hash rate is estimated.
pub const MIN_WINDOW_SIZE: usize = 1000;

/// Why a hash rate cannot be estimated.
#[derive(Clone, Copy, Debug, PartialEq, Eq, Structural)]
pub enum DifficultyError {
    /// The window holds fewer blocks (first) than the least allowed (second).
    UnderMinWindowSizeAllowed(usize, usize),
    /// All blocks of the window carry one timestamp.
    EmptyTimestampRange,
}

/// A window block with the header data difficulty adjustment reads.
#[derive(Clone, Copy, Debug, PartialEq, Eq, Structural)]
pub struct DifficultyBlock {
    pub timestamp: u64,
    pub bits: u32,
    pub sortable_block: SortableBlock,
}

/// Window blocks are ranked by timestamp, then as blocks.
pub open spec fn difficulty_lt(a: DifficultyBlock, b: DifficultyBlock) -> bool {
    ||| a.timestamp < b.timestamp
    ||| (a.timestamp == b.timestamp && sortable_lt(a.sortable_block, b.sortable_block))
}

pub proof fn lemma_difficulty_order(a: DifficultyBlock, b: DifficultyBlock, c: DifficultyBlock)
    ensures
        !difficulty_lt(a, a),
        difficulty_lt(a, b) ==> !difficulty_lt(b, a),
        difficulty_lt(a, b) && difficulty_lt(b, c) ==> difficulty_lt(a, c),
        a.sortable_block == b.sortable_block && a.timestamp == b.timestamp
            || difficulty_lt(a, b) || difficulty_lt(b, a),
{
    lemma_sortable_order(a.sortable_block, b.sortable_block, c.sortable_block);
}

/// `i` is the first position of a block of least rank in `s`.
pub open spec fn is_first_min(s: Seq<DifficultyBlock>, i: int) -> bool {
    &&& 0 <= i < s.len()
    &&& forall|j: int| 0 <= j < s.len() ==> !difficulty_lt(#[trigger] s[j], s[i])
    &&& forall|j: int| 0 <= j < i ==> difficulty_lt(s[i], #[trigger] s[j])
}

pub open spec fn first_min_index(s: Seq<DifficultyBlock>) -> int {
    choose|i: int| is_first_min(s, i)
}

/// The latest timestamp in `s` (zero when empty).
pub open spec fn max_timestamp(s: Seq<DifficultyBlock>) -> u64
    decreases s.len(),
{
    if s.len() == 0 {
        0
    } else {
        let m = max_timestamp(s.drop_last());
        if s.last().timestamp > m {
            s.last().timestamp
        } else {
            m
        }
    }
}

/// The earliest timestamp in `s` (`u64::MAX` when empty).
pub open spec fn min_timestamp(s: Seq<DifficultyBlock>) -> u64
    decreases s.len(),
{
    if s.len() == 0 {
        u64::MAX
    } else {
        let m = min_timestamp(s.drop_last());
        if s.last().timestamp < m {
            s.last().timestamp
        } else {
            m
        }
    }
}

/// The greatest blue work in `s` (zero when empty).
pub open spec fn max_work(s: Seq<DifficultyBlock>) -> nat
    decreases s.len(),
{
    if s.len() == 0 {
        0
    } else {
        let m = max_work(s.drop_last());
        let w = s.last().sortable_block.blue_work.value();
        if w > m {
            w
        } else {
            m
        }
    }
}

/// The least blue work in `s` (`2^192 - 1` when empty).
pub open spec fn min_work(s: Seq<DifficultyBlock>) -> nat
    decreases s.len(),
{
    if s.len() == 0 {
        (word_pow(3) - 1) as nat
    } else {
        let m = min_work(s.drop_last());
        let w = s.last().sortable_block.blue_work.value();
        if w < m {
            w
        } else {
            m
        }
    }
}

/// The sum of the targets that the blocks of `s` carry.
pub open spec fn targets_sum(s: Seq<DifficultyBlock>) -> nat
    decreases s.len(),
{
    if s.len() == 0 {
        0
    } else {
        targets_sum(s.drop_last()) + compact_target(s.last().bits)
    }
}

/// The window blocks with their header data.
pub open spec fn difficulty_blocks_of<T: HeaderStoreReader>(
    store: &T,
    window: Seq<SortableBlock>,
) -> Seq<DifficultyBlock> {
    Seq::new(
        window.len(),
        |i: int|
            DifficultyBlock {
                timestamp: store.header_of(window[i].hash).timestamp,
                bits: store.header_of(window[i].hash).bits,
                sortable_block: window[i],
            },
    )
}

/// The next target from a full window: the earliest block only anchors the
/// time span; the other blocks' targets are averaged, and the average is
/// scaled by the span over the expected time for those blocks.
pub open spec fn next_target(s: Seq<DifficultyBlock>, target_time_per_block: u64) -> nat {
    let i = first_min_index(s);
    let rest = s.remove(i);
    let n = rest.len();
    let span = max_timestamp(s) - s[i].timestamp;
    let elapsed: nat = if span >= 1 {
        span as nat
    } else {
        1
    };
    targets_sum(rest) / n * elapsed / (target_time_per_block as nat) / n
}

/// The block of least rank in a window, or, for an empty window, a block of
/// the greatest blue work that ranks above every other.
pub open spec fn window_lowest(window: Seq<SortableBlock>) -> SortableBlock {
    if window.len() == 0 {
        SortableBlock {
            hash: BlockHash { w0: 0, w1: 0, w2: 0, w3: 0 },
            blue_work: BlueWork {
                lo: 0xffff_ffff_ffff_ffff,
                mid: 0xffff_ffff_ffff_ffff,
                hi: 0xffff_ffff_ffff_ffff,
            },
        }
    } else {
        choose|b: SortableBlock| window.contains(b) && is_lowest_of(window, b)
    }
}

/// The members of `mergeset` that rank below `lowest`, in their order.
pub open spec fn members_below<G: GhostdagStoreReader>(
    store: &G,
    mergeset: Seq<BlockHash>,
    lowest: SortableBlock,
) -> Seq<BlockHash>
    decreases mergeset.len(),
{
    if mergeset.len() == 0 {
        Seq::empty()
    } else {
        let prev = members_below(store, mergeset.drop_last(), lowest);
        let h = mergeset.last();
        if sortable_lt(SortableBlock { hash: h, blue_work: store.ghostdag_of(h).blue_work }, lowest) {
            prev.push(h)
        } else {
            prev
        }
    }
}

/// The blocks of a block's mergeset, selected parent included, that were
/// already counted in an earlier window: the ascending walk over the
/// mergeset, the selected parent last, that stops at the window's lowest
/// block. Since the walk is ascending, its members are exactly those below
/// the lowest block; the selected parent follows only when all of them are.
pub open spec fn non_daa_mergeset<G: GhostdagStoreReader>(
    store: &G,
    window: Seq<SortableBlock>,
    data: GhostdagData,
) -> Seq<BlockHash> {
    let lowest = window_lowest(window);
    let ms = data.mergeset_without_selected_parent@;
    let below = members_below(store, ms, lowest);
    let sp = data.selected_parent;
    let sp_work = if store.has_ghostdag(sp) {
        store.ghostdag_of(sp).blue_work
    } else {
        BlueWork { lo: 0, mid: 0, hi: 0 }
    };
    if below.len() == ms.len() && sortable_lt(SortableBlock { hash: sp, blue_work: sp_work }, lowest) {
        below.push(sp)
    } else {
        below
    }
}

proof fn lemma_members_below_len<G: GhostdagStoreReader>(
    store: &G,
    mergeset: Seq<BlockHash>,
    lowest: SortableBlock,
)
    ensures
        members_below(store, mergeset, lowest).len() <= mergeset.len(),
    decreases mergeset.len(),
{
    if mergeset.len() > 0 {
        lemma_members_below_len(store, mergeset.drop_last(), lowest);
    }
}

/// The lowest block of a window is the only block of it that ranks at or
/// below all the others.
pub proof fn lemma_window_lowest(window: Seq<SortableBlock>, b: SortableBlock)
    requires
        window.contains(b),
        is_lowest_of(window, b),
    ensures
        window_lowest(window) == b,
{
    let c = window_lowest(window);
    assert(window.contains(c) && is_lowest_of(window, c));
    let i = choose|i: int| 0 <= i < window.len() && window[i] == b;
    let k = choose|k: int| 0 <= k < window.len() && window[k] == c;
    assert(!sortable_lt(window[i], c));
    assert(!sortable_lt(window[k], b));
    lemma_sortable_order(b, c, b);
}

/// Only one position is the first of least rank.
pub proof fn lemma_first_min_unique(s: Seq<DifficultyBlock>, i: int)
    requires
        is_first_min(s, i),
    ensures
        first_min_index(s) == i,
{
    let j = first_min_index(s);
    assert(is_first_min(s, j));
    if j < i {
        assert(difficulty_lt(s[i], s[j]));
        assert(!difficulty_lt(s[i], s[j]));
    } else if i < j {
        assert(difficulty_lt(s[j], s[i]));
    }
}

pub proof fn lemma_timestamp_bounds(s: Seq<DifficultyBlock>, i: int)
    requires
        0 <= i < s.len(),
    ensures
        min_timestamp(s) <= s[i].timestamp <= max_timestamp(s),
    decreases s.len(),
{
    if i < s.len() - 1 {
        lemma_timestamp_bounds(s.drop_last(), i);
    }
}

pub proof fn lemma_work_bounds(s: Seq<DifficultyBlock>, i: int)
    requires
        0 <= i < s.len(),
    ensures
        min_work(s) <= s[i].sortable_block.blue_work.value() <= max_work(s),
    decreases s.len(),
{
    if i < s.len() - 1 {
        lemma_work_bounds(s.drop_last(), i);
    } else {
        s[i].sortable_block.blue_work.lemma_bound();
    }
}

proof fn lemma_targets_sum_bound(s: Seq<DifficultyBlock>)
    ensures
        targets_sum(s) <= s.len() * (word_pow(4) - 1),
    decreases s.len(),
{
    if s.len() > 0 {
        lemma_targets_sum_bound(s.drop_last());
        lemma_compact_target_bound(s.last().bits);
        let n = s.len();
        assert((n - 1) * (word_pow(4) - 1) + (word_pow(4) - 1) == n * (word_pow(4) - 1))
            by (nonlinear_arith);
    }
}

proof fn lemma_permutation_facts(s: Seq<DifficultyBlock>, t: Seq<DifficultyBlock>, x: DifficultyBlock)
    requires
        s.to_multiset() == t.to_multiset(),
    ensures
        s.len() == t.len(),
        s.contains(x) ==> t.contains(x),
        t.contains(x) ==> s.contains(x),
{
    broadcast use vstd::seq_lib::group_to_multiset_ensures;

    assert(s.to_multiset().len() == s.len());
    assert(t.to_multiset().len() == t.len());
    assert(s.contains(x) <==> s.to_multiset().count(x) > 0);
    assert(t.contains(x) <==> t.to_multiset().count(x) > 0);
}

proof fn lemma_targets_sum_remove(s: Seq<DifficultyBlock>, k: int)
    requires
        0 <= k < s.len(),
    ensures
        targets_sum(s) == targets_sum(s.remove(k)) + compact_target(s[k].bits),
    decreases s.len(),
{
    if k == s.len() - 1 {
        assert(s.remove(k) =~= s.drop_last());
    } else {
        lemma_targets_sum_remove(s.drop_last(), k);
        assert(s.remove(k).drop_last() =~= s.drop_last().remove(k));
        assert(s.remove(k).last() == s.last());
    }
}

proof fn lemma_targets_sum_permutation(s: Seq<DifficultyBlock>, t: Seq<DifficultyBlock>)
    requires
        s.to_multiset() == t.to_multiset(),
    ensures
        targets_sum(s) == targets_sum(t),
    decreases s.len(),
{
    broadcast use vstd::seq_lib::group_to_multiset_ensures;

    if s.len() == 0 {
        lemma_permutation_facts(s, t, s.first());
        assert(t.len() == 0);
    } else {
        let x = s.last();
        assert(s[s.len() - 1] == x);
        lemma_permutation_facts(s, t, x);
        assert(t.contains(x));
        let k = choose|k: int| 0 <= k < t.len() && t[k] == x;
        assert(s.remove(s.len() - 1) =~= s.drop_last());
        lemma_targets_sum_permutation(s.drop_last(), t.remove(k));
        lemma_targets_sum_remove(t, k);
    }
}

proof fn lemma_max_timestamp_attained(s: Seq<DifficultyBlock>)
    requires
        s.len() > 0,
    ensures
        exists|i: int| 0 <= i < s.len() && s[i].timestamp == max_timestamp(s),
    decreases s.len(),
{
    if s.len() == 1 {
        assert(max_timestamp(s.drop_last()) == 0);
        assert(s[0].timestamp == max_timestamp(s));
    } else {
        lemma_max_timestamp_attained(s.drop_last());
        let i = choose|i: int|
            0 <= i < s.drop_last().len() && s.drop_last()[i].timestamp == max_timestamp(
                s.drop_last(),
            );
        if s.last().timestamp > max_timestamp(s.drop_last()) {
            assert(s[s.len() - 1].timestamp == max_timestamp(s));
        } else {
            assert(s[i].timestamp == max_timestamp(s));
        }
    }
}

proof fn lemma_first_min_exists(s: Seq<DifficultyBlock>)
    requires
        s.len() > 0,
    ensures
        exists|i: int| is_first_min(s, i),
    decreases s.len(),
{
    if s.len() == 1 {
        lemma_difficulty_order(s[0], s[0], s[0]);
        assert(is_first_min(s, 0));
    } else {
        let p = s.drop_last();
        lemma_first_min_exists(p);
        let i = choose|i: int| is_first_min(p, i);
        let n = s.len() - 1;
        if difficulty_lt(s[n], s[i]) {
            assert forall|j: int| 0 <= j < s.len() implies !difficulty_lt(#[trigger] s[j], s[n]) by {
                lemma_difficulty_order(s[j], s[i], s[n]);
                lemma_difficulty_order(s[n], s[i], s[j]);
                lemma_difficulty_order(s[j], s[n], s[i]);
                if j < n {
                    assert(!difficulty_lt(p[j], p[i]));
                }
            }
            assert forall|j: int| 0 <= j < n implies difficulty_lt(s[n], #[trigger] s[j]) by {
                assert(!difficulty_lt(p[j], p[i]));
                lemma_difficulty_order(s[n], s[i], s[j]);
                lemma_difficulty_order(s[j], s[i], s[n]);
            }
            assert(is_first_min(s, n));
        } else {
            assert forall|j: int| 0 <= j < s.len() implies !difficulty_lt(#[trigger] s[j], s[i]) by {
                if j < n {
                    assert(!difficulty_lt(p[j], p[i]));
                }
            }
            assert forall|j: int| 0 <= j < i implies difficulty_lt(s[i], #[trigger] s[j]) by {
                assert(difficulty_lt(p[i], p[j]));
            }
            assert(is_first_min(s, i));
        }
    }
}

/// The next target depends on the window's blocks, not on the order in which
/// the window holds them: two orders of the same blocks give the same target,
/// where blocks of one rank carry the same header data.
pub proof fn lemma_next_target_order_free(
    s1: Seq<DifficultyBlock>,
    s2: Seq<DifficultyBlock>,
    target_time_per_block: u64,
)
    requires
        s1.to_multiset() == s2.to_multiset(),
        s1.len() >= 1,
        forall|i: int, j: int|
            0 <= i < s1.len() && 0 <= j < s1.len() && (#[trigger] s1[i]).sortable_block == (
            #[trigger] s1[j]).sortable_block ==> s1[i] == s1[j],
    ensures
        next_target(s1, target_time_per_block) == next_target(s2, target_time_per_block),
{
    broadcast use vstd::seq_lib::group_to_multiset_ensures;

    lemma_permutation_facts(s1, s2, s1[0]);
    assert(s2.len() == s1.len());
    // The latest timestamps agree.
    lemma_max_timestamp_attained(s1);
    lemma_max_timestamp_attained(s2);
    let a = choose|a: int| 0 <= a < s1.len() && s1[a].timestamp == max_timestamp(s1);
    let b = choose|b: int| 0 <= b < s2.len() && s2[b].timestamp == max_timestamp(s2);
    assert(s1.contains(s1[a]));
    lemma_permutation_facts(s1, s2, s1[a]);
    assert(s2.contains(s1[a]));
    let a2 = choose|k: int| 0 <= k < s2.len() && s2[k] == s1[a];
    lemma_timestamp_bounds(s2, a2);
    assert(s2.contains(s2[b]));
    lemma_permutation_facts(s1, s2, s2[b]);
    assert(s1.contains(s2[b]));
    let b1 = choose|k: int| 0 <= k < s1.len() && s1[k] == s2[b];
    lemma_timestamp_bounds(s1, b1);
    assert(max_timestamp(s1) == max_timestamp(s2));
    // The blocks of least rank agree.
    lemma_first_min_exists(s1);
    lemma_first_min_exists(s2);
    let i1 = first_min_index(s1);
    let i2 = first_min_index(s2);
    assert(is_first_min(s1, i1));
    assert(is_first_min(s2, i2));
    assert(s1.contains(s1[i1]));
    lemma_permutation_facts(s1, s2, s1[i1]);
    assert(s2.contains(s1[i1]));
    let k2 = choose|k: int| 0 <= k < s2.len() && s2[k] == s1[i1];
    assert(s2.contains(s2[i2]));
    lemma_permutation_facts(s1, s2, s2[i2]);
    assert(s1.contains(s2[i2]));
    let k1 = choose|k: int| 0 <= k < s1.len() && s1[k] == s2[i2];
    assert(!difficulty_lt(s2[k2], s2[i2]));
    assert(!difficulty_lt(s1[k1], s1[i1]));
    lemma_difficulty_order(s1[i1], s2[i2], s1[i1]);
    assert(s1[k1] == s1[i1]);
    let x = s1[i1];
    assert(s2[i2] == x);
    // The other blocks agree as a multiset, hence in their sum.
    assert(s1.remove(i1).to_multiset() == s2.remove(i2).to_multiset());
    lemma_targets_sum_permutation(s1.remove(i1), s2.remove(i2));
}

proof fn lemma_blocks_of_permutation<T: HeaderStoreReader>(
    store: &T,
    w1: Seq<SortableBlock>,
    w2: Seq<SortableBlock>,
)
    requires
        w1.to_multiset() == w2.to_multiset(),
    ensures
        difficulty_blocks_of(store, w1).to_multiset() == difficulty_blocks_of(store, w2).to_multiset(),
    decreases w1.len(),
{
    broadcast use vstd::seq_lib::group_to_multiset_ensures;

    assert(w1.to_multiset().len() == w1.len());
    assert(w2.to_multiset().len() == w2.len());
    let b1 = difficulty_blocks_of(store, w1);
    let b2 = difficulty_blocks_of(store, w2);
    if w1.len() == 0 {
        assert(b1 =~= b2);
    } else {
        let n = w1.len() - 1;
        let x = w1[n];
        assert(w1.contains(x));
        assert(w1.to_multiset().count(x) > 0);
        assert(w2.to_multiset().count(x) > 0);
        let k = choose|k: int| 0 <= k < w2.len() && w2[k] == x;
        assert(w1.remove(n) =~= w1.drop_last());
        assert(w1.remove(n).to_multiset() == w1.to_multiset().remove(x));
        assert(w2.remove(k).to_multiset() == w2.to_multiset().remove(x));
        lemma_blocks_of_permutation(store, w1.drop_last(), w2.remove(k));
        assert(difficulty_blocks_of(store, w1.drop_last()) =~= b1.drop_last());
        assert(difficulty_blocks_of(store, w2.remove(k)) =~= b2.remove(k));
        assert(b1.drop_last() =~= b1.remove(n));
        assert(b1[n] == b2[k]);
        let m1 = b1.to_multiset();
        let m2 = b2.to_multiset();
        assert(b1.remove(n).to_multiset() == m1.remove(b1[n]));
        assert(b2.remove(k).to_multiset() == m2.remove(b2[k]));
        assert(b1.contains(b1[n]));
        assert(b2.contains(b2[k]));
        assert(m1.count(b1[n]) > 0);
        assert(m2.count(b2[k]) > 0);
        assert(m1 =~= m2) by {
            assert forall|y: DifficultyBlock| m1.count(y) == m2.count(y) by {
                assert(m1.remove(b1[n]).count(y) == m2.remove(b2[k]).count(y));
            }
        }
    }
}

/// The difficulty of a full window depends on which blocks it holds, not on
/// the order in which it holds them.
pub proof fn lemma_window_order_free<T: HeaderStoreReader>(
    store: &T,
    w1: Seq<SortableBlock>,
    w2: Seq<SortableBlock>,
    target_time_per_block: u64,
)
    requires
        w1.to_multiset() == w2.to_multiset(),
        w1.len() >= 1,
    ensures
        next_target(difficulty_blocks_of(store, w1), target_time_per_block) == next_target(
            difficulty_blocks_of(store, w2),
            target_time_per_block,
        ),
{
    lemma_blocks_of_permutation(store, w1, w2);
    let b1 = difficulty_blocks_of(store, w1);
    assert forall|i: int, j: int|
        0 <= i < b1.len() && 0 <= j < b1.len() && (#[trigger] b1[i]).sortable_block == (
        #[trigger] b1[j]).sortable_block implies b1[i] == b1[j] by {
        assert(w1[i] == w1[j]);
    }
    lemma_next_target_order_free(b1, difficulty_blocks_of(store, w2), target_time_per_block);
}

/// The first position of a block of least rank.
fn first_min_position(blocks: &Vec<DifficultyBlock>) -> (r: usize)
    requires
        blocks@.len() > 0,
    ensures
        is_first_min(blocks@, r as int),
        r == first_min_index(blocks@),
{
    let mut best: usize = 0;
    let mut i: usize = 1;
    while i < blocks.len()
        invariant
            1 <= i <= blocks@.len(),
            best < i,
            forall|j: int| 0 <= j < i ==> !difficulty_lt(#[trigger] blocks@[j], blocks@[best as int]),
            forall|j: int| 0 <= j < best ==> difficulty_lt(blocks@[best as int], #[trigger] blocks@[j]),
        decreases blocks@.len() - i,
    {
        let a = blocks[i];
        let b = blocks[best];
        let less = a.timestamp < b.timestamp || (a.timestamp == b.timestamp
            && a.sortable_block.less_than(&b.sortable_block));
        if less {
            proof {
                assert forall|j: int| 0 <= j < i + 1 implies !difficulty_lt(
                    #[trigger] blocks@[j],
                    blocks@[i as int],
                ) by {
                    lemma_difficulty_order(blocks@[j], blocks@[best as int], blocks@[i as int]);
                    lemma_difficulty_order(blocks@[i as int], blocks@[best as int], blocks@[j]);
                    lemma_difficulty_order(blocks@[j], blocks@[i as int], blocks@[best as int]);
                }
                assert forall|j: int| 0 <= j < i implies difficulty_lt(
                    blocks@[i as int],
                    #[trigger] blocks@[j],
                ) by {
                    lemma_difficulty_order(blocks@[i as int], blocks@[best as int], blocks@[j]);
                    lemma_difficulty_order(blocks@[j], blocks@[best as int], blocks@[i as int]);
                    if blocks@[j].sortable_block == blocks@[best as int].sortable_block
                        && blocks@[j].timestamp == blocks@[best as int].timestamp {
                        assert(difficulty_lt(blocks@[i as int], blocks@[best as int]));
                    }
                }
            }
            best = i;
        }
        i = i + 1;
    }
    proof {
        lemma_first_min_unique(blocks@, best as int);
    }
    best
}

/// The earliest and latest timestamps.
fn timestamp_bounds(blocks: &Vec<DifficultyBlock>) -> (r: (u64, u64))
    ensures
        r.0 == min_timestamp(blocks@),
        r.1 == max_timestamp(blocks@),
{
    let mut lo: u64 = u64::MAX;
    let mut hi: u64 = 0;
    let mut i: usize = 0;
    while i < blocks.len()
        invariant
            i <= blocks@.len(),
            lo == min_timestamp(blocks@.take(i as int)),
            hi == max_timestamp(blocks@.take(i as int)),
        decreases blocks@.len() - i,
    {
        proof {
            assert(blocks@.take(i + 1).drop_last() =~= blocks@.take(i as int));
        }
        let t = blocks[i].timestamp;
        if t < lo {
            lo = t;
        }
        if t > hi {
            hi = t;
        }
        i = i + 1;
    }
    assert(blocks@.take(blocks@.len() as int) =~= blocks@);
    (lo, hi)
}

/// The least and greatest blue work.
fn work_bounds(blocks: &Vec<DifficultyBlock>) -> (r: (BlueWork, BlueWork))
    ensures
        r.0.value() == min_work(blocks@),
        r.1.value() == max_work(blocks@),
{
    let mut lo = BlueWork::max_value();
    let mut hi = BlueWork::from_u64(0);
    let mut i: usize = 0;
    while i < blocks.len()
        invariant
            i <= blocks@.len(),
            lo.value() == min_work(blocks@.take(i as int)),
            hi.value() == max_work(blocks@.take(i as int)),
        decreases blocks@.len() - i,
    {
        proof {
            assert(blocks@.take(i + 1).drop_last() =~= blocks@.take(i as int));
        }
        let w = blocks[i].sortable_block.blue_work;
        if w.less_than(&lo) {
            lo = w;
        }
        if hi.less_than(&w) {
            hi = w;
        }
        i = i + 1;
    }
    assert(blocks@.take(blocks@.len() as int) =~= blocks@);
    (lo, hi)
}

/// Difficulty adjustment and DAA scoring over a header store, under fixed
/// network parameters.
pub struct DifficultyManager<T: HeaderStoreReader> {
    pub headers_store: T,
    pub genesis_bits: u32,
    pub difficulty_adjustment_window_size: usize,
    /// Milliseconds.
    pub target_time_per_block: u64,
}

impl<T: HeaderStoreReader> DifficultyManager<T> {
    pub fn new(
        headers_store: T,
        genesis_bits: u32,
        difficulty_adjustment_window_size: usize,
        target_time_per_block: u64,
    ) -> (r: Self)
        ensures
            r.headers_store == headers_store,
            r.genesis_bits == genesis_bits,
            r.difficulty_adjustment_window_size == difficulty_adjustment_window_size,
            r.target_time_per_block == target_time_per_block,
    {
        DifficultyManager {
            headers_store,
            genesis_bits,
            difficulty_adjustment_window_size,
            target_time_per_block,
        }
    }

    /// Whether the header store holds every block of the window.
    pub open spec fn window_known(&self, window: Seq<SortableBlock>) -> bool {
        forall|i: int| 0 <= i < window.len() ==> self.headers_store.has_header(#[trigger] window[i].hash)
    }

    /// The DAA score of a block and the blocks of its mergeset that do not
    /// count towards it (see `non_daa_mergeset`).
    pub fn calc_daa_score_and_non_daa_mergeset_blocks<G: GhostdagStoreReader>(
        &self,
        window: &BlockWindowHeap,
        ghostdag_data: &GhostdagData,
        store: &G,
    ) -> (r: (u64, Vec<BlockHash>))
        requires
            self.headers_store.has_header(ghostdag_data.selected_parent),
            forall|i: int|
                0 <= i < ghostdag_data.mergeset_without_selected_parent@.len()
                    ==> store.has_ghostdag(
                    #[trigger] ghostdag_data.mergeset_without_selected_parent@[i],
                ),
            self.headers_store.daa_score_of(ghostdag_data.selected_parent)
                + ghostdag_data.mergeset_size() <= u64::MAX,
        ensures
            r.1@ == non_daa_mergeset(store, window@, *ghostdag_data),
            r.0 == self.headers_store.daa_score_of(ghostdag_data.selected_parent)
                + ghostdag_data.mergeset_size() - r.1@.len(),
    {
        let lowest = match window.peek_lowest() {
            Some(b) => b,
            None => SortableBlock {
                hash: BlockHash::from_words(0, 0, 0, 0),
                blue_work: BlueWork::max_value(),
            },
        };
        proof {
            if window@.len() > 0 {
                lemma_window_lowest(window@, lowest);
            } else {
                crate::sortable::lemma_max_value();
            }
        }
        let ms = &ghostdag_data.mergeset_without_selected_parent;
        let mut below: Vec<BlockHash> = Vec::new();
        let mut i: usize = 0;
        while i < ms.len()
            invariant
                i <= ms@.len(),
                ms == &ghostdag_data.mergeset_without_selected_parent,
                lowest == window_lowest(window@),
                forall|k: int| 0 <= k < ms@.len() ==> store.has_ghostdag(#[trigger] ms@[k]),
                below@ == members_below(store, ms@.take(i as int), lowest),
            decreases ms@.len() - i,
        {
            let h = ms[i];
            let work = store.get_blue_work(h).unwrap();
            let candidate = SortableBlock { hash: h, blue_work: work };
            proof {
                assert(ms@.take(i + 1).drop_last() =~= ms@.take(i as int));
            }
            if candidate.less_than(&lowest) {
                below.push(h);
            }
            i = i + 1;
        }
        proof {
            assert(ms@.take(ms@.len() as int) =~= ms@);
            lemma_members_below_len(store, ms@, lowest);
        }
        let sp = ghostdag_data.selected_parent;
        if below.len() == ms.len() {
            let sp_work = match store.get_blue_work(sp) {
                Some(w) => w,
                None => BlueWork { lo: 0, mid: 0, hi: 0 },
            };
            if (SortableBlock { hash: sp, blue_work: sp_work }).less_than(&lowest) {
                below.push(sp);
            }
        }
        let sp_daa_score = self.headers_store.get_daa_score(sp);
        let counted: u64 = (ms.len() as u64 + 1) - below.len() as u64;
        (sp_daa_score + counted, below)
    }

    /// The window blocks with their header data, in the window's order.
    pub fn get_difficulty_blocks(&self, window: &BlockWindowHeap) -> (r: Vec<DifficultyBlock>)
        requires
            self.window_known(window@),
        ensures
            r@ == difficulty_blocks_of(&self.headers_store, window@),
    {
        let mut blocks: Vec<DifficultyBlock> = Vec::new();
        let n = window.len();
        let mut i: usize = 0;
        while i < n
            invariant
                i <= n == window@.len(),
                self.window_known(window@),
                blocks@ =~= difficulty_blocks_of(&self.headers_store, window@).take(i as int),
            decreases n - i,
        {
            let item = window.get(i);
            let data = self.headers_store.get_compact_header_data(item.hash);
            blocks.push(DifficultyBlock { timestamp: data.timestamp, bits: data.bits, sortable_block: item });
            i = i + 1;
        }
        blocks
    }


    /// The compact bits a block must meet. Before the window is full the
    /// genesis bits; after, the compact encoding of `next_target`.
    pub fn calculate_difficulty_bits(&self, window: &BlockWindowHeap) -> (r: u32)
        requires
            self.window_known(window@),
            window@.len() >= self.difficulty_adjustment_window_size ==> {
                &&& window@.len() >= 2
                &&& self.target_time_per_block > 0
                &&& next_target(
                    difficulty_blocks_of(&self.headers_store, window@),
                    self.target_time_per_block,
                ) < word_pow(4)
            },
        ensures
            window@.len() < self.difficulty_adjustment_window_size ==> r == self.genesis_bits,
            window@.len() >= self.difficulty_adjustment_window_size ==> r == compact_bits_of(
                next_target(
                    difficulty_blocks_of(&self.headers_store, window@),
                    self.target_time_per_block,
                ),
            ),
    {
        let mut blocks = self.get_difficulty_blocks(window);
        // Until the window is full the difficulty stays that of genesis.
        if blocks.len() < self.difficulty_adjustment_window_size {
            return self.genesis_bits;
        }
        let ghost s = blocks@;
        let min_index = first_min_position(&blocks);
        let (_, max_ts) = timestamp_bounds(&blocks);
        let min_ts = blocks[min_index].timestamp;
        proof {
            lemma_timestamp_bounds(s, min_index as int);
        }
        // The earliest block anchors the time span only; the average target
        // is taken over the others.
        blocks.remove(min_index);
        let n = blocks.len();
        let mut sum = WideUint::zero(5);
        let mut k: usize = 0;
        proof {
            assert(word_pow(5) == word_base() * word_pow(4));
            assert(word_pow(4) == word_base() * word_pow(3));
            assert(blocks@.take(0) =~= Seq::<DifficultyBlock>::empty());
        }
        while k < n
            invariant
                k <= n == blocks@.len(),
                sum.width() == 5,
                sum.value() == targets_sum(blocks@.take(k as int)),
                word_pow(5) == word_base() * word_pow(4),
            decreases n - k,
        {
            let t = target_from_compact_bits(blocks[k].bits).widen(5);
            proof {
                assert(blocks@.take(k + 1).drop_last() =~= blocks@.take(k as int));
                lemma_targets_sum_bound(blocks@.take(k + 1));
                crate::wide::lemma_word_pow_positive(4);
                let w4 = word_pow(4);
                assert((k + 1) * (w4 - 1) < word_base() * w4) by (nonlinear_arith)
                    requires
                        k + 1 <= 0xffff_ffff_ffff_ffff,
                        w4 >= 1,
                ;
                lemma_compact_target_bound(blocks@[k as int].bits);
            }
            let (next, c) = sum.add_with_carry(&t);
            proof {
                if c > 0 {
                    assert(c * word_pow(5) >= word_pow(5)) by (nonlinear_arith)
                        requires
                            c >= 1,
                    ;
                }
                assert(c == 0);
                assert(c * word_pow(5) == 0) by (nonlinear_arith)
                    requires
                        c == 0,
                ;
            }
            sum = next;
            k = k + 1;
        }
        proof {
            assert(blocks@.take(n as int) =~= blocks@);
            lemma_targets_sum_bound(blocks@);
            let w4 = word_pow(4);
            let sv = sum.value();
            vstd::arithmetic::div_mod::lemma_div_is_ordered(sv as int, n * (w4 - 1), n as int);
            vstd::arithmetic::div_mod::lemma_div_multiples_vanish((w4 - 1) as int, n as int);
        }
        let (average, _) = sum.div_rem_u64(n as u64);
        let elapsed: u64 = if max_ts - min_ts >= 1 {
            max_ts - min_ts
        } else {
            1
        };
        proof {
            crate::wide::lemma_word_pow_positive(4);
            let w4 = word_pow(4);
            let av = average.value();
            assert(av * elapsed < word_base() * w4) by (nonlinear_arith)
                requires
                    av <= w4 - 1,
                    elapsed < word_base(),
                    w4 >= 1,
            ;
        }
        let (scaled, c) = average.mul_u64(elapsed);
        proof {
            if c > 0 {
                assert(c * word_pow(5) >= word_pow(5)) by (nonlinear_arith)
                    requires
                        c >= 1,
                ;
            }
            assert(c == 0);
            assert(c * word_pow(5) == 0) by (nonlinear_arith)
                requires
                    c == 0,
            ;
        }
        let (per_time, _) = scaled.div_rem_u64(self.target_time_per_block);
        let (new_target, _) = per_time.div_rem_u64(n as u64);
        compact_target_bits(&new_target)
    }

    /// An estimate of the network's hashes per second over the window: the
    /// spread of blue work over the span of timestamps in whole seconds,
    /// reduced to 64 bits.
    pub fn estimate_network_hashes_per_second(&self, window: &BlockWindowHeap) -> (r: Result<
        u64,
        DifficultyError,
    >)
        requires
            window@.len() >= MIN_WINDOW_SIZE ==> self.window_known(window@),
        ensures
            window@.len() < MIN_WINDOW_SIZE ==> r == Err::<u64, DifficultyError>(
                DifficultyError::UnderMinWindowSizeAllowed(window@.len() as usize, MIN_WINDOW_SIZE),
            ),
            window@.len() >= MIN_WINDOW_SIZE ==> {
                let s = difficulty_blocks_of(&self.headers_store, window@);
                let lo = min_timestamp(s);
                let hi = max_timestamp(s);
                let seconds = (hi - lo) / 1000;
                if lo == hi {
                    r == Err::<u64, DifficultyError>(DifficultyError::EmptyTimestampRange)
                } else if seconds == 0 {
                    r == Ok::<u64, DifficultyError>(0)
                } else {
                    r == Ok::<u64, DifficultyError>(
                        (((max_work(s) - min_work(s)) / seconds) % (word_base() as int)) as u64,
                    )
                }
            },
    {
        let window_size = window.len();
        if window_size < MIN_WINDOW_SIZE {
            return Err(DifficultyError::UnderMinWindowSizeAllowed(window_size, MIN_WINDOW_SIZE));
        }
        // No block has been mined yet.
        if window.is_empty() {
            return Ok(0);
        }
        let blocks = self.get_difficulty_blocks(window);
        let (min_ts, max_ts) = timestamp_bounds(&blocks);
        proof {
            lemma_timestamp_bounds(blocks@, 0);
            lemma_work_bounds(blocks@, 0);
        }
        if min_ts == max_ts {
            return Err(DifficultyError::EmptyTimestampRange);
        }
        // From milliseconds to seconds.
        let window_duration = (max_ts - min_ts) / 1000;
        if window_duration == 0 {
            return Ok(0);
        }
        let (min_work, max_work) = work_bounds(&blocks);
        let spread = max_work.to_wide().sub(&min_work.to_wide());
        let (rate, _) = spread.div_rem_u64(window_duration);
        Ok(rate.low_u64())
    }
}

} // verus!
