use crate::hash::{contains_hash, BlockHash};
use crate::stores::{
    chains_wf, ghostdag_chain_wf, lemma_chains_wf, relations_closed, GhostdagStoreReader, ReachabilityService,
    RelationsStoreReader,
};
use vstd::prelude::*;

verus! {

/// The edit that moves the selected chain from one tip to another.
pub struct ChainPath {
    /// Blocks that join the chain, from the common ancestor up to the new tip.
    pub added: Vec<BlockHash>,
    /// Blocks that leave the chain, from the old tip down.
    pub removed: Vec<BlockHash>,
}

/// Why a traversal was stopped.
#[derive(Clone, Copy, Debug, PartialEq, Eq, Structural)]
pub enum TraversalError {
    /// The traversal would visit more blocks (first) than allowed (second).
    ReachedMaxTraversalAllowed(u64, u64),
}

/// `i` is the first position of `a` whose block lies on `b`, or `a.len()`.
pub open spec fn is_first_in(a: Seq<BlockHash>, b: Seq<BlockHash>, i: int) -> bool {
    &&& 0 <= i <= a.len()
    &&& forall|k: int| 0 <= k < i ==> !b.contains(#[trigger] a[k])
    &&& i < a.len() ==> b.contains(a[i])
}

/// `j` is the first position of `c` in `b`, or `b.len()`.
pub open spec fn is_first_of(b: Seq<BlockHash>, c: BlockHash, j: int) -> bool {
    &&& 0 <= j <= b.len()
    &&& forall|k: int| 0 <= k < j ==> #[trigger] b[k] != c
    &&& j < b.len() ==> b[j] == c
}

/// The chain path from the tip `from`, whose chain is `from_chain`, to a tip
/// whose chain is `to_chain`: the blocks of `from_chain` above the first one on
/// `to_chain` leave, and the blocks of `to_chain` above that common block join,
/// lowest first.
pub open spec fn is_chain_path(
    from_chain: Seq<BlockHash>,
    to_chain: Seq<BlockHash>,
    from: BlockHash,
    added: Seq<BlockHash>,
    removed: Seq<BlockHash>,
) -> bool {
    exists|i: int, j: int|
        {
            &&& is_first_in(from_chain, to_chain, i)
            &&& removed == from_chain.take(i)
            &&& is_first_of(
                to_chain,
                if i < from_chain.len() {
                    from_chain[i]
                } else {
                    from
                },
                j,
            )
            &&& added == to_chain.take(j).reverse()
        }
}

/// `w` walks down parent links from one of `tips`, every block of it but the
/// last outside the past of `block`.
pub open spec fn is_parent_walk<S: ReachabilityService, V: RelationsStoreReader>(
    service: &S,
    relations: &V,
    block: BlockHash,
    tips: Seq<BlockHash>,
    w: Seq<BlockHash>,
) -> bool {
    &&& w.len() >= 1
    &&& tips.contains(w[0])
    &&& forall|k: int|
        0 <= k < w.len() - 1 ==> relations.parents_of(w[k]).contains(#[trigger] w[k + 1])
    &&& forall|k: int| 0 <= k < w.len() - 1 ==> !service.is_ancestor(#[trigger] w[k], block)
}

/// Some parent walk from `tips` ends at `x`.
pub open spec fn walked_to<S: ReachabilityService, V: RelationsStoreReader>(
    service: &S,
    relations: &V,
    block: BlockHash,
    tips: Seq<BlockHash>,
    x: BlockHash,
) -> bool {
    exists|w: Seq<BlockHash>| #[trigger]
        is_parent_walk(service, relations, block, tips, w) && w.last() == x
}

/// The blocks outside the past of `block` that a parent walk from `tips`
/// reaches: those that a walk from `tips` counts.
pub open spec fn walked_outside_past<S: ReachabilityService, V: RelationsStoreReader>(
    service: &S,
    relations: &V,
    block: BlockHash,
    tips: Seq<BlockHash>,
) -> Set<BlockHash> {
    Set::new(
        |x: BlockHash|
            walked_to(service, relations, block, tips, x) && !service.is_ancestor(x, block),
    )
}

/// What `anticone` returns: on success, exactly the blocks outside both the
/// past and the future of `block` that a parent walk from `tips` reaches, each
/// once. It fails exactly when a bound is given and more blocks outside the
/// past of `block` are reached than it allows; the failure carries a count one
/// over the bound. An empty result comes when every tip is in the past of
/// `block`.
pub open spec fn is_anticone_outcome<S: ReachabilityService, V: RelationsStoreReader>(
    service: &S,
    relations: &V,
    block: BlockHash,
    tips: Seq<BlockHash>,
    max_traversal_allowed: Option<u64>,
    r: Result<Vec<BlockHash>, TraversalError>,
) -> bool {
    &&& r matches Ok(v) ==> {
        &&& v@.no_duplicates()
        &&& forall|k: int|
            0 <= k < v@.len() ==> {
                &&& relations.known_blocks().contains(#[trigger] v@[k])
                &&& !service.is_ancestor(v@[k], block)
                &&& !service.is_ancestor(block, v@[k])
                &&& walked_to(service, relations, block, tips, v@[k])
            }
        &&& forall|x: BlockHash|
            #[trigger] walked_to(service, relations, block, tips, x) && !service.is_ancestor(
                x,
                block,
            ) && !service.is_ancestor(block, x) ==> v@.contains(x)
    }
    &&& r is Err <==> (max_traversal_allowed matches Some(m) && walked_outside_past(
        service,
        relations,
        block,
        tips,
    ).len() > m)
    &&& max_traversal_allowed is None ==> r is Ok
    &&& (forall|i: int| 0 <= i < tips.len() ==> service.is_ancestor(#[trigger] tips[i], block))
        ==> (r matches Ok(v) && v@.len() == 0)
    &&& r matches Err(TraversalError::ReachedMaxTraversalAllowed(count, max)) ==> {
        &&& max_traversal_allowed == Some(max)
        &&& count == max + 1
    }
    &&& max_traversal_allowed == Some(0u64) && (exists|i: int|
        0 <= i < tips.len() && !service.is_ancestor(#[trigger] tips[i], block))
        ==> r == Err::<Vec<BlockHash>, TraversalError>(
        TraversalError::ReachedMaxTraversalAllowed(1, 0),
    )
}

/// The block reached from `hash` after `k` steps down selected parents,
/// standing still at `genesis`.
pub open spec fn sp_walk<G: GhostdagStoreReader>(
    store: &G,
    genesis: BlockHash,
    hash: BlockHash,
    k: nat,
) -> BlockHash
    decreases k,
{
    if k == 0 {
        hash
    } else {
        let p = sp_walk(store, genesis, hash, (k - 1) as nat);
        if p == genesis {
            p
        } else {
            store.ghostdag_of(p).selected_parent
        }
    }
}

/// `r` is the lowest block on the selected chain of `high` whose blue score is
/// at least `blue_score`.
pub open spec fn is_lowest_chain_block<G: GhostdagStoreReader>(
    store: &G,
    genesis: BlockHash,
    high: BlockHash,
    blue_score: u64,
    r: BlockHash,
) -> bool {
    &&& store.has_ghostdag(r)
    &&& store.ghostdag_of(r).blue_score >= blue_score
    &&& (r == genesis || store.ghostdag_of(store.ghostdag_of(r).selected_parent).blue_score
        < blue_score)
    &&& exists|k: nat| sp_walk(store, genesis, high, k) == r
}

proof fn lemma_distinct_subset_len(v: Seq<BlockHash>, known: Set<BlockHash>)
    requires
        v.no_duplicates(),
        known.finite(),
        forall|k: int| 0 <= k < v.len() ==> known.contains(#[trigger] v[k]),
    ensures
        v.len() <= known.len(),
{
    v.unique_seq_to_set();
    assert(v.to_set().subset_of(known));
    vstd::set_lib::lemma_len_subset(v.to_set(), known);
}

/// The chain path from a block to itself is empty.
pub proof fn lemma_chain_path_to_self<S: ReachabilityService>(
    service: &S,
    root: BlockHash,
    x: BlockHash,
    added: Seq<BlockHash>,
    removed: Seq<BlockHash>,
)
    requires
        chains_wf(service, root),
        is_chain_path(service.chain(x), service.chain(x), x, added, removed),
    ensures
        added.len() == 0,
        removed.len() == 0,
{
    let c = service.chain(x);
    lemma_chains_wf(service, root, x, 0);
    let (i, j) = choose|i: int, j: int|
        {
            &&& is_first_in(c, c, i)
            &&& removed == c.take(i)
            &&& is_first_of(
                c,
                if i < c.len() {
                    c[i]
                } else {
                    x
                },
                j,
            )
            &&& added == c.take(j).reverse()
        };
    assert(c.contains(c[0]));
    assert(i == 0);
    assert(j == 0);
}

/// Going from `a` to `b` and from `b` to `a` are inverse edits: what one adds
/// the other removes, in reverse order.
pub proof fn lemma_chain_path_symmetric<S: ReachabilityService>(
    service: &S,
    root: BlockHash,
    a: BlockHash,
    b: BlockHash,
    ab_added: Seq<BlockHash>,
    ab_removed: Seq<BlockHash>,
    ba_added: Seq<BlockHash>,
    ba_removed: Seq<BlockHash>,
)
    requires
        chains_wf(service, root),
        is_chain_path(service.chain(a), service.chain(b), a, ab_added, ab_removed),
        is_chain_path(service.chain(b), service.chain(a), b, ba_added, ba_removed),
    ensures
        ba_added == ab_removed.reverse(),
        ba_removed == ab_added.reverse(),
{
    let ca = service.chain(a);
    let cb = service.chain(b);
    let (i, j) = choose|i: int, j: int|
        {
            &&& is_first_in(ca, cb, i)
            &&& ab_removed == ca.take(i)
            &&& is_first_of(
                cb,
                if i < ca.len() {
                    ca[i]
                } else {
                    a
                },
                j,
            )
            &&& ab_added == cb.take(j).reverse()
        };
    let (i2, j2) = choose|i2: int, j2: int|
        {
            &&& is_first_in(cb, ca, i2)
            &&& ba_removed == cb.take(i2)
            &&& is_first_of(
                ca,
                if i2 < cb.len() {
                    cb[i2]
                } else {
                    b
                },
                j2,
            )
            &&& ba_added == ca.take(j2).reverse()
        };
    lemma_chains_wf(service, root, a, i);
    lemma_chains_wf(service, root, b, 0);
    // Both chains end at the root, so a common block exists.
    assert(cb[cb.len() - 1] == ca[ca.len() - 1]);
    assert(cb.contains(ca.last()));
    if i == ca.len() {
        assert(!cb.contains(ca[ca.len() - 1]));
    }
    let c = ca[i];
    lemma_chains_wf(service, root, a, i);
    assert(service.chain(c) == ca.skip(i));
    assert(j < cb.len()) by {
        if j == cb.len() {
            let jj = choose|jj: int| 0 <= jj < cb.len() && cb[jj] == c;
            assert(cb[jj] != c);
        }
    }
    assert(cb[j] == c);
    lemma_chains_wf(service, root, b, j);
    assert(service.chain(c) == cb.skip(j));
    // The first block of `cb` on `ca` is `c` again.
    assert(ca.contains(cb[j]));
    assert(i2 == j) by {
        if i2 < j {
            let x = cb[i2];
            let m = choose|m: int| 0 <= m < ca.len() && ca[m] == x;
            lemma_chains_wf(service, root, b, i2);
            lemma_chains_wf(service, root, a, m);
            assert(service.chain(x) == cb.skip(i2));
            assert(service.chain(x) == ca.skip(m));
            if m < i {
                assert(cb.contains(ca[m]));
            }
            assert(cb.skip(i2).len() == ca.skip(m).len());
        }
    }
    assert(j2 == i) by {
        if j2 < i {
            assert(ca[j2] == c);
            assert(cb.contains(ca[j2]));
        }
    }
    assert(ba_added =~= ab_removed.reverse());
    assert(ba_removed =~= ab_added.reverse()) by {
        assert(ab_added.reverse() =~= cb.take(j));
    }
}

/// The anticone of a block against itself alone, with no bound, is empty.
pub proof fn lemma_anticone_of_own_tip<S: ReachabilityService, V: RelationsStoreReader>(
    service: &S,
    relations: &V,
    block: BlockHash,
    r: Result<Vec<BlockHash>, TraversalError>,
)
    requires
        is_anticone_outcome(service, relations, block, seq![block], None, r),
    ensures
        r matches Ok(v) && v@.len() == 0,
{
    service.lemma_ancestor_reflexive(block);
    let tips = seq![block];
    assert forall|i: int| 0 <= i < tips.len() implies service.is_ancestor(
        #[trigger] tips[i],
        block,
    ) by {
        assert(tips[i] == block);
    }
}

/// With a bound of zero, the walk fails on the first block it counts: any
/// tip outside the past of `block` makes the result that failure.
pub proof fn lemma_anticone_zero_budget<S: ReachabilityService, V: RelationsStoreReader>(
    service: &S,
    relations: &V,
    block: BlockHash,
    tips: Seq<BlockHash>,
    i: int,
    r: Result<Vec<BlockHash>, TraversalError>,
)
    requires
        0 <= i < tips.len(),
        !service.is_ancestor(tips[i], block),
        is_anticone_outcome(service, relations, block, tips, Some(0), r),
    ensures
        r == Err::<Vec<BlockHash>, TraversalError>(TraversalError::ReachedMaxTraversalAllowed(1, 0)),
{
}

proof fn lemma_sp_walk_below<G: GhostdagStoreReader>(
    store: &G,
    genesis: BlockHash,
    high: BlockHash,
    k: nat,
)
    requires
        ghostdag_chain_wf(store, genesis),
        store.has_ghostdag(high),
    ensures
        store.has_ghostdag(sp_walk(store, genesis, high, k)),
        high == genesis ==> sp_walk(store, genesis, high, k) == genesis,
        high != genesis && k > 0 ==> store.ghostdag_of(sp_walk(store, genesis, high, k)).blue_score
            < store.ghostdag_of(high).blue_score,
    decreases k,
{
    if k > 0 {
        lemma_sp_walk_below(store, genesis, high, (k - 1) as nat);
    }
}

/// Asked for the blue score of `high` itself, the walk stays at `high`.
pub proof fn lemma_lowest_chain_block_at_own_score<G: GhostdagStoreReader>(
    store: &G,
    genesis: BlockHash,
    high: BlockHash,
    r: BlockHash,
)
    requires
        ghostdag_chain_wf(store, genesis),
        store.has_ghostdag(high),
        is_lowest_chain_block(store, genesis, high, store.ghostdag_of(high).blue_score, r),
    ensures
        r == high,
{
    let k = choose|k: nat| sp_walk(store, genesis, high, k) == r;
    lemma_sp_walk_below(store, genesis, high, k);
}

proof fn lemma_push_keeps(s: Seq<BlockHash>, e: BlockHash)
    ensures
        forall|y: BlockHash| s.contains(y) ==> #[trigger] s.push(e).contains(y),
        s.push(e).contains(e),
{
    assert(s.push(e)[s.len() as int] == e);
    assert forall|y: BlockHash| s.contains(y) implies #[trigger] s.push(e).contains(y) by {
        let k = choose|k: int| 0 <= k < s.len() && s[k] == y;
        assert(s.push(e)[k] == y);
    }
}

/// The blocks reached outside the past of `block` are finitely many, all
/// known.
proof fn lemma_reached_finite<S: ReachabilityService, V: RelationsStoreReader>(
    service: &S,
    relations: &V,
    block: BlockHash,
    tips: Seq<BlockHash>,
)
    requires
        relations_closed(relations),
        forall|i: int| 0 <= i < tips.len() ==> relations.known_blocks().contains(#[trigger] tips[i]),
    ensures
        walked_outside_past(service, relations, block, tips).finite(),
{
    let reached = walked_outside_past(service, relations, block, tips);
    assert forall|x: BlockHash| reached.contains(x) implies relations.known_blocks().contains(x) by {
        let w = choose|w: Seq<BlockHash>|
            #[trigger] is_parent_walk(service, relations, block, tips, w) && w.last() == x;
        lemma_walk_known(service, relations, block, tips, w);
    }
    vstd::set_lib::lemma_len_subset(reached, relations.known_blocks());
}

/// A parent walk from known tips stays among known blocks.
proof fn lemma_walk_known<S: ReachabilityService, V: RelationsStoreReader>(
    service: &S,
    relations: &V,
    block: BlockHash,
    tips: Seq<BlockHash>,
    w: Seq<BlockHash>,
)
    requires
        is_parent_walk(service, relations, block, tips, w),
        relations_closed(relations),
        forall|i: int| 0 <= i < tips.len() ==> relations.known_blocks().contains(#[trigger] tips[i]),
    ensures
        relations.known_blocks().contains(w.last()),
    decreases w.len(),
{
    if w.len() == 1 {
        let i = choose|i: int| 0 <= i < tips.len() && tips[i] == w[0];
    } else {
        let u = w.drop_last();
        assert(is_parent_walk(service, relations, block, tips, u)) by {
            assert forall|k: int| 0 <= k < u.len() - 1 implies relations.parents_of(u[k]).contains(
                #[trigger] u[k + 1],
            ) by {
                assert(u[k + 1] == w[k + 1]);
            }
            assert forall|k: int| 0 <= k < u.len() - 1 implies !service.is_ancestor(
                #[trigger] u[k],
                block,
            ) by {
                assert(u[k] == w[k]);
            }
        }
        lemma_walk_known(service, relations, block, tips, u);
        let n = w.len() - 1;
        assert(u.last() == w[n - 1]);
        assert(relations.parents_of(w[n - 1]).contains(w[n - 1 + 1]));
        let prev = w[n - 1];
        let j = choose|j: int|
            0 <= j < relations.parents_of(prev).len() && relations.parents_of(prev)[j] == w[n];
        assert(relations.known_blocks().contains(relations.parents_of(prev)[j]));
    }
}

/// Every block of a parent walk is visited once the walk is closed: the tips
/// were queued, each queued block visited, and each visited block outside the
/// past of `block` had its parents queued.
proof fn lemma_walk_visited<S: ReachabilityService, V: RelationsStoreReader>(
    service: &S,
    relations: &V,
    block: BlockHash,
    tips: Seq<BlockHash>,
    queue: Seq<BlockHash>,
    visited: Seq<BlockHash>,
    w: Seq<BlockHash>,
)
    requires
        is_parent_walk(service, relations, block, tips, w),
        forall|y: BlockHash| tips.contains(y) ==> #[trigger] queue.contains(y),
        forall|y: BlockHash| queue.contains(y) ==> #[trigger] visited.contains(y),
        forall|i: int, j: int|
            0 <= i < visited.len() && !service.is_ancestor(visited[i], block) && 0 <= j
                < relations.parents_of(visited[i]).len() ==> queue.contains(
                #[trigger] relations.parents_of(visited[i])[j],
            ),
    ensures
        visited.contains(w.last()),
    decreases w.len(),
{
    if w.len() == 1 {
        assert(queue.contains(w[0]));
    } else {
        let u = w.drop_last();
        assert(is_parent_walk(service, relations, block, tips, u)) by {
            assert forall|k: int| 0 <= k < u.len() - 1 implies relations.parents_of(u[k]).contains(
                #[trigger] u[k + 1],
            ) by {
                assert(u[k + 1] == w[k + 1]);
            }
            assert forall|k: int| 0 <= k < u.len() - 1 implies !service.is_ancestor(
                #[trigger] u[k],
                block,
            ) by {
                assert(u[k] == w[k]);
            }
        }
        lemma_walk_visited(service, relations, block, tips, queue, visited, u);
        let n = w.len() - 1;
        let prev = w[n - 1];
        assert(u.last() == prev);
        let i = choose|i: int| 0 <= i < visited.len() && visited[i] == prev;
        assert(relations.parents_of(w[n - 1]).contains(w[n - 1 + 1]));
        let j = choose|j: int|
            0 <= j < relations.parents_of(prev).len() && relations.parents_of(prev)[j] == w[n];
        assert(!service.is_ancestor(w[n - 1], block));
        assert(queue.contains(relations.parents_of(visited[i])[j]));
    }
}

/// Queries over the DAG: chain paths, anticones and chain blocks by blue
/// score, answered from the GHOSTDAG store, the parents and the reachability
/// oracle.
pub struct DagTraversalManager<G: GhostdagStoreReader, R: ReachabilityService, V: RelationsStoreReader> {
    pub genesis_hash: BlockHash,
    pub ghostdag_store: G,
    pub relations_store: V,
    pub reachability_service: R,
}

impl<G: GhostdagStoreReader, R: ReachabilityService, V: RelationsStoreReader> DagTraversalManager<
    G,
    R,
    V,
> {
    pub fn new(
        genesis_hash: BlockHash,
        ghostdag_store: G,
        relations_store: V,
        reachability_service: R,
    ) -> (r: Self)
        ensures
            r.genesis_hash == genesis_hash,
            r.ghostdag_store == ghostdag_store,
            r.relations_store == relations_store,
            r.reachability_service == reachability_service,
    {
        DagTraversalManager { genesis_hash, ghostdag_store, relations_store, reachability_service }
    }

    /// The chain path from `from` to `to` (see `is_chain_path`).
    pub fn calculate_chain_path(&self, from: BlockHash, to: BlockHash) -> (r: ChainPath)
        ensures
            is_chain_path(
                self.reachability_service.chain(from),
                self.reachability_service.chain(to),
                from,
                r.added@,
                r.removed@,
            ),
    {
        let from_chain = self.reachability_service.default_backward_chain(from);
        let ghost tc = self.reachability_service.chain(to);
        let mut removed: Vec<BlockHash> = Vec::new();
        let mut common_ancestor = from;
        let mut found = false;
        let mut i: usize = 0;
        while i < from_chain.len() && !found
            invariant
                i <= from_chain@.len(),
                removed@ == from_chain@.take(i as int),
                forall|k: int| 0 <= k < i ==> !tc.contains(#[trigger] from_chain@[k]),
                !found ==> common_ancestor == from,
                found ==> i < from_chain@.len() && tc.contains(from_chain@[i as int])
                    && common_ancestor == from_chain@[i as int],
                tc == self.reachability_service.chain(to),
            decreases from_chain@.len() - i + (if found {
                0int
            } else {
                1int
            }),
        {
            let current = from_chain[i];
            if !self.reachability_service.is_chain_ancestor_of(current, to) {
                removed.push(current);
                i = i + 1;
                assert(removed@ =~= from_chain@.take(i as int));
            } else {
                common_ancestor = current;
                found = true;
            }
        }
        let to_chain = self.reachability_service.default_backward_chain(to);
        let mut j: usize = 0;
        let mut reached = false;
        while j < to_chain.len() && !reached
            invariant
                j <= to_chain@.len(),
                forall|k: int| 0 <= k < j ==> #[trigger] to_chain@[k] != common_ancestor,
                reached ==> j < to_chain@.len() && to_chain@[j as int] == common_ancestor,
            decreases to_chain@.len() - j + (if reached {
                0int
            } else {
                1int
            }),
        {
            if to_chain[j] == common_ancestor {
                reached = true;
            } else {
                j = j + 1;
            }
        }
        // Walking down the chain is cheaper than walking up; the blocks are
        // then put lowest first.
        let mut added: Vec<BlockHash> = Vec::new();
        let mut k: usize = j;
        while k > 0
            invariant
                k <= j <= to_chain@.len(),
                added@ =~= to_chain@.take(j as int).reverse().take(j - k),
            decreases k,
        {
            k = k - 1;
            added.push(to_chain[k]);
            assert(added@ =~= to_chain@.take(j as int).reverse().take(j - k));
        }
        proof {
            assert(added@ =~= to_chain@.take(j as int).reverse());
            assert(is_first_in(from_chain@, tc, i as int));
            assert(removed@ == from_chain@.take(i as int));
            let c = if (i as int) < from_chain@.len() {
                from_chain@[i as int]
            } else {
                from
            };
            assert(c == common_ancestor);
            assert(is_first_of(to_chain@, c, j as int));
        }
        ChainPath { added, removed }
    }

    /// The blocks of the past of `tips` that are neither in the past nor in
    /// the future of `block`, found by a breadth-first walk down parents that
    /// does not descend below the past of `block`. Each block walked outside
    /// that past counts towards `max_traversal_allowed`; going over it stops
    /// the walk with an error.
    pub fn anticone(
        &self,
        block: BlockHash,
        tips: Vec<BlockHash>,
        max_traversal_allowed: Option<u64>,
    ) -> (r: Result<Vec<BlockHash>, TraversalError>)
        requires
            relations_closed(&self.relations_store),
            forall|i: int|
                0 <= i < tips@.len() ==> self.relations_store.known_blocks().contains(
                    #[trigger] tips@[i],
                ),
        ensures
            is_anticone_outcome(
                &self.reachability_service,
                &self.relations_store,
                block,
                tips@,
                max_traversal_allowed,
                r,
            ),
    {
        let ghost known = self.relations_store.known_blocks();
        let ghost svc = &self.reachability_service;
        let mut anticone: Vec<BlockHash> = Vec::new();
        let mut queue = tips.clone();
        assert(queue@ =~= tips@);
        let mut head: usize = 0;
        let mut visited: Vec<BlockHash> = Vec::new();
        let mut traversal_count: u64 = 0;
        let ghost mut counted: Seq<BlockHash> = Seq::empty();
        let ghost reached = walked_outside_past(svc, &self.relations_store, block, tips@);
        proof {
            assert forall|i: int| 0 <= i < queue@.len() implies walked_to(
                svc,
                &self.relations_store,
                block,
                tips@,
                #[trigger] queue@[i],
            ) by {
                let w = seq![queue@[i]];
                assert(w[0] == tips@[i]);
                assert(tips@.contains(w[0]));
                assert(is_parent_walk(svc, &self.relations_store, block, tips@, w));
            }
        }
        while head < queue.len()
            invariant
                relations_closed(&self.relations_store),
                known == self.relations_store.known_blocks(),
                svc == &self.reachability_service,
                head <= queue@.len(),
                tips@.len() <= queue@.len(),
                forall|i: int| 0 <= i < tips@.len() ==> queue@[i] == #[trigger] tips@[i],
                forall|i: int| 0 <= i < queue@.len() ==> known.contains(#[trigger] queue@[i]),
                forall|i: int| 0 <= i < head ==> visited@.contains(#[trigger] queue@[i]),
                visited@.no_duplicates(),
                forall|i: int| 0 <= i < visited@.len() ==> known.contains(#[trigger] visited@[i]),
                visited@.len() <= known.len(),
                traversal_count <= visited@.len(),
                forall|k: int|
                    0 <= k < anticone@.len() ==> {
                        &&& visited@.contains(#[trigger] anticone@[k])
                        &&& known.contains(anticone@[k])
                        &&& !svc.is_ancestor(anticone@[k], block)
                        &&& !svc.is_ancestor(block, anticone@[k])
                    },
                anticone@.no_duplicates(),
                forall|i: int|
                    0 <= i < visited@.len() && !svc.is_ancestor(#[trigger] visited@[i], block)
                        && !svc.is_ancestor(block, visited@[i]) ==> anticone@.contains(visited@[i]),
                traversal_count == 0 ==> queue@ == tips@ && forall|i: int|
                    0 <= i < head ==> svc.is_ancestor(#[trigger] queue@[i], block),
                traversal_count == 0 ==> forall|i: int|
                    0 <= i < visited@.len() ==> svc.is_ancestor(#[trigger] visited@[i], block),
                max_traversal_allowed matches Some(m) ==> traversal_count <= m,
                reached == walked_outside_past(svc, &self.relations_store, block, tips@),
                counted.no_duplicates(),
                traversal_count == counted.len(),
                forall|k: int| 0 <= k < counted.len() ==> reached.contains(#[trigger] counted[k]),
                forall|k: int| 0 <= k < counted.len() ==> visited@.contains(#[trigger] counted[k]),
                forall|i: int|
                    0 <= i < visited@.len() && !svc.is_ancestor(#[trigger] visited@[i], block)
                        ==> counted.contains(visited@[i]),
                traversal_count == 0 ==> anticone@.len() == 0,
                (forall|i: int| 0 <= i < tips@.len() ==> svc.is_ancestor(#[trigger] tips@[i], block))
                    ==> traversal_count == 0,
                forall|i: int|
                    0 <= i < queue@.len() ==> walked_to(
                        svc,
                        &self.relations_store,
                        block,
                        tips@,
                        #[trigger] queue@[i],
                    ),
                forall|i: int|
                    0 <= i < visited@.len() ==> walked_to(
                        svc,
                        &self.relations_store,
                        block,
                        tips@,
                        #[trigger] visited@[i],
                    ),
                forall|i: int, j: int|
                    0 <= i < visited@.len() && !svc.is_ancestor(visited@[i], block) && 0 <= j
                        < self.relations_store.parents_of(visited@[i]).len() ==> queue@.contains(
                        #[trigger] self.relations_store.parents_of(visited@[i])[j],
                    ),
            decreases known.len() - visited@.len(), queue@.len() - head,
        {
            let current = queue[head];
            head = head + 1;
            if contains_hash(&visited, current) {
                continue;
            }
            proof {
                lemma_distinct_subset_len(visited@.push(current), known);
            }
            let ghost before = visited@;
            visited.push(current);
            proof {
                assert(visited@[visited@.len() - 1] == current);
                assert forall|x: BlockHash| before.contains(x) implies visited@.contains(x) by {
                    let k = choose|k: int| 0 <= k < before.len() && before[k] == x;
                    assert(visited@[k] == x);
                }
            }
            if self.reachability_service.is_dag_ancestor_of(current, block) {
                continue;
            }
            // Blocks of past(tips) outside past(block) are counted; the size
            // of `visited` would also count some blocks of past(block).
            let visited_len = visited.len();
            assert(traversal_count < visited_len);
            traversal_count = traversal_count + 1;
            proof {
                assert(walked_to(svc, &self.relations_store, block, tips@, queue@[head - 1]));
                assert(reached.contains(current));
                assert(!before.contains(current));
                assert(!counted.contains(current));
                let old_counted = counted;
                counted = counted.push(current);
                assert(counted[counted.len() - 1] == current);
                assert forall|x: BlockHash| old_counted.contains(x) implies counted.contains(x) by {
                    let k = choose|k: int| 0 <= k < old_counted.len() && old_counted[k] == x;
                    assert(counted[k] == x);
                }
                assert forall|k: int| 0 <= k < counted.len() implies visited@.contains(
                    #[trigger] counted[k],
                ) by {
                    if k < old_counted.len() {
                        assert(counted[k] == old_counted[k]);
                        assert(before.contains(old_counted[k]));
                    }
                }
                assert forall|k: int| 0 <= k < counted.len() implies reached.contains(
                    #[trigger] counted[k],
                ) by {
                    if k < old_counted.len() {
                        assert(counted[k] == old_counted[k]);
                    }
                }
                assert forall|i: int|
                    0 <= i < visited@.len() && !svc.is_ancestor(#[trigger] visited@[i], block)
                        implies counted.contains(visited@[i]) by {
                    if i < visited@.len() - 1 {
                        assert(visited@[i] == before[i]);
                    }
                }
            }
            if let Some(max) = max_traversal_allowed {
                if traversal_count > max {
                    proof {
                        lemma_reached_finite(svc, &self.relations_store, block, tips@);
                        counted.unique_seq_to_set();
                        assert(counted.to_set().subset_of(reached));
                        vstd::set_lib::lemma_len_subset(counted.to_set(), reached);
                    }
                    return Err(TraversalError::ReachedMaxTraversalAllowed(traversal_count, max));
                }
            }
            if !self.reachability_service.is_dag_ancestor_of(block, current) {
                let ghost before_anticone = anticone@;
                anticone.push(current);
                proof {
                    assert(anticone@[anticone@.len() - 1] == current);
                    assert forall|x: BlockHash| before_anticone.contains(x) implies anticone@.contains(
                        x,
                    ) by {
                        let k = choose|k: int| 0 <= k < before_anticone.len() && before_anticone[k] == x;
                        assert(anticone@[k] == x);
                    }
                }
            }
            let parents = self.relations_store.get_parents(current);
            let ghost rel = &self.relations_store;
            let ghost walk = choose|w: Seq<BlockHash>|
                #[trigger] is_parent_walk(svc, rel, block, tips@, w) && w.last() == current;
            assert(walked_to(svc, rel, block, tips@, queue@[head - 1]));
            let mut p: usize = 0;
            while p < parents.len()
                invariant
                    p <= parents@.len(),
                    parents@ == self.relations_store.parents_of(current),
                    rel == &self.relations_store,
                    svc == &self.reachability_service,
                    known.contains(current),
                    !svc.is_ancestor(current, block),
                    is_parent_walk(svc, rel, block, tips@, walk),
                    walk.last() == current,
                    visited@.len() >= 1,
                    visited@[visited@.len() - 1] == current,
                    relations_closed(&self.relations_store),
                    known == self.relations_store.known_blocks(),
                    head <= queue@.len(),
                    tips@.len() <= queue@.len(),
                    forall|i: int| 0 <= i < tips@.len() ==> queue@[i] == #[trigger] tips@[i],
                    forall|i: int| 0 <= i < queue@.len() ==> known.contains(#[trigger] queue@[i]),
                    forall|i: int| 0 <= i < head ==> visited@.contains(#[trigger] queue@[i]),
                    forall|i: int|
                        0 <= i < queue@.len() ==> walked_to(
                            svc,
                            rel,
                            block,
                            tips@,
                            #[trigger] queue@[i],
                        ),
                    forall|i: int, j: int|
                        0 <= i < visited@.len() - 1 && !svc.is_ancestor(visited@[i], block) && 0
                            <= j < rel.parents_of(visited@[i]).len() ==> queue@.contains(
                            #[trigger] rel.parents_of(visited@[i])[j],
                        ),
                    forall|j: int| 0 <= j < p ==> queue@.contains(#[trigger] parents@[j]),
                decreases parents@.len() - p,
            {
                let e = parents[p];
                proof {
                    lemma_push_keeps(queue@, e);
                    let w2 = walk.push(e);
                    assert(is_parent_walk(svc, rel, block, tips@, w2)) by {
                        assert(w2[0] == walk[0]);
                        assert forall|k: int| 0 <= k < w2.len() - 1 implies rel.parents_of(
                            w2[k],
                        ).contains(#[trigger] w2[k + 1]) by {
                            if k == w2.len() - 2 {
                                assert(w2[k] == current);
                                assert(parents@[p as int] == e);
                            } else {
                                assert(w2[k] == walk[k]);
                                assert(w2[k + 1] == walk[k + 1]);
                            }
                        }
                        assert forall|k: int| 0 <= k < w2.len() - 1 implies !svc.is_ancestor(
                            #[trigger] w2[k],
                            block,
                        ) by {
                            if k < walk.len() - 1 {
                                assert(w2[k] == walk[k]);
                            } else {
                                assert(w2[k] == current);
                            }
                        }
                    }
                    assert(w2.last() == e);
                }
                queue.push(e);
                proof {
                    assert forall|i: int|
                        0 <= i < queue@.len() implies walked_to(
                        svc,
                        rel,
                        block,
                        tips@,
                        #[trigger] queue@[i],
                    ) by {
                        if i == queue@.len() - 1 {
                            assert(queue@[i] == e);
                            assert(is_parent_walk(svc, rel, block, tips@, walk.push(e)));
                        }
                    }
                }
                p = p + 1;
            }
        }
        proof {
            let rel = &self.relations_store;
            assert forall|y: BlockHash| tips@.contains(y) implies #[trigger] queue@.contains(y) by {
                let k = choose|k: int| 0 <= k < tips@.len() && tips@[k] == y;
                assert(queue@[k] == y);
            }
            assert forall|y: BlockHash| queue@.contains(y) implies #[trigger] visited@.contains(y) by {
                let k = choose|k: int| 0 <= k < queue@.len() && queue@[k] == y;
            }
            assert forall|x: BlockHash|
                #[trigger] walked_to(svc, rel, block, tips@, x) && !svc.is_ancestor(x, block)
                    && !svc.is_ancestor(block, x) implies anticone@.contains(x) by {
                let w = choose|w: Seq<BlockHash>|
                    #[trigger] is_parent_walk(svc, rel, block, tips@, w) && w.last() == x;
                lemma_walk_visited(svc, rel, block, tips@, queue@, visited@, w);
                let k = choose|k: int| 0 <= k < visited@.len() && visited@[k] == x;
            }
            assert forall|k: int| 0 <= k < anticone@.len() implies walked_to(
                svc,
                rel,
                block,
                tips@,
                #[trigger] anticone@[k],
            ) by {
                let i = choose|i: int| 0 <= i < visited@.len() && visited@[i] == anticone@[k];
            }
            // Every block reached outside the past of `block` was counted.
            assert forall|x: BlockHash| reached.contains(x) implies counted.to_set().contains(x) by {
                let w = choose|w: Seq<BlockHash>|
                    #[trigger] is_parent_walk(svc, rel, block, tips@, w) && w.last() == x;
                lemma_walk_visited(svc, rel, block, tips@, queue@, visited@, w);
                let k = choose|k: int| 0 <= k < visited@.len() && visited@[k] == x;
            }
            assert(counted.to_set() =~= reached);
            counted.unique_seq_to_set();
        }
        Ok(anticone)
    }

    /// The lowest block on the selected chain of `high` whose blue score is at
    /// least `blue_score`.
    pub fn lowest_chain_block_above_or_equal_to_blue_score(
        &self,
        high: BlockHash,
        blue_score: u64,
    ) -> (r: BlockHash)
        requires
            ghostdag_chain_wf(&self.ghostdag_store, self.genesis_hash),
            self.ghostdag_store.has_ghostdag(high),
            self.ghostdag_store.ghostdag_of(high).blue_score >= blue_score,
        ensures
            is_lowest_chain_block(&self.ghostdag_store, self.genesis_hash, high, blue_score, r),
    {
        let ghost store = &self.ghostdag_store;
        let high_gd = self.ghostdag_store.get_compact_data(high);
        let mut current = high;
        let mut current_gd = high_gd;
        let ghost mut steps: nat = 0;
        let mut done = false;
        while current != self.genesis_hash && !done
            invariant
                ghostdag_chain_wf(&self.ghostdag_store, self.genesis_hash),
                store == &self.ghostdag_store,
                store.has_ghostdag(current),
                current_gd == store.ghostdag_of(current),
                current_gd.blue_score >= blue_score,
                sp_walk(store, self.genesis_hash, high, steps) == current,
                done ==> current != self.genesis_hash && store.ghostdag_of(
                    current_gd.selected_parent,
                ).blue_score < blue_score,
            decreases current_gd.blue_score + (if done {
                0int
            } else {
                1int
            }),
        {
            // A known block is never the origin sentinel.
            assert(current != crate::hash::origin_hash());
            let selected_parent_gd = self.ghostdag_store.get_compact_data(current_gd.selected_parent);
            if selected_parent_gd.blue_score < blue_score {
                done = true;
            } else {
                proof {
                    assert(sp_walk(store, self.genesis_hash, high, steps + 1)
                        == current_gd.selected_parent);
                    steps = steps + 1;
                }
                current = current_gd.selected_parent;
                current_gd = selected_parent_gd;
            }
        }
        current
    }
}

} // verus!
