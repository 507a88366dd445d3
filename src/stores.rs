use crate::hash::BlockHash;
use crate::sortable::BlueWork;
use vstd::prelude::*;

verus! {

/// What the header store keeps of a block for difficulty adjustment.
#[derive(Clone, Copy, Debug, PartialEq, Eq, Structural)]
pub struct CompactHeaderData {
    /// Milliseconds.
    pub timestamp: u64,
    pub bits: u32,
    pub blue_work: BlueWork,
}

/// What the GHOSTDAG store keeps of a block for chain walks.
#[derive(Clone, Copy, Debug, PartialEq, Eq, Structural)]
pub struct CompactGhostdagData {
    pub blue_score: u64,
    pub blue_work: BlueWork,
    pub selected_parent: BlockHash,
}

/// The GHOSTDAG record of a block: its selected parent and the other blocks
/// it merges.
pub struct GhostdagData {
    pub blue_score: u64,
    pub blue_work: BlueWork,
    pub selected_parent: BlockHash,
    /// The merged blocks other than the selected parent.
    pub mergeset_without_selected_parent: Vec<BlockHash>,
}

impl GhostdagData {
    /// The merged blocks, the selected parent included.
    pub open spec fn mergeset_size(&self) -> nat {
        self.mergeset_without_selected_parent@.len() + 1
    }
}

/// Read access to block headers. A lookup of a block that the store does not
/// hold is a caller's error.
pub trait HeaderStoreReader {
    spec fn has_header(&self, hash: BlockHash) -> bool;

    spec fn header_of(&self, hash: BlockHash) -> CompactHeaderData;

    spec fn daa_score_of(&self, hash: BlockHash) -> u64;

    fn get_daa_score(&self, hash: BlockHash) -> (r: u64)
        requires
            self.has_header(hash),
        ensures
            r == self.daa_score_of(hash),
    ;

    fn get_compact_header_data(&self, hash: BlockHash) -> (r: CompactHeaderData)
        requires
            self.has_header(hash),
        ensures
            r == self.header_of(hash),
    ;
}

/// Read access to GHOSTDAG records.
pub trait GhostdagStoreReader {
    spec fn has_ghostdag(&self, hash: BlockHash) -> bool;

    spec fn ghostdag_of(&self, hash: BlockHash) -> CompactGhostdagData;

    fn get_compact_data(&self, hash: BlockHash) -> (r: CompactGhostdagData)
        requires
            self.has_ghostdag(hash),
        ensures
            r == self.ghostdag_of(hash),
    ;

    fn get_blue_work(&self, hash: BlockHash) -> (r: Option<BlueWork>)
        ensures
            self.has_ghostdag(hash) ==> r == Some(self.ghostdag_of(hash).blue_work),
            !self.has_ghostdag(hash) ==> r is None,
    ;
}

/// The reachability oracle: ancestry in the DAG and along selected chains.
pub trait ReachabilityService {
    /// Whether `a` is in the past of `b`, `b` itself included.
    spec fn is_ancestor(&self, a: BlockHash, b: BlockHash) -> bool;

    /// The selected chain down from `hash`: `hash` itself, its selected
    /// parent, and so on to the root.
    spec fn chain(&self, hash: BlockHash) -> Seq<BlockHash>;

    /// Every block is its own ancestor.
    proof fn lemma_ancestor_reflexive(&self, hash: BlockHash)
        ensures
            self.is_ancestor(hash, hash),
    ;

    fn is_dag_ancestor_of(&self, a: BlockHash, b: BlockHash) -> (r: bool)
        ensures
            r == self.is_ancestor(a, b),
    ;

    fn is_chain_ancestor_of(&self, a: BlockHash, b: BlockHash) -> (r: bool)
        ensures
            r == self.chain(b).contains(a),
    ;

    fn default_backward_chain(&self, from: BlockHash) -> (r: Vec<BlockHash>)
        ensures
            r@ == self.chain(from),
    ;
}

/// Read access to the parents of blocks.
pub trait RelationsStoreReader {
    /// The blocks the store knows of.
    spec fn known_blocks(&self) -> Set<BlockHash>;

    spec fn parents_of(&self, hash: BlockHash) -> Seq<BlockHash>;

    fn get_parents(&self, hash: BlockHash) -> (r: Vec<BlockHash>)
        requires
            self.known_blocks().contains(hash),
        ensures
            r@ == self.parents_of(hash),
    ;
}

/// The known blocks are finitely many and their parents are known too.
pub open spec fn relations_closed<R: RelationsStoreReader>(store: &R) -> bool {
    &&& store.known_blocks().finite()
    &&& forall|h: BlockHash, i: int|
        store.known_blocks().contains(h) && 0 <= i < store.parents_of(h).len()
            ==> store.known_blocks().contains(#[trigger] store.parents_of(h)[i])
}

/// Each chain starts at its block and ends at `root`, and the chain of any
/// block on it is the rest of it.
#[verifier::opaque]
pub open spec fn chains_wf<S: ReachabilityService>(service: &S, root: BlockHash) -> bool {
    forall|h: BlockHash|
        {
            let c = #[trigger] service.chain(h);
            &&& c.len() >= 1
            &&& c[0] == h
            &&& c.last() == root
            &&& forall|i: int| 0 <= i < c.len() ==> service.chain(#[trigger] c[i]) == c.skip(i)
        }
}

/// What `chains_wf` says of the chain of `h` at position `i`.
pub proof fn lemma_chains_wf<S: ReachabilityService>(service: &S, root: BlockHash, h: BlockHash, i: int)
    requires
        chains_wf(service, root),
    ensures
        service.chain(h).len() >= 1,
        service.chain(h)[0] == h,
        service.chain(h).last() == root,
        0 <= i < service.chain(h).len() ==> service.chain(service.chain(h)[i]) == service.chain(
            h,
        ).skip(i),
{
    reveal(chains_wf);
    let c = service.chain(h);
    if 0 <= i < c.len() {
        assert(service.chain(c[i]) == c.skip(i));
    }
}

/// Along selected parents blue scores fall strictly down to `genesis`, no
/// known block is the origin sentinel, and a known block other than
/// `genesis` has a known selected parent.
pub open spec fn ghostdag_chain_wf<G: GhostdagStoreReader>(store: &G, genesis: BlockHash) -> bool {
    &&& store.has_ghostdag(genesis)
    &&& forall|h: BlockHash| #[trigger]
        store.has_ghostdag(h) ==> {
            &&& h != crate::hash::origin_hash()
            &&& h != genesis ==> {
                let sp = store.ghostdag_of(h).selected_parent;
                &&& store.has_ghostdag(sp)
                &&& store.ghostdag_of(sp).blue_score < store.ghostdag_of(h).blue_score
            }
        }
}

} // verus!
