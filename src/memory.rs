use crate::hash::{contains_hash, origin_hash, BlockHash};
use crate::sortable::BlueWork;
use crate::stores::{
    CompactGhostdagData, CompactHeaderData, GhostdagStoreReader, HeaderStoreReader,
    ReachabilityService, RelationsStoreReader,
};
use vstd::prelude::*;

verus! {

/// Everything an in-memory store keeps of one block.
#[derive(Clone, Debug)]
pub struct BlockRecord {
    pub hash: BlockHash,
    pub parents: Vec<BlockHash>,
    pub header: CompactHeaderData,
    pub ghostdag: CompactGhostdagData,
    pub daa_score: u64,
    /// The blocks of its past, each once.
    pub past: Vec<BlockHash>,
    /// Its selected chain, from itself down to the root.
    pub chain: Vec<BlockHash>,
}

/// `i` is the first position of a record of `hash`.
pub open spec fn is_first_record(s: Seq<BlockRecord>, hash: BlockHash, i: int) -> bool {
    &&& 0 <= i < s.len()
    &&& s[i].hash == hash
    &&& forall|j: int| 0 <= j < i ==> (#[trigger] s[j]).hash != hash
}

/// A block store held in memory that serves headers, GHOSTDAG records,
/// parents and reachability. Blocks are added parents first.
#[derive(Clone, Debug)]
pub struct MemoryStore {
    records: Vec<BlockRecord>,
}

impl MemoryStore {
    pub closed spec fn records(&self) -> Seq<BlockRecord> {
        self.records@
    }

    pub open spec fn has(&self, hash: BlockHash) -> bool {
        exists|i: int| is_first_record(self.records(), hash, i)
    }

    pub open spec fn record(&self, hash: BlockHash) -> BlockRecord {
        self.records()[choose|i: int| is_first_record(self.records(), hash, i)]
    }

    pub fn new() -> (r: MemoryStore)
        ensures
            forall|h: BlockHash| !r.has(h),
    {
        MemoryStore { records: Vec::new() }
    }

    /// The position of the record of `hash`.
    fn find(&self, hash: BlockHash) -> (r: Option<usize>)
        ensures
            r is Some <==> self.has(hash),
            r is None ==> forall|j: int|
                0 <= j < self.records().len() ==> (#[trigger] self.records()[j]).hash != hash,
            r matches Some(i) ==> is_first_record(self.records(), hash, i as int) && self.record(
                hash,
            ) == self.records()[i as int],
    {
        let mut i: usize = 0;
        while i < self.records.len()
            invariant
                i <= self.records@.len(),
                forall|j: int| 0 <= j < i ==> (#[trigger] self.records@[j]).hash != hash,
            decreases self.records@.len() - i,
        {
            if self.records[i].hash == hash {
                proof {
                    assert(is_first_record(self.records(), hash, i as int));
                    let k = choose|k: int| is_first_record(self.records(), hash, k);
                    if k < i {
                        assert(self.records@[k].hash != hash);
                    } else if k > i {
                        assert(self.records@[i as int].hash != hash);
                    }
                }
                return Some(i);
            }
            i = i + 1;
        }
        proof {
            if self.has(hash) {
                let k = choose|k: int| is_first_record(self.records(), hash, k);
                assert(self.records@[k].hash != hash);
            }
        }
        None
    }

    /// Adds a block whose parents are all in the store already; a block
    /// without parents is a root. Returns false, changing nothing, when the
    /// block is there already, a parent is missing, or the selected parent is
    /// not among the parents. The new record keeps the given data, the block's
    /// past, and its selected chain.
    pub fn add_block(
        &mut self,
        hash: BlockHash,
        parents: Vec<BlockHash>,
        header: CompactHeaderData,
        ghostdag: CompactGhostdagData,
        daa_score: u64,
    ) -> (r: bool)
        ensures
            r == (!old(self).has(hash) && (forall|j: int|
                0 <= j < parents@.len() ==> old(self).has(#[trigger] parents@[j])) && (
            parents@.len() == 0 || parents@.contains(ghostdag.selected_parent))),
            r ==> final(self).records().drop_last() == old(self).records(),
            r ==> final(self).has(hash) && final(self).record(hash) == final(self).records().last(),
            r ==> {
                let rec = final(self).record(hash);
                &&& rec.hash == hash
                &&& rec.parents@ == parents@
                &&& rec.header == header
                &&& rec.ghostdag == ghostdag
                &&& rec.daa_score == daa_score
            },
            !r ==> final(self).records() == old(self).records(),
    {
        match self.find(hash) {
            Some(_) => {
                return false;
            },
            None => {},
        }
        let ghost absent = forall|j: int|
            0 <= j < self.records().len() ==> (#[trigger] self.records()[j]).hash != hash;
        assert(absent);
        let mut past: Vec<BlockHash> = Vec::new();
        let mut i: usize = 0;
        while i < parents.len()
            invariant
                i <= parents@.len(),
                forall|j: int| 0 <= j < i ==> self.has(#[trigger] parents@[j]),
            decreases parents@.len() - i,
        {
            let p = parents[i];
            let pi = match self.find(p) {
                Some(k) => k,
                None => {
                    return false;
                },
            };
            if !contains_hash(&past, p) {
                past.push(p);
            }
            let pp = &self.records[pi].past;
            let mut k: usize = 0;
            while k < pp.len()
                invariant
                    k <= pp@.len(),
                decreases pp@.len() - k,
            {
                if !contains_hash(&past, pp[k]) {
                    past.push(pp[k]);
                }
                k = k + 1;
            }
            i = i + 1;
        }
        let mut chain: Vec<BlockHash> = Vec::new();
        chain.push(hash);
        if parents.len() > 0 {
            let sp = ghostdag.selected_parent;
            if !contains_hash(&parents, sp) {
                return false;
            }
            let si = match self.find(sp) {
                Some(k) => k,
                None => {
                    return false;
                },
            };
            let sc = &self.records[si].chain;
            let mut k: usize = 0;
            while k < sc.len()
                invariant
                    k <= sc@.len(),
                decreases sc@.len() - k,
            {
                chain.push(sc[k]);
                k = k + 1;
            }
        }
        let ghost before = self.records();
        let ghost given = parents@;
        assert(forall|j: int| 0 <= j < before.len() ==> (#[trigger] before[j]).hash != hash);
        self.records.push(BlockRecord { hash, parents, header, ghostdag, daa_score, past, chain });
        proof {
            let n = before.len() as int;
            assert(self.records@[n].hash == hash);
            assert(self.records().drop_last() =~= before);
            assert forall|j: int| 0 <= j < n implies (#[trigger] self.records@[j]).hash != hash by {
                assert(self.records@[j] == before[j]);
            }
            assert(is_first_record(self.records(), hash, n));
            let k = choose|k: int| is_first_record(self.records(), hash, k);
            if k < n {
                assert(self.records@[k].hash != hash);
            }
            assert(k == n);
        }
        true
    }
}

impl HeaderStoreReader for MemoryStore {
    open spec fn has_header(&self, hash: BlockHash) -> bool {
        self.has(hash)
    }

    open spec fn header_of(&self, hash: BlockHash) -> CompactHeaderData {
        self.record(hash).header
    }

    open spec fn daa_score_of(&self, hash: BlockHash) -> u64 {
        self.record(hash).daa_score
    }

    fn get_daa_score(&self, hash: BlockHash) -> (r: u64) {
        let i = self.find(hash).unwrap();
        self.records[i].daa_score
    }

    fn get_compact_header_data(&self, hash: BlockHash) -> (r: CompactHeaderData) {
        let i = self.find(hash).unwrap();
        self.records[i].header
    }
}

impl GhostdagStoreReader for MemoryStore {
    open spec fn has_ghostdag(&self, hash: BlockHash) -> bool {
        self.has(hash)
    }

    open spec fn ghostdag_of(&self, hash: BlockHash) -> CompactGhostdagData {
        self.record(hash).ghostdag
    }

    fn get_compact_data(&self, hash: BlockHash) -> (r: CompactGhostdagData) {
        let i = self.find(hash).unwrap();
        self.records[i].ghostdag
    }

    fn get_blue_work(&self, hash: BlockHash) -> (r: Option<BlueWork>) {
        match self.find(hash) {
            Some(i) => Some(self.records[i].ghostdag.blue_work),
            None => None,
        }
    }
}

impl ReachabilityService for MemoryStore {
    open spec fn is_ancestor(&self, a: BlockHash, b: BlockHash) -> bool {
        a == b || (self.has(b) && self.record(b).past@.contains(a))
    }

    open spec fn chain(&self, hash: BlockHash) -> Seq<BlockHash> {
        if self.has(hash) {
            self.record(hash).chain@
        } else {
            seq![hash]
        }
    }

    proof fn lemma_ancestor_reflexive(&self, hash: BlockHash) {
    }

    fn is_dag_ancestor_of(&self, a: BlockHash, b: BlockHash) -> (r: bool) {
        if a == b {
            return true;
        }
        match self.find(b) {
            Some(i) => contains_hash(&self.records[i].past, a),
            None => false,
        }
    }

    fn is_chain_ancestor_of(&self, a: BlockHash, b: BlockHash) -> (r: bool) {
        match self.find(b) {
            Some(i) => contains_hash(&self.records[i].chain, a),
            None => {
                let r = a == b;
                proof {
                    if r {
                        assert(seq![b][0] == a);
                    }
                }
                r
            },
        }
    }

    fn default_backward_chain(&self, from: BlockHash) -> (r: Vec<BlockHash>) {
        match self.find(from) {
            Some(i) => self.records[i].chain.clone(),
            None => {
                let mut v: Vec<BlockHash> = Vec::new();
                v.push(from);
                assert(v@ =~= seq![from]);
                v
            },
        }
    }
}

impl RelationsStoreReader for MemoryStore {
    open spec fn known_blocks(&self) -> Set<BlockHash> {
        Set::new(|h: BlockHash| self.has(h))
    }

    open spec fn parents_of(&self, hash: BlockHash) -> Seq<BlockHash> {
        self.record(hash).parents@
    }

    fn get_parents(&self, hash: BlockHash) -> (r: Vec<BlockHash>) {
        let i = self.find(hash).unwrap();
        self.records[i].parents.clone()
    }
}

/// The sentinel hash below genesis, for a genesis record's selected parent.
pub fn origin() -> (r: BlockHash)
    ensures
        r == origin_hash(),
{
    BlockHash::origin()
}

} // verus!
