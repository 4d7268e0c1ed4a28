use super::chunkpos::ChunkPos;
use std::collections::HashSet;
use vstd::prelude::*;
use vstd::std_specs::hash::group_hash_axioms;

verus! {

broadcast use group_hash_axioms;

/// The set key of a chunk position: the three coordinates shifted to be non-negative,
/// sixteen bits each.
pub open spec fn spec_chunk_pos_key(cp: ChunkPos) -> u64 {
    ((cp.x as int + 32768) * 0x1_0000_0000 + (cp.y as int + 32768) * 0x1_0000 + (cp.z as int
        + 32768)) as u64
}

/// The chunk position whose key is `k`.
pub open spec fn spec_chunk_pos_of_key(k: u64) -> ChunkPos {
    ChunkPos {
        x: (k as int / 0x1_0000_0000 - 32768) as i16,
        y: ((k as int / 0x1_0000) % 0x1_0000 - 32768) as i16,
        z: (k as int % 0x1_0000 - 32768) as i16,
    }
}

/// Keys tell positions apart, and a key gives its position back.
pub proof fn lemma_chunk_pos_key(cp: ChunkPos)
    ensures
        spec_chunk_pos_of_key(spec_chunk_pos_key(cp)) == cp,
        spec_chunk_pos_key(cp) < 0x1_0000_0000_0000,
{
    let a = cp.x as int + 32768;
    let b = cp.y as int + 32768;
    let c = cp.z as int + 32768;
    let k = a * 0x1_0000_0000 + b * 0x1_0000 + c;
    assert(k / 0x1_0000_0000 == a && (k / 0x1_0000) % 0x1_0000 == b && k % 0x1_0000 == c)
        by (nonlinear_arith)
        requires
            0 <= a < 0x1_0000,
            0 <= b < 0x1_0000,
            0 <= c < 0x1_0000,
            k == a * 0x1_0000_0000 + b * 0x1_0000 + c,
    ;
}

pub fn chunk_pos_key(cp: ChunkPos) -> (r: u64)
    ensures
        r == spec_chunk_pos_key(cp),
{
    let a = (cp.x as i32 + 32768i32) as u64;
    let b = (cp.y as i32 + 32768i32) as u64;
    let c = (cp.z as i32 + 32768i32) as u64;
    a * 0x1_0000_0000 + b * 0x1_0000 + c
}

/// A set of chunk positions, such as the chunks whose blocks changed and need new meshes.
#[derive(Debug)]
pub struct ChunkPosSet {
    pub keys: HashSet<u64>,
}

impl View for ChunkPosSet {
    type V = Set<ChunkPos>;

    open spec fn view(&self) -> Set<ChunkPos> {
        Set::new(|cp: ChunkPos| self.keys@.contains(spec_chunk_pos_key(cp)))
    }
}

impl ChunkPosSet {
    /// Every key in the set is the key of a chunk position.
    pub open spec fn wf(&self) -> bool {
        forall|k: u64| #[trigger] self.keys@.contains(k) ==> k == spec_chunk_pos_key(spec_chunk_pos_of_key(k))
    }

    pub fn new() -> (r: ChunkPosSet)
        ensures
            r@ == Set::<ChunkPos>::empty(),
            r.wf(),
    {
        let r = ChunkPosSet { keys: HashSet::new() };
        proof {
            assert(r@ =~= Set::<ChunkPos>::empty());
        }
        r
    }

    pub fn insert(&mut self, cp: ChunkPos)
        requires
            old(self).wf(),
        ensures
            final(self)@ == old(self)@.insert(cp),
            final(self).wf(),
    {
        let k = chunk_pos_key(cp);
        self.keys.insert(k);
        proof {
            lemma_chunk_pos_key(cp);
            assert forall|q: ChunkPos| #[trigger] self@.contains(q) == old(self)@.insert(cp).contains(q) by {
                lemma_chunk_pos_key(q);
            }
            assert(self@ =~= old(self)@.insert(cp));
        }
    }

    pub fn contains(&self, cp: ChunkPos) -> (r: bool)
        ensures
            r == self@.contains(cp),
    {
        let k = chunk_pos_key(cp);
        self.keys.contains(&k)
    }

    pub fn len(&self) -> (r: usize)
        requires
            self.wf(),
        ensures
            r == self.keys@.len(),
    {
        self.keys.len()
    }

    pub fn is_empty(&self) -> (r: bool)
        requires
            self.wf(),
        ensures
            r == (self@ == Set::<ChunkPos>::empty()),
    {
        let r = self.keys.is_empty();
        proof {
            if !r {
                let k = choose|k: u64| self.keys@.contains(k);
                assert(self@.contains(spec_chunk_pos_of_key(k)));
            } else {
                assert(self@ =~= Set::<ChunkPos>::empty());
            }
        }
        r
    }

    pub fn clear(&mut self)
        ensures
            final(self)@ == Set::<ChunkPos>::empty(),
            final(self).wf(),
    {
        self.keys.clear();
        proof {
            assert(self@ =~= Set::<ChunkPos>::empty());
        }
    }
}

} // verus!
