//! Validated parts of one chunk, gathered until the body can be rebuilt.
use vstd::prelude::*;
use crate::codec::{present_count, lemma_present_count_bound, lemma_present_count_fill, opt_views};
use crate::merkle::{MerklePathItem, path_root, verify_path};

verus! {

/// The commitment that a chunk producer signs for one chunk.
#[derive(Clone, Debug)]
pub struct ChunkHeader {
    pub chunk_hash: Vec<u8>,
    pub prev_block_hash: Vec<u8>,
    pub height: u64,
    pub shard_id: u64,
    pub encoded_length: u64,
    pub encoded_merkle_root: Vec<u8>,
}

/// One erasure-coded part of a chunk with its merkle proof.
#[derive(Clone, Debug)]
pub struct ChunkPart {
    pub part_ord: u64,
    pub part: Vec<u8>,
    pub merkle_proof: Vec<MerklePathItem>,
}

/// Why a part was turned away.
#[derive(Clone, Copy, Debug, PartialEq, Eq, Structural)]
pub enum ValidationError {
    /// The ordinal is not below the number of parts.
    OrdinalOutOfRange,
    /// The merkle proof does not lead to the header's content root.
    InvalidProof,
}

/// What `accept_part` did with a part.
#[derive(Clone, Copy, Debug, PartialEq, Eq, Structural)]
pub enum AcceptOutcome {
    Accepted,
    Duplicate,
    Rejected(ValidationError),
}

/// The part's ordinal is in range and its proof leads to `root`.
pub open spec fn part_valid(root: Seq<u8>, total: nat, p: ChunkPart) -> bool {
    p.part_ord < total && path_root(p.part@, p.merkle_proof@) == root
}

/// The payload held in each slot.
pub open spec fn payloads(parts: Seq<Option<ChunkPart>>) -> Seq<Option<Seq<u8>>> {
    Seq::new(
        parts.len(),
        |i: int|
            match parts[i] {
                Some(p) => Some(p.part@),
                None => None,
            },
    )
}

/// The outcome of offering part `p` to the slots `parts`, and the slots after it.
pub open spec fn accept_spec(parts: Seq<Option<ChunkPart>>, root: Seq<u8>, p: ChunkPart) -> (AcceptOutcome, Seq<Option<ChunkPart>>) {
    if p.part_ord >= parts.len() {
        (AcceptOutcome::Rejected(ValidationError::OrdinalOutOfRange), parts)
    } else if path_root(p.part@, p.merkle_proof@) != root {
        (AcceptOutcome::Rejected(ValidationError::InvalidProof), parts)
    } else if parts[p.part_ord as int] is Some {
        (AcceptOutcome::Duplicate, parts)
    } else {
        (AcceptOutcome::Accepted, parts.update(p.part_ord as int, Some(p)))
    }
}

/// The parts of one chunk that have been received and validated so far.
pub struct PartStore {
    pub root: Vec<u8>,
    pub parts: Vec<Option<ChunkPart>>,
    pub held: usize,
}

impl PartStore {
    pub open spec fn wf(&self) -> bool {
        &&& self.held == present_count(payloads(self.parts@))
        &&& forall|i: int| 0 <= i < self.parts.len() && (#[trigger] self.parts[i]) is Some ==> {
            &&& self.parts[i]->0.part_ord == i
            &&& part_valid(self.root@, self.parts.len() as nat, self.parts[i]->0)
        }
    }

    pub open spec fn held_count(&self) -> nat {
        present_count(payloads(self.parts@))
    }

    /// An empty store for a chunk of `total_parts` parts committed to by `root`.
    pub fn new(root: Vec<u8>, total_parts: usize) -> (r: PartStore)
        ensures
            r.wf(),
            r.root@ == root@,
            r.parts.len() == total_parts,
            forall|i: int| 0 <= i < total_parts ==> (#[trigger] r.parts[i]) is None,
            r.held_count() == 0,
    {
        let mut parts: Vec<Option<ChunkPart>> = Vec::new();
        let mut i: usize = 0;
        while i < total_parts
            invariant
                i <= total_parts,
                parts.len() == i,
                forall|a: int| 0 <= a < i ==> (#[trigger] parts[a]) is None,
                present_count(payloads(parts@)) == 0,
            decreases total_parts - i,
        {
            let ghost before = parts@;
            parts.push(None);
            assert(payloads(parts@).drop_last() =~= payloads(before));
            i = i + 1;
        }
        PartStore { root, parts, held: 0 }
    }

    /// Checks `part` against the content root and stores it if it is new.
    pub fn accept_part(&mut self, part: ChunkPart) -> (r: AcceptOutcome)
        requires
            old(self).wf(),
        ensures
            final(self).wf(),
            final(self).root == old(self).root,
            (r, final(self).parts@) == accept_spec(old(self).parts@, old(self).root@, part),
            final(self).held_count() == old(self).held_count() + if r == AcceptOutcome::Accepted { 1nat } else { 0nat },
    {
        if part.part_ord >= self.parts.len() as u64 {
            return AcceptOutcome::Rejected(ValidationError::OrdinalOutOfRange);
        }
        if !verify_path(&self.root, &part.merkle_proof, &part.part) {
            return AcceptOutcome::Rejected(ValidationError::InvalidProof);
        }
        let ord = part.part_ord as usize;
        if self.parts[ord].is_some() {
            return AcceptOutcome::Duplicate;
        }
        proof {
            lemma_present_count_fill(payloads(self.parts@), ord as int, part.part@);
            assert(payloads(self.parts@.update(ord as int, Some(part))) =~= payloads(self.parts@).update(
                ord as int,
                Some(part.part@),
            ));
        }
        self.parts.set(ord, Some(part));
        proof {
            lemma_present_count_bound(payloads(self.parts@));
        }
        self.held = self.held + 1;
        AcceptOutcome::Accepted
    }

    /// Whether ordinal `ord` is held.
    pub fn has_part(&self, ord: u64) -> (r: bool)
        ensures
            r == (ord < self.parts.len() && self.parts[ord as int] is Some),
    {
        ord < self.parts.len() as u64 && self.parts[ord as usize].is_some()
    }

    /// Whether at least `data_parts` distinct ordinals are held.
    pub fn ready_to_reconstruct(&self, data_parts: usize) -> (r: bool)
        requires
            self.wf(),
        ensures
            r == (self.held_count() >= data_parts),
    {
        self.held >= data_parts
    }

    /// The payloads, in ordinal order, with `None` for a missing part.
    pub fn payload_slots(&self) -> (r: Vec<Option<Vec<u8>>>)
        ensures
            opt_views(r@) == payloads(self.parts@),
    {
        let mut r: Vec<Option<Vec<u8>>> = Vec::new();
        let mut i: usize = 0;
        while i < self.parts.len()
            invariant
                i <= self.parts.len(),
                r.len() == i,
                opt_views(r@) == payloads(self.parts@).take(i as int),
            decreases self.parts.len() - i,
        {
            let ghost before = r@;
            match &self.parts[i] {
                Some(p) => {
                    let c = p.part.clone();
                    assert(c@ =~= p.part@);
                    r.push(Some(c));
                },
                None => {
                    r.push(None);
                },
            }
            assert(opt_views(r@)[i as int] == payloads(self.parts@)[i as int]);
            assert forall|a: int| 0 <= a < i implies opt_views(r@)[a] == opt_views(before)[a] by {
                assert(r@[a] == before[a]);
            }
            assert(opt_views(r@) =~= payloads(self.parts@).take(i + 1));
            i = i + 1;
        }
        assert(payloads(self.parts@).take(i as int) =~= payloads(self.parts@));
        r
    }
}

/// Offering a valid new part twice gives `Accepted` and then `Duplicate`, and
/// the second offer leaves the stored parts as the first left them.
pub proof fn lemma_accept_idempotent(parts: Seq<Option<ChunkPart>>, root: Seq<u8>, p: ChunkPart)
    requires
        part_valid(root, parts.len(), p),
        parts[p.part_ord as int] is None,
    ensures
        accept_spec(parts, root, p).0 == AcceptOutcome::Accepted,
        accept_spec(accept_spec(parts, root, p).1, root, p).0 == AcceptOutcome::Duplicate,
        accept_spec(accept_spec(parts, root, p).1, root, p).1 == accept_spec(parts, root, p).1,
{
}

/// A part whose proof does not lead to the content root is never stored,
/// whatever the slots held before.
pub proof fn lemma_invalid_never_stored(parts: Seq<Option<ChunkPart>>, root: Seq<u8>, p: ChunkPart)
    requires
        !part_valid(root, parts.len(), p),
    ensures
        accept_spec(parts, root, p).0 is Rejected,
        accept_spec(parts, root, p).1 == parts,
{
}

} // verus!
