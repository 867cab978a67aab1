//! The per-chunk state machine and the manager that drives it one message at a time.
use vstd::prelude::*;
use crate::codec::{decode, decodes_to, encode, encode_spec, part_size, uniform_len, views, CodecError};
use crate::merkle::{bytes_eq, copy_bytes, leaf_views, merklize, tree_root, MerklePathItem};
use crate::store::{part_valid, payloads, ChunkHeader, ChunkPart, PartStore};

verus! {

/// The periodic trigger that asks the manager to resend overdue part requests.
#[derive(Clone, Debug, PartialEq, Eq)]
pub struct ShardsManagerResendChunkRequests;

/// Settings of one manager, fixed for the epoch it serves.
pub struct ManagerConfig {
    /// The account this node runs as.
    pub me: u64,
    pub data_parts: usize,
    pub total_parts: usize,
    /// Part `ord` is owned by `block_producers[ord % block_producers.len()]`.
    pub block_producers: Vec<u64>,
    pub track_all_shards: bool,
    pub tracked_shards: Vec<u64>,
    /// How long to wait for a part before asking again.
    pub resend_interval: u64,
    /// How many times one part may be asked for in all.
    pub max_attempts: u64,
    /// Whether to ask peers for parts that this node owns itself.
    pub request_own_parts: bool,
    /// How many chunks with an unknown parent block may wait at once.
    pub max_orphans: usize,
    /// How long such a chunk may wait for its parent block.
    pub orphan_horizon: u64,
}

impl ManagerConfig {
    pub open spec fn wf(&self) -> bool {
        &&& 1 <= self.data_parts <= self.total_parts <= 256
        &&& self.block_producers.len() >= 1
        &&& self.max_attempts >= 1
    }

    /// The account that owns part `ord`.
    pub open spec fn owner_spec(&self, ord: int) -> u64 {
        self.block_producers@[ord % (self.block_producers.len() as int)]
    }

    pub open spec fn cares_spec(&self, shard_id: u64) -> bool {
        self.track_all_shards || self.tracked_shards@.contains(shard_id)
    }

    /// Part `ord` is one to ask peers for.
    pub open spec fn wanted(&self, ord: int) -> bool {
        self.request_own_parts || self.owner_spec(ord) != self.me
    }

    pub fn part_owner(&self, ord: u64) -> (r: u64)
        requires
            self.wf(),
        ensures
            r == self.owner_spec(ord as int),
    {
        self.block_producers[(ord % (self.block_producers.len() as u64)) as usize]
    }

    /// Whether this node tracks `shard_id` in full.
    pub fn cares_about_shard(&self, shard_id: u64) -> (r: bool)
        ensures
            r == self.cares_spec(shard_id),
    {
        if self.track_all_shards {
            return true;
        }
        let mut i: usize = 0;
        while i < self.tracked_shards.len()
            invariant
                i <= self.tracked_shards.len(),
                forall|k: int| 0 <= k < i ==> self.tracked_shards@[k] != shard_id,
            decreases self.tracked_shards.len() - i,
        {
            if self.tracked_shards[i] == shard_id {
                return true;
            }
            i = i + 1;
        }
        false
    }
}

/// Where a chunk stands. All but `AwaitingParts` are terminal.
#[derive(Clone, Debug)]
pub enum ChunkState {
    AwaitingParts,
    ReadyForInclusion,
    Complete(Vec<u8>),
    PermanentlyMissing,
    Failed,
}

/// What the pipeline is told, once per chunk.
#[derive(Clone, Debug)]
pub enum Notification {
    ChunkCompleted { chunk_hash: Vec<u8>, body: Vec<u8> },
    HeaderReadyForInclusion { chunk_hash: Vec<u8> },
    ChunkPermanentlyMissing { chunk_hash: Vec<u8> },
    ChunkFailed { chunk_hash: Vec<u8> },
}

/// A message for a peer or for the pipeline, sent by the host.
#[derive(Clone, Debug)]
pub enum Outgoing {
    RequestPart { target: u64, chunk_hash: Vec<u8>, part_ord: u64 },
    RespondParts { target: u64, chunk_hash: Vec<u8>, parts: Vec<ChunkPart> },
    Notify(Notification),
}

/// A part asked for and not yet received.
#[derive(Clone, Copy, Debug, PartialEq, Eq, Structural)]
pub struct PendingRequest {
    pub part_ord: u64,
    pub target: u64,
    pub last_sent: u64,
    pub attempts: u64,
}

pub open spec fn is_terminal(s: ChunkState) -> bool {
    !(s is AwaitingParts)
}

/// The number of notifications among `out`.
pub open spec fn count_notes(out: Seq<Outgoing>) -> nat
    decreases out.len(),
{
    if out.len() == 0 {
        0
    } else {
        count_notes(out.drop_last()) + if out.last() is Notify { 1nat } else { 0nat }
    }
}

/// The number of part requests among `out`.
pub open spec fn count_requests(out: Seq<Outgoing>) -> nat
    decreases out.len(),
{
    if out.len() == 0 {
        0
    } else {
        count_requests(out.drop_last()) + if out.last() is RequestPart { 1nat } else { 0nat }
    }
}

/// Ordinals below `n` that are neither held nor left to this node, in order.
pub open spec fn missing_upto(cfg: ManagerConfig, slots: Seq<Option<ChunkPart>>, n: int) -> Seq<u64>
    decreases n,
{
    if n <= 0 {
        Seq::empty()
    } else {
        missing_upto(cfg, slots, n - 1) + if slots[n - 1] is None && cfg.wanted(n - 1) {
            seq![(n - 1) as u64]
        } else {
            Seq::empty()
        }
    }
}

/// Tracking state of one chunk.
pub struct ChunkEntry {
    pub header: ChunkHeader,
    pub store: PartStore,
    pub state: ChunkState,
    pub full_tracking: bool,
    pub requests: Vec<PendingRequest>,
    /// How many notifications have been emitted for this chunk.
    pub notified: Ghost<nat>,
}

impl ChunkEntry {
    pub open spec fn wf(&self, cfg: ManagerConfig) -> bool {
        &&& self.store.wf()
        &&& self.store.parts.len() == cfg.total_parts
        &&& self.store.root@ == self.header.encoded_merkle_root@
        &&& self.notified@ == if is_terminal(self.state) { 1nat } else { 0nat }
        &&& is_terminal(self.state) ==> self.requests.len() == 0
        &&& !self.full_tracking ==> self.state is ReadyForInclusion
        &&& self.state is Complete ==> self.store.held_count() >= cfg.data_parts
        &&& forall|j: int| 0 <= j < self.requests.len() ==> {
            &&& 1 <= (#[trigger] self.requests[j]).attempts <= cfg.max_attempts
            &&& self.requests[j].part_ord < cfg.total_parts
        }
    }
}


pub open spec fn request_ords(reqs: Seq<PendingRequest>) -> Seq<u64> {
    Seq::new(reqs.len(), |j: int| reqs[j].part_ord)
}

/// `r` is overdue at time `now`.
pub open spec fn due(cfg: ManagerConfig, r: PendingRequest, now: u64) -> bool {
    now >= r.last_sent && now - r.last_sent > cfg.resend_interval
}

/// The part requests among `out`, in order, as (target, chunk hash, ordinal).
pub open spec fn req_view(out: Seq<Outgoing>) -> Seq<(u64, Seq<u8>, u64)>
    decreases out.len(),
{
    if out.len() == 0 {
        Seq::empty()
    } else {
        req_view(out.drop_last()) + match out.last() {
            Outgoing::RequestPart { target, chunk_hash, part_ord } => seq![(target, chunk_hash@, part_ord)],
            _ => Seq::empty(),
        }
    }
}

/// What offering `parts` to entry `e` does: `f` is the entry after, `out` what was sent.
pub open spec fn accepted(cfg: ManagerConfig, e: ChunkEntry, f: ChunkEntry, parts: Seq<ChunkPart>, out: Seq<Outgoing>) -> bool {
    &&& (forall|o: int| 0 <= o < cfg.total_parts && e.store.parts[o] is Some
            ==> f.store.parts[o] == e.store.parts[o])
    &&& (forall|j: int| 0 <= j < parts.len() && part_valid(e.store.root@, cfg.total_parts as nat, #[trigger] parts[j])
            ==> f.store.parts[parts[j].part_ord as int] is Some)
    &&& (is_terminal(e.state) ==> f.state == e.state)
    &&& (e.state is AwaitingParts && f.state != e.state ==> f.state is Complete || f.state is Failed)
    &&& ((e.state is AwaitingParts && e.full_tracking && f.store.held_count() >= cfg.data_parts
            && (e.header.encoded_length + cfg.data_parts > usize::MAX || !uniform_len(
                payloads(f.store.parts@),
                part_size(e.header.encoded_length as nat, cfg.data_parts as nat),
            ))) ==> f.state is Failed)
    &&& ((e.state is AwaitingParts && e.full_tracking
            && f.store.held_count() >= cfg.data_parts) ==> is_terminal(f.state))
    &&& (!(e.state is AwaitingParts && e.full_tracking
            && f.store.held_count() >= cfg.data_parts) ==> f.state == e.state)
    &&& (forall|b: Seq<u8>| e.state is AwaitingParts && e.full_tracking
            && e.header.encoded_length + cfg.data_parts <= usize::MAX
            && decodes_to(payloads(f.store.parts@), cfg.data_parts as nat, cfg.total_parts as nat,
                e.header.encoded_length as nat, b)
            ==> (commits(b, cfg.data_parts as nat, cfg.total_parts as nat, e.header.encoded_merkle_root@)
                ==> f.state is Complete && f.state->Complete_0@ == b)
            && (!commits(b, cfg.data_parts as nat, cfg.total_parts as nat, e.header.encoded_merkle_root@)
                ==> f.state is Failed))
    &&& (e.state is AwaitingParts && f.state is Complete ==> {
            let b = f.state->Complete_0@;
            &&& commits(b, cfg.data_parts as nat, cfg.total_parts as nat, e.header.encoded_merkle_root@)
            &&& out.len() == 1
            &&& out[0] matches Outgoing::Notify(Notification::ChunkCompleted { chunk_hash, body })
                && chunk_hash@ == e.header.chunk_hash@ && body@ == b
        })
    &&& (e.state is AwaitingParts && f.state is Failed ==> {
            &&& out.len() == 1
            &&& out[0] matches Outgoing::Notify(Notification::ChunkFailed { chunk_hash })
                && chunk_hash@ == e.header.chunk_hash@
        })
    &&& (f.state == e.state ==> out.len() == 0)
    &&& (forall|o: int| 0 <= o < cfg.total_parts && (#[trigger] f.store.parts[o]) is Some && e.store.parts[o] is None
            ==> parts.contains(f.store.parts[o]->0))
}

/// The encoding of `b` merklizes to `root`.
pub open spec fn commits(b: Seq<u8>, d: nat, t: nat, root: Seq<u8>) -> bool {
    tree_root(encode_spec(b, d, t), 0, t as int) == root
}

/// The requests among `reqs` that are overdue at `now`, as messages for chunk `h`.
pub open spec fn due_requests(cfg: ManagerConfig, reqs: Seq<PendingRequest>, now: u64, h: Seq<u8>) -> Seq<(u64, Seq<u8>, u64)>
    decreases reqs.len(),
{
    if reqs.len() == 0 {
        Seq::empty()
    } else {
        due_requests(cfg, reqs.drop_last(), now, h) + if due(cfg, reqs.last(), now) {
            seq![(reqs.last().target, h, reqs.last().part_ord)]
        } else {
            Seq::empty()
        }
    }
}

/// The requests that a resend at `now` sends again for entry `e`.
pub open spec fn resend_view(cfg: ManagerConfig, e: ChunkEntry, now: u64) -> Seq<(u64, Seq<u8>, u64)> {
    if is_terminal(e.state) || exhausted(cfg, e.requests@, now) {
        Seq::empty()
    } else {
        due_requests(cfg, e.requests@, now, e.header.chunk_hash@)
    }
}

/// The requests that a resend at `now` sends again for all of `chunks`, in order.
pub open spec fn all_resend(cfg: ManagerConfig, chunks: Seq<ChunkEntry>, now: u64) -> Seq<(u64, Seq<u8>, u64)>
    decreases chunks.len(),
{
    if chunks.len() == 0 {
        Seq::empty()
    } else {
        all_resend(cfg, chunks.drop_last(), now) + resend_view(cfg, chunks.last(), now)
    }
}

/// `f` is `e` after its overdue requests were sent again at `now`.
pub open spec fn requests_resent(cfg: ManagerConfig, e: ChunkEntry, f: ChunkEntry, now: u64) -> bool {
    &&& f.state == e.state
    &&& f.requests.len() == e.requests.len()
    &&& forall|j: int| 0 <= j < e.requests.len() ==> {
        let r = #[trigger] e.requests[j];
        let g = f.requests[j];
        &&& g.part_ord == r.part_ord && g.target == r.target
        &&& due(cfg, r, now) ==> g.attempts == r.attempts + 1 && g.last_sent == now
        &&& !due(cfg, r, now) ==> g == r
    }
}

/// Every notification in `out` says that a header is ready for inclusion.
pub open spec fn notes_ready_only(out: Seq<Outgoing>) -> bool {
    forall|j: int| 0 <= j < out.len() && (#[trigger] out[j]) is Notify ==> out[j]->Notify_0 is HeaderReadyForInclusion
}

/// Every part request in `out` goes to the owner of its ordinal.
pub open spec fn requests_owned(cfg: ManagerConfig, out: Seq<Outgoing>) -> bool {
    forall|j: int| 0 <= j < out.len() ==> (#[trigger] out[j] matches Outgoing::RequestPart { target, part_ord, .. }
        ==> target == cfg.owner_spec(part_ord as int) && part_ord < cfg.total_parts)
}

/// Every notification in `out` says that a chunk is permanently missing.
pub open spec fn notes_missing_only(out: Seq<Outgoing>) -> bool {
    forall|j: int| 0 <= j < out.len() && (#[trigger] out[j]) is Notify ==> out[j]->Notify_0 is ChunkPermanentlyMissing
}

/// Some overdue request has used up its attempts.
pub open spec fn exhausted(cfg: ManagerConfig, reqs: Seq<PendingRequest>, now: u64) -> bool {
    exists|j: int| 0 <= j < reqs.len() && due(cfg, #[trigger] reqs[j], now) && reqs[j].attempts >= cfg.max_attempts
}

/// The chunk that a notification is about.
pub open spec fn note_hash(n: Notification) -> Seq<u8> {
    match n {
        Notification::ChunkCompleted { chunk_hash, .. } => chunk_hash@,
        Notification::HeaderReadyForInclusion { chunk_hash } => chunk_hash@,
        Notification::ChunkPermanentlyMissing { chunk_hash } => chunk_hash@,
        Notification::ChunkFailed { chunk_hash } => chunk_hash@,
    }
}

/// Every notification in `out` is about chunk `h`.
pub open spec fn notes_all_for(out: Seq<Outgoing>, h: Seq<u8>) -> bool {
    forall|j: int| 0 <= j < out.len() && (#[trigger] out[j]) is Notify ==> note_hash(out[j]->Notify_0) == h
}

/// The number of notifications in `out` about chunk `h`.
pub open spec fn count_notes_for(out: Seq<Outgoing>, h: Seq<u8>) -> nat
    decreases out.len(),
{
    if out.len() == 0 {
        0
    } else {
        count_notes_for(out.drop_last(), h) + if out.last() is Notify && note_hash(out.last()->Notify_0) == h {
            1nat
        } else {
            0nat
        }
    }
}

pub proof fn lemma_notes_for(out: Seq<Outgoing>, h: Seq<u8>, g: Seq<u8>)
    requires
        notes_all_for(out, h),
    ensures
        count_notes_for(out, h) == count_notes(out),
        g != h ==> count_notes_for(out, g) == 0,
    decreases out.len(),
{
    if out.len() > 0 {
        let d = out.drop_last();
        assert forall|j: int| 0 <= j < d.len() && (#[trigger] d[j]) is Notify implies note_hash(d[j]->Notify_0) == h by {
            assert(d[j] == out[j]);
        }
        lemma_notes_for(d, h, g);
    }
}

pub proof fn lemma_notes_for_concat(a: Seq<Outgoing>, b: Seq<Outgoing>, h: Seq<u8>)
    ensures
        count_notes_for(a + b, h) == count_notes_for(a, h) + count_notes_for(b, h),
        count_notes(a + b) == count_notes(a) + count_notes(b),
        count_requests(a + b) == count_requests(a) + count_requests(b),
        req_view(a + b) == req_view(a) + req_view(b),
    decreases b.len(),
{
    if b.len() > 0 {
        assert((a + b).drop_last() =~= a + b.drop_last());
        lemma_notes_for_concat(a, b.drop_last(), h);
        assert(req_view(a + b) =~= req_view(a) + req_view(b));
    } else {
        assert(a + b =~= a);
        assert(req_view(b) =~= Seq::<(u64, Seq<u8>, u64)>::empty());
        assert(req_view(a) + req_view(b) =~= req_view(a));
    }
}

/// The requested ordinals that are held, in the order asked.
pub open spec fn held_among(slots: Seq<Option<ChunkPart>>, ords: Seq<u64>) -> Seq<u64>
    decreases ords.len(),
{
    if ords.len() == 0 {
        Seq::empty()
    } else {
        let o = ords.last();
        held_among(slots, ords.drop_last()) + if o < slots.len() && slots[o as int] is Some {
            seq![o]
        } else {
            Seq::empty()
        }
    }
}

/// `a` carries the same ordinal, payload and proof as `b`.
pub open spec fn same_part(a: ChunkPart, b: ChunkPart) -> bool {
    &&& a.part_ord == b.part_ord
    &&& a.part@ == b.part@
    &&& a.merkle_proof.len() == b.merkle_proof.len()
    &&& forall|j: int| 0 <= j < a.merkle_proof.len() ==> (#[trigger] a.merkle_proof[j]).hash@ == b.merkle_proof[j].hash@
        && a.merkle_proof[j].sibling_on_left == b.merkle_proof[j].sibling_on_left
}

/// A copy of `p`.
pub fn copy_part(p: &ChunkPart) -> (r: ChunkPart)
    ensures
        same_part(r, *p),
{
    let mut proof_items: Vec<MerklePathItem> = Vec::new();
    let mut j: usize = 0;
    while j < p.merkle_proof.len()
        invariant
            j <= p.merkle_proof.len(),
            proof_items.len() == j,
            forall|a: int| 0 <= a < j ==> (#[trigger] proof_items[a]).hash@ == p.merkle_proof[a].hash@
                && proof_items[a].sibling_on_left == p.merkle_proof[a].sibling_on_left,
        decreases p.merkle_proof.len() - j,
    {
        let item = &p.merkle_proof[j];
        proof_items.push(MerklePathItem { hash: copy_bytes(&item.hash), sibling_on_left: item.sibling_on_left });
        j = j + 1;
    }
    ChunkPart { part_ord: p.part_ord, part: copy_bytes(&p.part), merkle_proof: proof_items }
}

pub proof fn lemma_count_push(out: Seq<Outgoing>, o: Outgoing)
    ensures
        count_notes(out.push(o)) == count_notes(out) + if o is Notify { 1nat } else { 0nat },
        count_requests(out.push(o)) == count_requests(out) + if o is RequestPart { 1nat } else { 0nat },
        req_view(out.push(o)) == req_view(out) + match o {
            Outgoing::RequestPart { target, chunk_hash, part_ord } => seq![(target, chunk_hash@, part_ord)],
            _ => Seq::empty(),
        },
{
    assert(out.push(o).drop_last() =~= out);
}

impl ChunkEntry {
    pub open spec fn same_but_requests(&self, other: &ChunkEntry) -> bool {
        &&& self.header == other.header
        &&& self.store == other.store
        &&& self.state == other.state
        &&& self.full_tracking == other.full_tracking
        &&& self.notified == other.notified
    }

    pub fn is_awaiting(&self) -> (r: bool)
        ensures
            r == (self.state is AwaitingParts),
    {
        match &self.state {
            ChunkState::AwaitingParts => true,
            _ => false,
        }
    }

    /// Asks the owner of every missing part that this node should ask for.
    pub fn request_missing(&mut self, cfg: &ManagerConfig, now: u64) -> (out: Vec<Outgoing>)
        requires
            cfg.wf(),
            old(self).wf(*cfg),
            old(self).state is AwaitingParts,
            old(self).full_tracking,
        ensures
            final(self).wf(*cfg),
            final(self).same_but_requests(old(self)),
            request_ords(final(self).requests@) == missing_upto(*cfg, old(self).store.parts@, cfg.total_parts as int),
            out.len() == final(self).requests.len(),
            count_notes(out@) == 0,
            count_requests(out@) == out.len(),
            notes_all_for(out@, old(self).header.chunk_hash@),
            forall|j: int| 0 <= j < out.len() ==> {
                let r = #[trigger] final(self).requests[j];
                &&& r.target == cfg.owner_spec(r.part_ord as int)
                &&& r.attempts == 1
                &&& r.last_sent == now
                &&& out[j] matches Outgoing::RequestPart { target, chunk_hash, part_ord }
                    && target == r.target && part_ord == r.part_ord && chunk_hash@ == old(self).header.chunk_hash@
            },
    {
        let mut reqs: Vec<PendingRequest> = Vec::new();
        let mut out: Vec<Outgoing> = Vec::new();
        let ghost slots = self.store.parts@;
        let mut ord: usize = 0;
        while ord < cfg.total_parts
            invariant
                cfg.wf(),
                slots == self.store.parts@,
                slots.len() == cfg.total_parts,
                ord <= cfg.total_parts,
                reqs.len() == out.len(),
                request_ords(reqs@) == missing_upto(*cfg, slots, ord as int),
                count_notes(out@) == 0,
                count_requests(out@) == out.len(),
                forall|j: int| 0 <= j < out.len() ==> !((#[trigger] out[j]) is Notify),
                forall|j: int| 0 <= j < out.len() ==> {
                    let r = #[trigger] reqs[j];
                    &&& r.target == cfg.owner_spec(r.part_ord as int)
                    &&& r.attempts == 1
                    &&& r.last_sent == now
                    &&& r.part_ord < cfg.total_parts
                    &&& out[j] matches Outgoing::RequestPart { target, chunk_hash, part_ord }
                        && target == r.target && part_ord == r.part_ord && chunk_hash@ == self.header.chunk_hash@
                },
            decreases cfg.total_parts - ord,
        {
            let held = self.store.has_part(ord as u64);
            let target = cfg.part_owner(ord as u64);
            if !held && (cfg.request_own_parts || target != cfg.me) {
                let ghost before = reqs@;
                reqs.push(PendingRequest { part_ord: ord as u64, target, last_sent: now, attempts: 1 });
                let o = Outgoing::RequestPart { target, chunk_hash: copy_bytes(&self.header.chunk_hash), part_ord: ord as u64 };
                proof {
                    lemma_count_push(out@, o);
                }
                out.push(o);
                assert(request_ords(reqs@) =~= request_ords(before) + seq![ord as u64]);
            }
            ord = ord + 1;
        }
        self.requests = reqs;
        out
    }

    /// Drops the pending requests whose parts are now held.
    fn drop_fulfilled(&mut self, cfg: &ManagerConfig)
        requires
            old(self).wf(*cfg),
        ensures
            final(self).wf(*cfg),
            final(self).same_but_requests(old(self)),
            forall|j: int| 0 <= j < final(self).requests.len() ==> {
                let r = #[trigger] final(self).requests[j];
                &&& final(self).store.parts[r.part_ord as int] is None
                &&& old(self).requests@.contains(r)
            },
            forall|j: int| 0 <= j < old(self).requests.len()
                && old(self).store.parts[(#[trigger] old(self).requests[j]).part_ord as int] is None
                ==> final(self).requests@.contains(old(self).requests[j]),
    {
        let mut kept: Vec<PendingRequest> = Vec::new();
        let mut j: usize = 0;
        while j < self.requests.len()
            invariant
                self.wf(*cfg),
                j <= self.requests.len(),
                kept.len() <= j,
                forall|a: int| 0 <= a < kept.len() ==> {
                    let r = #[trigger] kept[a];
                    &&& self.store.parts[r.part_ord as int] is None
                    &&& self.requests@.contains(r)
                    &&& 1 <= r.attempts <= cfg.max_attempts
                    &&& r.part_ord < cfg.total_parts
                },
                forall|a: int| 0 <= a < j && self.store.parts[(#[trigger] self.requests[a]).part_ord as int] is None
                    ==> kept@.contains(self.requests[a]),
            decreases self.requests.len() - j,
        {
            let r = self.requests[j];
            let ghost before = kept@;
            if !self.store.has_part(r.part_ord) {
                kept.push(r);
                assert(kept@[kept.len() - 1] == r);
            }
            assert forall|a: int| 0 <= a < j + 1 && self.store.parts[(#[trigger] self.requests[a]).part_ord as int] is None
                implies kept@.contains(self.requests[a]) by {
                if a < j {
                    assert(before.contains(self.requests[a]));
                    let w = choose|w: int| 0 <= w < before.len() && before[w] == self.requests[a];
                    assert(kept@[w] == before[w]);
                }
            }
            j = j + 1;
        }
        self.requests = kept;
    }

    /// Offers each of `parts` to the store, then rebuilds the body once enough
    /// parts of a fully tracked chunk are held.
    pub fn accept_parts(&mut self, cfg: &ManagerConfig, parts: Vec<ChunkPart>) -> (out: Vec<Outgoing>)
        requires
            cfg.wf(),
            old(self).wf(*cfg),
        ensures
            final(self).wf(*cfg),
            final(self).header == old(self).header,
            final(self).full_tracking == old(self).full_tracking,
            final(self).notified@ == old(self).notified@ + count_notes(out@),
            count_requests(out@) == 0,
            notes_all_for(out@, old(self).header.chunk_hash@),
            accepted(*cfg, *old(self), *final(self), parts@, out@),
    {
        let ghost orig = parts@;
        let ghost root = self.store.root@;
        let mut parts = parts;
        let mut out: Vec<Outgoing> = Vec::new();
        let ghost start = *self;
        while parts.len() > 0
            invariant
                self.wf(*cfg),
                self.same_but_requests(&start) || (self.header == start.header && self.state == start.state
                    && self.full_tracking == start.full_tracking && self.notified == start.notified),
                self.store.root@ == root,
                self.store.parts.len() == cfg.total_parts,
                parts.len() <= orig.len(),
                parts@ == orig.subrange(orig.len() - parts.len(), orig.len() as int),
                forall|o: int| 0 <= o < cfg.total_parts && start.store.parts[o] is Some
                    ==> self.store.parts[o] == start.store.parts[o],
                forall|j: int| 0 <= j < orig.len() - parts.len() && part_valid(root, cfg.total_parts as nat, #[trigger] orig[j])
                    ==> self.store.parts[orig[j].part_ord as int] is Some,
                forall|o: int| 0 <= o < cfg.total_parts && (#[trigger] self.store.parts[o]) is Some && start.store.parts[o] is None
                    ==> orig.contains(self.store.parts[o]->0),
            decreases parts.len(),
        {
            let ghost k = orig.len() - parts.len();
            let p = parts.remove(0);
            assert(p == orig[k]);
            let ghost before = self.store.parts@;
            let ghost pp = p;
            let _ = self.store.accept_part(p);
            assert(parts@ =~= orig.subrange(orig.len() - parts.len(), orig.len() as int));
            assert forall|o: int| 0 <= o < cfg.total_parts && (#[trigger] self.store.parts[o]) is Some && start.store.parts[o] is None
                implies orig.contains(self.store.parts[o]->0) by {
                if before[o] is None {
                    assert(self.store.parts[o]->0 == pp);
                    assert(orig[k as int] == pp);
                } else {
                    assert(self.store.parts[o] == before[o]);
                }
            }
            assert forall|o: int| 0 <= o < cfg.total_parts && before[o] is Some implies self.store.parts[o] == before[o] by {}
        }
        self.drop_fulfilled(cfg);
        let ready = self.store.ready_to_reconstruct(cfg.data_parts);
        if self.is_awaiting() && self.full_tracking && ready {
            let slots = self.store.payload_slots();
            let len = self.header.encoded_length;
            let res = if len <= (usize::MAX - cfg.data_parts) as u64 {
                decode(&slots, cfg.data_parts, cfg.total_parts, len as usize)
            } else {
                Err(CodecError::Corrupt)
            };
            let hash = copy_bytes(&self.header.chunk_hash);
            let o = match res {
                Ok(body) => {
                    let again = encode(&body, cfg.data_parts, cfg.total_parts);
                    let (root, _) = merklize(&again);
                    proof {
                        assert(leaf_views(again@) =~= views(again@));
                    }
                    if bytes_eq(&root, &self.header.encoded_merkle_root) {
                        let copy = copy_bytes(&body);
                        self.state = ChunkState::Complete(body);
                        Outgoing::Notify(Notification::ChunkCompleted { chunk_hash: hash, body: copy })
                    } else {
                        self.state = ChunkState::Failed;
                        Outgoing::Notify(Notification::ChunkFailed { chunk_hash: hash })
                    }
                },
                Err(_) => {
                    self.state = ChunkState::Failed;
                    Outgoing::Notify(Notification::ChunkFailed { chunk_hash: hash })
                },
            };
            proof {
                lemma_count_push(out@, o);
            }
            out.push(o);
            self.requests = Vec::new();
            self.notified = Ghost(1nat);
        }
        out
    }

    /// At time `now`, asks again for each overdue part, or gives the chunk up
    /// once an overdue part has been asked for `max_attempts` times.
    pub fn resend(&mut self, cfg: &ManagerConfig, now: u64) -> (out: Vec<Outgoing>)
        requires
            cfg.wf(),
            old(self).wf(*cfg),
        ensures
            final(self).wf(*cfg),
            final(self).header == old(self).header,
            final(self).store == old(self).store,
            final(self).full_tracking == old(self).full_tracking,
            final(self).notified@ == old(self).notified@ + count_notes(out@),
            notes_all_for(out@, old(self).header.chunk_hash@),
            is_terminal(old(self).state) ==> final(self).state == old(self).state && out.len() == 0,
            req_view(out@) == resend_view(*cfg, *old(self), now),
            notes_missing_only(out@),
            exhausted(*cfg, old(self).requests@, now) && !is_terminal(old(self).state) ==> {
                &&& final(self).state is PermanentlyMissing
                &&& count_requests(out@) == 0
                &&& final(self).requests.len() == 0
                &&& out.len() == 1
                &&& out[0] matches Outgoing::Notify(Notification::ChunkPermanentlyMissing { chunk_hash })
                    && chunk_hash@ == old(self).header.chunk_hash@
            },
            !exhausted(*cfg, old(self).requests@, now) && !is_terminal(old(self).state) ==> {
                &&& final(self).state == old(self).state
                &&& count_notes(out@) == 0
                &&& final(self).requests.len() == old(self).requests.len()
                &&& forall|j: int| 0 <= j < old(self).requests.len() ==> {
                    let r = #[trigger] old(self).requests[j];
                    let f = final(self).requests[j];
                    &&& f.part_ord == r.part_ord && f.target == r.target
                    &&& due(*cfg, r, now) ==> f.attempts == r.attempts + 1 && f.last_sent == now
                    &&& !due(*cfg, r, now) ==> f == r
                }
                &&& count_requests(out@) == out.len()
            },
    {
        let mut out: Vec<Outgoing> = Vec::new();
        if !self.is_awaiting() {
            assert(req_view(out@) =~= Seq::<(u64, Seq<u8>, u64)>::empty());
            return out;
        }
        let mut j: usize = 0;
        let mut give_up = false;
        while j < self.requests.len()
            invariant
                j <= self.requests.len(),
                give_up == exists|a: int| 0 <= a < j && due(*cfg, #[trigger] self.requests[a], now)
                    && self.requests[a].attempts >= cfg.max_attempts,
            decreases self.requests.len() - j,
        {
            let r = self.requests[j];
            if now >= r.last_sent && now - r.last_sent > cfg.resend_interval && r.attempts >= cfg.max_attempts {
                give_up = true;
            }
            j = j + 1;
        }
        if give_up {
            let o = Outgoing::Notify(Notification::ChunkPermanentlyMissing { chunk_hash: copy_bytes(&self.header.chunk_hash) });
            proof {
                lemma_count_push(out@, o);
            }
            out.push(o);
            assert(req_view(out@) =~= Seq::<(u64, Seq<u8>, u64)>::empty());
            self.state = ChunkState::PermanentlyMissing;
            self.requests = Vec::new();
            self.notified = Ghost(1nat);
            return out;
        }
        let ghost start = self.requests@;
        let ghost entry0 = *self;
        let mut j: usize = 0;
        while j < self.requests.len()
            invariant
                cfg.wf(),
                entry0.wf(*cfg),
                entry0.requests@ == start,
                self.same_but_requests(&entry0),
                self.state is AwaitingParts,
                j <= self.requests.len(),
                self.requests.len() == start.len(),
                !exhausted(*cfg, start, now),
                count_notes(out@) == 0,
                count_requests(out@) == out.len(),
                req_view(out@) == due_requests(*cfg, start.take(j as int), now, entry0.header.chunk_hash@),
                forall|a: int| 0 <= a < out.len() ==> !((#[trigger] out[a]) is Notify),
                forall|a: int| 0 <= a < start.len() ==> {
                    &&& 1 <= (#[trigger] self.requests[a]).attempts <= cfg.max_attempts
                    &&& self.requests[a].part_ord < cfg.total_parts
                },
                forall|a: int| 0 <= a < start.len() ==> {
                    let r = #[trigger] start[a];
                    let f = self.requests[a];
                    &&& f.part_ord == r.part_ord && f.target == r.target
                    &&& a < j && due(*cfg, r, now) ==> f.attempts == r.attempts + 1 && f.last_sent == now
                    &&& !(a < j && due(*cfg, r, now)) ==> f == r
                },
            decreases self.requests.len() - j,
        {
            let r = self.requests[j];
            assert(start.take(j + 1).drop_last() =~= start.take(j as int));
            assert(start.take(j + 1).last() == r);
            if now >= r.last_sent && now - r.last_sent > cfg.resend_interval {
                assert(!(due(*cfg, start[j as int], now) && start[j as int].attempts >= cfg.max_attempts));
                let o = Outgoing::RequestPart { target: r.target, chunk_hash: copy_bytes(&self.header.chunk_hash), part_ord: r.part_ord };
                proof {
                    lemma_count_push(out@, o);
                }
                out.push(o);
                self.requests.set(j, PendingRequest { part_ord: r.part_ord, target: r.target, last_sent: now, attempts: r.attempts + 1 });
            }
            j = j + 1;
        }
        assert(start.take(j as int) =~= start);
        out
    }
}

/// Orphan `o` has waited long enough at time `now` to be dropped.
pub open spec fn orphan_expired(cfg: ManagerConfig, o: OrphanChunk, now: u64) -> bool {
    now >= o.received && now - o.received >= cfg.orphan_horizon
}

/// Tracks every chunk this node has seen, one message at a time.
pub struct ShardsManager {
    pub config: ManagerConfig,
    pub chunks: Vec<ChunkEntry>,
    /// Blocks known to the chain.
    pub known_blocks: Vec<Vec<u8>>,
    /// Headers whose parent block is not known yet.
    pub orphans: Vec<OrphanChunk>,
}

/// A header waiting for its parent block, and when it came.
pub struct OrphanChunk {
    pub header: ChunkHeader,
    pub received: u64,
}

impl ShardsManager {
    pub open spec fn wf(&self) -> bool {
        &&& self.config.wf()
        &&& forall|i: int| 0 <= i < self.chunks.len() ==> (#[trigger] self.chunks[i]).wf(self.config)
        &&& forall|i: int, j: int| 0 <= i < self.chunks.len() && 0 <= j < self.chunks.len() && i != j
            ==> (#[trigger] self.chunks[i]).header.chunk_hash@ != (#[trigger] self.chunks[j]).header.chunk_hash@
        &&& self.orphans.len() <= self.config.max_orphans
    }

    pub open spec fn block_known_spec(&self, h: Seq<u8>) -> bool {
        exists|i: int| 0 <= i < self.known_blocks.len() && (#[trigger] self.known_blocks[i])@ == h
    }

    pub open spec fn has_chunk(&self, h: Seq<u8>) -> bool {
        exists|i: int| 0 <= i < self.chunks.len() && (#[trigger] self.chunks[i]).header.chunk_hash@ == h
    }

    /// Whether block `h` is known.
    pub fn block_known(&self, h: &Vec<u8>) -> (r: bool)
        ensures
            r == self.block_known_spec(h@),
    {
        let mut i: usize = 0;
        while i < self.known_blocks.len()
            invariant
                i <= self.known_blocks.len(),
                forall|a: int| 0 <= a < i ==> (#[trigger] self.known_blocks[a])@ != h@,
            decreases self.known_blocks.len() - i,
        {
            if bytes_eq(&self.known_blocks[i], h) {
                return true;
            }
            i = i + 1;
        }
        false
    }

    /// Entry `i` of `final` is entry `i` of `old` (or new) with its notification
    /// count raised by exactly the notifications about it in `out`.
    pub open spec fn accounted(old: &ShardsManager, new: &ShardsManager, out: Seq<Outgoing>) -> bool {
        &&& new.config == old.config
        &&& new.chunks.len() >= old.chunks.len()
        &&& forall|i: int| 0 <= i < old.chunks.len() ==> (#[trigger] new.chunks[i]).header == old.chunks[i].header
        &&& forall|i: int| 0 <= i < old.chunks.len() ==> (is_terminal(old.chunks[i].state)
            ==> (#[trigger] new.chunks[i]).state == old.chunks[i].state)
        &&& forall|i: int| 0 <= i < old.chunks.len() ==> count_notes_for(out, (#[trigger] new.chunks[i]).header.chunk_hash@)
            == new.chunks[i].notified@ - old.chunks[i].notified@
        &&& forall|i: int| old.chunks.len() <= i < new.chunks.len() ==> count_notes_for(
            out,
            (#[trigger] new.chunks[i]).header.chunk_hash@,
        ) == new.chunks[i].notified@
        &&& forall|h: Seq<u8>| count_notes_for(out, h) > 0 ==> exists|i: int|
            0 <= i < new.chunks.len() && (#[trigger] new.chunks[i]).header.chunk_hash@ == h
    }

    /// A manager with no chunks, on a chain that knows block `genesis`.
    pub fn new(config: ManagerConfig, genesis: Vec<u8>) -> (r: ShardsManager)
        requires
            config.wf(),
        ensures
            r.wf(),
            r.config == config,
            r.chunks.len() == 0,
            r.orphans.len() == 0,
            r.known_blocks@ == seq![genesis],
    {
        let mut known_blocks: Vec<Vec<u8>> = Vec::new();
        known_blocks.push(genesis);
        ShardsManager { config, chunks: Vec::new(), known_blocks, orphans: Vec::new() }
    }

    /// The index of the chunk with hash `hash`.
    pub fn find_chunk(&self, hash: &Vec<u8>) -> (r: Option<usize>)
        ensures
            r matches Some(i) ==> i < self.chunks.len() && self.chunks[i as int].header.chunk_hash@ == hash@,
            r is None ==> forall|i: int| 0 <= i < self.chunks.len() ==> (#[trigger] self.chunks[i]).header.chunk_hash@ != hash@,
    {
        let mut i: usize = 0;
        while i < self.chunks.len()
            invariant
                i <= self.chunks.len(),
                forall|a: int| 0 <= a < i ==> (#[trigger] self.chunks[a]).header.chunk_hash@ != hash@,
            decreases self.chunks.len() - i,
        {
            if bytes_eq(&self.chunks[i].header.chunk_hash, hash) {
                return Some(i);
            }
            i = i + 1;
        }
        None
    }

    /// Starts tracking the chunk of `header`. A chunk of a shard that this node
    /// does not track is ready for inclusion at once; for any other chunk the
    /// owners of its missing parts are asked for them. A known chunk is left alone.
    fn track_header(&mut self, header: ChunkHeader, now: u64) -> (out: Vec<Outgoing>)
        requires
            old(self).wf(),
        ensures
            final(self).wf(),
            Self::accounted(old(self), final(self), out@),
            final(self).known_blocks == old(self).known_blocks,
            final(self).orphans == old(self).orphans,
            notes_ready_only(out@),
            requests_owned(old(self).config, out@),
            (exists|i: int| 0 <= i < old(self).chunks.len()
                && (#[trigger] old(self).chunks[i]).header.chunk_hash@ == header.chunk_hash@)
                ==> final(self).chunks@ == old(self).chunks@ && out.len() == 0,
            (forall|i: int| 0 <= i < old(self).chunks.len()
                ==> (#[trigger] old(self).chunks[i]).header.chunk_hash@ != header.chunk_hash@) ==> {
                let e = final(self).chunks[old(self).chunks.len() as int];
                &&& final(self).chunks.len() == old(self).chunks.len() + 1
                &&& final(self).chunks@.take(old(self).chunks.len() as int) == old(self).chunks@
                &&& e.header == header
                &&& e.store.held_count() == 0
                &&& e.full_tracking == old(self).config.cares_spec(header.shard_id)
                &&& !old(self).config.cares_spec(header.shard_id) ==> {
                    &&& e.state is ReadyForInclusion
                    &&& count_requests(out@) == 0
                    &&& count_notes(out@) == 1
                    &&& out.len() == 1
                    &&& out[0] matches Outgoing::Notify(Notification::HeaderReadyForInclusion { chunk_hash })
                        && chunk_hash@ == header.chunk_hash@
                }
                &&& old(self).config.cares_spec(header.shard_id) ==> {
                    &&& e.state is AwaitingParts
                    &&& count_notes(out@) == 0
                    &&& request_ords(e.requests@) == missing_upto(old(self).config, e.store.parts@, old(self).config.total_parts as int)
                    &&& count_requests(out@) == out.len()
                    &&& out.len() == e.requests.len()
                    &&& forall|j: int| 0 <= j < out.len() ==> ((#[trigger] out[j]) matches Outgoing::RequestPart { target, chunk_hash, part_ord }
                        && part_ord == e.requests[j].part_ord && target == old(self).config.owner_spec(part_ord as int)
                        && chunk_hash@ == header.chunk_hash@)
                }
            },
    {
        match self.find_chunk(&header.chunk_hash) {
            Some(_) => {
                return Vec::new();
            },
            None => {},
        }
        let full = self.config.cares_about_shard(header.shard_id);
        let root = copy_bytes(&header.encoded_merkle_root);
        let store = PartStore::new(root, self.config.total_parts);
        let hash = copy_bytes(&header.chunk_hash);
        let ghost h = header.chunk_hash@;
        let ghost old_chunks = self.chunks@;
        let mut out: Vec<Outgoing> = Vec::new();
        if !full {
            let entry = ChunkEntry {
                header,
                store,
                state: ChunkState::ReadyForInclusion,
                full_tracking: false,
                requests: Vec::new(),
                notified: Ghost(1nat),
            };
            self.chunks.push(entry);
            let o = Outgoing::Notify(Notification::HeaderReadyForInclusion { chunk_hash: hash });
            proof {
                lemma_count_push(out@, o);
            }
            out.push(o);
        } else {
            let mut entry = ChunkEntry {
                header,
                store,
                state: ChunkState::AwaitingParts,
                full_tracking: true,
                requests: Vec::new(),
                notified: Ghost(0nat),
            };
            out = entry.request_missing(&self.config, now);
            proof {
                assert forall|j: int| 0 <= j < out.len() implies ((#[trigger] out[j]) matches Outgoing::RequestPart { target, chunk_hash, part_ord }
                    && part_ord == entry.requests[j].part_ord && target == self.config.owner_spec(part_ord as int)
                    && chunk_hash@ == h) by {
                    let r = entry.requests[j];
                }
            }
            self.chunks.push(entry);
        }
        proof {
            assert(notes_all_for(out@, h));
            assert(self.chunks@.take(old_chunks.len() as int) =~= old_chunks);
            assert forall|i: int| 0 <= i < old_chunks.len() implies count_notes_for(out@, (#[trigger] self.chunks[i]).header.chunk_hash@)
                == self.chunks[i].notified@ - old_chunks[i].notified@ by {
                assert(self.chunks[i] == old_chunks[i]);
                lemma_notes_for(out@, h, self.chunks[i].header.chunk_hash@);
            }
            lemma_notes_for(out@, h, h);
            assert forall|hh: Seq<u8>| count_notes_for(out@, hh) > 0 implies exists|i: int|
                0 <= i < self.chunks.len() && (#[trigger] self.chunks[i]).header.chunk_hash@ == hh by {
                lemma_notes_for(out@, h, hh);
                assert(self.chunks[old_chunks.len() as int].header.chunk_hash@ == hh);
            }
        }
        out
    }

    /// Takes a chunk header. A chunk whose parent block is not known yet waits
    /// among the orphans (when there is room for it) and nothing is sent;
    /// otherwise it is tracked as `track_header` says.
    pub fn process_header(&mut self, header: ChunkHeader, now: u64) -> (out: Vec<Outgoing>)
        requires
            old(self).wf(),
        ensures
            final(self).wf(),
            Self::accounted(old(self), final(self), out@),
            final(self).known_blocks == old(self).known_blocks,
            notes_ready_only(out@),
            requests_owned(old(self).config, out@),
            old(self).has_chunk(header.chunk_hash@) ==> final(self).chunks@ == old(self).chunks@ && out.len() == 0,
            !old(self).has_chunk(header.chunk_hash@) && !old(self).block_known_spec(header.prev_block_hash@) ==> {
                &&& final(self).chunks@ == old(self).chunks@
                &&& out.len() == 0
                &&& old(self).orphans.len() < old(self).config.max_orphans ==> final(self).orphans@ == old(self).orphans@.push(
                    OrphanChunk { header, received: now },
                )
                &&& old(self).orphans.len() >= old(self).config.max_orphans ==> final(self).orphans@ == old(self).orphans@
            },
            !old(self).has_chunk(header.chunk_hash@) && old(self).block_known_spec(header.prev_block_hash@) ==> {
                let e = final(self).chunks[old(self).chunks.len() as int];
                &&& final(self).orphans == old(self).orphans
                &&& final(self).chunks.len() == old(self).chunks.len() + 1
                &&& final(self).chunks@.take(old(self).chunks.len() as int) == old(self).chunks@
                &&& e.header == header
                &&& e.store.held_count() == 0
                &&& e.full_tracking == old(self).config.cares_spec(header.shard_id)
                &&& !old(self).config.cares_spec(header.shard_id) ==> {
                    &&& e.state is ReadyForInclusion
                    &&& count_requests(out@) == 0
                    &&& count_notes(out@) == 1
                    &&& out.len() == 1
                    &&& out[0] matches Outgoing::Notify(Notification::HeaderReadyForInclusion { chunk_hash })
                        && chunk_hash@ == header.chunk_hash@
                }
                &&& old(self).config.cares_spec(header.shard_id) ==> {
                    &&& e.state is AwaitingParts
                    &&& count_notes(out@) == 0
                    &&& request_ords(e.requests@) == missing_upto(old(self).config, e.store.parts@, old(self).config.total_parts as int)
                    &&& count_requests(out@) == out.len()
                    &&& out.len() == e.requests.len()
                    &&& forall|j: int| 0 <= j < out.len() ==> ((#[trigger] out[j]) matches Outgoing::RequestPart { target, chunk_hash, part_ord }
                        && part_ord == e.requests[j].part_ord && target == old(self).config.owner_spec(part_ord as int)
                        && chunk_hash@ == header.chunk_hash@)
                }
            },
    {
        if self.find_chunk(&header.chunk_hash).is_some() {
            return Vec::new();
        }
        if !self.block_known(&header.prev_block_hash) {
            if self.orphans.len() < self.config.max_orphans {
                self.orphans.push(OrphanChunk { header, received: now });
            }
            let out: Vec<Outgoing> = Vec::new();
            proof {
                assert(out@ =~= Seq::<Outgoing>::empty());
            }
            return out;
        }
        self.track_header(header, now)
    }

    /// Records that block `block_hash` is known, and starts tracking every
    /// waiting chunk whose parent it is.
    pub fn on_block_known(&mut self, block_hash: Vec<u8>, now: u64) -> (out: Vec<Outgoing>)
        requires
            old(self).wf(),
        ensures
            final(self).wf(),
            Self::accounted(old(self), final(self), out@),
            final(self).known_blocks@ == old(self).known_blocks@.push(block_hash),
            notes_ready_only(out@),
            requests_owned(old(self).config, out@),
            forall|i: int| 0 <= i < final(self).orphans.len() ==> (#[trigger] final(self).orphans[i]).header.prev_block_hash@ != block_hash@,
            forall|i: int| 0 <= i < old(self).orphans.len() && (#[trigger] old(self).orphans[i]).header.prev_block_hash@ == block_hash@
                ==> final(self).has_chunk(old(self).orphans[i].header.chunk_hash@),
    {
        let ghost a = *self;
        let ghost bh = block_hash@;
        self.known_blocks.push(block_hash);
        let ghost kb = self.known_blocks@;
        let mut out: Vec<Outgoing> = Vec::new();
        proof {
            assert(out@ =~= Seq::<Outgoing>::empty());
            assert(Self::accounted(&a, self, out@));
        }
        let mut i: usize = 0;
        while i < self.orphans.len()
            invariant
                self.wf(),
                a.wf(),
                i <= self.orphans.len(),
                Self::accounted(&a, self, out@),
                self.known_blocks@ == kb,
                notes_ready_only(out@),
                requests_owned(a.config, out@),
                kb.len() > 0,
                kb[kb.len() - 1]@ == bh,
                forall|k: int| 0 <= k < i ==> (#[trigger] self.orphans[k]).header.prev_block_hash@ != bh,
                forall|k: int| 0 <= k < a.orphans.len() && (#[trigger] a.orphans[k]).header.prev_block_hash@ == bh
                    ==> self.has_chunk(a.orphans[k].header.chunk_hash@)
                    || exists|m: int| i <= m < self.orphans.len() && (#[trigger] self.orphans[m]).header.chunk_hash@ == a.orphans[k].header.chunk_hash@
                        && self.orphans[m].header.prev_block_hash@ == bh,
            decreases self.orphans.len() - i,
        {
            let last = self.known_blocks.len() - 1;
            let matches_parent = bytes_eq(&self.orphans[i].header.prev_block_hash, &self.known_blocks[last]);
            if matches_parent {
                let ghost before_orphans = self.orphans@;
                let ghost b = *self;
                let orphan = self.orphans.remove(i);
                assert forall|k: int| 0 <= k < i implies self.orphans[k] == before_orphans[k] by {}
                let ghost c = *self;
                let ghost oh = orphan.header.chunk_hash@;
                let mut more = self.process_header_known(orphan.header, now);
                proof {
                    assert(Self::accounted(&b, &c, Seq::<Outgoing>::empty()));
                    lemma_accounted_trans(&a, &b, &c, out@, Seq::<Outgoing>::empty());
                    assert(out@ + Seq::<Outgoing>::empty() =~= out@);
                    lemma_accounted_trans(&a, &c, self, out@, more@);
                    let o1 = out@;
                    let o2 = more@;
                    assert forall|j: int| 0 <= j < (o1 + o2).len() implies ((o1 + o2)[j] == if j < o1.len() { o1[j] } else { o2[j - o1.len()] }) by {}
                    assert forall|k: int| 0 <= k < a.orphans.len() && (#[trigger] a.orphans[k]).header.prev_block_hash@ == bh
                        implies self.has_chunk(a.orphans[k].header.chunk_hash@)
                        || exists|m: int| i <= m < self.orphans.len() && (#[trigger] self.orphans[m]).header.chunk_hash@ == a.orphans[k].header.chunk_hash@
                            && self.orphans[m].header.prev_block_hash@ == bh by {
                        if b.has_chunk(a.orphans[k].header.chunk_hash@) {
                            let w = choose|w: int| 0 <= w < b.chunks.len() && (#[trigger] b.chunks[w]).header.chunk_hash@ == a.orphans[k].header.chunk_hash@;
                            assert(self.chunks[w].header == b.chunks[w].header);
                        } else {
                            let m = choose|m: int| i <= m < before_orphans.len() && (#[trigger] before_orphans[m]).header.chunk_hash@ == a.orphans[k].header.chunk_hash@
                                && before_orphans[m].header.prev_block_hash@ == bh;
                            if m > i {
                                assert(self.orphans[m - 1] == before_orphans[m]);
                            }
                        }
                    }
                }
                out.append(&mut more);
            } else {
                i = i + 1;
            }
        }
        out
    }

    /// `track_header` behind the checks of `process_header`, for a header whose
    /// parent is known.
    fn process_header_known(&mut self, header: ChunkHeader, now: u64) -> (out: Vec<Outgoing>)
        requires
            old(self).wf(),
        ensures
            final(self).wf(),
            Self::accounted(old(self), final(self), out@),
            final(self).known_blocks == old(self).known_blocks,
            final(self).orphans == old(self).orphans,
            final(self).has_chunk(header.chunk_hash@),
            notes_ready_only(out@),
            requests_owned(old(self).config, out@),
            old(self).has_chunk(header.chunk_hash@) ==> final(self).chunks@ == old(self).chunks@ && out.len() == 0,
            !old(self).has_chunk(header.chunk_hash@) ==> final(self).chunks.len() == old(self).chunks.len() + 1
                && final(self).chunks[old(self).chunks.len() as int].header == header,
    {
        let ghost h = header.chunk_hash@;
        if self.find_chunk(&header.chunk_hash).is_some() {
            let out: Vec<Outgoing> = Vec::new();
            proof {
                assert(out@ =~= Seq::<Outgoing>::empty());
            }
            return out;
        }
        let out = self.track_header(header, now);
        proof {
            assert(self.chunks[self.chunks.len() - 1].header.chunk_hash@ == h);
        }
        out
    }

    /// Takes the parts of a partial chunk: tracks the chunk if it is new, then
    /// stores each valid part and completes the chunk once enough are held.
    pub fn process_partial_chunk(&mut self, header: ChunkHeader, parts: Vec<ChunkPart>, now: u64) -> (out: Vec<Outgoing>)
        requires
            old(self).wf(),
        ensures
            final(self).wf(),
            Self::accounted(old(self), final(self), out@),
            old(self).has_chunk(header.chunk_hash@) || old(self).block_known_spec(header.prev_block_hash@)
                ==> final(self).has_chunk(header.chunk_hash@),
            forall|k: int| 0 <= k < final(self).chunks.len() && (#[trigger] final(self).chunks[k]).header.chunk_hash@ == header.chunk_hash@ ==> {
                let e = final(self).chunks[k];
                &&& forall|j: int| 0 <= j < parts.len() && part_valid(e.store.root@, final(self).config.total_parts as nat, #[trigger] parts[j])
                    ==> e.store.parts[parts[j].part_ord as int] is Some
                &&& e.full_tracking && e.store.held_count() >= final(self).config.data_parts ==> is_terminal(e.state)
            },
            !old(self).has_chunk(header.chunk_hash@) && !old(self).block_known_spec(header.prev_block_hash@)
                ==> final(self).chunks@ == old(self).chunks@ && out.len() == 0,
            !old(self).has_chunk(header.chunk_hash@) && old(self).block_known_spec(header.prev_block_hash@)
                ==> final(self).chunks.len() == old(self).chunks.len() + 1
                && forall|i: int| 0 <= i < old(self).chunks.len() ==> #[trigger] final(self).chunks[i] == old(self).chunks[i],
            old(self).has_chunk(header.chunk_hash@) ==> {
                &&& final(self).chunks.len() == old(self).chunks.len()
                &&& forall|i: int| 0 <= i < old(self).chunks.len() ==> {
                    let e = #[trigger] old(self).chunks[i];
                    &&& e.header.chunk_hash@ != header.chunk_hash@ ==> final(self).chunks[i] == e
                    &&& e.header.chunk_hash@ == header.chunk_hash@ ==> accepted(old(self).config, e, final(self).chunks[i], parts@, out@)
                }
            },
    {
        let hash = copy_bytes(&header.chunk_hash);
        let ghost a = *self;
        let ghost hd = header;
        let mut out = self.process_header(header, now);
        let ghost b = *self;
        proof {
            if a.has_chunk(hd.chunk_hash@) {
                let w = choose|w: int| 0 <= w < a.chunks.len() && (#[trigger] a.chunks[w]).header.chunk_hash@ == hd.chunk_hash@;
                assert(b.chunks[w] == a.chunks[w]);
            } else if a.block_known_spec(hd.prev_block_hash@) {
                assert(b.chunks[a.chunks.len() as int].header.chunk_hash@ == hd.chunk_hash@);
            }
        }
        let k = match self.find_chunk(&hash) {
            Some(k) => k,
            None => {
                return out;
            },
        };
        let mut more = self.chunks[k].accept_parts(&self.config, parts);
        proof {
            lemma_accounted_single(&b, self, k as int, more@);
            lemma_accounted_trans(&a, &b, self, out@, more@);
            assert(self.chunks[k as int].header == b.chunks[k as int].header);
            assert forall|k2: int| 0 <= k2 < self.chunks.len() && (#[trigger] self.chunks[k2]).header.chunk_hash@ == hd.chunk_hash@
                implies k2 == k by {
                if k2 != k {
                    assert(self.chunks[k2].header.chunk_hash@ != self.chunks[k as int].header.chunk_hash@);
                }
            }
            if a.has_chunk(hd.chunk_hash@) {
                assert(out@ + more@ =~= more@);
                assert forall|i: int| 0 <= i < a.chunks.len() && (#[trigger] a.chunks[i]).header.chunk_hash@ == hd.chunk_hash@
                    implies i == k by {
                    assert(b.chunks[i] == a.chunks[i]);
                    if i != k {
                        assert(b.chunks[i].header.chunk_hash@ != b.chunks[k as int].header.chunk_hash@);
                    }
                }
            }
        }
        out.append(&mut more);
        out
    }

    /// Answers a peer's request with the held parts among `part_ords`.
    pub fn handle_part_request(&self, chunk_hash: &Vec<u8>, part_ords: &Vec<u64>, requester: u64) -> (out: Vec<Outgoing>)
        requires
            self.wf(),
        ensures
            count_notes(out@) == 0,
            count_requests(out@) == 0,
            (forall|i: int| 0 <= i < self.chunks.len() ==> (#[trigger] self.chunks[i]).header.chunk_hash@ != chunk_hash@)
                ==> out.len() == 0,
            forall|i: int| 0 <= i < self.chunks.len() && (#[trigger] self.chunks[i]).header.chunk_hash@ == chunk_hash@ ==> {
                &&& out.len() == 1
                &&& out[0] matches Outgoing::RespondParts { target, chunk_hash: h, parts }
                    && target == requester && h@ == chunk_hash@
                    && Seq::new(parts.len() as nat, |j: int| parts[j].part_ord) == held_among(self.chunks[i].store.parts@, part_ords@)
                    && forall|j: int| 0 <= j < parts.len() ==> #[trigger] same_part(parts[j], self.chunks[i].store.parts[parts[j].part_ord as int]->0)
            },
    {
        let k = match self.find_chunk(chunk_hash) {
            Some(k) => k,
            None => {
                return Vec::new();
            },
        };
        let store = &self.chunks[k].store;
        let mut found: Vec<ChunkPart> = Vec::new();
        let mut j: usize = 0;
        while j < part_ords.len()
            invariant
                store.wf(),
                j <= part_ords.len(),
                Seq::new(found.len() as nat, |a: int| found[a].part_ord) == held_among(store.parts@, part_ords@.take(j as int)),
                forall|a: int| 0 <= a < found.len() ==> #[trigger] found[a].part_ord < store.parts.len()
                    && same_part(found[a], store.parts[found[a].part_ord as int]->0),
            decreases part_ords.len() - j,
        {
            let ord = part_ords[j];
            assert(part_ords@.take(j + 1).drop_last() =~= part_ords@.take(j as int));
            assert(part_ords@.take(j + 1).last() == ord);
            let ghost before = found@;
            let ghost ords_before = Seq::new(found.len() as nat, |a: int| found[a].part_ord);
            if store.has_part(ord) {
                match &store.parts[ord as usize] {
                    Some(p) => {
                        let c = copy_part(p);
                        found.push(c);
                        assert(found@ == before.push(c));
                        assert(Seq::new(found.len() as nat, |a: int| found[a].part_ord) =~= ords_before + seq![ord]);
                    },
                    None => {},
                }
            } else {
                assert(Seq::new(found.len() as nat, |a: int| found[a].part_ord) =~= ords_before);
            }
            assert(Seq::new(found.len() as nat, |a: int| found[a].part_ord) =~= held_among(store.parts@, part_ords@.take(j + 1)));
            j = j + 1;
        }
        assert(part_ords@.take(j as int) =~= part_ords@);
        let mut out: Vec<Outgoing> = Vec::new();
        let o = Outgoing::RespondParts { target: requester, chunk_hash: copy_bytes(chunk_hash), parts: found };
        proof {
            lemma_count_push(out@, o);
        }
        out.push(o);
        proof {
            assert forall|i: int| 0 <= i < self.chunks.len() && (#[trigger] self.chunks[i]).header.chunk_hash@ == chunk_hash@
                implies i == k by {
                if i != k {
                    assert(self.chunks[i].header.chunk_hash@ != self.chunks[k as int].header.chunk_hash@);
                }
            }
        }
        out
    }

    /// Drops the orphans that have waited `orphan_horizon` or longer; they
    /// leave without a notification.
    fn evict_orphans(&mut self, now: u64)
        requires
            old(self).wf(),
        ensures
            final(self).wf(),
            final(self).config == old(self).config,
            final(self).chunks == old(self).chunks,
            final(self).known_blocks == old(self).known_blocks,
            forall|i: int| 0 <= i < final(self).orphans.len() ==> !orphan_expired(final(self).config, #[trigger] final(self).orphans[i], now)
                && old(self).orphans@.contains(final(self).orphans[i]),
            forall|i: int| 0 <= i < old(self).orphans.len() && !orphan_expired(old(self).config, #[trigger] old(self).orphans[i], now)
                ==> final(self).orphans@.contains(old(self).orphans[i]),
    {
        let ghost start = self.orphans@;
        let mut i: usize = 0;
        while i < self.orphans.len()
            invariant
                self.wf(),
                self.config == old(self).config,
                self.chunks == old(self).chunks,
                self.known_blocks == old(self).known_blocks,
                start == old(self).orphans@,
                i <= self.orphans.len(),
                forall|k: int| 0 <= k < i ==> !orphan_expired(self.config, #[trigger] self.orphans[k], now),
                forall|k: int| 0 <= k < self.orphans.len() ==> start.contains(#[trigger] self.orphans[k]),
                forall|k: int| 0 <= k < start.len() && !orphan_expired(self.config, #[trigger] start[k], now)
                    ==> self.orphans@.contains(start[k]),
            decreases self.orphans.len() - i,
        {
            let received = self.orphans[i].received;
            if now >= received && now - received >= self.config.orphan_horizon {
                let ghost before = self.orphans@;
                let _ = self.orphans.remove(i);
                assert forall|k: int| 0 <= k < self.orphans.len() implies (k < i ==> self.orphans[k] == before[k]) && (k >= i
                    ==> self.orphans[k] == before[k + 1]) by {}
                assert forall|k: int| 0 <= k < start.len() && !orphan_expired(self.config, #[trigger] start[k], now)
                    implies self.orphans@.contains(start[k]) by {
                    let w = choose|w: int| 0 <= w < before.len() && before[w] == start[k];
                    if w < i {
                        assert(self.orphans[w] == before[w]);
                    } else if w > i {
                        assert(self.orphans[w - 1] == before[w]);
                    }
                }
            } else {
                i = i + 1;
            }
        }
    }

    /// Resends overdue requests of every chunk at time `now`, giving up on
    /// chunks whose overdue parts have used up their attempts, and drops the
    /// orphans that have waited too long.
    pub fn resend_chunk_requests(&mut self, now: u64) -> (out: Vec<Outgoing>)
        requires
            old(self).wf(),
        ensures
            final(self).wf(),
            Self::accounted(old(self), final(self), out@),
            final(self).chunks.len() == old(self).chunks.len(),
            forall|i: int| 0 <= i < old(self).chunks.len() ==> {
                let e = #[trigger] old(self).chunks[i];
                let f = final(self).chunks[i];
                &&& f.store == e.store
                &&& exhausted(old(self).config, e.requests@, now) && !is_terminal(e.state) ==> f.state is PermanentlyMissing && f.requests.len() == 0
                &&& is_terminal(e.state) ==> f.state == e.state
                &&& !exhausted(old(self).config, e.requests@, now) && !is_terminal(e.state) ==> requests_resent(old(self).config, e, f, now)
            },
            req_view(out@) == all_resend(old(self).config, old(self).chunks@, now),
            notes_missing_only(out@),
            final(self).known_blocks == old(self).known_blocks,
            forall|i: int| 0 <= i < final(self).orphans.len() ==> !orphan_expired(final(self).config, #[trigger] final(self).orphans[i], now)
                && old(self).orphans@.contains(final(self).orphans[i]),
            forall|i: int| 0 <= i < old(self).orphans.len() && !orphan_expired(old(self).config, #[trigger] old(self).orphans[i], now)
                ==> final(self).orphans@.contains(old(self).orphans[i]),
    {
        let ghost a = *self;
        let mut out: Vec<Outgoing> = Vec::new();
        let mut k: usize = 0;
        assert(out@ =~= Seq::<Outgoing>::empty());
        assert(Self::accounted(&a, self, out@));
        assert(req_view(out@) =~= Seq::<(u64, Seq<u8>, u64)>::empty());
        assert(a.chunks@.take(0) =~= Seq::<ChunkEntry>::empty());
        while k < self.chunks.len()
            invariant
                self.wf(),
                a.wf(),
                k <= self.chunks.len(),
                self.chunks.len() == a.chunks.len(),
                self.config == a.config,
                self.orphans == a.orphans,
                self.known_blocks == a.known_blocks,
                Self::accounted(&a, self, out@),
                forall|i: int| k <= i < a.chunks.len() ==> self.chunks[i] == a.chunks[i],
                forall|i: int| 0 <= i < a.chunks.len() ==> {
                    let e = #[trigger] a.chunks[i];
                    let f = self.chunks[i];
                    &&& f.store == e.store
                    &&& i < k && exhausted(a.config, e.requests@, now) && !is_terminal(e.state) ==> f.state is PermanentlyMissing && f.requests.len() == 0
                    &&& is_terminal(e.state) ==> f.state == e.state
                    &&& i < k && !exhausted(a.config, e.requests@, now) && !is_terminal(e.state) ==> requests_resent(a.config, e, f, now)
                },
                req_view(out@) == all_resend(a.config, a.chunks@.take(k as int), now),
                notes_missing_only(out@),
            decreases self.chunks.len() - k,
        {
            let ghost b = *self;
            let mut more = self.chunks[k].resend(&self.config, now);
            proof {
                assert forall|i: int| 0 <= i < self.chunks.len() && i != k implies self.chunks[i] == b.chunks[i] by {}
                assert(self.wf()) by {
                    assert forall|i: int, j: int| 0 <= i < self.chunks.len() && 0 <= j < self.chunks.len() && i != j
                        implies (#[trigger] self.chunks[i]).header.chunk_hash@ != (#[trigger] self.chunks[j]).header.chunk_hash@ by {
                        assert(self.chunks[i].header == b.chunks[i].header);
                        assert(self.chunks[j].header == b.chunks[j].header);
                    }
                }
                lemma_accounted_single(&b, self, k as int, more@);
                lemma_accounted_trans(&a, &b, self, out@, more@);
                lemma_notes_for_concat(out@, more@, Seq::empty());
                assert(a.chunks@.take(k + 1).drop_last() =~= a.chunks@.take(k as int));
                assert(a.chunks@.take(k + 1).last() == b.chunks[k as int]);
            }
            let ghost o1 = out@;
            let ghost o2 = more@;
            out.append(&mut more);
            proof {
                assert forall|j: int| 0 <= j < out.len() && (#[trigger] out[j]) is Notify implies out[j]->Notify_0 is ChunkPermanentlyMissing by {
                    if j < o1.len() {
                        assert(out[j] == o1[j]);
                    } else {
                        assert(out[j] == o2[j - o1.len()]);
                    }
                }
            }
            k = k + 1;
        }
        assert(a.chunks@.take(k as int) =~= a.chunks@);
        self.evict_orphans(now);
        out
    }
}

/// A step that changes only entry `k` accounts for its notifications.
proof fn lemma_accounted_single(a: &ShardsManager, b: &ShardsManager, k: int, out: Seq<Outgoing>)
    requires
        a.wf(),
        0 <= k < a.chunks.len(),
        b.config == a.config,
        b.chunks.len() == a.chunks.len(),
        forall|i: int| 0 <= i < a.chunks.len() && i != k ==> b.chunks[i] == a.chunks[i],
        b.chunks[k].header == a.chunks[k].header,
        is_terminal(a.chunks[k].state) ==> b.chunks[k].state == a.chunks[k].state,
        b.chunks[k].notified@ == a.chunks[k].notified@ + count_notes(out),
        notes_all_for(out, a.chunks[k].header.chunk_hash@),
    ensures
        ShardsManager::accounted(a, b, out),
{
    let h = a.chunks[k].header.chunk_hash@;
    assert forall|i: int| 0 <= i < a.chunks.len() implies count_notes_for(out, (#[trigger] b.chunks[i]).header.chunk_hash@)
        == b.chunks[i].notified@ - a.chunks[i].notified@ by {
        lemma_notes_for(out, h, b.chunks[i].header.chunk_hash@);
        if i != k {
            assert(a.chunks[i].header.chunk_hash@ != a.chunks[k].header.chunk_hash@);
        }
    }
    assert forall|hh: Seq<u8>| count_notes_for(out, hh) > 0 implies exists|i: int|
        0 <= i < b.chunks.len() && (#[trigger] b.chunks[i]).header.chunk_hash@ == hh by {
        lemma_notes_for(out, h, hh);
        assert(b.chunks[k].header.chunk_hash@ == hh);
    }
}

/// Two accounted steps in a row account for all that they emitted.
proof fn lemma_accounted_trans(a: &ShardsManager, b: &ShardsManager, c: &ShardsManager, o1: Seq<Outgoing>, o2: Seq<Outgoing>)
    requires
        c.wf(),
        ShardsManager::accounted(a, b, o1),
        ShardsManager::accounted(b, c, o2),
    ensures
        ShardsManager::accounted(a, c, o1 + o2),
{
    assert forall|i: int| 0 <= i < c.chunks.len() implies count_notes_for(o1 + o2, (#[trigger] c.chunks[i]).header.chunk_hash@)
        == c.chunks[i].notified@ - (if i < a.chunks.len() { a.chunks[i].notified@ } else { 0nat }) by {
        let h = c.chunks[i].header.chunk_hash@;
        lemma_notes_for_concat(o1, o2, h);
        if i < b.chunks.len() {
            assert(b.chunks[i].header == c.chunks[i].header);
        } else if count_notes_for(o1, h) > 0 {
            let w = choose|w: int| 0 <= w < b.chunks.len() && (#[trigger] b.chunks[w]).header.chunk_hash@ == h;
            assert(c.chunks[w].header == b.chunks[w].header);
            assert(c.chunks[w].header.chunk_hash@ == c.chunks[i].header.chunk_hash@);
        }
    }
    assert forall|hh: Seq<u8>| count_notes_for(o1 + o2, hh) > 0 implies exists|i: int|
        0 <= i < c.chunks.len() && (#[trigger] c.chunks[i]).header.chunk_hash@ == hh by {
        lemma_notes_for_concat(o1, o2, hh);
        if count_notes_for(o1, hh) > 0 {
            let w = choose|w: int| 0 <= w < b.chunks.len() && (#[trigger] b.chunks[w]).header.chunk_hash@ == hh;
            assert(c.chunks[w].header == b.chunks[w].header);
        }
    }
}

/// Exactly once: in every reachable state a chunk has had one notification
/// if it is terminal and none otherwise, and a completed chunk holds at least
/// `data_parts` valid distinct parts. Each handler raises a chunk's count by
/// exactly the notifications about it that it emits (`accounted`), so over
/// any sequence of messages a chunk is notified at most once.
pub proof fn lemma_exactly_once(m: &ShardsManager, i: int)
    requires
        m.wf(),
        0 <= i < m.chunks.len(),
    ensures
        m.chunks[i].notified@ <= 1,
        m.chunks[i].notified@ == 1 <==> is_terminal(m.chunks[i].state),
        m.chunks[i].state is Complete ==> m.chunks[i].store.held_count() >= m.config.data_parts,
        m.chunks[i].state is Complete ==> forall|o: int| 0 <= o < m.config.total_parts
            && (#[trigger] m.chunks[i].store.parts[o]) is Some
            ==> part_valid(m.chunks[i].header.encoded_merkle_root@, m.config.total_parts as nat, m.chunks[i].store.parts[o]->0),
{
}

/// Header-only path: a chunk of a shard this node does not track is ready
/// for inclusion and never has a part request pending, so no handler sends one.
pub proof fn lemma_header_only(m: &ShardsManager, i: int)
    requires
        m.wf(),
        0 <= i < m.chunks.len(),
        !m.chunks[i].full_tracking,
    ensures
        m.chunks[i].state is ReadyForInclusion,
        m.chunks[i].requests.len() == 0,
{
}

/// Resend bound: a terminal chunk has no request left to resend, and no part
/// of a chunk has been asked for more than `max_attempts` times.
pub proof fn lemma_resend_bound(m: &ShardsManager, i: int)
    requires
        m.wf(),
        0 <= i < m.chunks.len(),
    ensures
        is_terminal(m.chunks[i].state) ==> m.chunks[i].requests.len() == 0,
        forall|j: int| 0 <= j < m.chunks[i].requests.len() ==> (#[trigger] m.chunks[i].requests[j]).attempts <= m.config.max_attempts,
{
}

/// Offering the same parts a second time stores nothing new, leaves the
/// chunk's state as the first offer left it and sends nothing.
pub proof fn lemma_offer_twice(
    cfg: ManagerConfig,
    e: ChunkEntry,
    f1: ChunkEntry,
    f2: ChunkEntry,
    parts: Seq<ChunkPart>,
    o1: Seq<Outgoing>,
    o2: Seq<Outgoing>,
)
    requires
        e.wf(cfg),
        f1.wf(cfg),
        f2.wf(cfg),
        f1.header == e.header,
        f2.header == f1.header,
        f1.full_tracking == e.full_tracking,
        accepted(cfg, e, f1, parts, o1),
        accepted(cfg, f1, f2, parts, o2),
    ensures
        f2.store.parts@ == f1.store.parts@,
        f2.state == f1.state,
        o2.len() == 0,
{
    assert forall|o: int| 0 <= o < cfg.total_parts implies #[trigger] f2.store.parts[o] == f1.store.parts[o] by {
        if f1.store.parts[o] is None && f2.store.parts[o] is Some {
            let p = f2.store.parts[o]->0;
            assert(parts.contains(p));
            let j = choose|j: int| 0 <= j < parts.len() && parts[j] == p;
            assert(part_valid(f2.store.root@, cfg.total_parts as nat, p));
            assert(f2.store.root@ == e.store.root@);
            assert(part_valid(e.store.root@, cfg.total_parts as nat, parts[j]));
        }
    }
    assert(f2.store.parts@ =~= f1.store.parts@);
}

} // verus!
