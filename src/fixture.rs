//! A ready-made chunk with its parts, proofs and a matching manager setup.
use vstd::prelude::*;
use crate::codec::{decodes_to, encode, encode_spec, encoded, lemma_present_set, lemma_round_trip, present_set, select, views};
use crate::manager::{accepted, commits, copy_part, same_part, ChunkEntry, ManagerConfig, Notification, Outgoing};
use crate::merkle::copy_bytes;
use crate::merkle::{leaf_views, merklize, path_root, sha256, sha256_of, tree_root, MerklePathItem};
use crate::store::{part_valid, payloads, ChunkHeader, ChunkPart};

verus! {

/// A chunk of shard 0 encoded for a set of block producers, with the parts,
/// proofs and accounts that exercising a manager needs.
pub struct ChunkTestFixture {
    pub config: ManagerConfig,
    /// The block that the chain starts from.
    pub genesis: Vec<u8>,
    pub all_part_ords: Vec<u64>,
    /// The ordinals owned by `mock_chunk_part_owner`.
    pub mock_part_ords: Vec<u64>,
    pub mock_chunk_producer: u64,
    pub mock_chunk_part_owner: u64,
    pub mock_shard_tracker: u64,
    pub mock_body: Vec<u8>,
    pub mock_chunk_header: ChunkHeader,
    pub mock_chunk_parts: Vec<ChunkPart>,
    /// The tip of the chain the fixture starts on: its genesis block.
    pub mock_chain_head: Tip,
}

/// A 32-byte block hash with every byte `b`.
fn block_hash_of(b: u8) -> (r: Vec<u8>)
    ensures
        r@ == Seq::new(32, |k: int| b),
{
    let mut r: Vec<u8> = Vec::new();
    let mut g: usize = 0;
    while g < 32
        invariant
            g <= 32,
            r@ == Seq::new(g as nat, |k: int| b),
        decreases 32 - g,
    {
        r.push(b);
        g = g + 1;
        assert(r@ =~= Seq::new(g as nat, |k: int| b));
    }
    r
}

/// A header with a subset of the chunk's parts, as peers exchange them.
pub struct PartialEncodedChunk {
    pub header: ChunkHeader,
    pub parts: Vec<ChunkPart>,
}

/// The tip of a chain: its last block, that block's parent and their epochs.
#[derive(Clone, Debug)]
pub struct Tip {
    pub height: u64,
    pub last_block_hash: Vec<u8>,
    pub prev_block_hash: Vec<u8>,
    pub epoch_id: Vec<u8>,
    pub next_epoch_id: Vec<u8>,
}

/// The tip of a chain that holds only its genesis block, whose hashes are all zero.
pub fn default_tip() -> (r: Tip)
    ensures
        r.height == 0,
        r.last_block_hash@ == Seq::new(32, |k: int| 0u8),
        r.prev_block_hash@ == Seq::new(32, |k: int| 0u8),
        r.epoch_id@ == Seq::new(32, |k: int| 0u8),
        r.next_epoch_id@ == Seq::new(32, |k: int| 0u8),
{
    Tip {
        height: 0,
        last_block_hash: block_hash_of(0),
        prev_block_hash: block_hash_of(0),
        epoch_id: block_hash_of(0),
        next_epoch_id: block_hash_of(0),
    }
}

/// A copy of `h`.
pub fn copy_header(h: &ChunkHeader) -> (r: ChunkHeader)
    ensures
        r.chunk_hash@ == h.chunk_hash@,
        r.prev_block_hash@ == h.prev_block_hash@,
        r.height == h.height,
        r.shard_id == h.shard_id,
        r.encoded_length == h.encoded_length,
        r.encoded_merkle_root@ == h.encoded_merkle_root@,
{
    ChunkHeader {
        chunk_hash: copy_bytes(&h.chunk_hash),
        prev_block_hash: copy_bytes(&h.prev_block_hash),
        height: h.height,
        shard_id: h.shard_id,
        encoded_length: h.encoded_length,
        encoded_merkle_root: copy_bytes(&h.encoded_merkle_root),
    }
}

/// The number of chunk-completed notifications in `out`.
pub open spec fn count_completed(out: Seq<Outgoing>) -> nat
    decreases out.len(),
{
    if out.len() == 0 {
        0
    } else {
        count_completed(out.drop_last()) + if out.last() matches Outgoing::Notify(Notification::ChunkCompleted { .. }) {
            1nat
        } else {
            0nat
        }
    }
}

/// The number of ready-for-inclusion notifications in `out`.
pub open spec fn count_ready(out: Seq<Outgoing>) -> nat
    decreases out.len(),
{
    if out.len() == 0 {
        0
    } else {
        count_ready(out.drop_last()) + if out.last() matches Outgoing::Notify(Notification::HeaderReadyForInclusion { .. }) {
            1nat
        } else {
            0nat
        }
    }
}

/// What `ChunkTestFixture::new(orphan_chunk, _, n, _, track_all_shards)` gives.
pub open spec fn fixture_spec(r: ChunkTestFixture, orphan_chunk: bool, n: nat, track_all_shards: bool) -> bool {
    &&& r.config.wf()
    &&& r.config.total_parts == n
    &&& r.config.data_parts == 2 * n / 3
    &&& r.config.block_producers@ == Seq::new(n, |i: int| i as u64)
    &&& r.config.track_all_shards == track_all_shards
    &&& r.config.tracked_shards@ == seq![0u64]
    &&& r.config.cares_spec(r.mock_chunk_header.shard_id)
    &&& r.config.me == r.mock_shard_tracker
    &&& r.mock_chunk_producer < n && r.mock_shard_tracker < n && r.mock_chunk_part_owner < n
    &&& r.mock_chunk_producer != r.mock_shard_tracker
    &&& r.mock_chunk_part_owner != r.mock_shard_tracker
    &&& r.mock_chunk_part_owner != r.mock_chunk_producer
    &&& r.mock_chunk_parts.len() == n
    &&& encoded(part_views(r.mock_chunk_parts@), r.mock_body@, r.config.data_parts as nat, r.config.total_parts as nat)
    &&& r.mock_chunk_header.encoded_length == r.mock_body.len()
    &&& r.mock_chunk_header.shard_id == 0
    &&& r.mock_chunk_header.height == if orphan_chunk { 2u64 } else { 1u64 }
    &&& r.genesis@ == Seq::new(32, |k: int| 0u8)
    &&& r.mock_chunk_header.prev_block_hash@ == if orphan_chunk { sha256_of(Seq::empty()) } else { r.genesis@ }
    &&& r.mock_chunk_header.encoded_merkle_root@ == tree_root(part_views(r.mock_chunk_parts@), 0, n as int)
    &&& r.mock_body.len() == 1000
    &&& forall|i: int| 0 <= i < r.mock_chunk_parts.len() ==> (#[trigger] r.mock_chunk_parts[i]).part_ord == i
        && part_valid(r.mock_chunk_header.encoded_merkle_root@, r.config.total_parts as nat, r.mock_chunk_parts[i])
    &&& r.all_part_ords@ == Seq::new(n, |i: int| i as u64)
    &&& forall|k: int| 0 <= k < r.mock_part_ords.len() ==> (#[trigger] r.mock_part_ords[k]) < n
        && r.config.owner_spec(r.mock_part_ords[k] as int) == r.mock_chunk_part_owner
    &&& forall|o: int| 0 <= o < n && r.config.owner_spec(o) == r.mock_chunk_part_owner
        ==> r.mock_part_ords@.contains(o as u64)
    &&& forall|a: int, b: int| 0 <= a < b < r.mock_part_ords.len() ==> r.mock_part_ords[a] < r.mock_part_ords[b]
    &&& r.mock_chain_head.height == 0
    &&& r.mock_chain_head.last_block_hash@ == Seq::new(32, |k: int| 0u8)
    &&& r.mock_chain_head.prev_block_hash@ == Seq::new(32, |k: int| 0u8)
    &&& r.mock_chain_head.epoch_id@ == Seq::new(32, |k: int| 0u8)
    &&& r.mock_chain_head.next_epoch_id@ == Seq::new(32, |k: int| 0u8)
}

/// Part `i` is the first of `parts` that carries ordinal `o`.
pub open spec fn first_with_ord(parts: Seq<ChunkPart>, o: u64, i: int) -> bool {
    &&& 0 <= i < parts.len()
    &&& parts[i].part_ord == o
    &&& forall|k: int| 0 <= k < i ==> (#[trigger] parts[k]).part_ord != o
}

/// `p` is a copy of the first of `parts` that carries its ordinal.
pub open spec fn copy_of_first(parts: Seq<ChunkPart>, p: ChunkPart) -> bool {
    exists|i: int| #[trigger] first_with_ord(parts, p.part_ord, i) && same_part(p, parts[i])
}

/// Whether some part of `parts` carries ordinal `o`.
pub open spec fn has_ord(parts: Seq<ChunkPart>, o: u64) -> bool {
    exists|i: int| 0 <= i < parts.len() && (#[trigger] parts[i]).part_ord == o
}

/// The listed ordinals that some part of `parts` carries, in the order listed.
pub open spec fn found_ords(parts: Seq<ChunkPart>, ords: Seq<u64>) -> Seq<u64>
    decreases ords.len(),
{
    if ords.len() == 0 {
        Seq::empty()
    } else {
        found_ords(parts, ords.drop_last()) + if has_ord(parts, ords.last()) {
            seq![ords.last()]
        } else {
            Seq::empty()
        }
    }
}

/// The index of the first part carrying ordinal `o`.
fn find_part(parts: &Vec<ChunkPart>, o: u64) -> (r: Option<usize>)
    ensures
        r matches Some(i) ==> first_with_ord(parts@, o, i as int),
        r is None ==> !has_ord(parts@, o),
{
    let mut i: usize = 0;
    while i < parts.len()
        invariant
            i <= parts.len(),
            forall|k: int| 0 <= k < i ==> (#[trigger] parts@[k]).part_ord != o,
        decreases parts.len() - i,
    {
        if parts[i].part_ord == o {
            return Some(i);
        }
        i = i + 1;
    }
    None
}

pub open spec fn part_views(parts: Seq<ChunkPart>) -> Seq<Seq<u8>> {
    Seq::new(parts.len(), |i: int| parts[i].part@)
}

impl ChunkTestFixture {
    /// Builds the fixture. Block producers are accounts `0..num_block_producers`
    /// and own the parts in turn; chunk-only producers follow them and own none.
    /// With `orphan_chunk` the chunk's parent block is not the genesis block.
    pub fn new(
        orphan_chunk: bool,
        num_shards: u64,
        num_block_producers: usize,
        num_chunk_only_producers: usize,
        track_all_shards: bool,
    ) -> (r: ChunkTestFixture)
        requires
            1 <= num_shards <= num_block_producers,
            3 <= num_block_producers <= 256,
        ensures
            fixture_spec(r, orphan_chunk, num_block_producers as nat, track_all_shards),
    {
        let total = num_block_producers;
        let data = 2 * total / 3;
        let mut producers: Vec<u64> = Vec::new();
        let mut i: usize = 0;
        while i < total
            invariant
                i <= total,
                producers@ == Seq::new(i as nat, |k: int| k as u64),
            decreases total - i,
        {
            producers.push(i as u64);
            i = i + 1;
            assert(producers@ =~= Seq::new(i as nat, |k: int| k as u64));
        }
        let height: u64 = if orphan_chunk { 2 } else { 1 };
        let mut shard_zero: Vec<u64> = Vec::new();
        shard_zero.push(0);
        assert(shard_zero@ =~= seq![0u64]);
        let n = total as u64;
        let producer = height % n;
        let tracker = if producer + 1 < n { producer + 1 } else { 0 };
        let owner = if tracker + 1 < n { tracker + 1 } else { 0 };
        let config = ManagerConfig {
            me: tracker,
            data_parts: data,
            total_parts: total,
            block_producers: producers,
            track_all_shards,
            tracked_shards: shard_zero,
            resend_interval: 1000,
            max_attempts: 3,
            request_own_parts: false,
            max_orphans: 16,
            orphan_horizon: 10000,
        };
        let mut body: Vec<u8> = Vec::new();
        let mut b: usize = 0;
        while b < 1000
            invariant
                b <= 1000,
                body.len() == b,
            decreases 1000 - b,
        {
            body.push((b % 251) as u8);
            b = b + 1;
        }
        let parts = encode(&body, data, total);
        let (root, paths) = merklize(&parts);
        let genesis = block_hash_of(0);
        let prev = if orphan_chunk { sha256(&Vec::new()) } else { block_hash_of(0) };
        proof {
            if !orphan_chunk {
                assert(prev@ =~= genesis@);
            }
        }
        let header = ChunkHeader {
            chunk_hash: sha256(&sha256(&root)),
            prev_block_hash: prev,
            height,
            shard_id: 0,
            encoded_length: body.len() as u64,
            encoded_merkle_root: root,
        };
        let mut chunk_parts: Vec<ChunkPart> = Vec::new();
        let mut all: Vec<u64> = Vec::new();
        let mut mine: Vec<u64> = Vec::new();
        let mut paths = paths;
        let mut k: usize = 0;
        while k < total
            invariant
                config.wf(),
                config.total_parts == total,
                config.block_producers@ == Seq::new(total as nat, |x: int| x as u64),
                k <= total,
                parts.len() == total,
                paths.len() == total,
                forall|x: int| k <= x < total ==> path_root(parts[x]@, (#[trigger] paths[x])@) == header.encoded_merkle_root@,
                chunk_parts.len() == k,
                forall|x: int| 0 <= x < k ==> (#[trigger] chunk_parts[x]).part_ord == x && chunk_parts[x].part@ == parts[x]@
                    && part_valid(header.encoded_merkle_root@, total as nat, chunk_parts[x]),
                all@ == Seq::new(k as nat, |x: int| x as u64),
                forall|x: int| 0 <= x < mine.len() ==> (#[trigger] mine[x]) < k && config.owner_spec(mine[x] as int) == owner,
                forall|x: int, y: int| 0 <= x < y < mine.len() ==> mine[x] < mine[y],
                forall|o: int| 0 <= o < k && config.owner_spec(o) == owner ==> mine@.contains(o as u64),
            decreases total - k,
        {
            let ghost before_paths = paths@;
            let mut path: Vec<MerklePathItem> = Vec::new();
            core::mem::swap(&mut path, &mut paths[k]);
            assert(path@ == before_paths[k as int]@);
            assert forall|x: int| k < x < total implies #[trigger] paths[x] == before_paths[x] by {}
            chunk_parts.push(ChunkPart { part_ord: k as u64, part: crate::merkle::copy_bytes(&parts[k]), merkle_proof: path });
            all.push(k as u64);
            assert(all@ =~= Seq::new((k + 1) as nat, |x: int| x as u64));
            let ghost before = mine@;
            if config.part_owner(k as u64) == owner {
                mine.push(k as u64);
                assert(mine@[mine.len() - 1] == k as u64);
            }
            assert forall|o: int| 0 <= o < k + 1 && config.owner_spec(o) == owner implies mine@.contains(o as u64) by {
                if o < k {
                    let w = choose|w: int| 0 <= w < before.len() && before[w] == o as u64;
                    assert(mine@[w] == before[w]);
                }
            }
            k = k + 1;
        }
        proof {
            assert(part_views(chunk_parts@) =~= views(parts@));
            assert(part_views(chunk_parts@) =~= leaf_views(parts@));
        }
        proof {
            assert(config.tracked_shards@[0] == 0u64);
            assert(config.tracked_shards@.contains(0u64));
            assert(header.encoded_merkle_root@ == tree_root(part_views(chunk_parts@), 0, total as int));
            assert(orphan_chunk ==> header.prev_block_hash@ == sha256_of(Seq::empty()));
        }
        ChunkTestFixture {
            config,
            genesis,
            all_part_ords: all,
            mock_part_ords: mine,
            mock_chunk_producer: producer,
            mock_chunk_part_owner: owner,
            mock_shard_tracker: tracker,
            mock_body: body,
            mock_chunk_header: header,
            mock_chunk_parts: chunk_parts,
            mock_chain_head: default_tip(),
        }
    }

    /// The fixture's header with, for each listed ordinal in turn, the first of
    /// its parts that carries that ordinal; ordinals it has no part for are skipped.
    pub fn make_partial_encoded_chunk(&self, part_ords: &Vec<u64>) -> (r: PartialEncodedChunk)
        ensures
            r.header.chunk_hash@ == self.mock_chunk_header.chunk_hash@,
            r.header.encoded_merkle_root@ == self.mock_chunk_header.encoded_merkle_root@,
            r.header.prev_block_hash@ == self.mock_chunk_header.prev_block_hash@,
            r.header.encoded_length == self.mock_chunk_header.encoded_length,
            r.header.shard_id == self.mock_chunk_header.shard_id,
            r.header.height == self.mock_chunk_header.height,
            Seq::new(r.parts.len() as nat, |j: int| r.parts[j].part_ord) == found_ords(self.mock_chunk_parts@, part_ords@),
            forall|j: int| 0 <= j < r.parts.len() ==> copy_of_first(self.mock_chunk_parts@, #[trigger] r.parts[j]),
    {
        let mut parts: Vec<ChunkPart> = Vec::new();
        let mut j: usize = 0;
        while j < part_ords.len()
            invariant
                j <= part_ords.len(),
                Seq::new(parts.len() as nat, |a: int| parts[a].part_ord) == found_ords(self.mock_chunk_parts@, part_ords@.take(j as int)),
                forall|a: int| 0 <= a < parts.len() ==> copy_of_first(self.mock_chunk_parts@, #[trigger] parts[a]),
            decreases part_ords.len() - j,
        {
            let ord = part_ords[j];
            assert(part_ords@.take(j + 1).drop_last() =~= part_ords@.take(j as int));
            assert(part_ords@.take(j + 1).last() == ord);
            let ghost before = parts@;
            let ghost ords_before = Seq::new(parts.len() as nat, |a: int| parts[a].part_ord);
            match find_part(&self.mock_chunk_parts, ord) {
                Some(i) => {
                    let c = copy_part(&self.mock_chunk_parts[i]);
                    parts.push(c);
                    assert(parts@ == before.push(c));
                    assert(first_with_ord(self.mock_chunk_parts@, c.part_ord, i as int));
                    assert forall|a: int| 0 <= a < parts.len() implies copy_of_first(self.mock_chunk_parts@, #[trigger] parts[a]) by {
                        if a < before.len() {
                            assert(parts[a] == before[a]);
                        } else {
                            assert(parts[a] == c);
                            assert(first_with_ord(self.mock_chunk_parts@, parts[a].part_ord, i as int));
                        }
                    }
                    assert(Seq::new(parts.len() as nat, |a: int| parts[a].part_ord) =~= ords_before + seq![ord]);
                },
                None => {
                    assert(Seq::new(parts.len() as nat, |a: int| parts[a].part_ord) =~= ords_before);
                },
            }
            assert(Seq::new(parts.len() as nat, |a: int| parts[a].part_ord) =~= found_ords(self.mock_chunk_parts@, part_ords@.take(j + 1)));
            j = j + 1;
        }
        assert(part_ords@.take(j as int) =~= part_ords@);
        PartialEncodedChunk { header: copy_header(&self.mock_chunk_header), parts }
    }

    /// The number of chunk-completed notifications among `out`.
    pub fn count_chunk_completion_messages(&self, out: &Vec<Outgoing>) -> (r: usize)
        ensures
            r == count_completed(out@),
    {
        let mut n: usize = 0;
        let mut i: usize = 0;
        while i < out.len()
            invariant
                i <= out.len(),
                n == count_completed(out@.take(i as int)),
                n <= i,
            decreases out.len() - i,
        {
            assert(out@.take(i + 1).drop_last() =~= out@.take(i as int));
            if let Outgoing::Notify(Notification::ChunkCompleted { .. }) = &out[i] {
                n = n + 1;
            }
            i = i + 1;
        }
        assert(out@.take(i as int) =~= out@);
        n
    }

    /// The number of ready-for-inclusion notifications among `out`.
    pub fn count_chunk_ready_for_inclusion_messages(&self, out: &Vec<Outgoing>) -> (r: usize)
        ensures
            r == count_ready(out@),
    {
        let mut n: usize = 0;
        let mut i: usize = 0;
        while i < out.len()
            invariant
                i <= out.len(),
                n == count_ready(out@.take(i as int)),
                n <= i,
            decreases out.len() - i,
        {
            assert(out@.take(i + 1).drop_last() =~= out@.take(i as int));
            if let Outgoing::Notify(Notification::HeaderReadyForInclusion { .. }) = &out[i] {
                n = n + 1;
            }
            i = i + 1;
        }
        assert(out@.take(i as int) =~= out@);
        n
    }
}

impl Default for ChunkTestFixture {
    /// Three shards, six block producers, six chunk-only producers, all shards tracked.
    fn default() -> (r: ChunkTestFixture)
        ensures
            fixture_spec(r, false, 6, true),
    {
        ChunkTestFixture::new(false, 3, 6, 6, true)
    }
}

/// Delivering copies of the fixture's parts to a fully tracked chunk of the
/// fixture's header that holds nothing yet completes it with the fixture's body,
/// with one `ChunkCompleted`, as soon as `data_parts` distinct ordinals are held,
/// whichever ordinals they are.
pub proof fn lemma_fixture_parts_complete(
    fx: ChunkTestFixture,
    orphan_chunk: bool,
    n: nat,
    track_all_shards: bool,
    e: ChunkEntry,
    f: ChunkEntry,
    parts: Seq<ChunkPart>,
    out: Seq<Outgoing>,
)
    requires
        fixture_spec(fx, orphan_chunk, n, track_all_shards),
        e.wf(fx.config),
        f.wf(fx.config),
        e.header.encoded_merkle_root@ == fx.mock_chunk_header.encoded_merkle_root@,
        e.header.encoded_length == fx.mock_chunk_header.encoded_length,
        e.state is AwaitingParts,
        e.full_tracking,
        forall|o: int| 0 <= o < n ==> (#[trigger] e.store.parts[o]) is None,
        forall|j: int| 0 <= j < parts.len() ==> (#[trigger] parts[j]).part_ord < n
            && same_part(parts[j], fx.mock_chunk_parts[parts[j].part_ord as int]),
        accepted(fx.config, e, f, parts, out),
        f.store.held_count() >= fx.config.data_parts,
    ensures
        f.state is Complete,
        f.state->Complete_0@ == fx.mock_body@,
        out.len() == 1,
        out[0] matches Outgoing::Notify(Notification::ChunkCompleted { body, .. }) && body@ == fx.mock_body@,
{
    let cfg = fx.config;
    let d = cfg.data_parts as nat;
    let body = fx.mock_body@;
    let enc = part_views(fx.mock_chunk_parts@);
    let sel = payloads(f.store.parts@);
    let keep = present_set(sel);
    lemma_present_set(sel);
    assert forall|o: int| 0 <= o < n implies #[trigger] sel[o] == select(enc, keep)[o] by {
        if f.store.parts[o] is Some {
            let p = f.store.parts[o]->0;
            assert(parts.contains(p));
            let j = choose|j: int| 0 <= j < parts.len() && parts[j] == p;
            assert(p.part_ord == o);
            assert(same_part(parts[j], fx.mock_chunk_parts[o]));
        }
    }
    assert(sel =~= select(enc, keep));
    assert forall|i: int| #[trigger] keep.contains(i) implies 0 <= i < n by {}
    lemma_round_trip(body, d, n, enc, keep);
    assert(encode_spec(body, d, n) == enc);
    assert(decodes_to(sel, d, n, e.header.encoded_length as nat, body));
    assert(commits(body, d, n, e.header.encoded_merkle_root@));
    assert(e.header.encoded_length + cfg.data_parts <= usize::MAX);
}

} // verus!
