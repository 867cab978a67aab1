use sha2::Digest;
use shard_chunks::codec::{compute_part_size, decode, encode, CodecError};
use shard_chunks::fixture::{default_tip, ChunkTestFixture};
use shard_chunks::manager::{
    ChunkState, ManagerConfig, Notification, Outgoing, ShardsManager, ShardsManagerResendChunkRequests,
};
use shard_chunks::merkle::{bytes_eq, verify_path, MerklePathItem};
use shard_chunks::store::{AcceptOutcome, ChunkHeader, ChunkPart, PartStore, ValidationError};

fn sha(data: &[u8]) -> Vec<u8> {
    sha2::Sha256::digest(data).to_vec()
}

fn merklize(leaves: &[Vec<u8>]) -> (Vec<u8>, Vec<Vec<MerklePathItem>>) {
    shard_chunks::merkle::merklize(&leaves.to_vec())
}

fn body_of(len: usize) -> Vec<u8> {
    (0..len).map(|i| (i * 7 % 251) as u8 + 1).collect()
}

fn slots(parts: &[Vec<u8>], keep: &[usize]) -> Vec<Option<Vec<u8>>> {
    (0..parts.len()).map(|i| if keep.contains(&i) { Some(parts[i].clone()) } else { None }).collect()
}

struct Chunk {
    header: ChunkHeader,
    parts: Vec<ChunkPart>,
    body: Vec<u8>,
}

fn make_chunk(body_len: usize, shard_id: u64, data_parts: usize, total_parts: usize) -> Chunk {
    let body = body_of(body_len);
    let encoded = encode(&body, data_parts, total_parts);
    let (root, paths) = merklize(&encoded);
    let parts = encoded
        .iter()
        .zip(paths)
        .enumerate()
        .map(|(i, (p, path))| ChunkPart { part_ord: i as u64, part: p.clone(), merkle_proof: path })
        .collect();
    let header = ChunkHeader {
        chunk_hash: sha(&root),
        prev_block_hash: vec![0; 32],
        height: 1,
        shard_id,
        encoded_length: body_len as u64,
        encoded_merkle_root: root,
    };
    Chunk { header, parts, body }
}

fn config(track_all: bool, producers: u64) -> ManagerConfig {
    ManagerConfig {
        me: 100,
        data_parts: 4,
        total_parts: 6,
        block_producers: (0..producers).collect(),
        track_all_shards: track_all,
        tracked_shards: vec![],
        resend_interval: 10,
        max_attempts: 3,
        request_own_parts: false,
        max_orphans: 2,
        orphan_horizon: 50,
    }
}

fn manager(cfg: ManagerConfig) -> ShardsManager {
    ShardsManager::new(cfg, vec![0; 32])
}

fn completions(out: &[Outgoing]) -> usize {
    out.iter().filter(|o| matches!(o, Outgoing::Notify(Notification::ChunkCompleted { .. }))).count()
}

fn requests(out: &[Outgoing]) -> Vec<(u64, u64)> {
    out.iter()
        .filter_map(|o| match o {
            Outgoing::RequestPart { target, part_ord, .. } => Some((*target, *part_ord)),
            _ => None,
        })
        .collect()
}

#[test]
fn part_size_values() {
    assert_eq!(compute_part_size(4000, 4), 1000);
    assert_eq!(compute_part_size(4001, 4), 1001);
    assert_eq!(compute_part_size(1, 4), 1);
    assert_eq!(compute_part_size(0, 3), 1);
}

#[test]
fn encode_4000_bytes_into_six_parts() {
    let body = body_of(4000);
    let parts = encode(&body, 4, 6);
    assert_eq!(parts.len(), 6);
    assert!(parts.iter().all(|p| p.len() == 1000));
    assert_eq!(parts[0], body[0..1000].to_vec());
    assert_eq!(parts[3], body[3000..4000].to_vec());
    assert!(parts[4].iter().any(|b| *b != 0));
    let got = decode(&slots(&parts, &[0, 2, 3, 5]), 4, 6, 4000).unwrap();
    assert_eq!(got.len(), 4000);
    assert_eq!(got, body);
}

#[test]
fn round_trip_every_subset() {
    let body = body_of(1234);
    let parts = encode(&body, 4, 6);
    for mask in 0u32..64 {
        let keep: Vec<usize> = (0..6).filter(|i| mask & (1 << i) != 0).collect();
        let r = decode(&slots(&parts, &keep), 4, 6, 1234);
        if keep.len() >= 4 {
            assert_eq!(r, Ok(body.clone()), "subset {:?}", keep);
        } else {
            assert_eq!(r, Err(CodecError::InsufficientParts));
        }
    }
}

#[test]
fn decode_errors() {
    let body = body_of(100);
    let parts = encode(&body, 4, 6);
    let mut s = slots(&parts, &[0, 1, 2, 3, 4, 5]);
    assert_eq!(decode(&s[0..5].to_vec(), 4, 6, 100), Err(CodecError::Corrupt));
    assert_eq!(decode(&s, 4, 6, 200), Err(CodecError::Corrupt));
    s[1] = Some(vec![1, 2, 3]);
    assert_eq!(decode(&s, 4, 6, 100), Err(CodecError::Corrupt));
}

#[test]
fn encode_without_parity_and_empty_body() {
    let body = body_of(10);
    let parts = encode(&body, 3, 3);
    assert_eq!(parts, vec![body[0..4].to_vec(), body[4..8].to_vec(), vec![body[8], body[9], 0, 0]]);
    assert_eq!(decode(&slots(&parts, &[0, 1, 2]), 3, 3, 10), Ok(body));
    let empty = encode(&Vec::new(), 2, 4);
    assert!(empty.iter().all(|p| p.len() == 1));
    assert_eq!(decode(&slots(&empty, &[1, 3]), 2, 4, 0), Ok(Vec::new()));
}

#[test]
fn merkle_paths_check_against_root() {
    let leaves: Vec<Vec<u8>> = (0..5u8).map(|i| vec![i; 3]).collect();
    let (root, paths) = merklize(&leaves);
    for i in 0..5 {
        assert!(verify_path(&root, &paths[i], &leaves[i]));
    }
    assert!(!verify_path(&root, &paths[0], &leaves[1]));
    assert!(!verify_path(&root, &paths[2], &vec![9, 9, 9]));
    assert!(bytes_eq(&vec![1, 2], &vec![1, 2]));
    assert!(!bytes_eq(&vec![1, 2], &vec![1, 3]));
}

#[test]
fn store_accepts_once_then_duplicate() {
    let c = make_chunk(400, 0, 4, 6);
    let mut store = PartStore::new(c.header.encoded_merkle_root.clone(), 6);
    assert_eq!(store.accept_part(c.parts[2].clone()), AcceptOutcome::Accepted);
    assert_eq!(store.accept_part(c.parts[2].clone()), AcceptOutcome::Duplicate);
    assert!(store.has_part(2));
    assert_eq!(store.held, 1);
    assert!(!store.ready_to_reconstruct(4));
    for i in [0, 1, 5] {
        assert_eq!(store.accept_part(c.parts[i].clone()), AcceptOutcome::Accepted);
    }
    assert!(store.ready_to_reconstruct(4));
    let got = decode(&store.payload_slots(), 4, 6, 400).unwrap();
    assert_eq!(got, c.body);
}

#[test]
fn store_rejects_bad_proof_and_ordinal() {
    let c = make_chunk(400, 0, 4, 6);
    let mut store = PartStore::new(c.header.encoded_merkle_root.clone(), 6);
    let mut bad = c.parts[1].clone();
    bad.part[0] ^= 1;
    assert_eq!(store.accept_part(bad), AcceptOutcome::Rejected(ValidationError::InvalidProof));
    let mut far = c.parts[1].clone();
    far.part_ord = 6;
    assert_eq!(store.accept_part(far), AcceptOutcome::Rejected(ValidationError::OrdinalOutOfRange));
    assert_eq!(store.held, 0);
    assert!(!store.has_part(1));
}

#[test]
fn header_only_path() {
    let c = make_chunk(400, 1, 4, 6);
    let mut m = manager(config(false, 6));
    let out = m.process_header(c.header.clone(), 0);
    assert_eq!(out.len(), 1);
    assert!(matches!(&out[0], Outgoing::Notify(Notification::HeaderReadyForInclusion { chunk_hash }) if *chunk_hash == c.header.chunk_hash));
    assert!(matches!(m.chunks[0].state, ChunkState::ReadyForInclusion));
    assert!(requests(&m.resend_chunk_requests(100)).is_empty());
    let out = m.process_partial_chunk(c.header.clone(), c.parts.clone(), 101);
    assert!(out.is_empty());
    assert!(m.process_header(c.header.clone(), 102).is_empty());
}

#[test]
fn six_producers_deliver_one_completion() {
    let c = make_chunk(1000, 2, 4, 6);
    let mut m = manager(config(true, 6));
    let out = m.process_header(c.header.clone(), 0);
    assert_eq!(requests(&out), vec![(0, 0), (1, 1), (2, 2), (3, 3), (4, 4), (5, 5)]);
    let mut completed = 0;
    let mut body = None;
    for (owner, ord) in requests(&out) {
        let part = c.parts[ord as usize].clone();
        assert_eq!(part.part_ord % 6, owner);
        let got = m.process_partial_chunk(c.header.clone(), vec![part], 1);
        completed += completions(&got);
        for o in got {
            if let Outgoing::Notify(Notification::ChunkCompleted { body: b, .. }) = o {
                body = Some(b);
            }
        }
    }
    assert_eq!(completed, 1);
    assert_eq!(body, Some(c.body.clone()));
    assert!(matches!(&m.chunks[0].state, ChunkState::Complete(b) if *b == c.body));
    assert!(m.chunks[0].requests.is_empty());
    assert!(m.resend_chunk_requests(1000).is_empty());
}

#[test]
fn completion_in_any_order_fires_once() {
    let c = make_chunk(777, 0, 4, 6);
    let mut m = manager(config(true, 6));
    m.process_header(c.header.clone(), 0);
    let mut total = 0;
    for ord in [5, 3, 3, 1, 4, 0, 2] {
        total += completions(&m.process_partial_chunk(c.header.clone(), vec![c.parts[ord].clone()], 1));
        if ord == 4 {
            assert_eq!(total, 1);
        }
    }
    assert_eq!(total, 1);
    let again = m.process_partial_chunk(c.header.clone(), c.parts.clone(), 2);
    assert_eq!(completions(&again), 0);
}

#[test]
fn tampered_parts_never_complete() {
    let c = make_chunk(400, 0, 4, 6);
    let mut m = manager(config(true, 6));
    m.process_header(c.header.clone(), 0);
    let tampered: Vec<ChunkPart> = c
        .parts
        .iter()
        .map(|p| {
            let mut q = p.clone();
            q.part[0] ^= 0xff;
            q
        })
        .collect();
    let out = m.process_partial_chunk(c.header.clone(), tampered, 1);
    assert!(out.is_empty());
    assert_eq!(m.chunks[0].store.held, 0);
    assert!(matches!(m.chunks[0].state, ChunkState::AwaitingParts));
}

#[test]
fn resend_until_permanently_missing() {
    let c = make_chunk(400, 0, 4, 6);
    let mut m = manager(config(true, 6));
    let first = m.process_header(c.header.clone(), 0);
    assert_eq!(requests(&first).len(), 6);
    m.process_partial_chunk(c.header.clone(), vec![c.parts[0].clone()], 1);
    assert_eq!(m.chunks[0].requests.len(), 5);
    assert!(m.resend_chunk_requests(5).is_empty());
    assert!(m.resend_chunk_requests(10).is_empty());
    let again = m.resend_chunk_requests(11);
    assert_eq!(requests(&again), vec![(1, 1), (2, 2), (3, 3), (4, 4), (5, 5)]);
    assert_eq!(m.chunks[0].requests[0].attempts, 2);
    assert!(m.resend_chunk_requests(21).is_empty());
    assert_eq!(requests(&m.resend_chunk_requests(22)).len(), 5);
    let last = m.resend_chunk_requests(33);
    assert_eq!(last.len(), 1);
    assert!(matches!(&last[0], Outgoing::Notify(Notification::ChunkPermanentlyMissing { .. })));
    assert!(matches!(m.chunks[0].state, ChunkState::PermanentlyMissing));
    assert!(m.resend_chunk_requests(44).is_empty());
    assert!(m.resend_chunk_requests(1000).is_empty());
}

#[test]
fn own_parts_are_not_requested() {
    let c = make_chunk(400, 0, 4, 6);
    let mut cfg = config(true, 3);
    cfg.me = 1;
    let mut m = manager(cfg);
    let out = m.process_header(c.header.clone(), 0);
    assert_eq!(requests(&out), vec![(0, 0), (2, 2), (0, 3), (2, 5)]);
}

#[test]
fn part_request_answers_held_parts() {
    let c = make_chunk(400, 0, 4, 6);
    let mut m = manager(config(true, 6));
    m.process_header(c.header.clone(), 0);
    m.process_partial_chunk(c.header.clone(), vec![c.parts[1].clone(), c.parts[4].clone()], 1);
    let out = m.handle_part_request(&c.header.chunk_hash, &vec![4, 2, 1, 9], 77);
    assert_eq!(out.len(), 1);
    match &out[0] {
        Outgoing::RespondParts { target, chunk_hash, parts } => {
            assert_eq!(*target, 77);
            assert_eq!(*chunk_hash, c.header.chunk_hash);
            let ords: Vec<u64> = parts.iter().map(|p| p.part_ord).collect();
            assert_eq!(ords, vec![4, 1]);
            assert_eq!(parts[0].part, c.parts[4].part);
        }
        _ => panic!("expected a response"),
    }
    assert!(m.handle_part_request(&vec![1, 2, 3], &vec![0], 77).is_empty());
}

#[test]
fn resend_trigger_value() {
    assert_eq!(ShardsManagerResendChunkRequests, ShardsManagerResendChunkRequests.clone());
}

#[test]
fn orphan_waits_for_parent_block() {
    let mut c = make_chunk(400, 0, 4, 6);
    c.header.prev_block_hash = vec![7; 32];
    let mut m = manager(config(true, 6));
    assert!(m.process_header(c.header.clone(), 0).is_empty());
    assert!(m.chunks.is_empty());
    assert_eq!(m.orphans.len(), 1);
    assert!(m.process_partial_chunk(c.header.clone(), c.parts.clone(), 1).is_empty());
    let out = m.on_block_known(vec![7; 32], 5);
    assert_eq!(requests(&out).len(), 6);
    assert!(m.orphans.is_empty());
    assert_eq!(m.chunks.len(), 1);
    let done = m.process_partial_chunk(c.header.clone(), c.parts.clone(), 6);
    assert_eq!(completions(&done), 1);
}

#[test]
fn orphans_are_bounded_and_expire_silently() {
    let mut m = manager(config(true, 6));
    for i in 0..3u8 {
        let mut c = make_chunk(100 + i as usize, 0, 4, 6);
        c.header.prev_block_hash = vec![9; 32];
        assert!(m.process_header(c.header, i as u64).is_empty());
    }
    assert_eq!(m.orphans.len(), 2);
    assert!(m.resend_chunk_requests(49).is_empty());
    assert_eq!(m.orphans.len(), 2);
    assert!(m.resend_chunk_requests(50).is_empty());
    assert_eq!(m.orphans.len(), 1);
    assert!(m.resend_chunk_requests(51).is_empty());
    assert!(m.orphans.is_empty());
    assert!(m.on_block_known(vec![9; 32], 60).is_empty());
    assert!(m.chunks.is_empty());
}

#[test]
fn fixture_default_completes_once() {
    let f = ChunkTestFixture::default();
    assert_eq!(f.all_part_ords, vec![0, 1, 2, 3, 4, 5]);
    assert_eq!(f.mock_part_ords, vec![f.mock_chunk_part_owner]);
    assert_eq!(f.mock_body.len(), 1000);
    assert_eq!(f.mock_chunk_header.height, 1);
    assert_eq!(f.mock_chain_head.height, 0);
    assert_eq!(f.mock_chain_head.last_block_hash, vec![0; 32]);
    let all = f.make_partial_encoded_chunk(&f.all_part_ords);
    let some = f.make_partial_encoded_chunk(&vec![5, 9, 1]);
    assert_eq!(some.parts.iter().map(|p| p.part_ord).collect::<Vec<_>>(), vec![5, 1]);
    assert_eq!(some.header.chunk_hash, f.mock_chunk_header.chunk_hash);
    let me = f.config.me;
    let mut m = ShardsManager::new(f.config, f.genesis.clone());
    let out = m.process_header(f.mock_chunk_header.clone(), 0);
    let asked: Vec<u64> = requests(&out).iter().map(|r| r.1).collect();
    assert_eq!(asked.len(), 5);
    assert!(!asked.contains(&me));
    let done = m.process_partial_chunk(all.header, all.parts, 1);
    assert_eq!(f_count_completed(&done), 1);
    let again = m.process_partial_chunk(some.header, some.parts, 2);
    assert_eq!(f_count_completed(&again), 0);
    assert!(matches!(&m.chunks[0].state, ChunkState::Complete(b) if *b == f.mock_body));
}

fn f_count_completed(out: &Vec<Outgoing>) -> usize {
    let f = ChunkTestFixture::new(false, 1, 3, 0, true);
    f.count_chunk_completion_messages(out)
}

#[test]
fn fixture_without_tracking_is_ready_for_inclusion() {
    let f = ChunkTestFixture::new(false, 3, 6, 6, false);
    assert_eq!(f.config.tracked_shards, vec![0]);
    assert!(!f.config.track_all_shards);
    let header = f.mock_chunk_header.clone();
    let owner = f.mock_chunk_part_owner;
    let mut cfg = f.config;
    cfg.me = owner;
    cfg.tracked_shards = vec![];
    let mut m = ShardsManager::new(cfg, f.genesis.clone());
    let out = m.process_header(header, 0);
    let probe = ChunkTestFixture::new(false, 1, 3, 0, true);
    assert_eq!(probe.count_chunk_ready_for_inclusion_messages(&out), 1);
    assert_eq!(probe.count_chunk_completion_messages(&out), 0);
    assert!(requests(&out).is_empty());
}

#[test]
fn fixture_tracker_tracks_its_shard_without_track_all() {
    let f = ChunkTestFixture::new(false, 3, 6, 6, false);
    let all = f.make_partial_encoded_chunk(&f.all_part_ords);
    let header = f.mock_chunk_header.clone();
    let mut m = ShardsManager::new(f.config, f.genesis.clone());
    let out = m.process_header(header, 0);
    assert_eq!(requests(&out).len(), 5);
    let done = m.process_partial_chunk(all.header, all.parts, 1);
    assert_eq!(f_count_completed(&done), 1);
}

#[test]
fn wrong_encoded_length_fails_once() {
    let mut c = make_chunk(400, 0, 4, 6);
    c.header.encoded_length = 4000;
    let mut m = manager(config(true, 6));
    m.process_header(c.header.clone(), 0);
    let out = m.process_partial_chunk(c.header.clone(), c.parts.clone(), 1);
    assert_eq!(out.len(), 1);
    assert!(matches!(&out[0], Outgoing::Notify(Notification::ChunkFailed { .. })));
    assert!(matches!(m.chunks[0].state, ChunkState::Failed));
    assert!(m.process_partial_chunk(c.header.clone(), c.parts.clone(), 2).is_empty());
}

#[test]
fn fixture_orphan_chunk_waits() {
    let f = ChunkTestFixture::new(true, 3, 6, 6, true);
    assert_ne!(f.mock_chunk_header.prev_block_hash, f.genesis);
    assert_eq!(f.mock_chunk_header.prev_block_hash, sha(&[]));
    assert_eq!(f.mock_chunk_header.height, 2);
    let header = f.mock_chunk_header.clone();
    let mut m = ShardsManager::new(f.config, f.genesis.clone());
    assert!(m.process_header(header, 0).is_empty());
    assert_eq!(m.orphans.len(), 1);
}

#[test]
fn genesis_tip() {
    let t = default_tip();
    assert_eq!(t.height, 0);
    assert_eq!(t.last_block_hash, vec![0; 32]);
    assert_eq!(t.prev_block_hash, vec![0; 32]);
    assert_eq!(t.epoch_id, vec![0; 32]);
    assert_eq!(t.next_epoch_id, vec![0; 32]);
}

#[test]
fn parts_that_are_no_encoding_fail() {
    let body = body_of(400);
    let mut encoded = encode(&body, 4, 6);
    encoded[5][0] ^= 1;
    let (root, paths) = merklize(&encoded);
    let parts: Vec<ChunkPart> = encoded
        .iter()
        .zip(paths)
        .enumerate()
        .map(|(i, (p, path))| ChunkPart { part_ord: i as u64, part: p.clone(), merkle_proof: path })
        .collect();
    let header = ChunkHeader {
        chunk_hash: sha(&root),
        prev_block_hash: vec![0; 32],
        height: 1,
        shard_id: 0,
        encoded_length: 400,
        encoded_merkle_root: root,
    };
    let mut m = manager(config(true, 6));
    m.process_header(header.clone(), 0);
    let out = m.process_partial_chunk(header, parts[0..4].to_vec(), 1);
    assert_eq!(out.len(), 1);
    assert!(matches!(&out[0], Outgoing::Notify(Notification::ChunkFailed { .. })));
    assert!(matches!(m.chunks[0].state, ChunkState::Failed));
}

#[test]
fn same_parts_twice_change_nothing() {
    let f = ChunkTestFixture::default();
    let some = f.make_partial_encoded_chunk(&vec![2, 5]);
    let again = f.make_partial_encoded_chunk(&vec![2, 5]);
    let mut m = ShardsManager::new(f.config, f.genesis.clone());
    m.process_header(f.mock_chunk_header.clone(), 0);
    assert!(m.process_partial_chunk(some.header, some.parts, 1).is_empty());
    assert_eq!(m.chunks[0].store.held, 2);
    assert!(m.chunks[0].store.has_part(5));
    assert!(m.process_partial_chunk(again.header, again.parts, 2).is_empty());
    assert_eq!(m.chunks[0].store.held, 2);
    assert!(matches!(m.chunks[0].state, ChunkState::AwaitingParts));
}
