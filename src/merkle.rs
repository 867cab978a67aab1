//! Merkle path checks that tie a part to the content root of its header.
use vstd::prelude::*;
use sha2::Digest;

verus! {

/// The SHA-256 digest of `data`.
pub uninterp spec fn sha256_of(data: Seq<u8>) -> Seq<u8>;

/// Relies on sha2's `Sha256::digest`: the 32-byte SHA-256 digest of `data`.
#[verifier::external_body]
pub(crate) fn sha256(data: &Vec<u8>) -> (r: Vec<u8>)
    ensures
        r@ == sha256_of(data@),
        r@.len() == 32,
{
    sha2::Sha256::digest(data.as_slice()).to_vec()
}

/// One step of a merkle path: the sibling's hash, and whether it sits on the left.
#[derive(Clone, Debug)]
pub struct MerklePathItem {
    pub hash: Vec<u8>,
    pub sibling_on_left: bool,
}

/// Hash of an inner node from its two children.
pub open spec fn combine(left: Seq<u8>, right: Seq<u8>) -> Seq<u8> {
    sha256_of(left + right)
}

/// The root reached from node hash `h` by walking up `path`.
pub open spec fn fold_path(h: Seq<u8>, path: Seq<MerklePathItem>) -> Seq<u8>
    decreases path.len(),
{
    if path.len() == 0 {
        h
    } else {
        let up = if path[0].sibling_on_left {
            combine(path[0].hash@, h)
        } else {
            combine(h, path[0].hash@)
        };
        fold_path(up, path.drop_first())
    }
}

/// The root that `path` proves for a leaf holding `data`.
pub open spec fn path_root(data: Seq<u8>, path: Seq<MerklePathItem>) -> Seq<u8> {
    fold_path(sha256_of(data), path)
}

/// Byte-wise equality.
pub fn bytes_eq(a: &Vec<u8>, b: &Vec<u8>) -> (r: bool)
    ensures
        r == (a@ == b@),
{
    if a.len() != b.len() {
        return false;
    }
    let mut i: usize = 0;
    while i < a.len()
        invariant
            i <= a.len(),
            a.len() == b.len(),
            forall|k: int| 0 <= k < i ==> a@[k] == b@[k],
        decreases a.len() - i,
    {
        if a[i] != b[i] {
            return false;
        }
        i = i + 1;
    }
    assert(a@ =~= b@);
    true
}

/// A copy of `a`.
pub fn copy_bytes(a: &Vec<u8>) -> (r: Vec<u8>)
    ensures
        r@ == a@,
{
    let r = a.clone();
    assert(r@ =~= a@);
    r
}

fn concat(a: &Vec<u8>, b: &Vec<u8>) -> (r: Vec<u8>)
    ensures
        r@ == a@ + b@,
{
    let mut r: Vec<u8> = Vec::new();
    let mut i: usize = 0;
    while i < a.len()
        invariant
            i <= a.len(),
            r@ == a@.take(i as int),
        decreases a.len() - i,
    {
        r.push(a[i]);
        i = i + 1;
        assert(r@ =~= a@.take(i as int));
    }
    let mut j: usize = 0;
    while j < b.len()
        invariant
            i == a.len(),
            j <= b.len(),
            r@ == a@ + b@.take(j as int),
        decreases b.len() - j,
    {
        r.push(b[j]);
        j = j + 1;
        assert(r@ =~= a@ + b@.take(j as int));
    }
    assert(a@.take(i as int) =~= a@);
    assert(b@.take(j as int) =~= b@);
    r
}

/// Whether `path` proves that a leaf holding `data` lies under `root`.
pub fn verify_path(root: &Vec<u8>, path: &Vec<MerklePathItem>, data: &Vec<u8>) -> (r: bool)
    ensures
        r == (path_root(data@, path@) == root@),
{
    let mut h = sha256(data);
    let mut i: usize = 0;
    assert(path@.subrange(0, path.len() as int) =~= path@);
    while i < path.len()
        invariant
            i <= path.len(),
            fold_path(h@, path@.subrange(i as int, path.len() as int)) == path_root(data@, path@),
        decreases path.len() - i,
    {
        let ghost rest = path@.subrange(i as int, path.len() as int);
        assert(rest.drop_first() =~= path@.subrange(i + 1, path.len() as int));
        let item = &path[i];
        let joined = if item.sibling_on_left {
            concat(&item.hash, &h)
        } else {
            concat(&h, &item.hash)
        };
        h = sha256(&joined);
        i = i + 1;
    }
    assert(path@.subrange(i as int, path.len() as int) =~= Seq::<MerklePathItem>::empty());
    bytes_eq(&h, root)
}

/// The node hash one step above `h` along `item`.
pub open spec fn step_up(h: Seq<u8>, item: MerklePathItem) -> Seq<u8> {
    if item.sibling_on_left {
        combine(item.hash@, h)
    } else {
        combine(h, item.hash@)
    }
}

proof fn lemma_fold_push(h: Seq<u8>, path: Seq<MerklePathItem>, item: MerklePathItem)
    ensures
        fold_path(h, path.push(item)) == step_up(fold_path(h, path), item),
    decreases path.len(),
{
    let p2 = path.push(item);
    if path.len() > 0 {
        let up = step_up(h, path[0]);
        assert(p2[0] == path[0]);
        assert(p2.drop_first() =~= path.drop_first().push(item));
        assert(fold_path(h, p2) == fold_path(up, p2.drop_first()));
        lemma_fold_push(up, path.drop_first(), item);
        assert(fold_path(h, path) == fold_path(up, path.drop_first()));
    } else {
        assert(p2.drop_first() =~= Seq::<MerklePathItem>::empty());
        assert(p2[0] == item);
        assert(fold_path(h, p2) == fold_path(step_up(h, item), p2.drop_first()));
        assert(fold_path(step_up(h, item), Seq::<MerklePathItem>::empty()) == step_up(h, item));
        assert(fold_path(h, path) == h);
    }
}

/// Extends each path in `paths` by one step towards a sibling with hash `sibling`.
fn extend_paths(paths: &mut Vec<Vec<MerklePathItem>>, sibling: &Vec<u8>, sibling_on_left: bool)
    ensures
        final(paths).len() == old(paths).len(),
        forall|i: int| 0 <= i < old(paths).len() ==> (#[trigger] final(paths)[i])@.len() == old(paths)[i]@.len() + 1
            && final(paths)[i]@.drop_last() == old(paths)[i]@
            && final(paths)[i]@.last().hash@ == sibling@
            && final(paths)[i]@.last().sibling_on_left == sibling_on_left,
{
    let ghost start = paths@;
    let mut i: usize = 0;
    while i < paths.len()
        invariant
            i <= paths.len(),
            paths.len() == start.len(),
            forall|k: int| i <= k < paths.len() ==> #[trigger] paths[k] == start[k],
            forall|k: int| 0 <= k < i ==> (#[trigger] paths[k])@.len() == start[k]@.len() + 1
                && paths[k]@.drop_last() == start[k]@
                && paths[k]@.last().hash@ == sibling@
                && paths[k]@.last().sibling_on_left == sibling_on_left,
        decreases paths.len() - i,
    {
        let item = MerklePathItem { hash: copy_bytes(sibling), sibling_on_left };
        paths[i].push(item);
        assert(paths[i as int]@.drop_last() =~= start[i as int]@);
        i = i + 1;
    }
}

/// The root of the merkle tree over `leaves[lo..hi]`, split evenly at each level.
pub open spec fn tree_root(leaves: Seq<Seq<u8>>, lo: int, hi: int) -> Seq<u8>
    decreases hi - lo,
{
    if hi - lo <= 1 {
        sha256_of(leaves[lo])
    } else {
        let mid = lo + (hi - lo) / 2;
        combine(tree_root(leaves, lo, mid), tree_root(leaves, mid, hi))
    }
}

pub open spec fn leaf_views(v: Seq<Vec<u8>>) -> Seq<Seq<u8>> {
    Seq::new(v.len(), |i: int| v[i]@)
}

fn merklize_range(leaves: &Vec<Vec<u8>>, lo: usize, hi: usize) -> (r: (Vec<u8>, Vec<Vec<MerklePathItem>>))
    requires
        lo < hi <= leaves.len(),
    ensures
        r.0@ == tree_root(leaf_views(leaves@), lo as int, hi as int),
        r.1.len() == hi - lo,
        forall|i: int| 0 <= i < hi - lo ==> path_root(leaves[lo + i]@, (#[trigger] r.1[i])@) == r.0@,
    decreases hi - lo,
{
    if hi - lo == 1 {
        let mut paths: Vec<Vec<MerklePathItem>> = Vec::new();
        paths.push(Vec::new());
        assert(paths[0]@ =~= Seq::<MerklePathItem>::empty());
        return (sha256(&leaves[lo]), paths);
    }
    let mid = lo + (hi - lo) / 2;
    let (left, mut left_paths) = merklize_range(leaves, lo, mid);
    let (right, mut right_paths) = merklize_range(leaves, mid, hi);
    let root = sha256(&concat(&left, &right));
    let ghost lp = left_paths@;
    let ghost rp = right_paths@;
    extend_paths(&mut left_paths, &right, false);
    extend_paths(&mut right_paths, &left, true);
    proof {
        assert forall|i: int| 0 <= i < mid - lo implies path_root(leaves[lo + i]@, (#[trigger] left_paths[i])@) == root@ by {
            assert(left_paths[i]@ == lp[i]@.push(left_paths[i]@.last()));
            lemma_fold_push(sha256_of(leaves[lo + i]@), lp[i]@, left_paths[i]@.last());
        }
        assert forall|i: int| 0 <= i < hi - mid implies path_root(leaves[mid + i]@, (#[trigger] right_paths[i])@) == root@ by {
            assert(right_paths[i]@ == rp[i]@.push(right_paths[i]@.last()));
            lemma_fold_push(sha256_of(leaves[mid + i]@), rp[i]@, right_paths[i]@.last());
        }
    }
    left_paths.append(&mut right_paths);
    proof {
        assert forall|i: int| 0 <= i < hi - lo implies path_root(leaves[lo + i]@, (#[trigger] left_paths[i])@) == root@ by {
            if i >= mid - lo {
                let j = i - (mid - lo);
                assert(lo + i == mid + j);
            }
        }
    }
    (root, left_paths)
}

/// The merkle root of `leaves` and, for each leaf, a path that proves it
/// lies under that root.
pub fn merklize(leaves: &Vec<Vec<u8>>) -> (r: (Vec<u8>, Vec<Vec<MerklePathItem>>))
    requires
        leaves.len() >= 1,
    ensures
        r.0@ == tree_root(leaf_views(leaves@), 0, leaves.len() as int),
        r.1.len() == leaves.len(),
        forall|i: int| 0 <= i < leaves.len() ==> path_root(leaves[i]@, (#[trigger] r.1[i])@) == r.0@,
{
    merklize_range(leaves, 0, leaves.len())
}

} // verus!
