//! Erasure coding of a chunk body into equal-sized data and parity parts.
use vstd::prelude::*;
use reed_solomon_erasure::galois_8::ReedSolomon;

verus! {

/// Why a set of parts could not be turned back into a body.
#[derive(Clone, Copy, Debug, PartialEq, Eq, Structural)]
pub enum CodecError {
    /// Fewer than `data_parts` distinct parts were supplied.
    InsufficientParts,
    /// The parts do not fit the header's encoded length or part count.
    Corrupt,
}

/// The parity parts that Reed-Solomon coding over GF(2^8) derives from `data`.
pub uninterp spec fn rs_parity(data: Seq<Seq<u8>>, parity_count: nat) -> Seq<Seq<u8>>;

/// Byte `k` of the body padded with zeros.
pub open spec fn byte_at(body: Seq<u8>, k: int) -> u8 {
    if 0 <= k < body.len() { body[k] } else { 0 }
}

/// Length of every part when a body of `len` bytes is split into `d` data parts.
pub open spec fn part_size(len: nat, d: nat) -> nat {
    if d == 0 { 0 } else if len == 0 { 1 } else { ((len - 1) as nat / d + 1) as nat }
}

/// The `d` data parts of `body`: consecutive slices of the zero-padded body.
pub open spec fn data_shards(body: Seq<u8>, d: nat) -> Seq<Seq<u8>> {
    let s = part_size(body.len(), d);
    Seq::new(d, |i: int| Seq::new(s, |k: int| byte_at(body, i * s + k)))
}

pub open spec fn parity_of(data: Seq<Seq<u8>>, parity_count: nat) -> Seq<Seq<u8>> {
    if parity_count == 0 { Seq::empty() } else { rs_parity(data, parity_count) }
}

/// The full ordered list of parts: data parts followed by parity parts.
pub open spec fn codeword(data: Seq<Seq<u8>>, total: nat) -> Seq<Seq<u8>> {
    data + parity_of(data, (total - data.len()) as nat)
}

pub open spec fn encode_spec(body: Seq<u8>, d: nat, t: nat) -> Seq<Seq<u8>> {
    codeword(data_shards(body, d), t)
}

pub open spec fn views(v: Seq<Vec<u8>>) -> Seq<Seq<u8>> {
    Seq::new(v.len(), |i: int| v[i]@)
}

pub open spec fn opt_views(v: Seq<Option<Vec<u8>>>) -> Seq<Option<Seq<u8>>> {
    Seq::new(
        v.len(),
        |i: int|
            match v[i] {
                Some(x) => Some(x@),
                None => None,
            },
    )
}

/// Number of slots that hold a part.
pub open spec fn present_count(parts: Seq<Option<Seq<u8>>>) -> nat
    decreases parts.len(),
{
    if parts.len() == 0 {
        0
    } else {
        present_count(parts.drop_last()) + if parts.last() is Some { 1nat } else { 0nat }
    }
}

/// Every part that is present has length `len`.
pub open spec fn uniform_len(parts: Seq<Option<Seq<u8>>>, len: nat) -> bool {
    forall|i: int| 0 <= i < parts.len() && (#[trigger] parts[i]) is Some ==> parts[i]->0.len() == len
}

/// Every part that is present has the same positive length.
pub open spec fn uniform_positive(parts: Seq<Option<Seq<u8>>>) -> bool {
    forall|i: int, j: int|
        0 <= i < parts.len() && 0 <= j < parts.len() && (#[trigger] parts[i]) is Some
            && (#[trigger] parts[j]) is Some ==> parts[i]->0.len() == parts[j]->0.len()
            && parts[i]->0.len() > 0
}

/// `data` (of `d` parts) is consistent with each part present in `parts`.
pub open spec fn is_codeword_of(data: Seq<Seq<u8>>, parts: Seq<Option<Seq<u8>>>, d: nat, t: nat) -> bool {
    &&& data.len() == d
    &&& parts.len() == t
    &&& codeword(data, t).len() == t
    &&& forall|i: int|
        0 <= i < t && (#[trigger] parts[i]) is Some ==> parts[i]->0 == codeword(data, t)[i]
}

/// The first `len` bytes of the concatenation of the data parts, each `s` long.
pub open spec fn flatten(data: Seq<Seq<u8>>, s: nat, len: nat) -> Seq<u8> {
    Seq::new(len, |k: int| data[k / (s as int)][k % (s as int)])
}

/// `parts` holds enough consistent parts of a chunk whose body is `body`.
pub open spec fn decodes_to(parts: Seq<Option<Seq<u8>>>, d: nat, t: nat, len: nat, body: Seq<u8>) -> bool {
    &&& parts.len() == t
    &&& present_count(parts) >= d
    &&& uniform_len(parts, part_size(len, d))
    &&& exists|data: Seq<Seq<u8>>|
        is_codeword_of(data, parts, d, t) && #[trigger] flatten(data, part_size(len, d), len) == body
}

/// Keeps the parts whose ordinals are in `keep`.
pub open spec fn select(parts: Seq<Seq<u8>>, keep: Set<int>) -> Seq<Option<Seq<u8>>> {
    Seq::new(parts.len(), |i: int| if keep.contains(i) { Some(parts[i]) } else { None })
}

/// Relies on reed_solomon_erasure's `galois_8::ReedSolomon::new` and `encode`:
/// with `data_count` data and `parity_count` parity shards, all of one non-zero
/// length, the data shards are left as they are and each parity slot is
/// overwritten in place with its parity shard.
#[verifier::external_body]
fn rs_encode(data_count: usize, parity_count: usize, shards: &mut Vec<Vec<u8>>)
    requires
        1 <= data_count,
        1 <= parity_count,
        data_count + parity_count <= 256,
        old(shards).len() == data_count + parity_count,
        forall|i: int| 0 <= i < old(shards).len() ==> #[trigger] old(shards)[i]@.len() == old(shards)[0]@.len(),
        old(shards)[0]@.len() > 0,
    ensures
        final(shards).len() == old(shards).len(),
        forall|i: int| 0 <= i < final(shards).len() ==> #[trigger] final(shards)[i]@.len() == old(shards)[i]@.len(),
        views(final(shards)@) == views(old(shards)@.subrange(0, data_count as int)) + rs_parity(
            views(old(shards)@.subrange(0, data_count as int)),
            parity_count as nat,
        ),
{
    let rs = ReedSolomon::new(data_count, parity_count).unwrap();
    rs.encode(shards).unwrap();
}

/// Relies on reed_solomon_erasure's `galois_8::ReedSolomon::new` and `reconstruct_data`:
/// it succeeds exactly when every present shard has one non-zero length and at
/// least `data_count` are present; on success the missing data shards are
/// filled in (the code is maximum-distance separable, so any `data_count`
/// shards of a codeword determine its data) and present shards are untouched;
/// on failure nothing is touched.
#[verifier::external_body]
fn rs_reconstruct_data(data_count: usize, parity_count: usize, shards: &mut Vec<Option<Vec<u8>>>) -> (ok: bool)
    requires
        1 <= data_count,
        1 <= parity_count,
        data_count + parity_count <= 256,
        old(shards).len() == data_count + parity_count,
    ensures
        final(shards).len() == old(shards).len(),
        ok == (present_count(opt_views(old(shards)@)) >= data_count && uniform_positive(opt_views(old(shards)@))),
        !ok ==> final(shards)@ == old(shards)@,
        forall|i: int| 0 <= i < old(shards).len() && (#[trigger] old(shards)[i]) is Some
            ==> opt_views(final(shards)@)[i] == opt_views(old(shards)@)[i],
        ok ==> forall|i: int| 0 <= i < data_count ==> (#[trigger] final(shards)[i]) is Some,
        ok ==> forall|l: nat| uniform_len(opt_views(old(shards)@), l)
            ==> #[trigger] uniform_len(opt_views(final(shards)@), l),
        ok ==> forall|data: Seq<Seq<u8>>| #[trigger] is_codeword_of(data, opt_views(old(shards)@), data_count as nat, (data_count + parity_count) as nat)
            ==> forall|i: int| 0 <= i < data_count ==> opt_views(final(shards)@)[i] == Some(#[trigger] data[i]),
{
    let rs = ReedSolomon::new(data_count, parity_count).unwrap();
    rs.reconstruct_data(shards.as_mut_slice()).is_ok()
}


proof fn lemma_part_size(len: nat, d: nat)
    requires
        d >= 1,
    ensures
        part_size(len, d) >= 1,
        part_size(len, d) * d <= len + d,
        len <= part_size(len, d) * d,
{
    if len > 0 {
        let x = (len - 1) as int;
        vstd::arithmetic::div_mod::lemma_fundamental_div_mod(x, d as int);
        let q = x / (d as int);
        assert((q + 1) * d <= len + d && len <= (q + 1) * d) by (nonlinear_arith)
            requires
                x == d * q + (x % (d as int)),
                0 <= x % (d as int),
                (x % (d as int)) < d,
                x == len - 1,
                q >= 0;
        assert(part_size(len, d) == q + 1);
    } else {
        assert(part_size(len, d) * d == d);
    }
}

/// Length of every part for a body of `len` bytes split into `d` data parts.
pub fn compute_part_size(len: usize, d: usize) -> (r: usize)
    requires
        d >= 1,
    ensures
        r == part_size(len as nat, d as nat),
        r >= 1,
        r * d <= len + d,
        len <= r * d,
{
    proof {
        lemma_part_size(len as nat, d as nat);
    }
    if len == 0 {
        1
    } else {
        (len - 1) / d + 1
    }
}

/// Splits `body` into `data_parts` zero-padded data parts of one length, followed
/// by `total_parts - data_parts` parity parts.
pub fn encode(body: &Vec<u8>, data_parts: usize, total_parts: usize) -> (parts: Vec<Vec<u8>>)
    requires
        1 <= data_parts <= total_parts <= 256,
        body.len() + data_parts <= usize::MAX,
    ensures
        encoded(views(parts@), body@, data_parts as nat, total_parts as nat),
{
    let s = compute_part_size(body.len(), data_parts);
    let ghost data = data_shards(body@, data_parts as nat);
    let mut shards: Vec<Vec<u8>> = Vec::new();
    let mut i: usize = 0;
    let mut pos: usize = 0;
    while i < data_parts
        invariant
            i <= data_parts,
            pos == i * s,
            s == part_size(body.len() as nat, data_parts as nat),
            s >= 1,
            s * data_parts <= body.len() + data_parts,
            body.len() + data_parts <= usize::MAX,
            data == data_shards(body@, data_parts as nat),
            shards.len() == i,
            forall|a: int| 0 <= a < i ==> #[trigger] shards[a]@ == data[a],
        decreases data_parts - i,
    {
        assert(pos + s <= s * data_parts) by (nonlinear_arith)
            requires pos == i * s, i < data_parts, s >= 1;
        let mut shard: Vec<u8> = Vec::new();
        let mut j: usize = 0;
        while j < s
            invariant
                j <= s,
                pos + s <= usize::MAX,
                shard@ == Seq::new(j as nat, |k: int| byte_at(body@, pos + k)),
            decreases s - j,
        {
            let b: u8 = if pos + j < body.len() { body[pos + j] } else { 0 };
            shard.push(b);
            j = j + 1;
            assert(shard@ =~= Seq::new(j as nat, |k: int| byte_at(body@, pos + k)));
        }
        assert(shard@ =~= data[i as int]);
        shards.push(shard);
        assert((i + 1) * s == i * s + s) by (nonlinear_arith);
        pos = pos + s;
        i = i + 1;
    }
    if data_parts < total_parts {
        let mut k: usize = data_parts;
        while k < total_parts
            invariant
                data_parts <= k <= total_parts,
                shards.len() == k,
                s >= 1,
                forall|a: int| 0 <= a < data_parts ==> #[trigger] shards[a]@ == data[a],
                forall|a: int| 0 <= a < k ==> #[trigger] shards[a]@.len() == s,
                data.len() == data_parts,
                forall|a: int| 0 <= a < data_parts ==> #[trigger] data[a].len() == s,
            decreases total_parts - k,
        {
            let mut zeros: Vec<u8> = Vec::new();
            let mut j: usize = 0;
            while j < s
                invariant j <= s, zeros.len() == j,
                decreases s - j,
            {
                zeros.push(0);
                j = j + 1;
            }
            shards.push(zeros);
            k = k + 1;
        }
        assert(views(shards@.subrange(0, data_parts as int)) =~= data);
        rs_encode(data_parts, total_parts - data_parts, &mut shards);
    } else {
        assert(views(shards@) =~= data);
        assert(views(shards@) =~= codeword(data, total_parts as nat));
    }
    shards
}

/// `parts` is what encoding `body` into `d` data parts of `t` gives.
pub open spec fn encoded(parts: Seq<Seq<u8>>, body: Seq<u8>, d: nat, t: nat) -> bool {
    &&& parts == encode_spec(body, d, t)
    &&& parts.len() == t
    &&& forall|i: int| 0 <= i < t ==> (#[trigger] parts[i]).len() == part_size(body.len(), d)
}

/// Ordinals of the slots that hold a part.
pub open spec fn present_set(parts: Seq<Option<Seq<u8>>>) -> Set<int> {
    Set::new(|i: int| 0 <= i < parts.len() && parts[i] is Some)
}

pub proof fn lemma_present_set(parts: Seq<Option<Seq<u8>>>)
    ensures
        present_set(parts).finite(),
        present_set(parts).len() == present_count(parts),
    decreases parts.len(),
{
    if parts.len() == 0 {
        assert(present_set(parts) =~= Set::empty());
    } else {
        let q = parts.drop_last();
        lemma_present_set(q);
        if parts.last() is Some {
            assert(present_set(parts) =~= present_set(q).insert(parts.len() - 1));
        } else {
            assert(present_set(parts) =~= present_set(q));
        }
    }
}

/// Round trip: whatever ordinals are picked, any `d` or more distinct parts
/// of the encoding of `body` decode back to `body` exactly.
pub proof fn lemma_round_trip(body: Seq<u8>, d: nat, t: nat, parts: Seq<Seq<u8>>, keep: Set<int>)
    requires
        1 <= d <= t,
        encoded(parts, body, d, t),
        keep.finite(),
        keep.len() >= d,
        forall|i: int| #[trigger] keep.contains(i) ==> 0 <= i < t,
    ensures
        decodes_to(select(parts, keep), d, t, body.len(), body),
{
    let sel = select(parts, keep);
    let s = part_size(body.len(), d);
    lemma_present_set(sel);
    assert(present_set(sel) =~= keep);
    lemma_part_size(body.len(), d);
    let data = data_shards(body, d);
    assert(codeword(data, t) == parts);
    assert(is_codeword_of(data, sel, d, t));
    assert forall|k: int| 0 <= k < body.len() implies #[trigger] flatten(data, s, body.len())[k] == body[k] by {
        vstd::arithmetic::div_mod::lemma_fundamental_div_mod(k, s as int);
        let q = k / (s as int);
        let m = k % (s as int);
        assert(0 <= q < d) by (nonlinear_arith)
            requires
                k == s * q + m,
                0 <= m < s,
                0 <= k < s * d,
                s >= 1;
        assert(q * s + m == k) by (nonlinear_arith)
            requires k == s * q + m;
    }
    assert(flatten(data, s, body.len()) =~= body);
}


/// At most one part per slot is present; when every slot counts, every slot holds a part.
pub proof fn lemma_present_count_bound(parts: Seq<Option<Seq<u8>>>)
    ensures
        present_count(parts) <= parts.len(),
        present_count(parts) == parts.len() ==> forall|i: int| 0 <= i < parts.len() ==> (#[trigger] parts[i]) is Some,
    decreases parts.len(),
{
    if parts.len() > 0 {
        lemma_present_count_bound(parts.drop_last());
        assert forall|i: int| 0 <= i < parts.len() - 1 implies parts.drop_last()[i] == parts[i] by {}
    }
}

/// Filling one empty slot adds one to the count of present parts.
pub proof fn lemma_present_count_fill(parts: Seq<Option<Seq<u8>>>, i: int, x: Seq<u8>)
    requires
        0 <= i < parts.len(),
        parts[i] is None,
    ensures
        present_count(parts.update(i, Some(x))) == present_count(parts) + 1,
    decreases parts.len(),
{
    let u = parts.update(i, Some(x));
    if i == parts.len() - 1 {
        assert(u.drop_last() =~= parts.drop_last());
    } else {
        lemma_present_count_fill(parts.drop_last(), i, x);
        assert(u.drop_last() =~= parts.drop_last().update(i, Some(x)));
    }
}

/// Rebuilds the body of `encoded_length` bytes from the parts at hand (`None`
/// where a part is missing), given `data_parts` data parts among `total_parts`.
pub fn decode(
    parts: &Vec<Option<Vec<u8>>>,
    data_parts: usize,
    total_parts: usize,
    encoded_length: usize,
) -> (r: Result<Vec<u8>, CodecError>)
    requires
        1 <= data_parts <= total_parts <= 256,
        encoded_length + data_parts <= usize::MAX,
    ensures
        r == Err::<Vec<u8>, CodecError>(CodecError::InsufficientParts) <==> (parts.len() == total_parts
            && present_count(opt_views(parts@)) < data_parts),
        r == Err::<Vec<u8>, CodecError>(CodecError::Corrupt) <==> (parts.len() != total_parts || (
        present_count(opt_views(parts@)) >= data_parts && !uniform_len(
            opt_views(parts@),
            part_size(encoded_length as nat, data_parts as nat),
        ))),
        r is Ok ==> r->Ok_0@.len() == encoded_length,
        forall|b: Seq<u8>|
            decodes_to(opt_views(parts@), data_parts as nat, total_parts as nat, encoded_length as nat, b)
                ==> r is Ok && r->Ok_0@ == b,
{
    if parts.len() != total_parts {
        return Err(CodecError::Corrupt);
    }
    let s = compute_part_size(encoded_length, data_parts);
    let ghost pv = opt_views(parts@);
    let mut count: usize = 0;
    let mut sizes_ok = true;
    let mut i: usize = 0;
    while i < parts.len()
        invariant
            i <= parts.len(),
            pv == opt_views(parts@),
            count == present_count(pv.take(i as int)),
            count <= i,
            sizes_ok == forall|a: int| 0 <= a < i && (#[trigger] pv[a]) is Some ==> pv[a]->0.len() == s,
        decreases parts.len() - i,
    {
        assert(pv.take(i + 1).drop_last() =~= pv.take(i as int));
        match &parts[i] {
            Some(p) => {
                count = count + 1;
                if p.len() != s {
                    sizes_ok = false;
                }
            },
            None => {},
        }
        i = i + 1;
    }
    assert(pv.take(i as int) =~= pv);
    if count < data_parts {
        return Err(CodecError::InsufficientParts);
    }
    if !sizes_ok {
        return Err(CodecError::Corrupt);
    }
    assert(uniform_len(pv, s as nat));
    let mut shards: Vec<Option<Vec<u8>>> = Vec::new();
    let mut i: usize = 0;
    while i < parts.len()
        invariant
            i <= parts.len(),
            pv == opt_views(parts@),
            shards.len() == i,
            opt_views(shards@) == pv.take(i as int),
        decreases parts.len() - i,
    {
        match &parts[i] {
            Some(p) => {
                let c = p.clone();
                assert(c@ =~= p@);
                shards.push(Some(c));
            },
            None => {
                shards.push(None);
            },
        }
        assert(opt_views(shards@) =~= pv.take(i + 1));
        i = i + 1;
    }
    assert(pv.take(i as int) =~= pv);
    if data_parts < total_parts {
        let ok = rs_reconstruct_data(data_parts, total_parts - data_parts, &mut shards);
        assert(ok);
    } else {
        proof { lemma_present_count_bound(pv); }
    }
    let ghost sv = opt_views(shards@);
    assert(uniform_len(sv, s as nat));
    assert forall|a: int| 0 <= a < data_parts implies (#[trigger] sv[a]) is Some && sv[a]->0.len() == s by {}
    let mut out: Vec<u8> = Vec::new();
    let mut k: usize = 0;
    while k < encoded_length
        invariant
            k <= encoded_length,
            encoded_length <= s * data_parts,
            s >= 1,
            sv == opt_views(shards@),
            shards.len() == total_parts,
            data_parts <= total_parts,
            forall|a: int| 0 <= a < data_parts ==> (#[trigger] sv[a]) is Some && sv[a]->0.len() == s,
            out@ == Seq::new(k as nat, |x: int| sv[x / (s as int)]->0[x % (s as int)]),
        decreases encoded_length - k,
    {
        let q = k / s;
        let m = k % s;
        proof {
            vstd::arithmetic::div_mod::lemma_fundamental_div_mod(k as int, s as int);
            assert(q < data_parts) by (nonlinear_arith)
                requires
                    k as int == s * q + m,
                    0 <= m,
                    k < s * data_parts,
                    s >= 1;
        }
        assert(m < s);
        assert(sv[q as int]->0.len() == s);
        let b: u8 = match &shards[q] {
            Some(p) => p[m],
            None => 0,
        };
        out.push(b);
        k = k + 1;
        assert(out@ =~= Seq::new(k as nat, |x: int| sv[x / (s as int)]->0[x % (s as int)]));
    }
    assert forall|b: Seq<u8>|
        decodes_to(pv, data_parts as nat, total_parts as nat, encoded_length as nat, b) implies out@ == b by {
        let data = choose|data: Seq<Seq<u8>>|
            is_codeword_of(data, pv, data_parts as nat, total_parts as nat) && #[trigger] flatten(
                data,
                part_size(encoded_length as nat, data_parts as nat),
                encoded_length as nat,
            ) == b;
        assert forall|a: int| 0 <= a < data_parts implies sv[a] == Some(#[trigger] data[a]) by {
            if data_parts == total_parts {
                assert(sv[a] == pv[a]);
                assert(codeword(data, total_parts as nat)[a] == data[a]);
            }
        }
        assert forall|x: int| 0 <= x < encoded_length implies #[trigger] (x / (s as int)) < data_parts by {
            vstd::arithmetic::div_mod::lemma_fundamental_div_mod(x, s as int);
            let q = x / (s as int);
            let m = x % (s as int);
            assert(q < data_parts) by (nonlinear_arith)
                requires
                    x == s * q + m,
                    0 <= m,
                    x < s * data_parts,
                    s >= 1;
        }
        assert(out@ =~= b);
    }
    Ok(out)
}

} // verus!
