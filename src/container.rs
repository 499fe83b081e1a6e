use vstd::prelude::*;

use crate::assoc::{lemma_pairs_map_absent, lemma_pairs_map_keys, lemma_pairs_map_last, pairs_map};
use crate::digest::{Digest, DIGEST_LEN};
use crate::error::Error;

verus! {

/// Bytes before the table of contents: the manifest index and the entry count.
pub const HEADER_LEN: usize = 16;

/// Bytes of one table entry: a digest and a payload length.
pub const ENTRY_LEN: usize = 40;

/// The little-endian 64-bit integer stored at `at`.
pub open spec fn u64_at(b: Seq<u8>, at: int) -> int {
    b[at] as int + 256 * b[at + 1] + 65536 * b[at + 2] + 16777216 * b[at + 3]
        + 4294967296 * b[at + 4] + 1099511627776 * b[at + 5]
        + 281474976710656 * b[at + 6] + 72057594037927936 * b[at + 7]
}

/// The digest of table entry `i`.
pub open spec fn entry_digest(b: Seq<u8>, i: int) -> Seq<u8> {
    b.subrange(16 + 40 * i, 16 + 40 * i + 32)
}

/// The payload length of table entry `i`.
pub open spec fn entry_len(b: Seq<u8>, i: int) -> int {
    u64_at(b, 16 + 40 * i + 32)
}

/// Where the payload of entry `i` starts, in a container of `n` entries.
pub open spec fn payload_start(b: Seq<u8>, n: int, i: int) -> int
    decreases i,
{
    if i <= 0 {
        16 + 40 * n
    } else {
        payload_start(b, n, i - 1) + entry_len(b, i - 1)
    }
}

/// The blobs of a container of `n` entries, as (digest, bytes) in table order.
pub open spec fn entries_of(b: Seq<u8>, n: int) -> Seq<(Seq<u8>, Seq<u8>)> {
    Seq::new(
        n as nat,
        |i: int|
            (
                entry_digest(b, i),
                b.subrange(payload_start(b, n, i), payload_start(b, n, i) + entry_len(b, i)),
            ),
    )
}

/// What a byte stream holds as a container: the manifest's digest and the
/// blobs in table order, or why it holds none. Bytes after the last payload
/// are not read.
pub open spec fn parse(b: Seq<u8>) -> Result<(Seq<u8>, Seq<(Seq<u8>, Seq<u8>)>), Error> {
    if b.len() < 16 {
        Err(Error::Truncated)
    } else {
        let n = u64_at(b, 8);
        if b.len() < 16 + 40 * n || b.len() < payload_start(b, n, n) {
            Err(Error::Truncated)
        } else if u64_at(b, 0) >= n {
            Err(Error::ManifestIndex)
        } else {
            Ok((entry_digest(b, u64_at(b, 0)), entries_of(b, n)))
        }
    }
}

/// A blob table as (digest bytes, blob bytes) pairs.
pub open spec fn blob_entries(v: Seq<(Digest, Vec<u8>)>) -> Seq<(Seq<u8>, Seq<u8>)> {
    v.map_values(|e: (Digest, Vec<u8>)| (e.0@, e.1@))
}

/// The map from digest to bytes that a blob table denotes (a later blob
/// replaces an earlier one with the same digest).
pub open spec fn blob_map(v: Seq<(Digest, Vec<u8>)>) -> Map<Seq<u8>, Seq<u8>> {
    pairs_map(blob_entries(v))
}

/// Payloads never start before the end of the table, and never go back.
proof fn lemma_payload_start_monotone(b: Seq<u8>, n: int, i: int, j: int)
    requires
        0 <= i <= j,
        forall|k: int| 0 <= k < n ==> #[trigger] entry_len(b, k) >= 0,
        j <= n,
    ensures
        16 + 40 * n <= payload_start(b, n, i) <= payload_start(b, n, j),
    decreases j,
{
    if j > 0 {
        if i < j {
            lemma_payload_start_monotone(b, n, i, j - 1);
        } else {
            lemma_payload_start_monotone(b, n, j - 1, j - 1);
        }
    }
}

/// The eight little-endian bytes of `n`.
pub open spec fn u64_bytes(n: int) -> Seq<u8> {
    seq![
        (n % 256) as u8,
        (n / 256 % 256) as u8,
        (n / 256 / 256 % 256) as u8,
        (n / 256 / 256 / 256 % 256) as u8,
        (n / 256 / 256 / 256 / 256 % 256) as u8,
        (n / 256 / 256 / 256 / 256 / 256 % 256) as u8,
        (n / 256 / 256 / 256 / 256 / 256 / 256 % 256) as u8,
        (n / 256 / 256 / 256 / 256 / 256 / 256 / 256 % 256) as u8,
    ]
}

/// The table of contents for the blobs `e`, in order.
pub open spec fn toc_bytes(e: Seq<(Seq<u8>, Seq<u8>)>) -> Seq<u8>
    decreases e.len(),
{
    if e.len() == 0 {
        Seq::empty()
    } else {
        toc_bytes(e.drop_last()) + e.last().0 + u64_bytes(e.last().1.len() as int)
    }
}

/// The payloads of the blobs `e`, concatenated in order.
pub open spec fn payload_bytes(e: Seq<(Seq<u8>, Seq<u8>)>) -> Seq<u8>
    decreases e.len(),
{
    if e.len() == 0 {
        Seq::empty()
    } else {
        payload_bytes(e.drop_last()) + e.last().1
    }
}

/// The container that holds the blobs `e`, with entry `manifest_index` as
/// the manifest.
pub open spec fn container_bytes(manifest_index: int, e: Seq<(Seq<u8>, Seq<u8>)>) -> Seq<u8> {
    u64_bytes(manifest_index) + u64_bytes(e.len() as int) + toc_bytes(e) + payload_bytes(e)
}

/// Blobs that a container can hold: full-width digests, and counts and
/// lengths that fit the format's 64-bit fields.
pub open spec fn storable(e: Seq<(Seq<u8>, Seq<u8>)>) -> bool {
    &&& e.len() <= u64::MAX
    &&& forall|i: int|
        0 <= i < e.len() ==> (#[trigger] e[i]).0.len() == 32 && e[i].1.len() <= u64::MAX
}

proof fn lemma_u64_bytes(b: Seq<u8>, at: int, n: int)
    requires
        0 <= at,
        at + 8 <= b.len(),
        0 <= n <= u64::MAX,
        b.subrange(at, at + 8) == u64_bytes(n),
    ensures
        u64_at(b, at) == n,
{
    let q1 = n / 256;
    let q2 = q1 / 256;
    let q3 = q2 / 256;
    let q4 = q3 / 256;
    let q5 = q4 / 256;
    let q6 = q5 / 256;
    let q7 = q6 / 256;
    assert(b[at] == u64_bytes(n)[0]);
    assert(b[at + 1] == u64_bytes(n)[1]);
    assert(b[at + 2] == u64_bytes(n)[2]);
    assert(b[at + 3] == u64_bytes(n)[3]);
    assert(b[at + 4] == u64_bytes(n)[4]);
    assert(b[at + 5] == u64_bytes(n)[5]);
    assert(b[at + 6] == u64_bytes(n)[6]);
    assert(b[at + 7] == u64_bytes(n)[7]);
    assert(q7 < 256);
}

proof fn lemma_toc_bytes(e: Seq<(Seq<u8>, Seq<u8>)>, i: int)
    requires
        storable(e),
        0 <= i < e.len(),
    ensures
        toc_bytes(e).len() == 40 * e.len(),
        toc_bytes(e).subrange(40 * i, 40 * i + 32) == e[i].0,
        toc_bytes(e).subrange(40 * i + 32, 40 * i + 40) == u64_bytes(e[i].1.len() as int),
    decreases e.len(),
{
    let d = e.drop_last();
    let t = toc_bytes(d);
    let last = e.last();
    assert(storable(d)) by {
        assert forall|k: int| 0 <= k < d.len() implies (#[trigger] d[k]).0.len() == 32 && d[k].1.len()
            <= u64::MAX by {
            assert(d[k] == e[k]);
        }
    }
    assert(e[e.len() - 1] == last);
    if d.len() > 0 {
        lemma_toc_bytes(d, if i < d.len() {
            i
        } else {
            0
        });
    } else {
        assert(t.len() == 0);
    }
    let x = toc_bytes(e);
    assert(x == t + last.0 + u64_bytes(last.1.len() as int));
    if i < d.len() {
        assert(d[i] == e[i]);
        assert(x.subrange(40 * i, 40 * i + 32) =~= t.subrange(40 * i, 40 * i + 32));
        assert(x.subrange(40 * i + 32, 40 * i + 40) =~= t.subrange(40 * i + 32, 40 * i + 40));
    } else {
        assert(x.subrange(40 * i, 40 * i + 32) =~= last.0);
        assert(x.subrange(40 * i + 32, 40 * i + 40) =~= u64_bytes(last.1.len() as int));
    }
}

proof fn lemma_payload_prefix(e: Seq<(Seq<u8>, Seq<u8>)>, j: int)
    requires
        0 <= j <= e.len(),
    ensures
        payload_bytes(e.take(j)).len() <= payload_bytes(e).len(),
        payload_bytes(e).subrange(0, payload_bytes(e.take(j)).len() as int) == payload_bytes(
            e.take(j),
        ),
    decreases e.len(),
{
    if j == e.len() {
        assert(e.take(j) =~= e);
        assert(payload_bytes(e).subrange(0, payload_bytes(e).len() as int) =~= payload_bytes(e));
    } else {
        let d = e.drop_last();
        assert(e.take(j) =~= d.take(j));
        lemma_payload_prefix(d, j);
        let p = payload_bytes(d.take(j));
        assert(payload_bytes(e).subrange(0, p.len() as int) =~= payload_bytes(d).subrange(
            0,
            p.len() as int,
        ));
    }
}

proof fn lemma_payload_bytes(e: Seq<(Seq<u8>, Seq<u8>)>, i: int)
    requires
        0 <= i < e.len(),
    ensures
        payload_bytes(e.take(i + 1)).len() == payload_bytes(e.take(i)).len() + e[i].1.len(),
        payload_bytes(e.take(i + 1)).len() <= payload_bytes(e).len(),
        payload_bytes(e).subrange(
            payload_bytes(e.take(i)).len() as int,
            payload_bytes(e.take(i + 1)).len() as int,
        ) == e[i].1,
{
    let t = e.take(i + 1);
    assert(t.drop_last() =~= e.take(i));
    let p = payload_bytes(e.take(i));
    let q = payload_bytes(t);
    assert(q == p + e[i].1);
    lemma_payload_prefix(e, i + 1);
    let all = payload_bytes(e);
    assert(all.subrange(p.len() as int, q.len() as int) =~= q.subrange(
        p.len() as int,
        q.len() as int,
    ));
    assert(q.subrange(p.len() as int, q.len() as int) =~= e[i].1);
}

/// Writing blobs into a container and reading it back gives the same blobs,
/// in table order, with the chosen entry's digest as the manifest; so the
/// blob map read back is `pairs_map(e)`. A manifest index past the table is
/// rejected.
proof fn lemma_container_header(manifest_index: int, e: Seq<(Seq<u8>, Seq<u8>)>)
    requires
        storable(e),
        0 <= manifest_index <= u64::MAX,
    ensures
        container_bytes(manifest_index, e).len() == 16 + 40 * e.len() + payload_bytes(e).len(),
        u64_at(container_bytes(manifest_index, e), 0) == manifest_index,
        u64_at(container_bytes(manifest_index, e), 8) == e.len(),
{
    let b = container_bytes(manifest_index, e);
    if e.len() > 0 {
        lemma_toc_bytes(e, 0);
    } else {
        assert(toc_bytes(e).len() == 0);
    }
    assert(b.subrange(0, 8) =~= u64_bytes(manifest_index));
    assert(b.subrange(8, 16) =~= u64_bytes(e.len() as int));
    lemma_u64_bytes(b, 0, manifest_index);
    lemma_u64_bytes(b, 8, e.len() as int);
}

proof fn lemma_container_entries(manifest_index: int, e: Seq<(Seq<u8>, Seq<u8>)>)
    requires
        storable(e),
    ensures
        entries_of(container_bytes(manifest_index, e), e.len() as int) == e,
        payload_start(container_bytes(manifest_index, e), e.len() as int, e.len() as int) == 16
            + 40 * e.len() + payload_bytes(e).len(),
        forall|i: int|
            0 <= i < e.len() ==> #[trigger] entry_digest(container_bytes(manifest_index, e), i)
                == e[i].0,
{
    let b = container_bytes(manifest_index, e);
    let n = e.len() as int;
    assert forall|i: int| 0 <= i < n implies #[trigger] entry_digest(b, i) == e[i].0 && entry_len(
        b,
        i,
    ) == e[i].1.len() by {
        lemma_toc_entry(manifest_index, e, i);
    }
    assert forall|i: int| 0 <= i < n implies #[trigger] entries_of(b, n)[i] == e[i] by {
        lemma_payload_entry(manifest_index, e, i);
    }
    assert(entries_of(b, n) =~= e);
    lemma_payload_start(b, e, n);
    assert(e.take(n) =~= e);
}

/// Writing blobs into a container and reading it back gives the same blobs,
/// in table order, with the chosen entry's digest as the manifest; so the
/// blob map read back is `pairs_map(e)`. A manifest index past the table is
/// rejected.
pub proof fn lemma_round_trip(manifest_index: int, e: Seq<(Seq<u8>, Seq<u8>)>)
    requires
        storable(e),
        0 <= manifest_index <= u64::MAX,
    ensures
        manifest_index < e.len() ==> parse(container_bytes(manifest_index, e)) == Ok::<
            _,
            Error,
        >((e[manifest_index].0, e)),
        manifest_index >= e.len() ==> parse(container_bytes(manifest_index, e)) == Err::<
            (Seq<u8>, Seq<(Seq<u8>, Seq<u8>)>),
            _,
        >(Error::ManifestIndex),
{
    lemma_container_header(manifest_index, e);
    lemma_container_entries(manifest_index, e);
}

proof fn lemma_toc_entry(manifest_index: int, e: Seq<(Seq<u8>, Seq<u8>)>, i: int)
    requires
        storable(e),
        0 <= i < e.len(),
    ensures
        entry_digest(container_bytes(manifest_index, e), i) == e[i].0,
        entry_len(container_bytes(manifest_index, e), i) == e[i].1.len(),
{
    let b = container_bytes(manifest_index, e);
    let toc = toc_bytes(e);
    lemma_toc_bytes(e, i);
    assert(b.subrange(16 + 40 * i, 16 + 40 * i + 32) =~= toc.subrange(40 * i, 40 * i + 32));
    assert(b.subrange(16 + 40 * i + 32, 16 + 40 * i + 40) =~= toc.subrange(
        40 * i + 32,
        40 * i + 40,
    ));
    lemma_u64_bytes(b, 16 + 40 * i + 32, e[i].1.len() as int);
}

proof fn lemma_payload_entry(manifest_index: int, e: Seq<(Seq<u8>, Seq<u8>)>, i: int)
    requires
        storable(e),
        0 <= i < e.len(),
    ensures
        entries_of(container_bytes(manifest_index, e), e.len() as int)[i] == e[i],
{
    let b = container_bytes(manifest_index, e);
    let n = e.len() as int;
    let pl = payload_bytes(e);
    lemma_toc_bytes(e, i);
    assert forall|k: int| 0 <= k < n implies #[trigger] entry_len(b, k) == e[k].1.len() by {
        lemma_toc_entry(manifest_index, e, k);
    }
    lemma_toc_entry(manifest_index, e, i);
    lemma_payload_start(b, e, i);
    lemma_payload_bytes(e, i);
    let s = payload_start(b, n, i);
    assert(b.subrange(s, s + entry_len(b, i)) =~= pl.subrange(
        payload_bytes(e.take(i)).len() as int,
        payload_bytes(e.take(i + 1)).len() as int,
    ));
}

proof fn lemma_payload_start(b: Seq<u8>, e: Seq<(Seq<u8>, Seq<u8>)>, i: int)
    requires
        0 <= i <= e.len(),
        forall|k: int| 0 <= k < e.len() ==> #[trigger] entry_len(b, k) == e[k].1.len(),
    ensures
        payload_start(b, e.len() as int, i) == 16 + 40 * e.len() + payload_bytes(e.take(i)).len(),
    decreases i,
{
    if i == 0 {
        assert(e.take(0) =~= Seq::<(Seq<u8>, Seq<u8>)>::empty());
    } else {
        lemma_payload_start(b, e, i - 1);
        lemma_payload_bytes(e, i - 1);
    }
}

/// Reads the little-endian 64-bit integer at `at`.
fn read_u64(b: &[u8], at: usize) -> (r: u64)
    requires
        at + 8 <= b@.len(),
    ensures
        r == u64_at(b@, at as int),
{
    b[at] as u64 + 256 * (b[at + 1] as u64) + 65536 * (b[at + 2] as u64) + 16777216 * (
    b[at + 3] as u64) + 4294967296 * (b[at + 4] as u64) + 1099511627776 * (b[at + 5] as u64)
        + 281474976710656 * (b[at + 6] as u64) + 72057594037927936 * (b[at + 7] as u64)
}

/// Reads the digest at `at`.
fn read_digest(b: &[u8], at: usize) -> (r: Digest)
    requires
        at + 32 <= b@.len(),
    ensures
        r@ == b@.subrange(at as int, at + 32),
{
    let blen = b.len();
    let mut d = [0u8; 32];
    let mut i: usize = 0;
    while i < DIGEST_LEN
        invariant
            0 <= i <= DIGEST_LEN,
            blen == b@.len(),
            at + 32 <= b@.len(),
            d@.len() == 32,
            forall|j: int| 0 <= j < i ==> d@[j] == b@[at + j],
        decreases DIGEST_LEN - i,
    {
        d[i] = b[at + i];
        i = i + 1;
    }
    let r = Digest(d);
    assert(r@ =~= b@.subrange(at as int, at + 32));
    r
}

/// The raw contents of a container: the manifest's digest and every blob.
#[derive(Clone, Debug, PartialEq)]
pub struct Container {
    pub manifest: Digest,
    pub files: Vec<(Digest, Vec<u8>)>,
}

impl Container {
    /// Whether the blob table holds a blob for the manifest's digest.
    pub open spec fn wf(&self) -> bool {
        blob_map(self.files@).contains_key(self.manifest@)
    }
}

/// Reads a container: the header, then the whole table of contents, then
/// one payload per table entry in table order.
pub fn read_container(b: &[u8]) -> (r: Result<Container, Error>)
    ensures
        match r {
            Ok(c) => parse(b@) == Ok::<_, Error>((c.manifest@, blob_entries(c.files@))) && c.wf(),
            Err(e) => parse(b@) == Err::<(Seq<u8>, Seq<(Seq<u8>, Seq<u8>)>), _>(e),
        },
{
    if b.len() < HEADER_LEN {
        return Err(Error::Truncated);
    }
    let manifest_index = read_u64(b, 0);
    let count = read_u64(b, 8);
    let ghost n = count as int;
    let mut toc: Vec<(Digest, u64)> = Vec::new();
    let mut manifest: Option<Digest> = None;
    let mut pos: usize = HEADER_LEN;
    let mut i: u64 = 0;
    while i < count
        invariant
            0 <= i <= count,
            n == count,
            count == u64_at(b@, 8),
            manifest_index == u64_at(b@, 0),
            pos == 16 + 40 * i,
            pos <= b@.len(),
            toc@.len() == i,
            forall|j: int|
                0 <= j < i ==> (#[trigger] toc@[j]).0@ == entry_digest(b@, j) && toc@[j].1
                    == entry_len(b@, j),
            match manifest {
                Some(d) => manifest_index < i && d@ == entry_digest(b@, manifest_index as int),
                None => manifest_index >= i,
            },
        decreases count - i,
    {
        if b.len() - pos < ENTRY_LEN {
            return Err(Error::Truncated);
        }
        let d = read_digest(b, pos);
        let len = read_u64(b, pos + 32);
        toc.push((d, len));
        if i == manifest_index {
            manifest = Some(d);
        }
        pos = pos + ENTRY_LEN;
        i = i + 1;
    }
    proof {
        assert forall|k: int| 0 <= k < n implies #[trigger] entry_len(b@, k) >= 0 by {}
    }
    let mut files: Vec<(Digest, Vec<u8>)> = Vec::new();
    let mut k: usize = 0;
    while k < toc.len()
        invariant
            0 <= k <= toc@.len(),
            toc@.len() == n,
            n == u64_at(b@, 8),
            manifest_index == u64_at(b@, 0),
            16 + 40 * n <= b@.len(),
            forall|j: int|
                0 <= j < n ==> (#[trigger] toc@[j]).0@ == entry_digest(b@, j) && toc@[j].1
                    == entry_len(b@, j),
            forall|j: int| 0 <= j < n ==> #[trigger] entry_len(b@, j) >= 0,
            pos == payload_start(b@, n, k as int),
            pos <= b@.len(),
            files@.len() == k,
            forall|j: int|
                0 <= j < k ==> (#[trigger] files@[j]).0@ == entries_of(b@, n)[j].0
                    && files@[j].1@ == entries_of(b@, n)[j].1,
        decreases toc@.len() - k,
    {
        let len = toc[k].1;
        if ((b.len() - pos) as u64) < len {
            proof {
                lemma_payload_start_monotone(b@, n, k + 1, n);
            }
            return Err(Error::Truncated);
        }
        let end = pos + len as usize;
        let mut blob: Vec<u8> = Vec::new();
        blob.extend_from_slice(&b[pos..end]);
        assert(blob@ =~= b@.subrange(pos as int, end as int));
        files.push((toc[k].0, blob));
        pos = end;
        k = k + 1;
    }
    if manifest_index >= count {
        return Err(Error::ManifestIndex);
    }
    let c = Container { manifest: manifest.unwrap(), files };
    assert(blob_entries(c.files@) =~= entries_of(b@, n));
    proof {
        let mi = manifest_index as int;
        assert(blob_entries(c.files@)[mi].0 == c.manifest@);
        lemma_pairs_map_keys(blob_entries(c.files@), c.manifest@);
    }
    Ok(c)
}

/// Finds the blob that a blob table holds for `d`.
pub fn find_blob<'a>(files: &'a Vec<(Digest, Vec<u8>)>, d: &Digest) -> (r: Option<&'a Vec<u8>>)
    ensures
        match r {
            Some(v) => blob_map(files@).contains_key(d@) && blob_map(files@)[d@] == v@,
            None => !blob_map(files@).contains_key(d@),
        },
{
    let ghost s = blob_entries(files@);
    let mut i: usize = files.len();
    while i > 0
        invariant
            0 <= i <= files.len(),
            s == blob_entries(files@),
            forall|j: int| i <= j < s.len() ==> (#[trigger] s[j]).0 != d@,
        decreases i,
    {
        i = i - 1;
        if files[i].0 == *d {
            proof {
                lemma_pairs_map_last(s, d@, i as int);
            }
            return Some(&files[i].1);
        }
    }
    proof {
        lemma_pairs_map_absent(s, d@);
    }
    None
}

} // verus!
