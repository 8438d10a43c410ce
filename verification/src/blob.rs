//! The binary form of an index.

use vstd::prelude::*;
use crate::bytes;
use crate::consts::{DIM, PAD};

verus! {

/// First word of a blob.
pub const MAGIC: u32 = 0x5249_4E48;

/// What a blob says:
///
/// ```text
/// [0]   magic           u32
/// [4]   num_vectors     u32
/// [8]   num_clusters    u32
/// [12]  reserved        u32
/// centroids:  num_clusters * DIM   single precision, by bit pattern
/// offsets:    num_clusters + 1     u32, where each cluster starts
/// vectors:    num_vectors * PAD    i16, cluster by cluster
/// labels:     num_vectors bits     1 for a fraud, lowest bit first
/// ```
#[verifier::ext_equal]
pub struct Blob {
    pub num_vectors: nat,
    pub num_clusters: nat,
    pub centroids: Seq<u32>,
    pub offsets: Seq<u32>,
    pub vectors: Seq<i16>,
    pub labels: Seq<u8>,
}

/// Bytes of a label bit set.
pub open spec fn label_len(n: nat) -> nat {
    (n + 7) / 8
}

/// Where the offsets of a blob start.
pub open spec fn offsets_at(k: nat) -> nat {
    16 + 4 * (k * DIM as nat)
}

/// Where the vectors of a blob start.
pub open spec fn vectors_at(k: nat) -> nat {
    offsets_at(k) + 4 * (k + 1)
}

/// Where the labels of a blob start.
pub open spec fn labels_at(n: nat, k: nat) -> nat {
    vectors_at(k) + 2 * (n * PAD as nat)
}

/// Bytes of a blob.
pub open spec fn blob_len(n: nat, k: nat) -> nat {
    labels_at(n, k) + label_len(n)
}

/// Where the parts of a blob lie, in numbers.
pub proof fn layout(n: nat, k: nat)
    ensures
        k * DIM == 14 * k,
        n * PAD == 16 * n,
        offsets_at(k) == 16 + 56 * k,
        vectors_at(k) == 20 + 60 * k,
        labels_at(n, k) == 20 + 60 * k + 32 * n,
        blob_len(n, k) == 20 + 60 * k + 32 * n + label_len(n),
{
    assert(k * DIM == 14 * k) by (nonlinear_arith);
    assert(n * PAD == 16 * n) by (nonlinear_arith);
}

/// The bytes start with the magic word and are long enough for what the header
/// announces.
pub open spec fn is_blob(b: Seq<u8>) -> bool {
    &&& b.len() >= 12
    &&& bytes::le_u32(b, 0) == MAGIC
    &&& b.len() >= blob_len(bytes::le_u32(b, 4) as nat, bytes::le_u32(b, 8) as nat)
}

/// What a blob's bytes say.
pub open spec fn decode(b: Seq<u8>) -> Blob {
    let n = bytes::le_u32(b, 4) as nat;
    let k = bytes::le_u32(b, 8) as nat;
    Blob {
        num_vectors: n,
        num_clusters: k,
        centroids: bytes::u32s_at(b, 16, k * DIM as nat),
        offsets: bytes::u32s_at(b, offsets_at(k), k + 1),
        vectors: bytes::i16s_at(b, vectors_at(k), n * PAD as nat),
        labels: b.subrange(labels_at(n, k) as int, blob_len(n, k) as int),
    }
}

/// The runs of a blob have the lengths that its counts ask for.
pub open spec fn well_formed(x: Blob) -> bool {
    &&& x.num_vectors <= u32::MAX
    &&& x.num_clusters <= u32::MAX
    &&& x.centroids.len() == x.num_clusters * DIM
    &&& x.offsets.len() == x.num_clusters + 1
    &&& x.vectors.len() == x.num_vectors * PAD
    &&& x.labels.len() == label_len(x.num_vectors)
}

/// Why bytes are not a blob.
#[derive(Clone, Copy, Debug, PartialEq, Eq, Structural)]
pub enum BlobError {
    /// The header is cut short.
    NoHeader,
    /// The first word is not the magic word.
    BadMagic,
    /// The bytes end before what the header announces does.
    Truncated,
}

/// Tells whether the bytes are a blob.
pub fn check_blob(b: &[u8]) -> (r: Result<(), BlobError>)
    ensures
        r is Ok <==> is_blob(b@),
        r == Err::<(), BlobError>(BlobError::NoHeader) <==> b.len() < 12,
        r == Err::<(), BlobError>(BlobError::BadMagic) <==> b.len() >= 12 && bytes::le_u32(b@, 0) != MAGIC,
        r == Err::<(), BlobError>(BlobError::Truncated) <==> b.len() >= 12 && bytes::le_u32(b@, 0) == MAGIC
            && b.len() < blob_len(bytes::le_u32(b@, 4) as nat, bytes::le_u32(b@, 8) as nat),
{
    if b.len() < 12 {
        return Err(BlobError::NoHeader);
    }
    if bytes::rd_u32(b, 0) != MAGIC {
        return Err(BlobError::BadMagic);
    }
    let n: u64 = bytes::rd_u32(b, 4) as u64;
    let k: u64 = bytes::rd_u32(b, 8) as u64;
    proof {
        layout(n as nat, k as nat);
    }
    let need: u64 = 16 + 4 * (k * 14) + 4 * (k + 1) + 2 * (n * 16) + (n + 7) / 8;
    if (b.len() as u64) < need {
        return Err(BlobError::Truncated);
    }
    Ok(())
}

/// The four words in front of the runs.
#[verifier::opaque]
pub open spec fn header(n: u32, k: u32) -> Seq<u8> {
    bytes::u32_bytes(MAGIC) + bytes::u32_bytes(n) + bytes::u32_bytes(k) + bytes::u32_bytes(0)
}

/// The bytes of a blob. The counts are written modulo 2^32.
pub open spec fn encode(x: Blob) -> Seq<u8> {
    header((x.num_vectors % 0x1_0000_0000) as u32, (x.num_clusters % 0x1_0000_0000) as u32)
        + bytes::u32s_bytes(x.centroids) + bytes::u32s_bytes(x.offsets) + bytes::i16s_bytes(
        x.vectors,
    ) + x.labels
}

/// Writes a blob.
pub fn write_blob(
    n: usize,
    k: usize,
    centroids: &[u32],
    offsets: &[u32],
    vectors: &[i16],
    labels: &[u8],
) -> (out: Vec<u8>)
    ensures
        out@ == encode(
            (Blob {
                num_vectors: n as nat,
                num_clusters: k as nat,
                centroids: centroids@,
                offsets: offsets@,
                vectors: vectors@,
                labels: labels@,
            }),
        ),
{
    let mut out: Vec<u8> = Vec::new();
    bytes::put_u32(&mut out, MAGIC);
    bytes::put_u32(&mut out, (n as u64 % 0x1_0000_0000) as u32);
    bytes::put_u32(&mut out, (k as u64 % 0x1_0000_0000) as u32);
    bytes::put_u32(&mut out, 0);
    proof {
        reveal(header);
    }
    bytes::put_u32s(&mut out, centroids);
    bytes::put_u32s(&mut out, offsets);
    bytes::put_i16s(&mut out, vectors);
    out.extend_from_slice(labels);
    out
}

proof fn header_round_trip(n: u32, k: u32, rest: Seq<u8>)
    ensures
        header(n, k).len() == 16,
        bytes::le_u32(header(n, k) + rest, 0) == MAGIC,
        bytes::le_u32(header(n, k) + rest, 4) == n,
        bytes::le_u32(header(n, k) + rest, 8) == k,
{
    reveal(header);
    bytes::u32_round_trip(MAGIC);
    bytes::u32_round_trip(n);
    bytes::u32_round_trip(k);
}

proof fn u32s_section(pre: Seq<u8>, xs: Seq<u32>, post: Seq<u8>, b: Seq<u8>)
    requires
        b == pre + bytes::u32s_bytes(xs) + post,
    ensures
        bytes::u32s_bytes(xs).len() == 4 * xs.len(),
        bytes::u32s_at(b, pre.len(), xs.len()) == xs,
{
    bytes::u32s_round_trip(pre, xs, post);
}

proof fn i16s_section(pre: Seq<u8>, xs: Seq<i16>, post: Seq<u8>, b: Seq<u8>)
    requires
        b == pre + bytes::i16s_bytes(xs) + post,
    ensures
        bytes::i16s_bytes(xs).len() == 2 * xs.len(),
        bytes::i16s_at(b, pre.len(), xs.len()) == xs,
{
    bytes::i16s_round_trip(pre, xs, post);
}

/// Bytes whose parts read as the parts of a blob are that blob.
proof fn decode_parts(b: Seq<u8>, x: Blob)
    requires
        well_formed(x),
        b.len() >= blob_len(x.num_vectors, x.num_clusters),
        bytes::le_u32(b, 0) == MAGIC,
        bytes::le_u32(b, 4) == x.num_vectors,
        bytes::le_u32(b, 8) == x.num_clusters,
        bytes::u32s_at(b, 16, x.centroids.len()) == x.centroids,
        bytes::u32s_at(b, offsets_at(x.num_clusters), x.offsets.len()) == x.offsets,
        bytes::i16s_at(b, vectors_at(x.num_clusters), x.vectors.len()) == x.vectors,
        b.subrange(
            labels_at(x.num_vectors, x.num_clusters) as int,
            blob_len(x.num_vectors, x.num_clusters) as int,
        ) == x.labels,
    ensures
        is_blob(b),
        decode(b) == x,
{
    layout(x.num_vectors, x.num_clusters);
}

/// A blob that was written is read back as it was, whatever follows it.
pub proof fn blob_round_trip(x: Blob, post: Seq<u8>)
    requires
        well_formed(x),
    ensures
        encode(x).len() == blob_len(x.num_vectors, x.num_clusters),
        is_blob(encode(x) + post),
        decode(encode(x) + post) == x,
{
    let n = x.num_vectors;
    let k = x.num_clusters;
    let head = header(n as u32, k as u32);
    let c = bytes::u32s_bytes(x.centroids);
    let o = bytes::u32s_bytes(x.offsets);
    let v = bytes::i16s_bytes(x.vectors);
    let l = x.labels;
    let b = encode(x) + post;
    layout(n, k);
    assert(x.num_vectors % 0x1_0000_0000 == n);
    assert(x.num_clusters % 0x1_0000_0000 == k);
    assert(bytes::u32s_at(b, 16, x.centroids.len()) == x.centroids && bytes::u32s_at(
        b,
        offsets_at(k),
        x.offsets.len(),
    ) == x.offsets && bytes::i16s_at(b, vectors_at(k), x.vectors.len()) == x.vectors && b.subrange(
        labels_at(n, k) as int,
        blob_len(n, k) as int,
    ) == l && encode(x).len() == blob_len(n, k)) by {
        header_round_trip(n as u32, k as u32, Seq::empty());
        regroup(head, c, o, v, l, post);
        u32s_section(head, x.centroids, o + v + l + post, b);
        u32s_section(head + c, x.offsets, v + l + post, b);
        i16s_section(head + c + o, x.vectors, l + post, b);
        assert((head + c).len() == offsets_at(k));
        assert((head + c + o).len() == vectors_at(k));
        assert((head + c + o + v).len() == labels_at(n, k));
    }
    assert(bytes::le_u32(b, 0) == MAGIC && bytes::le_u32(b, 4) == n && bytes::le_u32(b, 8)
        == k) by {
        regroup(head, c, o, v, l, post);
        header_round_trip(n as u32, k as u32, c + o + v + l + post);
    }
    decode_parts(b, x);
}

/// Six runs of bytes in a row, split in front of each.
proof fn regroup(h: Seq<u8>, c: Seq<u8>, o: Seq<u8>, v: Seq<u8>, l: Seq<u8>, p: Seq<u8>)
    ensures
        h + c + o + v + l + p == h + (c + o + v + l + p),
        h + c + o + v + l + p == h + c + (o + v + l + p),
        h + c + o + v + l + p == (h + c) + o + (v + l + p),
        h + c + o + v + l + p == (h + c + o) + v + (l + p),
        (h + c + o + v + l + p).subrange(
            (h + c + o + v).len() as int,
            (h + c + o + v + l).len() as int,
        ) == l,
{
    assert(h + c + o + v + l + p =~= h + (c + o + v + l + p));
    assert(h + c + o + v + l + p =~= h + c + (o + v + l + p));
    assert(h + c + o + v + l + p =~= (h + c) + o + (v + l + p));
    assert(h + c + o + v + l + p =~= (h + c + o) + v + (l + p));
    assert((h + c + o + v + l + p).subrange(
        (h + c + o + v).len() as int,
        (h + c + o + v + l).len() as int,
    ) =~= l);
}

/// Which bytes are a blob: twelve at least, of which the first four are the magic word, and as
/// many as the counts of vectors and clusters ask for.
pub proof fn blobs_are_long_enough(b: Seq<u8>)
    ensures
        is_blob(b) <==> b.len() >= 12 && b[0] == 0x48 && b[1] == 0x4e && b[2] == 0x49 && b[3] == 0x52
            && b.len() >= 20 + 60 * bytes::le_u32(b, 8) + 32 * bytes::le_u32(b, 4) + (
        bytes::le_u32(b, 4) + 7) / 8,
{
    layout(bytes::le_u32(b, 4) as nat, bytes::le_u32(b, 8) as nat);
}

/// Where everything stands in a blob of `n` vectors and `k` clusters: centroids at 16, offsets
/// at 16 + 56 k, vectors at 20 + 60 k, labels at 20 + 60 k + 32 n.
pub proof fn parts_stand_in_their_places(b: Seq<u8>)
    requires
        is_blob(b),
    ensures
        ({
            let x = decode(b);
            let n = bytes::le_u32(b, 4) as int;
            let k = bytes::le_u32(b, 8) as int;
            &&& x.num_vectors == n
            &&& x.num_clusters == k
            &&& x.centroids.len() == 14 * k
            &&& x.offsets.len() == k + 1
            &&& x.vectors.len() == 16 * n
            &&& x.labels.len() == (n + 7) / 8
            &&& forall|i: int|
                0 <= i < 14 * k ==> #[trigger] x.centroids[i] == bytes::le_u32(b, 16 + 4 * i)
            &&& forall|i: int|
                0 <= i <= k ==> #[trigger] x.offsets[i] == bytes::le_u32(b, 16 + 56 * k + 4 * i)
            &&& forall|i: int|
                0 <= i < 16 * n ==> #[trigger] x.vectors[i] == bytes::le_i16(
                    b,
                    20 + 60 * k + 2 * i,
                )
            &&& forall|i: int|
                0 <= i < (n + 7) / 8 ==> #[trigger] x.labels[i] == b[20 + 60 * k + 32 * n + i]
        }),
{
    layout(bytes::le_u32(b, 4) as nat, bytes::le_u32(b, 8) as nat);
}

/// What is written for a blob: the magic word, the two counts, a reserved zero, and the four
/// runs one behind the other.
pub proof fn blobs_are_written_in_order(x: Blob)
    ensures
        encode(x) == seq![0x48u8, 0x4e, 0x49, 0x52] + bytes::u32_bytes(
            (x.num_vectors % 0x1_0000_0000) as u32,
        ) + bytes::u32_bytes((x.num_clusters % 0x1_0000_0000) as u32) + seq![0u8, 0, 0, 0]
            + bytes::u32s_bytes(x.centroids) + bytes::u32s_bytes(x.offsets) + bytes::i16s_bytes(
            x.vectors,
        ) + x.labels,
{
    reveal(header);
    assert(bytes::u32_bytes(MAGIC) =~= seq![0x48u8, 0x4e, 0x49, 0x52]);
    assert(bytes::u32_bytes(0) =~= seq![0u8, 0, 0, 0]);
}

/// The runs of a well-formed index: 14 numbers for each centroid, an offset for each cluster and
/// one more, 16 numbers for each vector, a bit for each label.
pub proof fn well_formed_runs(x: Blob)
    ensures
        well_formed(x) <==> x.num_vectors < 0x1_0000_0000 && x.num_clusters < 0x1_0000_0000
            && x.centroids.len() == 14 * x.num_clusters && x.offsets.len() == x.num_clusters + 1
            && x.vectors.len() == 16 * x.num_vectors && x.labels.len() == (x.num_vectors + 7) / 8,
{
    layout(x.num_vectors, x.num_clusters);
}

} // verus!
