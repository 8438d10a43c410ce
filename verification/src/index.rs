//! The inverted-file index and the search over it.

use vstd::prelude::*;
use crate::blob;
use crate::blob::Blob;
use crate::bytes;
use crate::consts::{DIM, PAD};
use crate::neighbors;
use crate::neighbors::{Candidate, Top};
use crate::probe;
use crate::sums;

verus! {

/// A decoded index.
pub struct Index<'a> {
    pub num_vectors: usize,
    pub num_clusters: usize,
    /// Centroids in single precision, by bit pattern; `DIM` for each cluster.
    pub centroids: Vec<u32>,
    /// Where each cluster starts among the vectors, and where the last one ends.
    pub offsets: Vec<u32>,
    /// Quantised vectors, `PAD` numbers each, cluster by cluster.
    pub vectors: Vec<i16>,
    /// Bit `i` tells whether vector `i` is a fraud.
    pub labels: &'a [u8],
}

impl<'a> View for Index<'a> {
    type V = Blob;

    open spec fn view(&self) -> Blob {
        Blob {
            num_vectors: self.num_vectors as nat,
            num_clusters: self.num_clusters as nat,
            centroids: self.centroids@,
            offsets: self.offsets@,
            vectors: self.vectors@,
            labels: self.labels@,
        }
    }
}

impl<'a> Index<'a> {
    /// Decodes a blob. Bytes behind its end are ignored.
    pub fn from_bytes(b: &'a [u8]) -> (index: Index<'a>)
        requires
            blob::is_blob(b@),
        ensures
            index@ == blob::decode(b@),
            blob::well_formed(index@),
    {
        proof {
            blob::layout(bytes::le_u32(b@, 4) as nat, bytes::le_u32(b@, 8) as nat);
        }
        assert(b.len() >= blob::blob_len(bytes::le_u32(b@, 4) as nat, bytes::le_u32(b@, 8) as nat));
        let num_vectors: usize = bytes::rd_u32(b, 4) as usize;
        let num_clusters: usize = bytes::rd_u32(b, 8) as usize;
        let mut off: usize = 16;
        let cen_len: usize = num_clusters * DIM;
        let centroids = bytes::rd_u32s(b, off, cen_len);
        off += cen_len * 4;
        assert(off == blob::offsets_at(num_clusters as nat));
        let off_len: usize = num_clusters + 1;
        let offsets = bytes::rd_u32s(b, off, off_len);
        off += off_len * 4;
        assert(off == blob::vectors_at(num_clusters as nat));
        let vec_len: usize = num_vectors * PAD;
        let vectors = bytes::rd_i16s(b, off, vec_len);
        off += vec_len * 2;
        let lab_len: usize = num_vectors / 8 + if num_vectors % 8 > 0 {
            1
        } else {
            0
        };
        let labels = vstd::slice::slice_subrange(b, off, off + lab_len);
        Index { num_vectors, num_clusters, centroids, offsets, vectors, labels }
    }
}

/// The sum of the first `n` squared differences.
pub open spec fn sq_sum(a: Seq<i16>, b: Seq<i16>, n: nat) -> int
    decreases n,
{
    if n == 0 {
        0
    } else {
        let d = a[n - 1] - b[n - 1];
        sq_sum(a, b, (n - 1) as nat) + d * d
    }
}

/// The squared Euclidean distance of two rows.
pub open spec fn sq_dist(a: Seq<i16>, b: Seq<i16>) -> int {
    sq_sum(a, b, PAD as nat)
}

/// The signed 32-bit integer that is congruent to `x` modulo 2^32.
pub open spec fn wrap_i32(x: int) -> i32 {
    let m = x % 0x1_0000_0000;
    if m < 0x8000_0000 {
        m as i32
    } else {
        (m - 0x1_0000_0000) as i32
    }
}

/// The squared Euclidean distance of two rows in 32-bit arithmetic: exact as long
/// as it fits, which it does for rows of features, and modulo 2^32 otherwise.
pub fn dist_i16(a: &[i16; 16], b: &[i16]) -> (dist: i32)
    requires
        b.len() >= PAD,
    ensures
        dist == wrap_i32(sq_dist(a@, b@)),
        sq_dist(a@, b@) <= i32::MAX ==> dist == sq_dist(a@, b@),
{
    let mut acc: i32 = 0;
    for i in 0..PAD
        invariant
            b.len() >= PAD,
            acc == wrap_i32(sq_sum(a@, b@, i as nat)),
    {
        let d: i32 = a[i] as i32 - b[i] as i32;
        acc = acc.wrapping_add(d.wrapping_mul(d));
    }
    proof {
        sq_sum_nonneg(a@, b@, PAD as nat);
    }
    acc
}

proof fn sq_sum_nonneg(a: Seq<i16>, b: Seq<i16>, n: nat)
    ensures
        0 <= sq_sum(a, b, n),
    decreases n,
{
    if n > 0 {
        let d = a[n - 1] - b[n - 1];
        sq_sum_nonneg(a, b, (n - 1) as nat);
        assert(0 <= d * d) by (nonlinear_arith);
    }
}

/// The label of vector `i`.
pub open spec fn label(labels: Seq<u8>, i: int) -> bool {
    (labels[i / 8] >> (i % 8)) & 1 == 1
}

/// Tells whether vector `i` is a fraud.
pub fn is_fraud(labels: &[u8], i: usize) -> (fraud: bool)
    requires
        i / 8 < labels.len(),
    ensures
        fraud == label(labels@, i as int),
{
    (labels[i / 8] >> (i % 8)) & 1 == 1
}

/// Vector `i` as a candidate for the neighbourhood of the query `q`.
pub open spec fn candidate(vectors: Seq<i16>, labels: Seq<u8>, q: Seq<i16>, i: int) -> Candidate {
    Candidate {
        dist: wrap_i32(sq_dist(q, vectors.subrange(16 * i, 16 * i + 16))),
        fraud: label(labels, i),
    }
}

/// The vectors from `start` to `end`, scanned in order.
pub open spec fn scan(
    vectors: Seq<i16>,
    labels: Seq<u8>,
    q: Seq<i16>,
    start: int,
    end: int,
) -> Seq<Candidate> {
    Seq::new((end - start) as nat, |j: int| candidate(vectors, labels, q, start + j))
}

/// The vectors of the clusters `chosen`, scanned cluster by cluster.
pub open spec fn scan_clusters(x: Blob, q: Seq<i16>, chosen: Seq<usize>) -> Seq<Candidate>
    decreases chosen.len(),
{
    if chosen.len() == 0 {
        Seq::empty()
    } else {
        let c = chosen.last() as int;
        scan_clusters(x, q, chosen.drop_last()) + scan(
            x.vectors,
            x.labels,
            q,
            x.offsets[c] as int,
            x.offsets[c + 1] as int,
        )
    }
}

/// The clusters `chosen` exist and each lies among the vectors.
pub open spec fn searchable(x: Blob, chosen: Seq<usize>) -> bool {
    forall|i: int|
        #![trigger chosen[i]]
        0 <= i < chosen.len() ==> {
            let c = chosen[i] as int;
            c < x.num_clusters && x.offsets[c] <= x.offsets[c + 1] <= x.num_vectors
        }
}

/// Scans the vectors from `start` to `end`.
fn scan_range(
    top: &mut Top,
    q: &[i16; 16],
    vectors: &[i16],
    labels: &[u8],
    start: usize,
    end: usize,
)
    requires
        start <= end,
        16 * end <= vectors.len(),
        end <= 8 * labels.len(),
    ensures
        forall|c: Seq<Candidate>| #[trigger]
            old(top).holds(c) ==> final(top).holds(c + scan(vectors@, labels@, q@, start as int, end as int)),
{
    proof {
        assert forall|c: Seq<Candidate>| #[trigger] old(top).holds(c) implies top.holds(
            c + scan(vectors@, labels@, q@, start as int, start as int),
        ) by {
            assert(c + scan(vectors@, labels@, q@, start as int, start as int) =~= c);
        }
    }
    for i in start..end
        invariant
            start <= i <= end,
            16 * end <= vectors.len(),
            end <= 8 * labels.len(),
            forall|c: Seq<Candidate>| #[trigger]
                old(top).holds(c) ==> top.holds(
                    c + scan(vectors@, labels@, q@, start as int, i as int),
                ),
    {
        let row = vstd::slice::slice_subrange(vectors, 16 * i, 16 * i + 16);
        let dist = dist_i16(q, row);
        let fraud = is_fraud(labels, i);
        let ghost before = *top;
        top.offer(dist, fraud);
        proof {
            let x = Candidate { dist, fraud };
            assert forall|c: Seq<Candidate>| #[trigger] old(top).holds(c) implies top.holds(
                c + scan(vectors@, labels@, q@, start as int, i + 1),
            ) by {
                let s = scan(vectors@, labels@, q@, start as int, i as int);
                assert(before.holds(c + s));
                assert(c + scan(vectors@, labels@, q@, start as int, i + 1) =~= (c + s).push(x));
            }
        }
    }
}

/// The share of frauds above which a transaction is denied, in tenths.
pub const DENY_TENTHS: u32 = 6;

/// A transaction is approved if its fraud score, the share of frauds among the
/// neighbours, is below six tenths.
pub open spec fn is_approved(frauds: int) -> bool {
    10 * frauds < DENY_TENTHS * neighbors::NEIGHBORS
}

/// Tells whether a transaction with that many frauds among its neighbours is approved.
pub fn approved(frauds: u32) -> (yes: bool)
    ensures
        yes == is_approved(frauds as int),
        yes <==> frauds <= 2,
{
    frauds < 3
}

/// Scores a query against every vector. Returns whether it is approved and how
/// many of its neighbours are frauds.
pub fn exact(q: &[i16; 16], vectors: &[i16], labels: &[u8], n: usize) -> (r: (bool, u32))
    requires
        16 * n <= vectors.len(),
        n <= 8 * labels.len(),
    ensures
        r.1 == neighbors::fraud_votes(scan(vectors@, labels@, q@, 0, n as int)),
        r.0 == is_approved(r.1 as int),
        r.0 <==> r.1 <= 2,
        r.1 <= 5,
{
    let mut top = Top::new();
    let ghost none = Seq::<Candidate>::empty();
    assert(top.holds(none));
    scan_range(&mut top, q, vectors, labels, 0, n);
    assert(none + scan(vectors@, labels@, q@, 0, n as int) =~= scan(vectors@, labels@, q@, 0, n as int));
    let frauds = top.frauds();
    (approved(frauds), frauds)
}

impl<'a> Index<'a> {
    /// Tells whether vector `i` is a fraud.
    pub fn is_fraud(&self, i: usize) -> (fraud: bool)
        requires
            i / 8 < self.labels.len(),
        ensures
            fraud == label(self@.labels, i as int),
    {
        is_fraud(self.labels, i)
    }

    /// Scores a query against the vectors of the clusters `chosen`.
    pub fn search(&self, q: &[i16; 16], chosen: &[usize]) -> (frauds: u32)
        requires
            blob::well_formed(self@),
            searchable(self@, chosen@),
        ensures
            frauds == neighbors::fraud_votes(scan_clusters(self@, q@, chosen@)),
            frauds <= neighbors::NEIGHBORS,
    {
        let mut top = Top::new();
        for i in 0..chosen.len()
            invariant
                blob::well_formed(self@),
                searchable(self@, chosen@),
                top.holds(scan_clusters(self@, q@, chosen@.take(i as int))),
        {
            let c = chosen[i];
            let start: usize = self.offsets[c] as usize;
            let end: usize = self.offsets[c + 1] as usize;
            proof {
                blob::layout(self@.num_vectors, self@.num_clusters);
                assert(chosen@.take(i + 1).drop_last() =~= chosen@.take(i as int));
            }
            scan_range(&mut top, q, self.vectors.as_slice(), self.labels, start, end);
        }
        assert(chosen@.take(chosen@.len() as int) =~= chosen@);
        top.frauds()
    }

    /// Scores a query: searches the `nprobe` clusters whose centroids are nearest, given
    /// the distances `keys` of the query to all centroids, and returns how many of the five
    /// nearest vectors found there are frauds. The fraud score is a fifth of that.
    pub fn fraud_score(&self, keys: &[u32], q: &[i16; 16], nprobe: usize) -> (frauds: u32)
        requires
            blob::well_formed(self@),
            keys.len() == self.num_clusters,
            probe::can_probe(keys@, nprobe as nat),
            searchable(self@, probe::probed(keys@, nprobe as nat)),
        ensures
            frauds == neighbors::fraud_votes(
                scan_clusters(self@, q@, probe::probed(keys@, nprobe as nat)),
            ),
            frauds <= neighbors::NEIGHBORS,
    {
        let chosen = probe::nearest_clusters(keys, nprobe);
        self.search(q, chosen.as_slice())
    }
}

impl<'a> Index<'a> {
    /// Tells whether the runs have the lengths that the counts ask for.
    pub fn is_well_formed(&self) -> (yes: bool)
        ensures
            yes == blob::well_formed(self@),
    {
        let n: u64 = self.num_vectors as u64;
        let k: u64 = self.num_clusters as u64;
        if n > u32::MAX as u64 || k > u32::MAX as u64 {
            return false;
        }
        proof {
            blob::layout(n as nat, k as nat);
        }
        self.centroids.len() as u64 == 14 * k && self.offsets.len() as u64 == k + 1
            && self.vectors.len() as u64 == 16 * n && self.labels.len() as u64 == (n + 7) / 8
    }

    /// Tells whether the clusters `chosen` exist and each lies among the vectors.
    pub fn is_searchable(&self, chosen: &[usize]) -> (yes: bool)
        requires
            blob::well_formed(self@),
        ensures
            yes == searchable(self@, chosen@),
    {
        for i in 0..chosen.len()
            invariant
                blob::well_formed(self@),
                searchable(self@, chosen@.take(i as int)),
        {
            let c = chosen[i];
            assert(chosen@.take(i + 1) =~= chosen@.take(i as int).push(c));
            if c >= self.num_clusters || self.offsets[c] > self.offsets[c + 1]
                || self.offsets[c + 1] as usize > self.num_vectors {
                return false;
            }
            assert forall|j: int|
                #![trigger chosen@.take(i + 1)[j]]
                0 <= j < i + 1 implies {
                let c = chosen@.take(i + 1)[j] as int;
                c < self@.num_clusters && self@.offsets[c] <= self@.offsets[c + 1]
                    <= self@.num_vectors
            } by {
                if j < i {
                    assert(chosen@.take(i + 1)[j] == chosen@.take(i as int)[j]);
                }
            }
        }
        assert(chosen@.take(chosen@.len() as int) =~= chosen@);
        true
    }

    /// Scores a query where that is possible: `None` if the index is not well formed, if the
    /// distances are not one for each cluster, if no cluster may be probed, or if a probed
    /// cluster does not lie among the vectors.
    pub fn checked_fraud_score(&self, keys: &[u32], q: &[i16; 16], nprobe: usize) -> (r: Option<
        u32,
    >)
        ensures
            r is Some <==> {
                &&& blob::well_formed(self@)
                &&& keys.len() == self.num_clusters
                &&& probe::can_probe(keys@, nprobe as nat)
                &&& searchable(self@, probe::probed(keys@, nprobe as nat))
            },
            r matches Some(frauds) ==> {
                &&& frauds == neighbors::fraud_votes(
                    scan_clusters(self@, q@, probe::probed(keys@, nprobe as nat)),
                )
                &&& frauds <= neighbors::NEIGHBORS
            },
    {
        if !self.is_well_formed() || keys.len() != self.num_clusters {
            return None;
        }
        if nprobe == 0 {
            let (_, least) = probe::nearest(keys);
            if least < probe::INFINITE {
                return None;
            }
        }
        let chosen = probe::nearest_clusters(keys, nprobe);
        if !self.is_searchable(chosen.as_slice()) {
            return None;
        }
        Some(self.search(q, chosen.as_slice()))
    }
}

/// The clusters divide the vectors among themselves, in order.
pub open spec fn partitioned(x: Blob) -> bool {
    &&& blob::well_formed(x)
    &&& x.offsets[0] == 0
    &&& x.offsets[x.num_clusters as int] == x.num_vectors
    &&& forall|c: int|
        #![trigger x.offsets[c]]
        0 <= c < x.num_clusters ==> x.offsets[c] <= x.offsets[c + 1]
}

proof fn partition_is_bounded(x: Blob, c: int)
    requires
        partitioned(x),
        0 <= c <= x.num_clusters,
    ensures
        x.offsets[c] <= x.num_vectors,
    decreases x.num_clusters - c,
{
    if c < x.num_clusters {
        partition_is_bounded(x, c + 1);
        assert(x.offsets[c] <= x.offsets[c + 1]);
    }
}

proof fn scan_of_first(x: Blob, q: Seq<i16>, m: nat)
    requires
        partitioned(x),
        m <= x.num_clusters,
        x.num_clusters <= usize::MAX,
    ensures
        scan_clusters(x, q, Seq::new(m, |c: int| c as usize)) == scan(
            x.vectors,
            x.labels,
            q,
            0,
            x.offsets[m as int] as int,
        ),
    decreases m,
{
    let all = Seq::new(m, |c: int| c as usize);
    if m > 0 {
        let before = Seq::new((m - 1) as nat, |c: int| c as usize);
        assert(all.drop_last() =~= before);
        scan_of_first(x, q, (m - 1) as nat);
        assert(x.offsets[m - 1] <= x.offsets[m - 1 + 1]);
        let c = (m - 1) as int;
        assert(scan(x.vectors, x.labels, q, 0, x.offsets[c] as int) + scan(
            x.vectors,
            x.labels,
            q,
            x.offsets[c] as int,
            x.offsets[c + 1] as int,
        ) =~= scan(x.vectors, x.labels, q, 0, x.offsets[m as int] as int));
    } else {
        assert(scan(x.vectors, x.labels, q, 0, 0) =~= Seq::empty());
    }
}

/// Where the clusters divide the vectors among themselves, every choice of clusters can be
/// searched.
pub proof fn partition_is_searchable(x: Blob, chosen: Seq<usize>)
    requires
        partitioned(x),
        forall|i: int| 0 <= i < chosen.len() ==> #[trigger] chosen[i] < x.num_clusters,
    ensures
        searchable(x, chosen),
{
    assert forall|i: int|
        #![trigger chosen[i]]
        0 <= i < chosen.len() implies {
        let c = chosen[i] as int;
        c < x.num_clusters && x.offsets[c] <= x.offsets[c + 1] <= x.num_vectors
    } by {
        partition_is_bounded(x, chosen[i] + 1);
        assert(x.offsets[chosen[i] as int] <= x.offsets[chosen[i] + 1]);
    }
}

/// Probing every cluster of a partitioned index searches every vector in order: the
/// score is then the exact one.
pub proof fn full_probe_is_exact(x: Blob, q: Seq<i16>, keys: Seq<u32>, nprobe: nat)
    requires
        partitioned(x),
        keys.len() == x.num_clusters,
        x.num_clusters <= usize::MAX,
        nprobe >= x.num_clusters,
    ensures
        searchable(x, probe::probed(keys, nprobe)),
        neighbors::fraud_votes(scan_clusters(x, q, probe::probed(keys, nprobe)))
            == neighbors::fraud_votes(scan(x.vectors, x.labels, q, 0, x.num_vectors as int)),
{
    probe::all_are_probed(keys, keys.len());
    let all = Seq::new(x.num_clusters, |c: int| c as usize);
    assert(probe::probed(keys, nprobe) =~= all);
    partition_is_searchable(x, all);
    scan_of_first(x, q, x.num_clusters);
}

/// The distance does not depend on the order of the rows.
pub proof fn distance_is_symmetric(a: Seq<i16>, b: Seq<i16>)
    ensures
        sq_dist(a, b) == sq_dist(b, a),
{
    sq_sum_symmetric(a, b, PAD as nat);
}

proof fn sq_sum_symmetric(a: Seq<i16>, b: Seq<i16>, n: nat)
    ensures
        sq_sum(a, b, n) == sq_sum(b, a, n),
    decreases n,
{
    if n > 0 {
        sq_sum_symmetric(a, b, (n - 1) as nat);
        let d = a[n - 1] - b[n - 1];
        let e = b[n - 1] - a[n - 1];
        assert(d * d == e * e) by (nonlinear_arith)
            requires
                d == -e,
        ;
    }
}

/// Only a row itself is at distance zero.
pub proof fn zero_distance_is_equality(a: Seq<i16>, b: Seq<i16>)
    requires
        a.len() == PAD,
        b.len() == PAD,
    ensures
        sq_dist(a, b) >= 0,
        sq_dist(a, b) == 0 <==> a == b,
{
    sq_sum_nonneg(a, b, PAD as nat);
    sq_sum_zero(a, b, PAD as nat);
    if sq_dist(a, b) == 0 {
        assert(a =~= b);
    }
}

proof fn sq_sum_zero(a: Seq<i16>, b: Seq<i16>, n: nat)
    requires
        n <= a.len(),
        n <= b.len(),
    ensures
        sq_sum(a, b, n) == 0 <==> forall|i: int| 0 <= i < n ==> #[trigger] a[i] == b[i],
    decreases n,
{
    if n > 0 {
        sq_sum_zero(a, b, (n - 1) as nat);
        sq_sum_nonneg(a, b, (n - 1) as nat);
        let d = a[n - 1] - b[n - 1];
        assert(0 <= d * d) by (nonlinear_arith);
        assert(d * d == 0 <==> d == 0) by (nonlinear_arith);
    }
}

/// How many vectors, or frauds, of a cluster lie within the distance `d` of the query.
spec fn in_cluster(x: Blob, q: Seq<i16>, d: i32, only_frauds: bool) -> spec_fn(int) -> int {
    |c: int|
        neighbors::count_within(
            scan(x.vectors, x.labels, q, x.offsets[c] as int, x.offsets[c + 1] as int),
            d,
            only_frauds,
        )
}

spec fn numbers_of(chosen: Seq<usize>) -> Seq<int> {
    chosen.map_values(|c: usize| c as int)
}

proof fn count_of_clusters(x: Blob, q: Seq<i16>, chosen: Seq<usize>, d: i32, only: bool)
    ensures
        neighbors::count_within(scan_clusters(x, q, chosen), d, only) == sums::total(
            sums::along(numbers_of(chosen), in_cluster(x, q, d, only)),
            chosen.len(),
        ),
    decreases chosen.len(),
{
    if chosen.len() > 0 {
        let init = chosen.drop_last();
        let c = chosen.last() as int;
        let part = scan(x.vectors, x.labels, q, x.offsets[c] as int, x.offsets[c + 1] as int);
        count_of_clusters(x, q, init, d, only);
        neighbors::count_of_parts(scan_clusters(x, q, init), part, d, only);
        sums::total_of_equals(
            sums::along(numbers_of(chosen), in_cluster(x, q, d, only)),
            sums::along(numbers_of(init), in_cluster(x, q, d, only)),
            init.len(),
        );
    }
}

proof fn count_of_selection(x: Blob, q: Seq<i16>, chosen: Seq<usize>, d: i32, only: bool)
    requires
        partitioned(x),
        x.num_clusters <= usize::MAX,
        forall|i: int| 0 <= i < chosen.len() ==> #[trigger] chosen[i] < x.num_clusters,
        chosen.no_duplicates(),
    ensures
        neighbors::count_within(scan_clusters(x, q, chosen), d, only) == sums::total(
            sums::masked(numbers_of(chosen), in_cluster(x, q, d, only)),
            x.num_clusters,
        ),
        neighbors::count_within(
            scan(x.vectors, x.labels, q, 0, x.num_vectors as int),
            d,
            only,
        ) == sums::total(in_cluster(x, q, d, only), x.num_clusters),
{
    let h = in_cluster(x, q, d, only);
    let s = numbers_of(chosen);
    count_of_clusters(x, q, chosen, d, only);
    assert(sums::is_selection(s, x.num_clusters)) by {
        assert forall|j: int| 0 <= j < s.len() implies 0 <= #[trigger] s[j] < x.num_clusters by {
            assert(s[j] == chosen[j]);
        }
    }
    sums::total_along_selection(s, h, x.num_clusters);
    let all = Seq::new(x.num_clusters, |c: int| c as usize);
    scan_of_first(x, q, x.num_clusters);
    count_of_clusters(x, q, all, d, only);
    sums::total_of_equals(sums::along(numbers_of(all), h), h, x.num_clusters);
}

/// Only what is not probed can make a score differ from the exact one: if the nearest vectors
/// are those within the distance `d` and all of them lie in probed clusters, the votes are
/// those of a scan of all vectors.
pub proof fn recall_decides(x: Blob, q: Seq<i16>, keys: Seq<u32>, nprobe: nat, d: i32)
    requires
        partitioned(x),
        keys.len() == x.num_clusters,
        x.num_clusters <= usize::MAX,
        neighbors::decides(scan(x.vectors, x.labels, q, 0, x.num_vectors as int), d),
        neighbors::count_within(scan_clusters(x, q, probe::probed(keys, nprobe)), d, false)
            == neighbors::count_within(
            scan(x.vectors, x.labels, q, 0, x.num_vectors as int),
            d,
            false,
        ),
    ensures
        neighbors::fraud_votes(scan_clusters(x, q, probe::probed(keys, nprobe)))
            == neighbors::fraud_votes(scan(x.vectors, x.labels, q, 0, x.num_vectors as int)),
{
    let chosen = probe::probed(keys, nprobe);
    let part = scan_clusters(x, q, chosen);
    let full = scan(x.vectors, x.labels, q, 0, x.num_vectors as int);
    let k = x.num_clusters;
    let s = numbers_of(chosen);
    probe::probed_are_clusters(keys, nprobe);
    count_of_selection(x, q, chosen, d, false);
    count_of_selection(x, q, chosen, d, true);
    count_of_selection(x, q, chosen, i32::MAX, false);
    let any = in_cluster(x, q, d, false);
    let bad = in_cluster(x, q, d, true);
    let every = in_cluster(x, q, i32::MAX, false);
    assert forall|c: int| 0 <= c < k implies 0 <= #[trigger] bad(c) <= any(c) && 0 <= every(
        c,
    ) by {
        let in_c = scan(x.vectors, x.labels, q, x.offsets[c] as int, x.offsets[c + 1] as int);
        neighbors::frauds_are_candidates(in_c, d);
    }
    assert forall|c: int| 0 <= c < k implies 0 <= #[trigger] any(c) by {
        assert(0 <= bad(c));
    }
    assert forall|c: int| 0 <= c < k implies 0 <= #[trigger] every(c) by {
        assert(0 <= bad(c));
    }
    sums::rest_is_zero(s, any, k);
    sums::rest_is_zero(s, every, k);
    assert forall|c: int| 0 <= c < k implies #[trigger] sums::masked(s, bad)(c) == bad(c) by {
        if !s.contains(c) {
            assert(any(c) == 0);
        }
    }
    sums::total_of_equals(sums::masked(s, bad), bad, k);
    neighbors::frauds_are_candidates(part, d);
    neighbors::nearest_five_decide(part, d);
    neighbors::nearest_five_decide(full, d);
}

proof fn sq_sum_update(a: Seq<i16>, b: Seq<i16>, i: int, x: i16, n: nat)
    requires
        0 <= i < a.len(),
        n <= a.len(),
    ensures
        sq_sum(a.update(i, x), b, n) == sq_sum(a, b, n) + if i < n {
            (x - b[i]) * (x - b[i]) - (a[i] - b[i]) * (a[i] - b[i])
        } else {
            0
        },
    decreases n,
{
    if n > 0 {
        sq_sum_update(a, b, i, x, (n - 1) as nat);
    }
}

/// A row is at distance 0 from itself, and a change in one place changes the squared distance
/// by what the squared difference changes there: all sixteen places count, each for itself.
pub proof fn every_place_counts_for_itself(a: Seq<i16>, b: Seq<i16>, i: int, x: i16)
    requires
        a.len() == 16,
        b.len() == 16,
        0 <= i < 16,
    ensures
        sq_dist(a, a) == 0,
        sq_dist(a.update(i, x), b) - sq_dist(a, b) == (x - b[i]) * (x - b[i]) - (a[i] - b[i]) * (a[i]
            - b[i]),
{
    zero_distance_is_equality(a, a);
    sq_sum_update(a, b, i, x, 16);
}

/// Arithmetic in 32 bits differs from the exact one by a multiple of 2^32.
pub proof fn wrapping_is_congruent(x: int)
    ensures
        (x - wrap_i32(x)) % 0x1_0000_0000 == 0,
        -0x8000_0000 <= x <= 0x7fff_ffff ==> wrap_i32(x) == x,
{
}

proof fn bits_by_division(b: u8)
    by (bit_vector)
    ensures
        (b >> 0u8) & 1 == b % 2,
        (b >> 1u8) & 1 == b / 2 % 2,
        (b >> 2u8) & 1 == b / 4 % 2,
        (b >> 3u8) & 1 == b / 8 % 2,
        (b >> 4u8) & 1 == b / 16 % 2,
        (b >> 5u8) & 1 == b / 32 % 2,
        (b >> 6u8) & 1 == b / 64 % 2,
        (b >> 7u8) & 1 == b / 128 % 2,
{
}

/// Eight labels to a byte, the first one in the lowest bit.
pub proof fn labels_fill_bytes(labels: Seq<u8>, i: int)
    requires
        0 <= i < 8 * labels.len(),
    ensures
        i % 8 == 0 ==> (label(labels, i) <==> labels[i / 8] % 2 == 1),
        i % 8 == 1 ==> (label(labels, i) <==> labels[i / 8] / 2 % 2 == 1),
        i % 8 == 2 ==> (label(labels, i) <==> labels[i / 8] / 4 % 2 == 1),
        i % 8 == 3 ==> (label(labels, i) <==> labels[i / 8] / 8 % 2 == 1),
        i % 8 == 4 ==> (label(labels, i) <==> labels[i / 8] / 16 % 2 == 1),
        i % 8 == 5 ==> (label(labels, i) <==> labels[i / 8] / 32 % 2 == 1),
        i % 8 == 6 ==> (label(labels, i) <==> labels[i / 8] / 64 % 2 == 1),
        i % 8 == 7 ==> (label(labels, i) <==> labels[i / 8] / 128 % 2 == 1),
{
    bits_by_division(labels[i / 8]);
}

/// A scan goes over the vectors one by one: each is a candidate at the distance of its sixteen
/// numbers from the query, with its own label.
pub proof fn scans_go_vector_by_vector(
    vectors: Seq<i16>,
    labels: Seq<u8>,
    q: Seq<i16>,
    start: int,
    end: int,
    j: int,
)
    requires
        start <= end,
        0 <= j < end - start,
    ensures
        scan(vectors, labels, q, start, end).len() == end - start,
        scan(vectors, labels, q, start, end)[j].dist == wrap_i32(
            sq_dist(q, vectors.subrange(16 * (start + j), 16 * (start + j) + 16)),
        ),
        scan(vectors, labels, q, start, end)[j].fraud == label(labels, start + j),
{
}

/// Clusters are searched one by one, each from where it starts to where the next one does.
pub proof fn clusters_are_scanned_in_order(x: Blob, q: Seq<i16>, chosen: Seq<usize>, c: usize)
    ensures
        scan_clusters(x, q, Seq::empty()) == Seq::<Candidate>::empty(),
        scan_clusters(x, q, chosen.push(c)) == scan_clusters(x, q, chosen) + scan(
            x.vectors,
            x.labels,
            q,
            x.offsets[c as int] as int,
            x.offsets[c + 1] as int,
        ),
{
    assert(chosen.push(c).drop_last() =~= chosen);
}

/// Clusters can be searched exactly if each exists, does not end before it starts, and ends
/// among the vectors.
pub proof fn searchable_clusters_lie_among_the_vectors(x: Blob, chosen: Seq<usize>)
    ensures
        searchable(x, chosen) <==> forall|i: int|
            #![trigger chosen[i]]
            0 <= i < chosen.len() ==> chosen[i] < x.num_clusters && x.offsets[chosen[i] as int]
                <= x.offsets[chosen[i] + 1] && x.offsets[chosen[i] + 1] <= x.num_vectors,
{
}

/// An index is viewed field by field.
pub proof fn indexes_are_their_fields(x: Index<'_>)
    ensures
        x@.num_vectors == x.num_vectors,
        x@.num_clusters == x.num_clusters,
        x@.centroids == x.centroids@,
        x@.offsets == x.offsets@,
        x@.vectors == x.vectors@,
        x@.labels == x.labels@,
{
}

} // verus!
