//! Ordering vectors by cluster.

use vstd::prelude::*;
use crate::blob;
use crate::blob::Blob;
use crate::consts::DIM;
use crate::index;
use crate::neighbors;
use crate::neighbors::Candidate;
use crate::probe;
use crate::sums;

verus! {

/// How many of the first `m` vectors belong to clusters before `c`.
pub open spec fn below(assign: Seq<u32>, c: int, m: int) -> int
    decreases m,
{
    if m <= 0 {
        0
    } else {
        below(assign, c, m - 1) + if assign[m - 1] < c {
            1int
        } else {
            0
        }
    }
}

/// How many of the first `m` vectors belong to cluster `c`.
pub open spec fn members(assign: Seq<u32>, c: int, m: int) -> int
    decreases m,
{
    if m <= 0 {
        0
    } else {
        members(assign, c, m - 1) + if assign[m - 1] == c {
            1int
        } else {
            0
        }
    }
}

/// Where vector `i` goes: behind all vectors of earlier clusters, and behind those of its own
/// cluster that come before it.
pub open spec fn place(assign: Seq<u32>, i: int) -> int {
    below(assign, assign[i] as int, assign.len() as int) + members(assign, assign[i] as int, i)
}

proof fn members_bounds(assign: Seq<u32>, c: int, m: int)
    requires
        0 <= m,
    ensures
        0 <= members(assign, c, m) <= m,
        0 <= below(assign, c, m) <= m,
        below(assign, c, m) + members(assign, c, m) == below(assign, c + 1, m),
        below(assign, c + 1, m) <= m,
    decreases m,
{
    if m > 0 {
        members_bounds(assign, c, m - 1);
    }
}

proof fn members_grow(assign: Seq<u32>, c: int, l: int, m: int)
    requires
        0 <= l <= m,
    ensures
        members(assign, c, l) <= members(assign, c, m),
    decreases m,
{
    if l < m {
        members_grow(assign, c, l, m - 1);
    }
}

proof fn below_grows(assign: Seq<u32>, c: int, d: int, m: int)
    requires
        c <= d,
    ensures
        below(assign, c, m) <= below(assign, d, m),
    decreases m,
{
    if m > 0 {
        below_grows(assign, c, d, m - 1);
    }
}

proof fn nothing_below_zero(assign: Seq<u32>, m: int)
    ensures
        below(assign, 0, m) == 0,
    decreases m,
{
    if m > 0 {
        nothing_below_zero(assign, m - 1);
    }
}

proof fn all_below(assign: Seq<u32>, k: int, m: int)
    requires
        0 <= m <= assign.len(),
        forall|i: int| 0 <= i < assign.len() ==> #[trigger] assign[i] < k,
    ensures
        below(assign, k, m) == m,
    decreases m,
{
    if m > 0 {
        all_below(assign, k, m - 1);
    }
}

/// Every vector goes to a place within its own cluster.
pub proof fn place_is_in_cluster(assign: Seq<u32>, i: int)
    requires
        0 <= i < assign.len(),
    ensures
        below(assign, assign[i] as int, assign.len() as int) <= place(assign, i) < below(
            assign,
            assign[i] + 1,
            assign.len() as int,
        ),
        0 <= place(assign, i) < assign.len(),
{
    let c = assign[i] as int;
    let n = assign.len() as int;
    members_bounds(assign, c, n);
    members_bounds(assign, c, i);
    members_grow(assign, c, i + 1, n);
}

/// No two vectors go to the same place; vectors of one cluster keep their order.
pub proof fn places_differ(assign: Seq<u32>, i: int, j: int)
    requires
        0 <= i < assign.len(),
        0 <= j < assign.len(),
        i != j,
    ensures
        place(assign, i) != place(assign, j),
        assign[i] < assign[j] ==> place(assign, i) < place(assign, j),
        assign[i] == assign[j] && i < j ==> place(assign, i) < place(assign, j),
{
    let n = assign.len() as int;
    place_is_in_cluster(assign, i);
    place_is_in_cluster(assign, j);
    if assign[i] < assign[j] {
        below_grows(assign, assign[i] + 1, assign[j] as int, n);
    } else if assign[j] < assign[i] {
        below_grows(assign, assign[j] + 1, assign[i] as int, n);
    } else if i < j {
        members_grow(assign, assign[i] as int, i + 1, j);
    } else {
        members_grow(assign, assign[i] as int, j + 1, i);
    }
}

/// Counts the vectors of each of `k` clusters.
pub fn counts(assign: &[u32], k: usize) -> (counts: Vec<u32>)
    requires
        assign.len() <= u32::MAX,
        forall|i: int| 0 <= i < assign.len() ==> #[trigger] assign[i] < k,
    ensures
        counts.len() == k,
        forall|c: int|
            0 <= c < k ==> #[trigger] counts[c] == members(assign@, c, assign.len() as int),
{
    let mut counts: Vec<u32> = Vec::with_capacity(k);
    for c in 0..k
        invariant
            counts.len() == c,
            forall|d: int| 0 <= d < c ==> #[trigger] counts[d] == 0,
    {
        counts.push(0);
    }
    for i in 0..assign.len()
        invariant
            assign.len() <= u32::MAX,
            forall|i: int| 0 <= i < assign.len() ==> #[trigger] assign[i] < k,
            counts.len() == k,
            forall|c: int| 0 <= c < k ==> #[trigger] counts[c] == members(assign@, c, i as int),
    {
        let c: usize = assign[i] as usize;
        proof {
            members_bounds(assign@, c as int, i as int);
        }
        counts[c] = counts[c] + 1;
    }
    counts
}

/// Where each cluster starts, and where the last one ends.
pub fn offsets(assign: &[u32], k: usize) -> (offsets: Vec<u32>)
    requires
        assign.len() <= u32::MAX,
        k < usize::MAX,
        forall|i: int| 0 <= i < assign.len() ==> #[trigger] assign[i] < k,
    ensures
        offsets.len() == k + 1,
        forall|c: int|
            0 <= c <= k ==> #[trigger] offsets[c] == below(assign@, c, assign.len() as int),
{
    let counts = counts(assign, k);
    let mut offsets: Vec<u32> = Vec::with_capacity(k + 1);
    offsets.push(0);
    proof {
        nothing_below_zero(assign@, assign.len() as int);
    }
    for c in 0..k
        invariant
            assign.len() <= u32::MAX,
            counts.len() == k,
            forall|c: int|
                0 <= c < k ==> #[trigger] counts[c] == members(assign@, c, assign.len() as int),
            offsets.len() == c + 1,
            forall|d: int|
                0 <= d <= c ==> #[trigger] offsets[d] == below(assign@, d, assign.len() as int),
    {
        proof {
            members_bounds(assign@, c as int, assign.len() as int);
        }
        let next: u32 = offsets[c] + counts[c];
        offsets.push(next);
    }
    offsets
}

/// Vectors and labels in the order of the clusters.
pub struct Layout {
    pub offsets: Vec<u32>,
    pub vectors: Vec<i16>,
    pub labels: Vec<u8>,
}

/// What the layout of vectors that are assigned to `k` clusters holds: where each cluster
/// starts, every vector and its label at its place, and no label elsewhere.
pub open spec fn is_layout(
    l: Layout,
    assign: Seq<u32>,
    k: int,
    rows: Seq<[i16; 16]>,
    labels: Seq<bool>,
) -> bool {
    let n = assign.len() as int;
    &&& l.offsets.len() == k + 1
    &&& forall|c: int| 0 <= c <= k ==> #[trigger] l.offsets[c] == below(assign, c, n)
    &&& l.vectors.len() == 16 * n
    &&& forall|i: int, t: int|
        #![trigger rows[i]@[t]]
        0 <= i < n && 0 <= t < 16 ==> l.vectors[16 * place(assign, i) + t] == rows[i]@[t]
    &&& l.labels.len() == blob::label_len(n as nat)
    &&& forall|i: int|
        0 <= i < n ==> index::label(l.labels@, place(assign, i)) == #[trigger] labels[i]
    &&& forall|p: int| n <= p < 8 * l.labels.len() ==> !#[trigger] index::label(l.labels@, p)
}

proof fn or_sets_one_bit(b: u8, s: u8, t: u8)
    by (bit_vector)
    requires
        s < 8,
        t < 8,
    ensures
        (((b | (1u8 << s)) >> t) & 1 == 1) == (s == t || (b >> t) & 1 == 1),
{
}

proof fn zero_has_no_bit(t: u8)
    by (bit_vector)
    requires
        t < 8,
    ensures
        (0u8 >> t) & 1 != 1,
{
}

/// Setting bit `at` sets that bit and no other.
proof fn setting_a_bit(labels: Seq<u8>, at: int, p: int)
    requires
        0 <= at < 8 * labels.len(),
        0 <= p < 8 * labels.len(),
    ensures
        index::label(labels.update(at / 8, labels[at / 8] | (1u8 << ((at % 8) as u8))), p) == (p
            == at || index::label(labels, p)),
{
    or_sets_one_bit(labels[at / 8], (at % 8) as u8, (p % 8) as u8);
}

/// Writes a row into its place.
fn put_row(vectors: &mut Vec<i16>, at: usize, row: &[i16; 16])
    requires
        16 * at + 16 <= old(vectors).len(),
    ensures
        final(vectors).len() == old(vectors).len(),
        forall|j: int|
            0 <= j < old(vectors).len() ==> #[trigger] final(vectors)@[j] == if 16 * at <= j < 16 * at
                + 16 {
                row@[j - 16 * at]
            } else {
                old(vectors)@[j]
            },
{
    for t in 0..16usize
        invariant
            16 * at + 16 <= old(vectors).len(),
            vectors.len() == old(vectors).len(),
            forall|j: int|
                0 <= j < old(vectors).len() ==> #[trigger] vectors@[j] == if 16 * at <= j < 16 * at
                    + t {
                    row@[j - 16 * at]
                } else {
                    old(vectors)@[j]
                },
    {
        vectors[16 * at + t] = row[t];
    }
}

/// Sets bit `at`.
fn set_label(labels: &mut Vec<u8>, at: usize)
    requires
        at < 8 * old(labels).len(),
    ensures
        final(labels).len() == old(labels).len(),
        forall|p: int|
            0 <= p < 8 * old(labels).len() ==> #[trigger] index::label(final(labels)@, p) == (p == at
                || index::label(old(labels)@, p)),
{
    let bit: u8 = 1u8 << ((at % 8) as u8);
    labels[at / 8] = labels[at / 8] | bit;
    proof {
        assert forall|p: int| 0 <= p < 8 * old(labels).len() implies #[trigger] index::label(
            labels@,
            p,
        ) == (p == at || index::label(old(labels)@, p)) by {
            setting_a_bit(old(labels)@, at as int, p);
        }
    }
}

fn zero_labels(len: usize) -> (labels: Vec<u8>)
    ensures
        labels.len() == len,
        forall|p: int| 0 <= p < 8 * len ==> !#[trigger] index::label(labels@, p),
{
    let mut labels: Vec<u8> = Vec::with_capacity(len);
    for i in 0..len
        invariant
            labels.len() == i,
            forall|j: int| 0 <= j < i ==> #[trigger] labels@[j] == 0,
    {
        labels.push(0);
    }
    assert forall|p: int| 0 <= p < 8 * len implies !#[trigger] index::label(labels@, p) by {
        assert(labels@[p / 8] == 0);
        zero_has_no_bit((p % 8) as u8);
    }
    labels
}

fn zero_vectors(len: usize) -> (vectors: Vec<i16>)
    ensures
        vectors.len() == len,
{
    let mut vectors: Vec<i16> = Vec::with_capacity(len);
    for i in 0..len
        invariant
            vectors.len() == i,
    {
        vectors.push(0);
    }
    vectors
}

/// Orders vectors and their labels by cluster. Within a cluster they keep their order.
pub fn reorder(assign: &[u32], k: usize, rows: &[[i16; 16]], labels: &[bool]) -> (l: Layout)
    requires
        assign.len() <= u32::MAX,
        16 * assign.len() <= usize::MAX,
        k < usize::MAX,
        forall|i: int| 0 <= i < assign.len() ==> #[trigger] assign[i] < k,
        rows.len() == assign.len(),
        labels.len() >= assign.len(),
    ensures
        is_layout(l, assign@, k as int, rows@, labels@),
{
    let n = assign.len();
    let offsets = offsets(assign, k);
    let mut cursor: Vec<u32> = Vec::with_capacity(k);
    for c in 0..k
        invariant
            offsets.len() == k + 1,
            cursor.len() == c,
            forall|d: int| 0 <= d < c ==> #[trigger] cursor[d] == offsets[d],
    {
        cursor.push(offsets[c]);
    }
    let mut vectors = zero_vectors(n * 16);
    let lab_len: usize = n / 8 + if n % 8 > 0 {
        1
    } else {
        0
    };
    let mut out = zero_labels(lab_len);
    for i in 0..n
        invariant
            n == assign.len(),
            n <= u32::MAX,
            16 * n <= usize::MAX,
            forall|i: int| 0 <= i < assign.len() ==> #[trigger] assign[i] < k,
            rows.len() == n,
            labels.len() >= n,
            cursor.len() == k,
            forall|c: int|
                0 <= c < k ==> #[trigger] cursor[c] == below(assign@, c, n as int) + members(
                    assign@,
                    c,
                    i as int,
                ),
            vectors.len() == 16 * n,
            forall|j: int, t: int|
                #![trigger rows@[j]@[t]]
                0 <= j < i && 0 <= t < 16 ==> vectors@[16 * place(assign@, j) + t] == rows@[j]@[t],
            out.len() == blob::label_len(n as nat),
            forall|j: int|
                0 <= j < i ==> index::label(out@, place(assign@, j)) == #[trigger] labels@[j],
            forall|p: int|
                n <= p < 8 * out.len() ==> !#[trigger] index::label(out@, p),
            forall|p: int|
                #![trigger index::label(out@, p)]
                0 <= p < 8 * out.len() && (forall|j: int|
                    0 <= j < i ==> #[trigger] place(assign@, j) != p) ==> !index::label(out@, p),
    {
        let c: usize = assign[i] as usize;
        let ghost at = place(assign@, i as int);
        proof {
            place_is_in_cluster(assign@, i as int);
            assert forall|j: int| 0 <= j < n && j != i implies #[trigger] place(assign@, j) != at
                && 0 <= place(assign@, j) < n by {
                places_differ(assign@, i as int, j);
                place_is_in_cluster(assign@, j);
            }
        }
        let dst: usize = cursor[c] as usize;
        assert(dst == at);
        cursor[c] = cursor[c] + 1;
        let ghost vectors_before = vectors@;
        put_row(&mut vectors, dst, &rows[i]);
        assert forall|j: int, t: int|
            #![trigger rows@[j]@[t]]
            0 <= j < i + 1 && 0 <= t < 16 implies vectors@[16 * place(assign@, j) + t]
            == rows@[j]@[t] by {
            if j < i {
                assert(place(assign@, j) != at);
                assert(vectors_before[16 * place(assign@, j) + t] == rows@[j]@[t]);
            }
        }
        let ghost out_before = out@;
        assert(!index::label(out_before, at));
        if labels[i] {
            set_label(&mut out, dst);
        }
        assert forall|j: int| 0 <= j < i + 1 implies index::label(out@, place(assign@, j))
            == #[trigger] labels@[j] by {
            if j < i {
                assert(place(assign@, j) != at);
                assert(index::label(out_before, place(assign@, j)) == labels@[j]);
            }
        }
        assert forall|p: int|
            #![trigger index::label(out@, p)]
            0 <= p < 8 * out.len() && (forall|j: int|
                0 <= j < i + 1 ==> #[trigger] place(assign@, j) != p) implies !index::label(
            out@,
            p,
        ) by {
            assert(place(assign@, i as int) != p);
            assert(!index::label(out_before, p));
        }
        assert forall|p: int| n <= p < 8 * out.len() implies !#[trigger] index::label(out@, p) by {
            assert(!index::label(out_before, p));
        }
    }
    Layout { offsets, vectors, labels: out }
}

/// The index made of a layout and the centroids of its clusters.
pub open spec fn indexed(l: Layout, n: nat, k: nat, centroids: Seq<u32>) -> Blob {
    Blob {
        num_vectors: n,
        num_clusters: k,
        centroids,
        offsets: l.offsets@,
        vectors: l.vectors@,
        labels: l.labels@,
    }
}

/// In a layout the clusters divide the vectors among themselves, in order.
pub proof fn layout_is_partitioned(
    l: Layout,
    assign: Seq<u32>,
    k: nat,
    rows: Seq<[i16; 16]>,
    labels: Seq<bool>,
    centroids: Seq<u32>,
)
    requires
        is_layout(l, assign, k as int, rows, labels),
        assign.len() <= u32::MAX,
        k <= u32::MAX,
        forall|i: int| 0 <= i < assign.len() ==> #[trigger] assign[i] < k,
        centroids.len() == k * DIM,
    ensures
        index::partitioned(indexed(l, assign.len(), k, centroids)),
{
    let n = assign.len() as int;
    let x = indexed(l, assign.len(), k, centroids);
    blob::layout(assign.len(), k);
    nothing_below_zero(assign, n);
    all_below(assign, k as int, n);
    assert(x.offsets[0] == below(assign, 0, n));
    assert(x.offsets[k as int] == below(assign, k as int, n));
    assert forall|c: int|
        #![trigger x.offsets[c]]
        0 <= c < k implies x.offsets[c] <= x.offsets[c + 1] by {
        assert(x.offsets[c] == below(assign, c, n));
        assert(x.offsets[c + 1] == below(assign, c + 1, n));
        below_grows(assign, c, c + 1, n);
    }
}

/// In a layout every vector is found at its place, with its label.
pub proof fn layout_keeps_vectors(
    l: Layout,
    assign: Seq<u32>,
    k: nat,
    rows: Seq<[i16; 16]>,
    labels: Seq<bool>,
    q: Seq<i16>,
    i: int,
)
    requires
        is_layout(l, assign, k as int, rows, labels),
        0 <= i < assign.len(),
    ensures
        index::candidate(l.vectors@, l.labels@, q, place(assign, i)) == (Candidate {
            dist: index::wrap_i32(index::sq_dist(q, rows[i]@)),
            fraud: labels[i],
        }),
{
    let p = place(assign, i);
    place_is_in_cluster(assign, i);
    let row = l.vectors@.subrange(16 * p, 16 * p + 16);
    assert forall|t: int| 0 <= t < 16 implies row[t] == rows[i]@[t] by {
        assert(l.vectors@[16 * p + t] == rows[i]@[t]);
    }
    assert(row =~= rows[i]@);
    assert(index::label(l.labels@, p) == labels[i]);
}

/// An index that was laid out by cluster, written and loaded again can be searched for every
/// query with at least one probe; and probing every cluster finds what a scan of all
/// vectors finds.
pub proof fn built_index_is_searchable(
    l: Layout,
    assign: Seq<u32>,
    k: nat,
    rows: Seq<[i16; 16]>,
    labels: Seq<bool>,
    centroids: Seq<u32>,
    post: Seq<u8>,
    keys: Seq<u32>,
    q: Seq<i16>,
    nprobe: nat,
)
    requires
        is_layout(l, assign, k as int, rows, labels),
        assign.len() <= u32::MAX,
        k <= u32::MAX,
        forall|i: int| 0 <= i < assign.len() ==> #[trigger] assign[i] < k,
        centroids.len() == k * DIM,
        keys.len() == k,
        nprobe > 0,
    ensures
        ({
            let b = blob::encode(indexed(l, assign.len(), k, centroids)) + post;
            let x = blob::decode(b);
            &&& blob::is_blob(b)
            &&& blob::well_formed(x)
            &&& x.num_vectors == assign.len()
            &&& probe::can_probe(keys, nprobe)
            &&& index::searchable(x, probe::probed(keys, nprobe))
            &&& nprobe >= k ==> neighbors::fraud_votes(
                index::scan_clusters(x, q, probe::probed(keys, nprobe)),
            ) == neighbors::fraud_votes(
                index::scan(x.vectors, x.labels, q, 0, assign.len() as int),
            )
        }),
{
    let x = indexed(l, assign.len(), k, centroids);
    layout_is_partitioned(l, assign, k, rows, labels, centroids);
    blob::blob_round_trip(x, post);
    probe::probed_are_clusters(keys, nprobe);
    index::partition_is_searchable(x, probe::probed(keys, nprobe));
    if nprobe >= k {
        index::full_probe_is_exact(x, q, keys, nprobe);
    }
}

/// The vectors as they were before they were ordered by cluster, as candidates for the
/// neighbourhood of the query `q`.
pub open spec fn unordered(rows: Seq<[i16; 16]>, labels: Seq<bool>, q: Seq<i16>) -> Seq<Candidate> {
    Seq::new(
        rows.len(),
        |i: int|
            Candidate {
                dist: index::wrap_i32(index::sq_dist(q, rows[i]@)),
                fraud: labels[i],
            },
    )
}

spec fn places(assign: Seq<u32>) -> Seq<int> {
    Seq::new(assign.len(), |i: int| place(assign, i))
}

proof fn count_is_kept(
    l: Layout,
    assign: Seq<u32>,
    k: nat,
    rows: Seq<[i16; 16]>,
    labels: Seq<bool>,
    q: Seq<i16>,
    d: i32,
    only: bool,
)
    requires
        is_layout(l, assign, k as int, rows, labels),
        rows.len() == assign.len(),
    ensures
        neighbors::count_within(unordered(rows, labels, q), d, only) == neighbors::count_within(
            index::scan(l.vectors@, l.labels@, q, 0, assign.len() as int),
            d,
            only,
        ),
{
    let n = assign.len();
    let s = places(assign);
    let before = unordered(rows, labels, q);
    let after = index::scan(l.vectors@, l.labels@, q, 0, n as int);
    let g = |p: int| neighbors::counted(after[p], d, only);
    assert(sums::is_selection(s, n)) by {
        assert forall|j: int| 0 <= j < s.len() implies 0 <= #[trigger] s[j] < n by {
            place_is_in_cluster(assign, j);
        }
        assert forall|i: int, j: int| 0 <= i < s.len() && 0 <= j < s.len() && i != j implies s[i]
            != s[j] by {
            places_differ(assign, i, j);
        }
    }
    assert forall|i: int| 0 <= i < n implies neighbors::counted(#[trigger] before[i], d, only)
        == sums::along(s, g)(i) by {
        layout_keeps_vectors(l, assign, k, rows, labels, q, i);
        place_is_in_cluster(assign, i);
        assert(after[s[i]] == before[i]);
    }
    sums::total_of_equals(
        |i: int| neighbors::counted(before[i], d, only),
        sums::along(s, g),
        n,
    );
    sums::total_along_selection(s, g, n);
    sums::full_selection(s, n);
    sums::total_of_equals(sums::masked(s, g), g, n);
}

/// Ordering by cluster changes no exact score, unless the fifth and the sixth neighbour are
/// equally far: if the nearest vectors are those within the distance `d`, they cast the same
/// votes before and after.
pub proof fn order_decides_only_ties(
    l: Layout,
    assign: Seq<u32>,
    k: nat,
    rows: Seq<[i16; 16]>,
    labels: Seq<bool>,
    q: Seq<i16>,
    d: i32,
)
    requires
        is_layout(l, assign, k as int, rows, labels),
        rows.len() == assign.len(),
        neighbors::decides(unordered(rows, labels, q), d),
    ensures
        neighbors::fraud_votes(index::scan(l.vectors@, l.labels@, q, 0, assign.len() as int))
            == neighbors::fraud_votes(unordered(rows, labels, q)),
{
    count_is_kept(l, assign, k, rows, labels, q, d, false);
    count_is_kept(l, assign, k, rows, labels, q, d, true);
    count_is_kept(l, assign, k, rows, labels, q, i32::MAX, false);
    neighbors::nearest_five_decide(unordered(rows, labels, q), d);
    neighbors::nearest_five_decide(
        index::scan(l.vectors@, l.labels@, q, 0, assign.len() as int),
        d,
    );
}

/// How many vectors are in a cluster, one by one.
pub proof fn members_are_counted(assign: Seq<u32>, c: int, m: nat)
    ensures
        members(assign, c, m as int) == sums::total(
            |i: int|
                if assign[i] == c {
                    1
                } else {
                    0
                },
            m,
        ),
    decreases m,
{
    if m > 0 {
        members_are_counted(assign, c, (m - 1) as nat);
    }
}

/// How many vectors are in earlier clusters, one by one.
pub proof fn earlier_members_are_counted(assign: Seq<u32>, c: int, m: nat)
    ensures
        below(assign, c, m as int) == sums::total(
            |i: int|
                if assign[i] < c {
                    1
                } else {
                    0
                },
            m,
        ),
    decreases m,
{
    if m > 0 {
        earlier_members_are_counted(assign, c, (m - 1) as nat);
    }
}

/// A vector goes behind as many others as are in earlier clusters or come before it in its own.
pub proof fn places_are_counted(assign: Seq<u32>, i: int)
    requires
        0 <= i < assign.len(),
    ensures
        place(assign, i) == sums::total(
            |j: int|
                if assign[j] < assign[i] || (assign[j] == assign[i] && j < i) {
                    1
                } else {
                    0
                },
            assign.len(),
        ),
{
    place_counts_up_to(assign, i, assign.len());
    members_stop_at(assign, i, assign.len());
}

spec fn members_before(assign: Seq<u32>, i: int, m: nat) -> int {
    if m <= i {
        members(assign, assign[i] as int, m as int)
    } else {
        members(assign, assign[i] as int, i)
    }
}

proof fn members_stop_at(assign: Seq<u32>, i: int, m: nat)
    requires
        0 <= i < m,
    ensures
        members_before(assign, i, m) == members(assign, assign[i] as int, i),
{
}

proof fn place_counts_up_to(assign: Seq<u32>, i: int, m: nat)
    requires
        0 <= i < assign.len(),
    ensures
        below(assign, assign[i] as int, m as int) + members_before(assign, i, m) == sums::total(
            |j: int|
                if assign[j] < assign[i] || (assign[j] == assign[i] && j < i) {
                    1
                } else {
                    0
                },
            m,
        ),
    decreases m,
{
    if m > 0 {
        place_counts_up_to(assign, i, (m - 1) as nat);
    }
}

/// A layout in full: where cluster `c` starts, the numbers of vector `i` and its label at its
/// place, and no label behind the last vector.
pub proof fn layouts_in_full(
    l: Layout,
    assign: Seq<u32>,
    k: nat,
    rows: Seq<[i16; 16]>,
    labels: Seq<bool>,
    c: int,
    i: int,
    t: int,
)
    requires
        is_layout(l, assign, k as int, rows, labels),
        0 <= c <= k,
        0 <= i < assign.len(),
        0 <= t < 16,
    ensures
        l.offsets@.len() == k + 1,
        l.offsets@[c] == sums::total(
            |j: int|
                if assign[j] < c {
                    1
                } else {
                    0
                },
            assign.len(),
        ),
        l.vectors@.len() == 16 * assign.len(),
        l.vectors@[16 * place(assign, i) + t] == rows[i]@[t],
        l.labels@.len() == (assign.len() + 7) / 8,
        index::label(l.labels@, place(assign, i)) == labels[i],
        forall|p: int|
            assign.len() <= p < 8 * l.labels@.len() ==> !#[trigger] index::label(l.labels@, p),
{
    assert(l.offsets[c] == below(assign, c, assign.len() as int));
    earlier_members_are_counted(assign, c, assign.len());
    assert(l.vectors[16 * place(assign, i) + t] == rows[i]@[t]);
    assert(index::label(l.labels@, place(assign, i)) == labels[i]);
}

} // verus!
