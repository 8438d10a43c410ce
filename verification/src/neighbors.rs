//! The five nearest candidates of a scan.

use vstd::prelude::*;
use vstd::relations::*;
use crate::sums;

verus! {

/// How many neighbours vote on a transaction.
pub const NEIGHBORS: usize = 5;

/// A scanned vector: its distance to the query and its label.
#[derive(Clone, Copy)]
pub struct Candidate {
    pub dist: i32,
    pub fraud: bool,
}

/// A candidate together with its place in the scan.
pub struct Neighbor {
    pub dist: i32,
    pub seen: int,
    pub fraud: bool,
}

/// The order of neighbours: by distance, and among equals the one scanned first.
pub open spec fn closer(a: Neighbor, b: Neighbor) -> bool {
    ||| a.dist < b.dist
    ||| a.dist == b.dist && a.seen < b.seen
    ||| a.dist == b.dist && a.seen == b.seen && (a.fraud ==> b.fraud)
}

/// The candidates of a scan that can become neighbours, each with its place.
/// One at the largest distance never displaces an empty slot.
pub open spec fn listed(c: Seq<Candidate>) -> Seq<Neighbor> {
    Seq::new(
        c.len(),
        |i: int| Neighbor { dist: c[i].dist, seen: i, fraud: c[i].fraud },
    ).filter(|n: Neighbor| n.dist < i32::MAX)
}

/// The candidates of a scan in the order of their distance.
pub open spec fn ranked(c: Seq<Candidate>) -> Seq<Neighbor> {
    listed(c).sort_by(|a: Neighbor, b: Neighbor| closer(a, b))
}

/// The nearest candidates of a scan, at most five.
pub open spec fn neighbors(c: Seq<Candidate>) -> Seq<Neighbor> {
    let r = ranked(c);
    if r.len() <= NEIGHBORS {
        r
    } else {
        r.take(NEIGHBORS as int)
    }
}

/// How many of the nearest candidates are frauds.
pub open spec fn fraud_votes(c: Seq<Candidate>) -> nat {
    neighbors(c).filter(|n: Neighbor| n.fraud).len()
}

proof fn closer_is_total()
    ensures
        total_ordering(|a: Neighbor, b: Neighbor| closer(a, b)),
{
}

/// The ranking is sorted and holds the listed candidates.
proof fn ranked_is_sorted(c: Seq<Candidate>)
    ensures
        ranked(c).to_multiset() == listed(c).to_multiset(),
        ranked(c).len() == listed(c).len(),
        sorted_by(ranked(c), |a: Neighbor, b: Neighbor| closer(a, b)),
        forall|i: int, j: int|
            0 <= i <= j < ranked(c).len() ==> ranked(c)[i].dist <= ranked(c)[j].dist,
        forall|i: int| 0 <= i < ranked(c).len() ==> 0 <= (#[trigger] ranked(c)[i]).seen < c.len(),
        forall|i: int| 0 <= i < ranked(c).len() ==> (#[trigger] ranked(c)[i]).dist < i32::MAX,
{
    broadcast use vstd::seq_lib::group_to_multiset_ensures;

    let leq = |a: Neighbor, b: Neighbor| closer(a, b);
    closer_is_total();
    listed(c).lemma_sort_by_ensures(leq);
    let r = ranked(c);
    assert forall|i: int, j: int| 0 <= i <= j < r.len() implies r[i].dist <= r[j].dist by {
        if i < j {
            assert(leq(r[i], r[j]));
        }
    }
    let all = Seq::new(
        c.len(),
        |i: int| Neighbor { dist: c[i].dist, seen: i, fraud: c[i].fraud },
    );
    let keep = |n: Neighbor| n.dist < i32::MAX;
    assert(r.len() == r.to_multiset().len());
    assert(listed(c).len() == listed(c).to_multiset().len());
    assert forall|i: int| 0 <= i < r.len() implies 0 <= (#[trigger] r[i]).seen < c.len()
        && r[i].dist < i32::MAX by {
        assert(r.contains(r[i]));
        assert(listed(c).contains(r[i]));
        let k = choose|k: int| 0 <= k < listed(c).len() && listed(c)[k] == r[i];
        all.lemma_filter_pred(keep, k);
        all.lemma_filter_contains_rev(keep, r[i]);
    }
}

/// Scanning one more candidate inserts it behind everything at least as near.
proof fn ranked_push(c: Seq<Candidate>, x: Candidate, p: int)
    requires
        x.dist < i32::MAX,
        0 <= p <= ranked(c).len(),
        forall|i: int| 0 <= i < p ==> (#[trigger] ranked(c)[i]).dist <= x.dist,
        forall|i: int| p <= i < ranked(c).len() ==> (#[trigger] ranked(c)[i]).dist > x.dist,
    ensures
        ranked(c.push(x)) == ranked(c).insert(
            p,
            Neighbor { dist: x.dist, seen: c.len() as int, fraud: x.fraud },
        ),
{
    broadcast use vstd::seq_lib::group_to_multiset_ensures;
    broadcast use Seq::lemma_filter_push;

    let leq = |a: Neighbor, b: Neighbor| closer(a, b);
    let n = Neighbor { dist: x.dist, seen: c.len() as int, fraud: x.fraud };
    let all = Seq::new(
        c.len(),
        |i: int| Neighbor { dist: c[i].dist, seen: i, fraud: c[i].fraud },
    );
    let d = c.push(x);
    let all_d = Seq::new(
        d.len(),
        |i: int| Neighbor { dist: d[i].dist, seen: i, fraud: d[i].fraud },
    );
    assert(all_d =~= all.push(n));
    assert(listed(d) =~= listed(c).push(n));
    ranked_is_sorted(c);
    ranked_is_sorted(d);
    let r = ranked(c);
    let s = r.insert(p, n);
    assert(s.to_multiset() =~= r.to_multiset().insert(n));
    assert(sorted_by(s, leq)) by {
        assert forall|i: int, j: int| 0 <= i < j < s.len() implies #[trigger] leq(s[i], s[j]) by {
            if i < p && j < p {
                assert(leq(r[i], r[j]));
            } else if i < p && j == p {
                assert(r[i].seen < c.len());
            } else if i < p && j > p {
                assert(leq(r[i], r[j - 1]));
            } else if i == p {
                assert(r[j - 1].dist > x.dist);
            } else {
                assert(leq(r[i - 1], r[j - 1]));
            }
        }
    }
    closer_is_total();
    vstd::seq_lib::lemma_sorted_unique(ranked(d), s, leq);
}

/// Where a distance falls in the ranking: behind everything at least as near.
proof fn rank_of(c: Seq<Candidate>, dist: i32) -> (p: int)
    ensures
        0 <= p <= ranked(c).len(),
        forall|i: int| 0 <= i < p ==> (#[trigger] ranked(c)[i]).dist <= dist,
        forall|i: int| p <= i < ranked(c).len() ==> (#[trigger] ranked(c)[i]).dist > dist,
{
    ranked_is_sorted(c);
    rank_below(c, dist, ranked(c).len() as int)
}

proof fn rank_below(c: Seq<Candidate>, dist: i32, end: int) -> (p: int)
    requires
        0 <= end <= ranked(c).len(),
        forall|i: int, j: int|
            0 <= i <= j < ranked(c).len() ==> ranked(c)[i].dist <= ranked(c)[j].dist,
        forall|i: int| end <= i < ranked(c).len() ==> (#[trigger] ranked(c)[i]).dist > dist,
    ensures
        0 <= p <= ranked(c).len(),
        forall|i: int| 0 <= i < p ==> (#[trigger] ranked(c)[i]).dist <= dist,
        forall|i: int| p <= i < ranked(c).len() ==> (#[trigger] ranked(c)[i]).dist > dist,
    decreases end,
{
    if end == 0 || ranked(c)[end - 1].dist <= dist {
        end
    } else {
        rank_below(c, dist, end - 1)
    }
}

/// The distance in slot `i` after the scan `c`.
spec fn slot_dist(c: Seq<Candidate>, i: int) -> i32 {
    if i < neighbors(c).len() {
        neighbors(c)[i].dist
    } else {
        i32::MAX
    }
}

/// The label in slot `i` after the scan `c`.
spec fn slot_fraud(c: Seq<Candidate>, i: int) -> bool {
    i < neighbors(c).len() && neighbors(c)[i].fraud
}

/// The nearest candidates found so far, by distance; an empty slot is at the
/// largest distance and no fraud.
pub struct Top {
    dist: [i32; 5],
    fraud: [bool; 5],
}

impl Top {
    /// The slots hold the neighbours of the scan `c`, nearest first.
    pub closed spec fn holds(self, c: Seq<Candidate>) -> bool {
        &&& forall|i: int| 0 <= i < NEIGHBORS ==> #[trigger] self.dist@[i] == slot_dist(c, i)
        &&& forall|i: int| 0 <= i < NEIGHBORS ==> #[trigger] self.fraud@[i] == slot_fraud(c, i)
    }

    /// No candidate scanned yet.
    pub fn new() -> (t: Top)
        ensures
            t.holds(Seq::empty()),
    {
        proof {
            ranked_is_sorted(Seq::empty());
        }
        Top { dist: [i32::MAX; 5], fraud: [false; 5] }
    }

    /// Scans one more candidate.
    pub fn offer(&mut self, dist: i32, fraud: bool)
        ensures
            forall|c: Seq<Candidate>| #[trigger]
                old(self).holds(c) ==> final(self).holds(c.push(Candidate { dist, fraud })),
    {
        if dist < self.dist[4] {
            let mut p: usize = 4;
            while p > 0 && self.dist[p - 1] > dist
                invariant
                    0 <= p <= 4,
                    dist < old(self).dist[4],
                    forall|i: int| 0 <= i <= p ==> #[trigger] self.dist[i] == old(self).dist[i],
                    forall|i: int| 0 <= i <= p ==> #[trigger] self.fraud[i] == old(self).fraud[i],
                    forall|i: int| p < i < 5 ==> #[trigger] self.dist[i] == old(self).dist[i - 1],
                    forall|i: int|
                        p < i < 5 ==> #[trigger] self.fraud[i] == old(self).fraud[i - 1],
                    forall|i: int| p <= i < 5 ==> #[trigger] old(self).dist[i] > dist,
                decreases p,
            {
                self.dist[p] = self.dist[p - 1];
                self.fraud[p] = self.fraud[p - 1];
                p -= 1;
            }
            self.dist[p] = dist;
            self.fraud[p] = fraud;
            proof {
                assert(self.dist@ =~= old(self).dist@.insert(p as int, dist).drop_last());
                assert(self.fraud@ =~= old(self).fraud@.insert(p as int, fraud).drop_last());
                assert forall|c: Seq<Candidate>| #[trigger] old(self).holds(c) implies self.holds(
                    c.push(Candidate { dist, fraud }),
                ) by {
                    within_the_five(*old(self), *self, c, Candidate { dist, fraud }, p as int);
                }
            }
        } else {
            proof {
                assert forall|c: Seq<Candidate>| #[trigger] old(self).holds(c) implies self.holds(
                    c.push(Candidate { dist, fraud }),
                ) by {
                    beyond_the_fifth(*old(self), c, Candidate { dist, fraud });
                }
            }
        }
    }
}

impl Top {
    /// Counts the frauds among the neighbours.
    pub fn frauds(&self) -> (count: u32)
        ensures
            count <= NEIGHBORS,
            forall|c: Seq<Candidate>| #[trigger] self.holds(c) ==> count == fraud_votes(c),
    {
        let mut count: u32 = 0;
        for i in 0..5usize
            invariant
                count <= i,
                forall|c: Seq<Candidate>| #[trigger]
                    self.holds(c) ==> count == votes_before(c, i as int),
        {
            proof {
                assert forall|c: Seq<Candidate>| #[trigger] self.holds(c) implies votes_before(
                    c,
                    i + 1,
                ) == votes_before(c, i as int) + if self.fraud@[i as int] { 1int } else { 0 } by {
                    let n = neighbors(c);
                    let voting = |n: Neighbor| n.fraud;
                    assert(self.fraud@[i as int] == slot_fraud(c, i as int));
                    if i < n.len() {
                        assert(n.take(i + 1) =~= n.take(i as int).push(n[i as int]));
                        n.take(i as int).lemma_filter_push(n[i as int], voting);
                    }
                }
            }
            if self.fraud[i] {
                count += 1;
            }
        }
        proof {
            assert forall|c: Seq<Candidate>| #[trigger] self.holds(c) implies count
                == fraud_votes(c) by {
                assert(neighbors(c).take(neighbors(c).len() as int) =~= neighbors(c));
            }
        }
        count
    }
}

/// How many of the first `i` neighbours are frauds.
spec fn votes_before(c: Seq<Candidate>, i: int) -> nat {
    let n = neighbors(c);
    n.take(if i < n.len() { i } else { n.len() as int }).filter(|n: Neighbor| n.fraud).len()
}

/// A candidate nearer than the last slot moves the slots behind it by one.
proof fn within_the_five(t: Top, u: Top, c: Seq<Candidate>, x: Candidate, p: int)
    requires
        t.holds(c),
        0 <= p < 5,
        x.dist < t.dist@[4],
        p > 0 ==> t.dist@[p - 1] <= x.dist,
        t.dist@[p] > x.dist,
        u.dist@ == t.dist@.insert(p, x.dist).drop_last(),
        u.fraud@ == t.fraud@.insert(p, x.fraud).drop_last(),
    ensures
        u.holds(c.push(x)),
{
    ranked_is_sorted(c);
    let q = rank_of(c, x.dist);
    let r = ranked(c);
    if q < p {
        assert(t.dist@[q] > x.dist);
        assert(t.dist@[p - 1] == slot_dist(c, p - 1));
    } else if q > p {
        assert(r[p].dist <= x.dist);
    }
    assert(q == p);
    ranked_push(c, x, p);
    let d = c.push(x);
    assert forall|i: int| 0 <= i < NEIGHBORS implies #[trigger] u.dist@[i] == slot_dist(d, i) by {
        assert(i > p ==> t.dist@[i - 1] == slot_dist(c, i - 1));
        assert(t.dist@[i] == slot_dist(c, i));
    }
    assert forall|i: int| 0 <= i < NEIGHBORS implies #[trigger] u.fraud@[i] == slot_fraud(d, i) by {
        assert(i > p ==> t.fraud@[i - 1] == slot_fraud(c, i - 1));
        assert(t.fraud@[i] == slot_fraud(c, i));
    }
}

/// A candidate no nearer than the last slot changes nothing.
proof fn beyond_the_fifth(t: Top, c: Seq<Candidate>, x: Candidate)
    requires
        t.holds(c),
        x.dist >= t.dist[4],
    ensures
        t.holds(c.push(x)),
{
    ranked_is_sorted(c);
    let n = neighbors(c);
    let r = ranked(c);
    if x.dist == i32::MAX {
        ranked_without(c, x);
    } else {
        let q = rank_of(c, x.dist);
        assert(r.len() >= 5);
        assert(r[4].dist <= x.dist);
        assert(q >= 5);
        ranked_push(c, x, q);
        assert(neighbors(c.push(x)) =~= n);
    }
}

/// The candidate scanned at `k`, with its place.
pub open spec fn numbered(c: Seq<Candidate>, k: int) -> Neighbor {
    Neighbor { dist: c[k].dist, seen: k, fraud: c[k].fraud }
}

/// The neighbours are as many as there are candidates to fill five slots; each
/// is a candidate of the scan, none occurs twice, and whatever is left out comes
/// behind every one of them.
pub proof fn neighbors_are_nearest(c: Seq<Candidate>)
    ensures
        neighbors(c).len() == if listed(c).len() <= NEIGHBORS {
            listed(c).len()
        } else {
            NEIGHBORS as nat
        },
        forall|i: int|
            #![trigger neighbors(c)[i]]
            0 <= i < neighbors(c).len() ==> {
                let n = neighbors(c)[i];
                0 <= n.seen < c.len() && n == numbered(c, n.seen) && n.dist < i32::MAX
            },
        forall|i: int, j: int|
            0 <= i < j < neighbors(c).len() ==> neighbors(c)[i].seen != neighbors(c)[j].seen,
        forall|k: int, i: int|
            #![trigger numbered(c, k), neighbors(c)[i]]
            0 <= k < c.len() && c[k].dist < i32::MAX && !neighbors(c).contains(numbered(c, k))
                && 0 <= i < neighbors(c).len() ==> closer(neighbors(c)[i], numbered(c, k)),
{
    broadcast use vstd::seq_lib::group_to_multiset_ensures;

    let leq = |a: Neighbor, b: Neighbor| closer(a, b);
    let keep = |n: Neighbor| n.dist < i32::MAX;
    let all = Seq::new(
        c.len(),
        |i: int| Neighbor { dist: c[i].dist, seen: i, fraud: c[i].fraud },
    );
    let r = ranked(c);
    let n = neighbors(c);
    ranked_is_sorted(c);
    assert forall|i: int| 0 <= i < r.len() implies #[trigger] r[i] == numbered(c, r[i].seen) by {
        assert(r.contains(r[i]));
        assert(r.to_multiset().count(r[i]) > 0);
        assert(listed(c).contains(r[i]));
        all.lemma_filter_contains_rev(keep, r[i]);
    }
    assert(all.no_duplicates());
    filter_keeps_distinct(all, keep);
    listed(c).lemma_multiset_has_no_duplicates();
    r.lemma_multiset_has_no_duplicates_conv();
    assert forall|i: int, j: int| 0 <= i < j < n.len() implies n[i].seen != n[j].seen by {
        assert(r[i] != r[j]);
    }
    assert forall|k: int, i: int|
        #![trigger numbered(c, k), neighbors(c)[i]]
        0 <= k < c.len() && c[k].dist < i32::MAX && !n.contains(numbered(c, k)) && 0 <= i
            < n.len() implies closer(neighbors(c)[i], numbered(c, k)) by {
        let x = numbered(c, k);
        assert(all[k] == x);
        all.lemma_filter_contains(keep, k);
        assert(listed(c).to_multiset().count(x) > 0);
        assert(r.contains(x));
        let m = choose|m: int| 0 <= m < r.len() && r[m] == x;
        if m < n.len() {
            assert(n[m] == x);
        }
        assert(leq(r[i], r[m]));
    }
}

proof fn filter_keeps_distinct(s: Seq<Neighbor>, keep: spec_fn(Neighbor) -> bool)
    requires
        s.no_duplicates(),
    ensures
        s.filter(keep).no_duplicates(),
    decreases s.len(),
{
    reveal(Seq::filter);
    if s.len() > 0 {
        let t = s.drop_last();
        filter_keeps_distinct(t, keep);
        if keep(s.last()) && t.filter(keep).contains(s.last()) {
            t.lemma_filter_contains_rev(keep, s.last());
        }
    }
}

/// No more than five votes are cast.
pub proof fn votes_are_at_most_five(c: Seq<Candidate>)
    ensures
        fraud_votes(c) <= NEIGHBORS,
{
    neighbors(c).lemma_filter_len(|n: Neighbor| n.fraud);
}

/// 1 for a candidate that lies within the distance `d`, and 0 for any other; with `only_frauds`
/// 1 only if it is a fraud.
pub open spec fn counted(x: Candidate, d: i32, only_frauds: bool) -> int {
    if x.dist <= d && x.dist < i32::MAX && (only_frauds ==> x.fraud) {
        1
    } else {
        0
    }
}

/// How many candidates of a scan lie within the distance `d`, or how many frauds.
pub open spec fn count_within(c: Seq<Candidate>, d: i32, only_frauds: bool) -> int {
    sums::total(|i: int| counted(c[i], d, only_frauds), c.len())
}

/// The neighbours are the candidates within the distance `d`: these are five, or fewer
/// and all there are.
pub open spec fn decides(c: Seq<Candidate>, d: i32) -> bool {
    ||| count_within(c, d, false) == NEIGHBORS
    ||| count_within(c, d, false) <= NEIGHBORS && count_within(c, d, false) == count_within(
        c,
        i32::MAX,
        false,
    )
}

proof fn count_push(c: Seq<Candidate>, x: Candidate, d: i32, only: bool)
    ensures
        count_within(c.push(x), d, only) == count_within(c, d, only) + counted(x, d, only),
{
    let e = c.push(x);
    sums::total_of_equals(
        |i: int| counted(e[i], d, only),
        |i: int| counted(c[i], d, only),
        c.len(),
    );
}

/// Candidates scanned in two parts are counted in two parts.
pub proof fn count_of_parts(c: Seq<Candidate>, e: Seq<Candidate>, d: i32, only: bool)
    ensures
        count_within(c + e, d, only) == count_within(c, d, only) + count_within(e, d, only),
    decreases e.len(),
{
    if e.len() == 0 {
        assert(c + e =~= c);
    } else {
        let init = e.drop_last();
        count_of_parts(c, init, d, only);
        count_push(c + init, e.last(), d, only);
        count_push(init, e.last(), d, only);
        assert(c + e =~= (c + init).push(e.last()));
        assert(init.push(e.last()) =~= e);
    }
}

/// There are no more frauds within a distance than candidates.
pub proof fn frauds_are_candidates(c: Seq<Candidate>, d: i32)
    ensures
        0 <= count_within(c, d, true) <= count_within(c, d, false) <= c.len(),
        count_within(c, d, false) <= count_within(c, i32::MAX, false),
    decreases c.len(),
{
    if c.len() > 0 {
        let init = c.drop_last();
        frauds_are_candidates(init, d);
        count_push(init, c.last(), d, true);
        count_push(init, c.last(), d, false);
        count_push(init, c.last(), i32::MAX, false);
        assert(init.push(c.last()) =~= c);
    }
}

spec fn votes(r: Seq<Neighbor>) -> int {
    r.filter(|n: Neighbor| n.fraud).len() as int
}

proof fn votes_insert(r: Seq<Neighbor>, q: int, n: Neighbor)
    requires
        0 <= q <= r.len(),
    ensures
        votes(r.insert(q, n)) == votes(r) + if n.fraud {
            1int
        } else {
            0
        },
{
    let voting = |n: Neighbor| n.fraud;
    let a = r.take(q);
    let b = r.skip(q);
    assert(r =~= a + b);
    assert(r.insert(q, n) =~= a.push(n) + b);
    Seq::filter_distributes_over_add(a, b, voting);
    Seq::filter_distributes_over_add(a.push(n), b, voting);
    a.lemma_filter_push(n, voting);
}

/// The ranking starts with the candidates within the distance `d`, and no others.
proof fn ranked_counts(c: Seq<Candidate>, d: i32)
    ensures
        ({
            let p = count_within(c, d, false);
            &&& 0 <= p <= ranked(c).len()
            &&& forall|i: int| 0 <= i < p ==> (#[trigger] ranked(c)[i]).dist <= d
            &&& forall|i: int| p <= i < ranked(c).len() ==> (#[trigger] ranked(c)[i]).dist > d
            &&& votes(ranked(c).take(p)) == count_within(c, d, true)
        }),
    decreases c.len(),
{
    ranked_is_sorted(c);
    if c.len() == 0 {
        assert(listed(c) =~= Seq::empty());
        assert(ranked(c) =~= Seq::empty());
        assert(ranked(c).take(0) =~= Seq::empty());
        reveal(Seq::filter);
    } else {
        let init = c.drop_last();
        let x = c.last();
        assert(init.push(x) =~= c);
        ranked_counts(init, d);
        count_push(init, x, d, false);
        count_push(init, x, d, true);
        let r = ranked(init);
        let p = count_within(init, d, false);
        if x.dist == i32::MAX {
            ranked_without(init, x);
        } else {
            let n = Neighbor { dist: x.dist, seen: init.len() as int, fraud: x.fraud };
            let q = rank_of(init, x.dist);
            ranked_push(init, x, q);
            let s = ranked(c);
            if x.dist <= d {
                assert(q <= p) by {
                    if q > p {
                        assert(r[p].dist <= x.dist);
                    }
                }
                assert(s.take(p + 1) =~= r.take(p).insert(q, n));
                votes_insert(r.take(p), q, n);
                assert forall|i: int| 0 <= i < p + 1 implies (#[trigger] s[i]).dist <= d by {
                    if i < q {
                        assert(s[i] == r[i]);
                    } else if i > q {
                        assert(s[i] == r[i - 1]);
                    }
                }
                assert forall|i: int| p + 1 <= i < s.len() implies (#[trigger] s[i]).dist > d by {
                    assert(s[i] == r[i - 1]);
                }
            } else {
                assert(q >= p) by {
                    if q < p {
                        assert(r[q].dist > x.dist);
                    }
                }
                assert(s.take(p) =~= r.take(p));
                assert forall|i: int| 0 <= i < p implies (#[trigger] s[i]).dist <= d by {
                    assert(s[i] == r[i]);
                }
                assert forall|i: int| p <= i < s.len() implies (#[trigger] s[i]).dist > d by {
                    if i < q {
                        assert(s[i] == r[i]);
                    } else if i > q {
                        assert(s[i] == r[i - 1]);
                    }
                }
            }
        }
    }
}

/// A candidate at the largest distance is not ranked.
proof fn ranked_without(c: Seq<Candidate>, x: Candidate)
    requires
        x.dist == i32::MAX,
    ensures
        ranked(c.push(x)) == ranked(c),
{
    broadcast use Seq::lemma_filter_push;

    let d = c.push(x);
    let all = Seq::new(
        c.len(),
        |i: int| Neighbor { dist: c[i].dist, seen: i, fraud: c[i].fraud },
    );
    let all_d = Seq::new(
        d.len(),
        |i: int| Neighbor { dist: d[i].dist, seen: i, fraud: d[i].fraud },
    );
    assert(all_d =~= all.push(Neighbor { dist: x.dist, seen: c.len() as int, fraud: x.fraud }));
    assert(listed(d) =~= listed(c));
}

/// If the five nearest candidates are those within the distance `d`, the votes are the frauds
/// among these, in whatever order the candidates were scanned.
pub proof fn nearest_five_decide(c: Seq<Candidate>, d: i32)
    requires
        decides(c, d),
    ensures
        fraud_votes(c) == count_within(c, d, true),
{
    ranked_is_sorted(c);
    ranked_counts(c, d);
    ranked_counts(c, i32::MAX);
    let r = ranked(c);
    let p = count_within(c, d, false);
    let all = count_within(c, i32::MAX, false);
    assert(all == r.len()) by {
        if all < r.len() {
            assert(r[all].dist > i32::MAX);
        }
    }
    assert(neighbors(c) =~= r.take(p));
}

/// The candidates of a scan with every label turned round.
pub open spec fn turned(c: Seq<Candidate>) -> Seq<Candidate> {
    c.map_values(|x: Candidate| Candidate { dist: x.dist, fraud: !x.fraud })
}

spec fn turned_ranks(r: Seq<Neighbor>) -> Seq<Neighbor> {
    r.map_values(|n: Neighbor| Neighbor { dist: n.dist, seen: n.seen, fraud: !n.fraud })
}

/// Labels do not count in the ranking.
proof fn ranked_turned(c: Seq<Candidate>)
    ensures
        ranked(turned(c)) == turned_ranks(ranked(c)),
    decreases c.len(),
{
    let t = turned(c);
    ranked_is_sorted(c);
    ranked_is_sorted(t);
    if c.len() == 0 {
        assert(listed(c) =~= Seq::empty());
        assert(listed(t) =~= Seq::empty());
        assert(ranked(t) =~= turned_ranks(ranked(c)));
    } else {
        let init = c.drop_last();
        let x = c.last();
        let y = Candidate { dist: x.dist, fraud: !x.fraud };
        assert(init.push(x) =~= c);
        assert(turned(init).push(y) =~= t);
        ranked_turned(init);
        if x.dist == i32::MAX {
            ranked_without(init, x);
            ranked_without(turned(init), y);
        } else {
            let q = rank_of(init, x.dist);
            let r = ranked(init);
            let s = ranked(turned(init));
            assert forall|i: int| 0 <= i < q implies (#[trigger] s[i]).dist <= y.dist by {
                assert(r[i].dist <= x.dist);
            }
            assert forall|i: int| q <= i < s.len() implies (#[trigger] s[i]).dist > y.dist by {
                assert(r[i].dist > x.dist);
            }
            ranked_push(init, x, q);
            ranked_push(turned(init), y, q);
            assert(ranked(t) =~= turned_ranks(ranked(c)));
        }
    }
}

proof fn votes_of_turned(r: Seq<Neighbor>)
    ensures
        votes(r) + votes(turned_ranks(r)) == r.len(),
    decreases r.len(),
{
    let voting = |n: Neighbor| n.fraud;
    if r.len() == 0 {
        assert(turned_ranks(r) =~= r);
        r.lemma_filter_len(voting);
    } else {
        let init = r.drop_last();
        let t = turned_ranks(init);
        votes_of_turned(init);
        assert(init.push(r.last()) =~= r);
        assert(t.push(turned_ranks(r).last()) =~= turned_ranks(r));
        init.lemma_filter_push(r.last(), voting);
        t.lemma_filter_push(turned_ranks(r).last(), voting);
    }
}

/// Every neighbour votes one way or the other: the votes on a scan and on the same scan with
/// all labels turned round add up to the number of neighbours, which is five, or the number
/// of candidates nearer than the largest distance if these are fewer.
pub proof fn opposite_votes_add_up(c: Seq<Candidate>)
    ensures
        fraud_votes(c) + fraud_votes(turned(c)) == if listed(c).len() <= NEIGHBORS {
            listed(c).len()
        } else {
            NEIGHBORS as nat
        },
{
    ranked_is_sorted(c);
    ranked_turned(c);
    assert(neighbors(turned(c)) =~= turned_ranks(neighbors(c)));
    votes_of_turned(neighbors(c));
}

proof fn votes_are_counted(r: Seq<Neighbor>)
    ensures
        votes(r) == sums::total(
            |i: int|
                if r[i].fraud {
                    1
                } else {
                    0
                },
            r.len(),
        ),
    decreases r.len(),
{
    let voting = |n: Neighbor| n.fraud;
    if r.len() == 0 {
        r.lemma_filter_len(voting);
    } else {
        let init = r.drop_last();
        votes_are_counted(init);
        assert(init.push(r.last()) =~= r);
        init.lemma_filter_push(r.last(), voting);
        sums::total_of_equals(
            |i: int|
                if r[i].fraud {
                    1int
                } else {
                    0
                },
            |i: int|
                if init[i].fraud {
                    1int
                } else {
                    0
                },
            init.len(),
        );
    }
}

proof fn few_are_all_neighbors(c: Seq<Candidate>, k: int)
    requires
        0 <= k < c.len(),
        c[k].dist < i32::MAX,
        neighbors(c).len() < 5,
    ensures
        neighbors(c).contains(numbered(c, k)),
{
    broadcast use vstd::seq_lib::group_to_multiset_ensures;

    let keep = |n: Neighbor| n.dist < i32::MAX;
    let all = Seq::new(
        c.len(),
        |i: int| Neighbor { dist: c[i].dist, seen: i, fraud: c[i].fraud },
    );
    let x = numbered(c, k);
    ranked_is_sorted(c);
    assert(all[k] == x);
    all.lemma_filter_contains(keep, k);
    assert(listed(c).to_multiset().count(x) > 0);
    assert(ranked(c).contains(x));
}

/// The neighbours in full. There are at most five. Each is a candidate of the scan, with its
/// distance and its label. They come in the order of their distance, and at equal distances in
/// the order of the scan. A candidate that is none of them is at the largest distance, or there
/// are five and it comes behind all of them. The votes are the frauds among them.
pub proof fn neighbors_in_full(c: Seq<Candidate>)
    ensures
        ({
            let n = neighbors(c);
            &&& n.len() <= 5
            &&& forall|i: int|
                #![trigger n[i]]
                0 <= i < n.len() ==> 0 <= n[i].seen < c.len() && n[i].dist == c[n[i].seen].dist
                    && n[i].fraud == c[n[i].seen].fraud && n[i].dist < 0x7fff_ffff
            &&& forall|i: int, j: int|
                0 <= i < j < n.len() ==> n[i].dist < n[j].dist || (n[i].dist == n[j].dist && n[i].seen
                    < n[j].seen)
            &&& forall|k: int, i: int|
                #![trigger c[k], n[i]]
                0 <= k < c.len() && c[k].dist < 0x7fff_ffff && (forall|j: int|
                    0 <= j < n.len() ==> (#[trigger] n[j]).seen != k) && 0 <= i < n.len() ==> n[i].dist
                    < c[k].dist || (n[i].dist == c[k].dist && n[i].seen < k)
            &&& forall|k: int|
                #![trigger c[k]]
                0 <= k < c.len() && c[k].dist < 0x7fff_ffff && n.len() < 5 ==> exists|j: int|
                    0 <= j < n.len() && (#[trigger] n[j]).seen == k
            &&& fraud_votes(c) == sums::total(
                |i: int|
                    if n[i].fraud {
                        1
                    } else {
                        0
                    },
                n.len(),
            )
        }),
{
    let n = neighbors(c);
    let leq = |a: Neighbor, b: Neighbor| closer(a, b);
    neighbors_are_nearest(c);
    ranked_is_sorted(c);
    votes_are_counted(n);
    assert forall|i: int, j: int| 0 <= i < j < n.len() implies n[i].dist < n[j].dist || (n[i].dist
        == n[j].dist && n[i].seen < n[j].seen) by {
        assert(leq(ranked(c)[i], ranked(c)[j]));
        assert(n[i].seen != n[j].seen);
    }
    assert forall|k: int, i: int|
        #![trigger c[k], n[i]]
        0 <= k < c.len() && c[k].dist < i32::MAX && (forall|j: int|
            0 <= j < n.len() ==> (#[trigger] n[j]).seen != k) && 0 <= i < n.len() implies n[i].dist
        < c[k].dist || (n[i].dist == c[k].dist && n[i].seen < k) by {
        let x = numbered(c, k);
        assert(!n.contains(x)) by {
            if n.contains(x) {
                let j = choose|j: int| 0 <= j < n.len() && n[j] == x;
                assert(n[j].seen != k);
            }
        }
        assert(closer(n[i], x));
        assert(n[i].seen != k);
    }
    assert forall|k: int|
        #![trigger c[k]]
        0 <= k < c.len() && c[k].dist < i32::MAX && n.len() < 5 implies exists|j: int|
        0 <= j < n.len() && (#[trigger] n[j]).seen == k by {
        few_are_all_neighbors(c, k);
        let j = choose|j: int| 0 <= j < n.len() && n[j] == numbered(c, k);
        assert(n[j].seen == k);
    }
}

} // verus!
