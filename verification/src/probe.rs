//! Choosing clusters by the distance of their centroid.
//!
//! A distance is a sum of squares in single precision and is passed as its IEEE 754 bit
//! pattern. Among patterns of non-negative numbers the order of the integers is
//! the order of the numbers; everything above infinity is not a number.

use vstd::prelude::*;

verus! {

/// The bit pattern of an infinite distance.
pub const INFINITE: u32 = 0x7f80_0000;

/// The distance `a` is less than the distance `b`; never so if one of them is
/// not a number.
pub open spec fn nearer(a: u32, b: u32) -> bool {
    a < b && b <= INFINITE
}

/// The smallest distance and the first cluster that has it. If no distance is
/// finite, cluster 0 at an infinite distance.
pub fn nearest(keys: &[u32]) -> (best: (usize, u32))
    ensures
        best.1 <= INFINITE,
        forall|c: int| 0 <= c < keys.len() ==> #[trigger] keys[c] >= best.1,
        best.1 < INFINITE ==> best.0 < keys.len() && keys[best.0 as int] == best.1,
        best.1 < INFINITE ==> forall|c: int| 0 <= c < best.0 ==> #[trigger] keys[c] > best.1,
        best.1 == INFINITE ==> best.0 == 0,
{
    let mut best: usize = 0;
    let mut bd: u32 = INFINITE;
    for c in 0..keys.len()
        invariant
            bd <= INFINITE,
            forall|i: int| 0 <= i < c ==> #[trigger] keys[i] >= bd,
            bd < INFINITE ==> best < c && keys[best as int] == bd,
            bd < INFINITE ==> forall|i: int| 0 <= i < best ==> #[trigger] keys[i] > bd,
            bd == INFINITE ==> best == 0,
    {
        if keys[c] < bd {
            bd = keys[c];
            best = c;
        }
    }
    (best, bd)
}

/// A chosen cluster and the distance of its centroid.
#[derive(Clone, Copy)]
pub struct Probe {
    pub key: u32,
    pub cluster: usize,
}

/// The largest distance among the chosen clusters, over those that are numbers.
pub open spec fn worst_key(best: Seq<Probe>) -> u32
    decreases best.len(),
{
    if best.len() == 0 {
        0
    } else {
        let w = worst_key(best.drop_last());
        if nearer(w, best.last().key) {
            best.last().key
        } else {
            w
        }
    }
}

/// The slot that gives way to a nearer cluster: the first of the farthest. A slot 0 whose
/// distance is not a number gives way before all others.
pub open spec fn victim(best: Seq<Probe>) -> int
    decreases best.len(),
{
    if best.len() <= 1 {
        0
    } else {
        let v = victim(best.drop_last());
        if nearer(best[v].key, best.last().key) {
            best.len() - 1
        } else {
            v
        }
    }
}

/// The chosen clusters after one more has been looked at.
pub open spec fn probe_step(best: Seq<Probe>, p: Probe, np: nat) -> Seq<Probe> {
    if best.len() < np {
        best.push(p)
    } else if nearer(p.key, worst_key(best)) {
        best.update(victim(best), p)
    } else {
        best
    }
}

/// The `np` clusters chosen from those whose distances are `keys`, in the order
/// of their slots.
pub open spec fn probes(keys: Seq<u32>, np: nat) -> Seq<Probe>
    decreases keys.len(),
{
    if keys.len() == 0 {
        Seq::empty()
    } else {
        probe_step(
            probes(keys.drop_last(), np),
            Probe { key: keys.last(), cluster: (keys.len() - 1) as usize },
            np,
        )
    }
}

/// How many clusters are probed.
pub open spec fn probe_count(clusters: nat, nprobe: nat) -> nat {
    if nprobe < clusters {
        nprobe
    } else {
        clusters
    }
}

/// The probed clusters, in the order in which they are searched.
pub open spec fn probed(keys: Seq<u32>, nprobe: nat) -> Seq<usize> {
    probes(keys, probe_count(keys.len(), nprobe)).map_values(|p: Probe| p.cluster)
}

/// Probing no cluster at all is possible only where none is at a finite distance.
pub open spec fn can_probe(keys: Seq<u32>, nprobe: nat) -> bool {
    nprobe > 0 || forall|c: int| 0 <= c < keys.len() ==> #[trigger] keys[c] >= INFINITE
}

proof fn probes_len(keys: Seq<u32>, np: nat)
    ensures
        probes(keys, np).len() == if keys.len() < np {
            keys.len()
        } else {
            np
        },
    decreases keys.len(),
{
    if keys.len() > 0 {
        probes_len(keys.drop_last(), np);
        victim_in_range(probes(keys.drop_last(), np));
    }
}

proof fn victim_in_range(best: Seq<Probe>)
    ensures
        best.len() > 0 ==> 0 <= victim(best) < best.len(),
    decreases best.len(),
{
    if best.len() > 1 {
        victim_in_range(best.drop_last());
    }
}

fn worst_of(best: &Vec<Probe>) -> (worst: u32)
    ensures
        worst == worst_key(best@),
        worst <= INFINITE,
{
    let mut worst: u32 = 0;
    for i in 0..best.len()
        invariant
            worst <= INFINITE,
            worst == worst_key(best@.take(i as int)),
    {
        assert(best@.take(i + 1).drop_last() =~= best@.take(i as int));
        let d = best[i].key;
        if worst < d && d <= INFINITE {
            worst = d;
        }
    }
    assert(best@.take(best@.len() as int) =~= best@);
    worst
}

fn farthest(best: &Vec<Probe>) -> (wi: usize)
    requires
        best@.len() > 0,
    ensures
        wi == victim(best@),
        wi < best@.len(),
{
    let mut wi: usize = 0;
    let mut i: usize = 1;
    while i < best.len()
        invariant
            1 <= i <= best@.len(),
            wi < i,
            wi == victim(best@.take(i as int)),
        decreases best@.len() - i,
    {
        assert(best@.take(i + 1).drop_last() =~= best@.take(i as int));
        if best[wi].key < best[i].key && best[i].key <= INFINITE {
            wi = i;
        }
        i += 1;
    }
    assert(best@.take(best@.len() as int) =~= best@);
    wi
}

/// Chooses the clusters to search: the `nprobe` nearest, fewer if there are
/// fewer.
pub fn nearest_clusters(keys: &[u32], nprobe: usize) -> (chosen: Vec<usize>)
    requires
        can_probe(keys@, nprobe as nat),
    ensures
        chosen@ == probed(keys@, nprobe as nat),
        nprobe <= keys.len() ==> chosen.len() == nprobe,
        nprobe > keys.len() ==> chosen.len() == keys.len(),
{
    proof {
        probed_are_clusters(keys@, nprobe as nat);
    }
    let np: usize = if nprobe < keys.len() {
        nprobe
    } else {
        keys.len()
    };
    let mut best: Vec<Probe> = Vec::new();
    let mut worst: u32 = INFINITE;
    for c in 0..keys.len()
        invariant
            can_probe(keys@, nprobe as nat),
            np == probe_count(keys@.len(), nprobe as nat),
            best@ == probes(keys@.take(c as int), np as nat),
            best@.len() <= np,
            worst <= INFINITE,
            worst == if best@.len() < np || np == 0 {
                INFINITE
            } else {
                worst_key(best@)
            },
    {
        assert(keys@.take(c + 1).drop_last() =~= keys@.take(c as int));
        proof {
            probes_len(keys@.take(c as int), np as nat);
        }
        let p = Probe { key: keys[c], cluster: c };
        if best.len() < np {
            best.push(p);
            if best.len() == np {
                worst = worst_of(&best);
            }
        } else if keys[c] < worst {
            let wi = farthest(&best);
            best[wi] = p;
            worst = worst_of(&best);
        }
    }
    assert(keys@.take(keys@.len() as int) =~= keys@);
    let mut chosen: Vec<usize> = Vec::new();
    for i in 0..best.len()
        invariant
            chosen@ =~= best@.take(i as int).map_values(|p: Probe| p.cluster),
    {
        chosen.push(best[i].cluster);
        assert(best@.take(i + 1) =~= best@.take(i as int).push(best@[i as int]));
    }
    assert(best@.take(best@.len() as int) =~= best@);
    chosen
}

proof fn worst_is_largest(best: Seq<Probe>)
    requires
        forall|i: int| 0 <= i < best.len() ==> #[trigger] best[i].key <= INFINITE,
    ensures
        worst_key(best) <= INFINITE,
        forall|i: int| 0 <= i < best.len() ==> #[trigger] best[i].key <= worst_key(best),
        best.len() > 0 ==> best[victim(best)].key == worst_key(best),
    decreases best.len(),
{
    if best.len() > 0 {
        let init = best.drop_last();
        assert forall|i: int| 0 <= i < init.len() implies #[trigger] init[i].key <= INFINITE by {
            assert(init[i] == best[i]);
        }
        worst_is_largest(init);
        victim_in_range(init);
        assert forall|i: int| 0 <= i < best.len() implies #[trigger] best[i].key <= worst_key(
            best,
        ) by {
            if i < init.len() {
                assert(init[i] == best[i]);
            }
        }
    }
}

/// The probes `best` are clusters at the distances `keys`, none twice, and no
/// cluster left out is nearer than one of them.
pub open spec fn are_nearest(best: Seq<Probe>, keys: Seq<u32>) -> bool {
    &&& forall|i: int|
        #![trigger best[i]]
        0 <= i < best.len() ==> best[i].cluster < keys.len() && best[i].key
            == keys[best[i].cluster as int]
    &&& forall|i: int, j: int|
        0 <= i < j < best.len() ==> best[i].cluster != best[j].cluster
    &&& forall|i: int, c: int|
        #![trigger best[i], keys[c]]
        0 <= i < best.len() && 0 <= c < keys.len() && (forall|j: int|
            0 <= j < best.len() ==> #[trigger] best[j].cluster != c) ==> best[i].key <= keys[c]
}

/// Where every distance is a number, the probed clusters are the nearest ones: as
/// many as were asked for, none twice, and none left out is nearer.
pub proof fn probed_are_nearest(keys: Seq<u32>, np: nat)
    requires
        np <= keys.len(),
        keys.len() <= usize::MAX,
        forall|c: int| 0 <= c < keys.len() ==> #[trigger] keys[c] <= INFINITE,
    ensures
        probes(keys, np).len() == np,
        are_nearest(probes(keys, np), keys),
    decreases keys.len(),
{
    probes_len(keys, np);
    if keys.len() > 0 {
        let init = keys.drop_last();
        if np <= init.len() {
            probed_are_nearest(init, np);
            nearest_step(init, keys.last(), np);
            assert(init.push(keys.last()) =~= keys);
        } else {
            all_are_probed(keys, np);
            let b = probes(keys, np);
            assert forall|i: int, c: int|
                #![trigger b[i], keys[c]]
                0 <= i < b.len() && 0 <= c < keys.len() && (forall|j: int|
                    0 <= j < b.len() ==> #[trigger] b[j].cluster != c) implies b[i].key
                <= keys[c] by {
                assert(b[c].cluster == c);
            }
        }
    }
}

proof fn nearest_step(init: Seq<u32>, key: u32, np: nat)
    requires
        np <= init.len(),
        init.len() < usize::MAX,
        key <= INFINITE,
        forall|c: int| 0 <= c < init.len() ==> #[trigger] init[c] <= INFINITE,
        are_nearest(probes(init, np), init),
    ensures
        are_nearest(probes(init.push(key), np), init.push(key)),
{
    let keys = init.push(key);
    assert(keys.drop_last() =~= init);
    let b = probes(init, np);
    let p = Probe { key, cluster: init.len() as usize };
    let n = probe_step(b, p, np);
    probes_len(init, np);
    assert forall|i: int| 0 <= i < b.len() implies #[trigger] b[i].key <= INFINITE by {
        assert(b[i].key == init[b[i].cluster as int]);
    }
    worst_is_largest(b);
    victim_in_range(b);
    let v = victim(b);
    assert forall|i: int, c: int|
        #![trigger n[i], keys[c]]
        0 <= i < n.len() && 0 <= c < keys.len() && (forall|j: int|
            0 <= j < n.len() ==> #[trigger] n[j].cluster != c) implies n[i].key <= keys[c] by {
        if nearer(key, worst_key(b)) {
            assert(n[v].cluster == init.len());
            if c == b[v].cluster {
                assert(keys[c] == worst_key(b));
                assert(b[i].key <= worst_key(b));
            } else {
                assert(c < init.len());
                assert forall|j: int| 0 <= j < b.len() implies #[trigger] b[j].cluster != c by {
                    if j != v {
                        assert(n[j].cluster != c);
                    }
                }
                assert(b[v].key <= init[c]);
                assert(b[i].key <= init[c]);
            }
        } else {
            assert(b[i].key <= worst_key(b));
            if c < init.len() {
                assert(b[i].key <= init[c]);
            }
        }
    }
}

/// With as many probes as clusters every cluster is searched, in order.
pub proof fn all_are_probed(keys: Seq<u32>, np: nat)
    requires
        keys.len() <= np,
        keys.len() <= usize::MAX,
    ensures
        probes(keys, np) == Seq::new(
            keys.len(),
            |c: int| Probe { key: keys[c], cluster: c as usize },
        ),
    decreases keys.len(),
{
    if keys.len() > 0 {
        all_are_probed(keys.drop_last(), np);
    }
}

/// Whatever the distances are, every probed cluster is one of the clusters, none is probed
/// twice, and as many are probed as were asked for or as there are.
pub proof fn probed_are_clusters(keys: Seq<u32>, nprobe: nat)
    requires
        keys.len() <= usize::MAX,
    ensures
        probed(keys, nprobe).len() == probe_count(keys.len(), nprobe),
        forall|i: int|
            0 <= i < probed(keys, nprobe).len() ==> #[trigger] probed(keys, nprobe)[i]
                < keys.len(),
        probed(keys, nprobe).no_duplicates(),
{
    let np = probe_count(keys.len(), nprobe);
    probes_len(keys, np);
    probes_are_clusters(keys, np);
}

proof fn probes_are_clusters(keys: Seq<u32>, np: nat)
    requires
        keys.len() <= usize::MAX,
    ensures
        forall|i: int|
            0 <= i < probes(keys, np).len() ==> (#[trigger] probes(keys, np)[i]).cluster
                < keys.len(),
        forall|i: int, j: int|
            0 <= i < j < probes(keys, np).len() ==> probes(keys, np)[i].cluster != probes(
                keys,
                np,
            )[j].cluster,
    decreases keys.len(),
{
    if keys.len() > 0 {
        let before = probes(keys.drop_last(), np);
        probes_are_clusters(keys.drop_last(), np);
        victim_in_range(before);
        let all = probes(keys, np);
        assert forall|i: int| 0 <= i < all.len() implies (#[trigger] all[i]).cluster
            < keys.len() by {
            if i < before.len() {
                assert(before[i].cluster < keys.len() - 1);
            }
        }
        assert forall|i: int, j: int| 0 <= i < j < all.len() implies all[i].cluster
            != all[j].cluster by {
            assert(before[i].cluster < keys.len() - 1);
            if j < before.len() {
                assert(before[j].cluster < keys.len() - 1);
            }
        }
    }
}

/// Exactly `nprobe` clusters are probed, or all if there are fewer. No cluster is probed twice,
/// and where every distance is a number, no cluster that is left out is nearer than one that is
/// probed.
pub proof fn nearest_are_probed(keys: Seq<u32>, nprobe: nat)
    requires
        keys.len() <= usize::MAX,
    ensures
        nprobe <= keys.len() ==> probed(keys, nprobe).len() == nprobe,
        nprobe > keys.len() ==> probed(keys, nprobe).len() == keys.len(),
        forall|i: int|
            0 <= i < probed(keys, nprobe).len() ==> #[trigger] probed(keys, nprobe)[i]
                < keys.len(),
        forall|i: int, j: int|
            0 <= i < j < probed(keys, nprobe).len() ==> probed(keys, nprobe)[i] != probed(
                keys,
                nprobe,
            )[j],
        (forall|c: int| 0 <= c < keys.len() ==> #[trigger] keys[c] <= 0x7f80_0000) ==> forall|
            i: int,
            c: int,
        |
            #![trigger probed(keys, nprobe)[i], keys[c]]
            0 <= i < probed(keys, nprobe).len() && 0 <= c < keys.len() && !probed(
                keys,
                nprobe,
            ).contains(c as usize) ==> keys[probed(keys, nprobe)[i] as int] <= keys[c],
{
    probed_are_clusters(keys, nprobe);
    let np = probe_count(keys.len(), nprobe);
    let b = probes(keys, np);
    let p = probed(keys, nprobe);
    if forall|c: int| 0 <= c < keys.len() ==> #[trigger] keys[c] <= 0x7f80_0000 {
        probed_are_nearest(keys, np);
        assert forall|i: int, c: int|
            #![trigger p[i], keys[c]]
            0 <= i < p.len() && 0 <= c < keys.len() && !p.contains(c as usize) implies keys[p[i]
            as int] <= keys[c] by {
            assert(b[i].cluster == p[i]);
            assert forall|j: int| 0 <= j < b.len() implies #[trigger] b[j].cluster != c by {
                assert(p[j] == b[j].cluster);
            }
            assert(b[i].key <= keys[c]);
        }
    }
}

/// The slot `v` is the first of the farthest among the chosen clusters `p`; or it is slot 0,
/// and that cluster's distance is not a number.
spec fn is_first_farthest(keys: Seq<u32>, p: Seq<usize>, v: int) -> bool {
    &&& 0 <= v < p.len()
    &&& keys[p[0] as int] > 0x7f80_0000 ==> v == 0
    &&& keys[p[0] as int] <= 0x7f80_0000 ==> keys[p[v] as int] <= 0x7f80_0000 && forall|j: int|
        #![trigger p[j]]
        0 <= j < p.len() && keys[p[j] as int] <= 0x7f80_0000 ==> keys[p[j] as int]
            <= keys[p[v] as int] && (j < v ==> keys[p[j] as int] < keys[p[v] as int])
}

proof fn victim_is_first_farthest(best: Seq<Probe>, keys: Seq<u32>)
    requires
        best.len() > 0,
        forall|i: int|
            #![trigger best[i]]
            0 <= i < best.len() ==> best[i].cluster < keys.len() && best[i].key
                == keys[best[i].cluster as int],
    ensures
        is_first_farthest(keys, best.map_values(|p: Probe| p.cluster), victim(best)),
    decreases best.len(),
{
    let p = best.map_values(|p: Probe| p.cluster);
    let v = victim(best);
    victim_in_range(best);
    assert forall|i: int| 0 <= i < best.len() implies keys[#[trigger] p[i] as int]
        == best[i].key by {}
    if best.len() > 1 {
        let init = best.drop_last();
        let q = init.map_values(|p: Probe| p.cluster);
        assert forall|i: int|
            #![trigger init[i]]
            0 <= i < init.len() implies init[i].cluster < keys.len() && init[i].key
            == keys[init[i].cluster as int] by {
            assert(init[i] == best[i]);
        }
        victim_is_first_farthest(init, keys);
        victim_in_range(init);
        let w = victim(init);
        assert(q[0] == p[0] && q[w] == p[w]);
        assert(p[best.len() - 1] == best.last().cluster);
        assert(best.last() == best[best.len() - 1]);
        if keys[p[0] as int] <= INFINITE {
            assert forall|j: int|
                #![trigger p[j]]
                0 <= j < p.len() && keys[p[j] as int] <= INFINITE implies keys[p[j] as int]
                <= keys[p[v] as int] && (j < v ==> keys[p[j] as int] < keys[p[v] as int]) by {
                if j < init.len() {
                    assert(q[j] == p[j]);
                }
            }
        }
    }
}

proof fn worst_tells(best: Seq<Probe>, key: u32)
    ensures
        nearer(key, worst_key(best)) <==> exists|i: int|
            0 <= i < best.len() && nearer(key, (#[trigger] best[i]).key),
        worst_key(best) <= INFINITE,
    decreases best.len(),
{
    if best.len() > 0 {
        let init = best.drop_last();
        worst_tells(init, key);
        if nearer(key, worst_key(init)) {
            let i = choose|i: int| 0 <= i < init.len() && nearer(key, (#[trigger] init[i]).key);
            assert(best[i] == init[i]);
        }
        if exists|i: int| 0 <= i < best.len() && nearer(key, (#[trigger] best[i]).key) {
            let i = choose|i: int| 0 <= i < best.len() && nearer(key, (#[trigger] best[i]).key);
            if i < init.len() {
                assert(init[i] == best[i]);
            }
        }
        assert(best.last() == best[best.len() - 1]);
    }
}

proof fn probes_keep_keys(keys: Seq<u32>, np: nat)
    requires
        keys.len() <= usize::MAX,
    ensures
        forall|i: int|
            #![trigger probes(keys, np)[i]]
            0 <= i < probes(keys, np).len() ==> probes(keys, np)[i].cluster < keys.len() && probes(
                keys,
                np,
            )[i].key == keys[probes(keys, np)[i].cluster as int],
    decreases keys.len(),
{
    if keys.len() > 0 {
        let init = keys.drop_last();
        let before = probes(init, np);
        probes_keep_keys(init, np);
        victim_in_range(before);
        let all = probes(keys, np);
        assert forall|i: int|
            #![trigger all[i]]
            0 <= i < all.len() implies all[i].cluster < keys.len() && all[i].key
            == keys[all[i].cluster as int] by {
            if i < before.len() {
                assert(before[i].cluster < init.len());
            }
        }
    }
}

/// What one more cluster changes: while fewer than `nprobe` were looked at it is probed too;
/// after that it takes the place of the first of the farthest, or of a first one whose
/// distance is not a number, if it is nearer than one that is probed, and changes nothing if
/// it is not. A distance that is not a number is never nearer.
pub proof fn one_more_cluster(keys: Seq<u32>, key: u32, nprobe: nat)
    requires
        keys.len() < usize::MAX,
    ensures
        ({
            let p = probed(keys, nprobe);
            let q = probed(keys.push(key), nprobe);
            let c = keys.len() as usize;
            let closer = exists|i: int|
                #![trigger p[i]]
                0 <= i < p.len() && key < keys[p[i] as int] <= 0x7f80_0000;
            &&& keys.len() < nprobe ==> q == p.push(c)
            &&& keys.len() >= nprobe && !closer ==> q == p
            &&& keys.len() >= nprobe && closer ==> exists|v: int|
                #![trigger p.update(v, c)]
                {
                    &&& q == p.update(v, c)
                    &&& 0 <= v < p.len()
                    &&& keys[p[0] as int] > 0x7f80_0000 ==> v == 0
                    &&& keys[p[0] as int] <= 0x7f80_0000 ==> {
                        &&& keys[p[v] as int] <= 0x7f80_0000
                        &&& forall|j: int|
                            #![trigger p[j]]
                            0 <= j < p.len() && keys[p[j] as int] <= 0x7f80_0000 ==> keys[p[j]
                                as int] <= keys[p[v] as int] && (j < v ==> keys[p[j] as int]
                                < keys[p[v] as int])
                    }
                }
        }),
{
    let all = keys.push(key);
    assert(all.drop_last() =~= keys);
    let c = keys.len() as usize;
    let p = probed(keys, nprobe);
    let q = probed(all, nprobe);
    if keys.len() < nprobe {
        all_are_probed(keys, probe_count(keys.len(), nprobe));
        all_are_probed(all, probe_count(all.len(), nprobe));
        assert(q =~= p.push(c));
    } else {
        let b = probes(keys, nprobe);
        probes_len(keys, nprobe);
        probes_keep_keys(keys, nprobe);
        worst_tells(b, key);
        victim_in_range(b);
        let closer = exists|i: int|
            #![trigger p[i]]
            0 <= i < p.len() && key < keys[p[i] as int] <= 0x7f80_0000;
        if nearer(key, worst_key(b)) {
            let i = choose|i: int| 0 <= i < b.len() && nearer(key, (#[trigger] b[i]).key);
            assert(p[i] == b[i].cluster);
            assert(closer);
            let v = victim(b);
            victim_is_first_farthest(b, keys);
            assert(q =~= p.update(v, c));
        } else {
            if closer {
                let i = choose|i: int|
                    #![trigger p[i]]
                    0 <= i < p.len() && key < keys[p[i] as int] <= 0x7f80_0000;
                assert(p[i] == b[i].cluster);
                assert(nearer(key, b[i].key));
            }
            assert(q =~= p);
        }
    }
}

/// Without clusters there is nothing to probe.
pub proof fn nothing_to_probe(nprobe: nat)
    ensures
        probed(Seq::empty(), nprobe) == Seq::<usize>::empty(),
{
    assert(probed(Seq::empty(), nprobe) =~= Seq::<usize>::empty());
}

/// Clusters can be probed unless none may be and one is at a finite distance.
pub proof fn probing_fails_only_without_probes(keys: Seq<u32>, nprobe: nat)
    ensures
        nprobe > 0 ==> can_probe(keys, nprobe),
        can_probe(keys, 0) <==> !(exists|c: int|
            0 <= c < keys.len() && #[trigger] keys[c] < 0x7f80_0000),
{
}

} // verus!
