//! How often vectors occur in the reference data, and whether their labels agree.

use vstd::prelude::*;
use std::collections::HashMap;
use crate::sums;

verus! {

/// An earlier vector equals vector `i`.
pub open spec fn seen(keys: Seq<[i16; 14]>, i: int) -> bool {
    exists|j: int| 0 <= j < i && (#[trigger] keys[j])@ == keys[i]@
}

/// Where among the first `m` vectors one occurs for the first time.
pub open spec fn firsts(keys: Seq<[i16; 14]>, m: nat) -> Seq<int>
    decreases m,
{
    if m == 0 {
        Seq::empty()
    } else if seen(keys, m - 1) {
        firsts(keys, (m - 1) as nat)
    } else {
        firsts(keys, (m - 1) as nat).push(m - 1)
    }
}

/// How many of the first `m` vectors equal `key` and have this label.
pub open spec fn labelled(
    keys: Seq<[i16; 14]>,
    labels: Seq<bool>,
    key: Seq<i16>,
    fraud: bool,
    m: nat,
) -> int
    decreases m,
{
    if m == 0 {
        0
    } else {
        labelled(keys, labels, key, fraud, (m - 1) as nat) + if keys[m - 1]@ == key && labels[m - 1]
            == fraud {
            1int
        } else {
            0
        }
    }
}

/// The vector at `i` occurs with both labels.
pub open spec fn is_mixed(keys: Seq<[i16; 14]>, labels: Seq<bool>, i: int) -> bool {
    &&& labelled(keys, labels, keys[i]@, true, keys.len()) > 0
    &&& labelled(keys, labels, keys[i]@, false, keys.len()) > 0
}

/// How often the vector at `i` occurs.
pub open spec fn multiplicity(keys: Seq<[i16; 14]>, labels: Seq<bool>, i: int) -> int {
    labelled(keys, labels, keys[i]@, true, keys.len()) + labelled(
        keys,
        labels,
        keys[i]@,
        false,
        keys.len(),
    )
}

/// Figures on repeated vectors.
#[derive(Clone, Copy, Debug, PartialEq, Eq, Structural)]
pub struct Duplicates {
    /// Vectors.
    pub total: usize,
    /// Different vectors.
    pub unique: usize,
    /// Different vectors that occur with both labels.
    pub mixed: usize,
    /// How often the most frequent vector occurs.
    pub max_dups: u32,
}

impl Duplicates {
    /// The figures are those of the given vectors and labels.
    pub open spec fn of(self, keys: Seq<[i16; 14]>, labels: Seq<bool>) -> bool {
        let f = firsts(keys, keys.len());
        &&& self.total == keys.len()
        &&& self.unique == f.len()
        &&& self.mixed == f.filter(|i: int| is_mixed(keys, labels, i)).len()
        &&& forall|i: int|
            0 <= i < keys.len() ==> #[trigger] multiplicity(keys, labels, i) <= self.max_dups
        &&& keys.len() == 0 ==> self.max_dups == 0
        &&& keys.len() > 0 ==> exists|i: int|
            0 <= i < keys.len() && #[trigger] multiplicity(keys, labels, i) == self.max_dups
    }
}

/// A number by which vectors are put into buckets.
spec fn bucket(key: Seq<i16>, m: nat) -> u64
    decreases m,
{
    if m == 0 {
        0
    } else {
        bucket(key, (m - 1) as nat).wrapping_mul(0x1_0000_01b3).wrapping_add(
            (key[m - 1] + 0x8000) as u64,
        )
    }
}

fn bucket_of(key: &[i16; 14]) -> (h: u64)
    ensures
        h == bucket(key@, 14),
{
    let mut h: u64 = 0;
    for i in 0..14usize
        invariant
            h == bucket(key@, i as nat),
    {
        let x: u64 = (key[i] as i32 + 0x8000) as u64;
        h = h.wrapping_mul(0x1_0000_01b3).wrapping_add(x);
    }
    h
}

fn same_key(a: &[i16; 14], b: &[i16; 14]) -> (yes: bool)
    ensures
        yes == (a@ == b@),
{
    for i in 0..14usize
        invariant
            forall|j: int| 0 <= j < i ==> a@[j] == b@[j],
    {
        if a[i] != b[i] {
            return false;
        }
    }
    assert(a@ =~= b@);
    true
}

/// A vector, and how often it occurs with either label.
struct Group {
    key: [i16; 14],
    fraud: u32,
    legit: u32,
}

/// Different vectors, found again by their bucket.
struct Groups {
    groups: Vec<Group>,
    buckets: HashMap<u64, Vec<usize>>,
}

impl Groups {
    /// Every group is in the bucket of its vector, and the buckets hold groups.
    spec fn wf(self) -> bool {
        &&& forall|g: int|
            #![trigger self.groups[g]]
            0 <= g < self.groups.len() ==> {
                let h = bucket(self.groups[g].key@, 14);
                self.buckets@.contains_key(h) && self.buckets@[h]@.contains(g as usize)
            }
        &&& forall|h: u64, j: int|
            #![trigger self.buckets@[h]@[j]]
            self.buckets@.contains_key(h) && 0 <= j < self.buckets@[h]@.len()
                ==> self.buckets@[h]@[j] < self.groups.len()
    }

    fn new() -> (r: Groups)
        ensures
            r.wf(),
            r.groups.len() == 0,
    {
        broadcast use vstd::std_specs::hash::group_hash_axioms;

        Groups { groups: Vec::new(), buckets: HashMap::new() }
    }

    fn find(&self, key: &[i16; 14]) -> (r: Option<usize>)
        requires
            self.wf(),
        ensures
            r matches Some(g) ==> g < self.groups.len() && self.groups[g as int].key@ == key@,
            r is None ==> forall|g: int|
                0 <= g < self.groups.len() ==> (#[trigger] self.groups[g]).key@ != key@,
    {
        broadcast use vstd::std_specs::hash::group_hash_axioms;

        let h = bucket_of(key);
        match self.buckets.get(&h) {
            None => None,
            Some(b) => {
                for i in 0..b.len()
                    invariant
                        self.wf(),
                        h == bucket(key@, 14),
                        self.buckets@.contains_key(h),
                        self.buckets@[h] == *b,
                        forall|j: int|
                            0 <= j < i ==> self.groups[#[trigger] b@[j] as int].key@ != key@,
                {
                    let g = b[i];
                    assert(self.buckets@[h]@[i as int] < self.groups.len());
                    if same_key(&self.groups[g].key, key) {
                        return Some(g);
                    }
                }
                assert forall|g: int| 0 <= g < self.groups.len() implies (
                #[trigger] self.groups[g]).key@ != key@ by {
                    if self.groups[g].key@ == key@ {
                        assert(b@.contains(g as usize));
                        let j = choose|j: int| 0 <= j < b@.len() && b@[j] == g as usize;
                        assert(self.groups[b@[j] as int].key@ != key@);
                    }
                }
                None
            },
        }
    }

    fn add(&mut self, key: [i16; 14], fraud: u32, legit: u32)
        requires
            old(self).wf(),
        ensures
            final(self).wf(),
            final(self).groups@ == old(self).groups@.push(Group { key, fraud, legit }),
    {
        broadcast use vstd::std_specs::hash::group_hash_axioms;

        let h = bucket_of(&key);
        let g = self.groups.len();
        let mut b: Vec<usize> = match self.buckets.remove(&h) {
            Some(b) => b,
            None => Vec::new(),
        };
        let ghost before = b@;
        b.push(g);
        self.groups.push(Group { key, fraud, legit });
        let ghost after = b@;
        self.buckets.insert(h, b);
        proof {
            assert forall|i: int|
                #![trigger self.groups[i]]
                0 <= i < self.groups.len() implies {
                let k = bucket(self.groups[i].key@, 14);
                self.buckets@.contains_key(k) && self.buckets@[k]@.contains(i as usize)
            } by {
                let k = bucket(self.groups[i].key@, 14);
                if i == g {
                    assert(after[before.len() as int] == g);
                } else {
                    assert(old(self).groups[i] == self.groups[i]);
                    if k == h {
                        let j = choose|j: int|
                            0 <= j < before.len() && before[j] == i as usize;
                        assert(after[j] == i as usize);
                    }
                }
            }
            assert forall|k: u64, j: int|
                #![trigger self.buckets@[k]@[j]]
                self.buckets@.contains_key(k) && 0 <= j < self.buckets@[k]@.len() implies
                self.buckets@[k]@[j] < self.groups.len() by {
                if k == h {
                    if j < before.len() {
                        assert(old(self).buckets@[k]@[j] < old(self).groups.len());
                    }
                } else {
                    assert(old(self).buckets@[k]@[j] < old(self).groups.len());
                }
            }
        }
    }
}

impl Groups {
    /// Counts one more occurrence of a group's vector.
    fn bump(&mut self, g: usize, fraud: bool)
        requires
            old(self).wf(),
            g < old(self).groups.len(),
            old(self).groups[g as int].fraud < u32::MAX,
            old(self).groups[g as int].legit < u32::MAX,
        ensures
            final(self).wf(),
            final(self).groups@ == old(self).groups@.update(
                g as int,
                Group {
                    key: old(self).groups[g as int].key,
                    fraud: (old(self).groups[g as int].fraud + if fraud {
                        1int
                    } else {
                        0
                    }) as u32,
                    legit: (old(self).groups[g as int].legit + if fraud {
                        0int
                    } else {
                        1
                    }) as u32,
                },
            ),
    {
        let key = self.groups[g].key;
        let mut f: u32 = self.groups[g].fraud;
        let mut l: u32 = self.groups[g].legit;
        if fraud {
            f = f + 1;
        } else {
            l = l + 1;
        }
        self.groups[g] = Group { key, fraud: f, legit: l };
        proof {
            assert forall|i: int|
                #![trigger self.groups[i]]
                0 <= i < self.groups.len() implies {
                let k = bucket(self.groups[i].key@, 14);
                self.buckets@.contains_key(k) && self.buckets@[k]@.contains(i as usize)
            } by {
                assert(old(self).groups[i].key == self.groups[i].key);
            }
            assert forall|k: u64, j: int|
                #![trigger self.buckets@[k]@[j]]
                self.buckets@.contains_key(k) && 0 <= j < self.buckets@[k]@.len() implies
                self.buckets@[k]@[j] < self.groups.len() by {
                assert(old(self).buckets@[k]@[j] < old(self).groups.len());
            }
        }
    }
}

proof fn firsts_in_range(keys: Seq<[i16; 14]>, m: nat)
    ensures
        firsts(keys, m).len() <= m,
        forall|g: int| 0 <= g < firsts(keys, m).len() ==> 0 <= #[trigger] firsts(keys, m)[g] < m,
        forall|g: int|
            0 <= g < firsts(keys, m).len() ==> !seen(keys, #[trigger] firsts(keys, m)[g]),
        forall|g: int, h: int|
            0 <= g < h < firsts(keys, m).len() ==> firsts(keys, m)[g] < firsts(keys, m)[h],
    decreases m,
{
    if m > 0 {
        firsts_in_range(keys, (m - 1) as nat);
    }
}

/// Every vector equals one that occurs for the first time.
pub proof fn firsts_cover(keys: Seq<[i16; 14]>, m: nat, j: int) -> (g: int)
    requires
        0 <= j < m,
    ensures
        0 <= g < firsts(keys, m).len(),
        keys[firsts(keys, m)[g]]@ == keys[j]@,
    decreases m,
{
    if j < m - 1 {
        firsts_cover(keys, (m - 1) as nat, j)
    } else if seen(keys, j) {
        let i = choose|i: int| 0 <= i < j && (#[trigger] keys[i])@ == keys[j]@;
        firsts_cover(keys, (m - 1) as nat, i)
    } else {
        firsts(keys, m).len() - 1
    }
}

/// Vectors that occur for the first time differ.
pub proof fn firsts_differ(keys: Seq<[i16; 14]>, m: nat, g: int, h: int)
    requires
        0 <= g < firsts(keys, m).len(),
        0 <= h < firsts(keys, m).len(),
        g != h,
    ensures
        keys[firsts(keys, m)[g]]@ != keys[firsts(keys, m)[h]]@,
{
    firsts_in_range(keys, m);
    let a = firsts(keys, m)[g];
    let b = firsts(keys, m)[h];
    if keys[a]@ == keys[b]@ {
        if g < h {
            assert(!seen(keys, b));
            assert(keys[a]@ == keys[b]@);
        } else {
            assert(!seen(keys, a));
            assert(keys[b]@ == keys[a]@);
        }
    }
}

proof fn labelled_bounds(
    keys: Seq<[i16; 14]>,
    labels: Seq<bool>,
    key: Seq<i16>,
    m: nat,
)
    ensures
        0 <= labelled(keys, labels, key, true, m),
        0 <= labelled(keys, labels, key, false, m),
        labelled(keys, labels, key, true, m) + labelled(keys, labels, key, false, m) <= m,
    decreases m,
{
    if m > 0 {
        labelled_bounds(keys, labels, key, (m - 1) as nat);
    }
}

proof fn labelled_grows(
    keys: Seq<[i16; 14]>,
    labels: Seq<bool>,
    key: Seq<i16>,
    fraud: bool,
    m: nat,
    n: nat,
)
    requires
        m <= n,
    ensures
        labelled(keys, labels, key, fraud, m) <= labelled(keys, labels, key, fraud, n),
    decreases n,
{
    if m < n {
        labelled_grows(keys, labels, key, fraud, m, (n - 1) as nat);
    }
}

/// No vector occurs more often than 32 bits can count.
pub open spec fn is_countable(keys: Seq<[i16; 14]>, labels: Seq<bool>) -> bool {
    forall|i: int|
        0 <= i < keys.len() ==> #[trigger] multiplicity(keys, labels, i) <= u32::MAX
}

/// Among fewer than 2^32 vectors none occurs too often to be counted.
pub proof fn few_are_countable(keys: Seq<[i16; 14]>, labels: Seq<bool>)
    requires
        keys.len() <= u32::MAX,
    ensures
        is_countable(keys, labels),
{
    assert forall|i: int| 0 <= i < keys.len() implies #[trigger] multiplicity(keys, labels, i)
        <= u32::MAX by {
        labelled_bounds(keys, labels, keys[i]@, keys.len());
    }
}

/// Before vector `m` is counted, there is room for one more in either count.
proof fn counts_fit(keys: Seq<[i16; 14]>, labels: Seq<bool>, m: int)
    requires
        0 <= m < keys.len(),
        is_countable(keys, labels),
    ensures
        0 <= labelled(keys, labels, keys[m]@, true, m as nat) < u32::MAX,
        0 <= labelled(keys, labels, keys[m]@, false, m as nat) < u32::MAX,
{
    let key = keys[m]@;
    labelled_bounds(keys, labels, key, m as nat);
    labelled_grows(keys, labels, key, true, (m + 1) as nat, keys.len());
    labelled_grows(keys, labels, key, false, (m + 1) as nat, keys.len());
    assert(multiplicity(keys, labels, m) <= u32::MAX);
}

proof fn unseen_is_unlabelled(
    keys: Seq<[i16; 14]>,
    labels: Seq<bool>,
    key: Seq<i16>,
    fraud: bool,
    m: nat,
)
    requires
        forall|j: int| 0 <= j < m ==> (#[trigger] keys[j])@ != key,
    ensures
        labelled(keys, labels, key, fraud, m) == 0,
    decreases m,
{
    if m > 0 {
        unseen_is_unlabelled(keys, labels, key, fraud, (m - 1) as nat);
    }
}

/// The groups are the different vectors among the first `m`, with their counts.
spec fn grouped(groups: Seq<Group>, keys: Seq<[i16; 14]>, labels: Seq<bool>, m: nat) -> bool {
    &&& groups.len() == firsts(keys, m).len()
    &&& forall|g: int|
        #![trigger groups[g]]
        0 <= g < groups.len() ==> {
            let key = keys[firsts(keys, m)[g]]@;
            &&& groups[g].key@ == key
            &&& groups[g].fraud == labelled(keys, labels, key, true, m)
            &&& groups[g].legit == labelled(keys, labels, key, false, m)
        }
}

fn group(keys: &[[i16; 14]], labels: &[bool]) -> (r: Groups)
    requires
        is_countable(keys@, labels@),
        labels.len() >= keys.len(),
    ensures
        grouped(r.groups@, keys@, labels@, keys.len() as nat),
{
    let mut gs = Groups::new();
    for m in 0..keys.len()
        invariant
            is_countable(keys@, labels@),
            labels.len() >= keys.len(),
            gs.wf(),
            grouped(gs.groups@, keys@, labels@, m as nat),
    {
        let ghost before = gs.groups@;
        let ghost f = firsts(keys@, m as nat);
        let ghost now = keys@[m as int]@;
        proof {
            firsts_in_range(keys@, m as nat);
        }
        match gs.find(&keys[m]) {
            Some(g) => {
                proof {
                    assert(before[g as int].key@ == now);
                    assert(keys@[f[g as int]]@ == now);
                    assert(seen(keys@, m as int));
                    counts_fit(keys@, labels@, m as int);
                }
                gs.bump(g, labels[m]);
                proof {
                    assert forall|h: int|
                        #![trigger gs.groups@[h]]
                        0 <= h < gs.groups@.len() implies {
                        let key = keys@[firsts(keys@, (m + 1) as nat)[h]]@;
                        &&& gs.groups@[h].key@ == key
                        &&& gs.groups@[h].fraud == labelled(
                            keys@,
                            labels@,
                            key,
                            true,
                            (m + 1) as nat,
                        )
                        &&& gs.groups@[h].legit == labelled(
                            keys@,
                            labels@,
                            key,
                            false,
                            (m + 1) as nat,
                        )
                    } by {
                        assert(before[h].key@ == keys@[f[h]]@);
                        if h != g {
                            firsts_differ(keys@, m as nat, g as int, h);
                        }
                    }
                }
            },
            None => {
                proof {
                    assert forall|j: int| 0 <= j < m implies (#[trigger] keys@[j])@ != now by {
                        let g = firsts_cover(keys@, m as nat, j);
                        assert(before[g].key@ == keys@[j]@);
                    }
                    assert(!seen(keys@, m as int));
                    unseen_is_unlabelled(keys@, labels@, now, true, m as nat);
                    unseen_is_unlabelled(keys@, labels@, now, false, m as nat);
                }
                if labels[m] {
                    gs.add(keys[m], 1, 0);
                } else {
                    gs.add(keys[m], 0, 1);
                }
                proof {
                    let fs = firsts(keys@, (m + 1) as nat);
                    assert(fs == f.push(m as int));
                    assert forall|h: int|
                        #![trigger gs.groups@[h]]
                        0 <= h < gs.groups@.len() implies {
                        let key = keys@[fs[h]]@;
                        &&& gs.groups@[h].key@ == key
                        &&& gs.groups@[h].fraud == labelled(
                            keys@,
                            labels@,
                            key,
                            true,
                            (m + 1) as nat,
                        )
                        &&& gs.groups@[h].legit == labelled(
                            keys@,
                            labels@,
                            key,
                            false,
                            (m + 1) as nat,
                        )
                    } by {
                        if h < before.len() {
                            assert(gs.groups@[h] == before[h]);
                            assert(before[h].key@ == keys@[f[h]]@);
                            assert(keys@[f[h]]@ != now);
                        }
                    }
                }
            },
        }
    }
    gs
}

/// Counts repeated vectors: how many are different, how many of these occur with both labels,
/// and how often the most frequent one occurs.
pub fn duplicates(keys: &[[i16; 14]], labels: &[bool]) -> (d: Duplicates)
    requires
        is_countable(keys@, labels@),
        labels.len() >= keys.len(),
    ensures
        d.of(keys@, labels@),
{
    let gs = group(keys, labels);
    let ghost f = firsts(keys@, keys.len() as nat);
    let ghost mixes = |i: int| is_mixed(keys@, labels@, i);
    let mut mixed: usize = 0;
    let mut max_dups: u32 = 0;
    for g in 0..gs.groups.len()
        invariant
            is_countable(keys@, labels@),
            f == firsts(keys@, keys.len() as nat),
            mixes == (|i: int| is_mixed(keys@, labels@, i)),
            grouped(gs.groups@, keys@, labels@, keys.len() as nat),
            mixed == f.take(g as int).filter(mixes).len(),
            mixed <= g,
            forall|h: int|
                0 <= h < g ==> multiplicity(keys@, labels@, #[trigger] f[h]) <= max_dups,
            g == 0 ==> max_dups == 0,
            g > 0 ==> exists|h: int|
                0 <= h < g && multiplicity(keys@, labels@, #[trigger] f[h]) == max_dups,
    {
        let fr: u32 = gs.groups[g].fraud;
        let le: u32 = gs.groups[g].legit;
        proof {
            firsts_in_range(keys@, keys.len() as nat);
            labelled_bounds(keys@, labels@, keys@[f[g as int]]@, keys.len() as nat);
            assert(f.take(g + 1) =~= f.take(g as int).push(f[g as int]));
            f.take(g as int).lemma_filter_push(f[g as int], mixes);
            assert(multiplicity(keys@, labels@, f[g as int]) == fr + le);
        }
        if fr > 0 && le > 0 {
            mixed = mixed + 1;
        }
        if g == 0 || fr + le > max_dups {
            max_dups = fr + le;
            assert(multiplicity(keys@, labels@, f[g as int]) == max_dups);
        }
    }
    proof {
        assert(f.take(f.len() as int) =~= f);
        firsts_in_range(keys@, keys.len() as nat);
        assert forall|i: int| 0 <= i < keys.len() implies #[trigger] multiplicity(
            keys@,
            labels@,
            i,
        ) <= max_dups by {
            let g = firsts_cover(keys@, keys.len() as nat, i);
            assert(multiplicity(keys@, labels@, f[g]) == multiplicity(keys@, labels@, i));
        }
        if keys.len() > 0 {
            let g = firsts_cover(keys@, keys.len() as nat, 0);
            let h = choose|h: int|
                0 <= h < f.len() && multiplicity(keys@, labels@, #[trigger] f[h]) == max_dups;
            assert(multiplicity(keys@, labels@, f[h]) == max_dups);
        }
    }
    Duplicates { total: keys.len(), unique: gs.groups.len(), mixed, max_dups }
}

/// How many of the first `m` vectors equal one of the first `g` that occur for the first time.
spec fn covered(keys: Seq<[i16; 14]>, labels: Seq<bool>, m: nat, g: nat) -> int
    decreases g,
{
    if g == 0 {
        0
    } else {
        let key = keys[firsts(keys, keys.len())[g - 1]]@;
        covered(keys, labels, m, (g - 1) as nat) + labelled(keys, labels, key, true, m) + labelled(
            keys,
            labels,
            key,
            false,
            m,
        )
    }
}

proof fn nothing_covered(keys: Seq<[i16; 14]>, labels: Seq<bool>, g: nat)
    ensures
        covered(keys, labels, 0, g) == 0,
    decreases g,
{
    if g > 0 {
        nothing_covered(keys, labels, (g - 1) as nat);
    }
}

proof fn covered_step(keys: Seq<[i16; 14]>, labels: Seq<bool>, m: nat, g: nat, h: int)
    requires
        m < keys.len(),
        g <= firsts(keys, keys.len()).len(),
        0 <= h < firsts(keys, keys.len()).len(),
        keys[firsts(keys, keys.len())[h]]@ == keys[m as int]@,
    ensures
        covered(keys, labels, m + 1, g) == covered(keys, labels, m, g) + if h < g {
            1int
        } else {
            0
        },
    decreases g,
{
    if g > 0 {
        covered_step(keys, labels, m, (g - 1) as nat, h);
        if h != g - 1 {
            firsts_differ(keys, keys.len(), g - 1, h);
        }
    }
}

proof fn all_covered(keys: Seq<[i16; 14]>, labels: Seq<bool>, m: nat)
    requires
        m <= keys.len(),
    ensures
        covered(keys, labels, m, firsts(keys, keys.len()).len()) == m,
    decreases m,
{
    let g = firsts(keys, keys.len()).len();
    if m == 0 {
        nothing_covered(keys, labels, g);
    } else {
        all_covered(keys, labels, (m - 1) as nat);
        let h = firsts_cover(keys, keys.len(), m - 1);
        covered_step(keys, labels, (m - 1) as nat, g, h);
    }
}

/// How often the first `g` different vectors occur together.
pub open spec fn occurrences(keys: Seq<[i16; 14]>, labels: Seq<bool>, g: nat) -> int
    decreases g,
{
    if g == 0 {
        0
    } else {
        occurrences(keys, labels, (g - 1) as nat) + multiplicity(
            keys,
            labels,
            firsts(keys, keys.len())[g - 1],
        )
    }
}

proof fn occurrences_are_covered(keys: Seq<[i16; 14]>, labels: Seq<bool>, g: nat)
    ensures
        occurrences(keys, labels, g) == covered(keys, labels, keys.len(), g),
    decreases g,
{
    if g > 0 {
        occurrences_are_covered(keys, labels, (g - 1) as nat);
    }
}

/// The different vectors together occur as often as there are vectors.
pub proof fn multiplicities_add_up(keys: Seq<[i16; 14]>, labels: Seq<bool>)
    ensures
        occurrences(keys, labels, firsts(keys, keys.len()).len()) == keys.len(),
{
    occurrences_are_covered(keys, labels, firsts(keys, keys.len()).len());
    all_covered(keys, labels, keys.len());
}

/// There are no more mixed vectors than different ones, no more different ones than vectors,
/// and none occurs more often than there are vectors.
pub proof fn figures_are_ordered(d: Duplicates, keys: Seq<[i16; 14]>, labels: Seq<bool>)
    requires
        d.of(keys, labels),
    ensures
        d.mixed <= d.unique <= d.total,
        d.max_dups <= d.total,
        d.total > 0 ==> d.unique > 0,
{
    let f = firsts(keys, keys.len());
    f.lemma_filter_len(|i: int| is_mixed(keys, labels, i));
    firsts_in_range(keys, keys.len());
    if keys.len() > 0 {
        let i = choose|i: int|
            0 <= i < keys.len() && #[trigger] multiplicity(keys, labels, i) == d.max_dups;
        labelled_bounds(keys, labels, keys[i]@, keys.len());
        let g = firsts_cover(keys, keys.len(), 0);
    }
}

/// How often a vector occurs with a label, one by one.
pub proof fn labels_are_counted(
    keys: Seq<[i16; 14]>,
    labels: Seq<bool>,
    key: Seq<i16>,
    fraud: bool,
    m: nat,
)
    ensures
        labelled(keys, labels, key, fraud, m) == sums::total(
            |j: int|
                if keys[j]@ == key && labels[j] == fraud {
                    1
                } else {
                    0
                },
            m,
        ),
    decreases m,
{
    if m > 0 {
        labels_are_counted(keys, labels, key, fraud, (m - 1) as nat);
    }
}

proof fn occurrences_of(keys: Seq<[i16; 14]>, labels: Seq<bool>, key: Seq<i16>, m: nat)
    ensures
        labelled(keys, labels, key, true, m) + labelled(keys, labels, key, false, m) == sums::total(
            |j: int|
                if keys[j]@ == key {
                    1
                } else {
                    0
                },
            m,
        ),
    decreases m,
{
    if m > 0 {
        occurrences_of(keys, labels, key, (m - 1) as nat);
    }
}

/// A vector occurs as often as there are vectors equal to it, whatever their labels.
pub proof fn multiplicity_counts_equals(keys: Seq<[i16; 14]>, labels: Seq<bool>, i: int)
    ensures
        multiplicity(keys, labels, i) == sums::total(
            |j: int|
                if keys[j]@ == keys[i]@ {
                    1
                } else {
                    0
                },
            keys.len(),
        ),
{
    let key = keys[i]@;
    occurrences_of(keys, labels, key, keys.len());
    sums::total_of_equals(
        |j: int|
            if keys[j]@ == key {
                1int
            } else {
                0
            },
        |j: int|
            if keys[j]@ == keys[i]@ {
                1int
            } else {
                0
            },
        keys.len(),
    );
}

proof fn labelled_if_there(
    keys: Seq<[i16; 14]>,
    labels: Seq<bool>,
    key: Seq<i16>,
    fraud: bool,
    m: nat,
)
    ensures
        labelled(keys, labels, key, fraud, m) >= 0,
        labelled(keys, labels, key, fraud, m) > 0 <==> exists|j: int|
            0 <= j < m && (#[trigger] keys[j])@ == key && labels[j] == fraud,
    decreases m,
{
    if m > 0 {
        labelled_if_there(keys, labels, key, fraud, (m - 1) as nat);
        if keys[m - 1]@ == key && labels[m - 1] == fraud {
            assert(keys[m - 1]@ == key);
        }
    }
}

/// A vector is mixed exactly if it occurs as a fraud and occurs as none.
pub proof fn mixed_have_both_labels(keys: Seq<[i16; 14]>, labels: Seq<bool>, i: int)
    ensures
        is_mixed(keys, labels, i) <==> (exists|j: int|
            0 <= j < keys.len() && (#[trigger] keys[j])@ == keys[i]@ && labels[j]) && (exists|
            j: int,
        |
            0 <= j < keys.len() && (#[trigger] keys[j])@ == keys[i]@ && !labels[j]),
{
    labelled_if_there(keys, labels, keys[i]@, true, keys.len());
    labelled_if_there(keys, labels, keys[i]@, false, keys.len());
}

proof fn firsts_are_unseen(keys: Seq<[i16; 14]>, m: nat, i: int)
    requires
        0 <= i < m,
    ensures
        firsts(keys, m).contains(i) <==> !seen(keys, i),
    decreases m,
{
    let before = firsts(keys, (m - 1) as nat);
    let f = firsts(keys, m);
    firsts_in_range(keys, (m - 1) as nat);
    firsts_in_range(keys, m);
    if i < m - 1 {
        firsts_are_unseen(keys, (m - 1) as nat, i);
        if before.contains(i) {
            let g = choose|g: int| 0 <= g < before.len() && before[g] == i;
            assert(f[g] == i);
        }
        if f.contains(i) {
            let g = choose|g: int| 0 <= g < f.len() && f[g] == i;
            assert(before[g] == i);
        }
    } else if !seen(keys, i) {
        assert(f[f.len() - 1] == i);
    } else if f.contains(i) {
        let g = choose|g: int| 0 <= g < f.len() && f[g] == i;
        assert(f[g] < m - 1);
    }
}

/// A vector counts as different exactly if no earlier one equals it; these are counted once
/// each, in order.
pub proof fn different_vectors_occur_first(keys: Seq<[i16; 14]>, m: nat, i: int)
    requires
        0 <= i < m <= keys.len(),
    ensures
        firsts(keys, m).contains(i) <==> forall|j: int|
            0 <= j < i ==> (#[trigger] keys[j])@ != keys[i]@,
        forall|g: int| 0 <= g < firsts(keys, m).len() ==> 0 <= #[trigger] firsts(keys, m)[g] < m,
        forall|g: int, h: int|
            0 <= g < h < firsts(keys, m).len() ==> firsts(keys, m)[g] < firsts(keys, m)[h],
{
    firsts_in_range(keys, m);
    firsts_are_unseen(keys, m, i);
}

/// The figures on vectors in terms of these: all, the different ones, the mixed among them,
/// and how often the most frequent one occurs.
pub proof fn figures_in_full(d: Duplicates, keys: Seq<[i16; 14]>, labels: Seq<bool>)
    requires
        d.of(keys, labels),
    ensures
        d.total == keys.len(),
        d.unique == firsts(keys, keys.len()).len(),
        d.mixed == firsts(keys, keys.len()).filter(|i: int| is_mixed(keys, labels, i)).len(),
        forall|i: int|
            0 <= i < keys.len() ==> #[trigger] multiplicity(keys, labels, i) <= d.max_dups,
        keys.len() == 0 ==> d.max_dups == 0,
        keys.len() > 0 ==> exists|i: int|
            0 <= i < keys.len() && #[trigger] multiplicity(keys, labels, i) == d.max_dups,
{
}

} // verus!
