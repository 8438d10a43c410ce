//! Training of the clusters: what is drawn at random, and how the centroids move.

use vstd::prelude::*;
use crate::reorder;
use crate::reorder::counts;
use crate::sums;

verus! {

/// The state after `x` of a 64-bit xorshift generator.
pub open spec fn xorshift(x: u64) -> u64 {
    let a = x ^ (x << 13);
    let b = a ^ (a >> 7);
    b ^ (b << 17)
}

/// The state `i` steps after `x`.
pub open spec fn state_after(x: u64, i: nat) -> u64
    decreases i,
{
    if i == 0 {
        x
    } else {
        xorshift(state_after(x, (i - 1) as nat))
    }
}

/// A 64-bit xorshift generator.
pub struct Rng(pub u64);

impl Rng {
    /// Steps to the next state and returns it.
    pub fn next(&mut self) -> (x: u64)
        ensures
            x == xorshift(old(self).0),
            final(self).0 == x,
            ({
                let a = old(self).0 ^ (old(self).0 << 13);
                let b = a ^ (a >> 7);
                x == b ^ (b << 17)
            }),
    {
        let mut x: u64 = self.0;
        x = x ^ (x << 13);
        x = x ^ (x >> 7);
        x = x ^ (x << 17);
        self.0 = x;
        x
    }
}

proof fn shift_xor_keeps_apart(x: u64, y: u64)
    by (bit_vector)
    ensures
        x ^ (x << 13) == y ^ (y << 13) ==> x == y,
        x ^ (x >> 7) == y ^ (y >> 7) ==> x == y,
        x ^ (x << 17) == y ^ (y << 17) ==> x == y,
{
}

/// Different states have different successors.
pub proof fn xorshift_is_injective(x: u64, y: u64)
    requires
        x != y,
    ensures
        xorshift(x) != xorshift(y),
{
    let a = x ^ (x << 13);
    let b = y ^ (y << 13);
    let c = a ^ (a >> 7);
    let d = b ^ (b >> 7);
    shift_xor_keeps_apart(x, y);
    shift_xor_keeps_apart(a, b);
    shift_xor_keeps_apart(c, d);
}

/// A generator that does not start at zero never gets there.
pub proof fn never_zero(x: u64, i: nat)
    requires
        x != 0,
    ensures
        state_after(x, i) != 0,
    decreases i,
{
    if i > 0 {
        never_zero(x, (i - 1) as nat);
        xorshift_is_injective(state_after(x, (i - 1) as nat), 0);
        assert(xorshift(0) == 0) by (bit_vector);
    }
}

/// The state that training starts from.
pub const SEED: u64 = 0x9E37_79B9_7F4A_7C15;

/// The largest sample that clusters are trained on.
pub const MAX_SAMPLE: usize = 300_000;

/// One of `n` things, chosen by a state of the generator.
pub open spec fn pick(x: u64, n: int) -> int {
    (x as usize) as int % n
}

/// How many of `n` vectors are drawn.
pub open spec fn sample_size(n: nat) -> nat {
    if n < MAX_SAMPLE {
        n
    } else {
        MAX_SAMPLE as nat
    }
}

/// The vectors that are drawn from `n`, with repetitions.
pub open spec fn sampled(n: nat) -> Seq<int> {
    Seq::new(sample_size(n), |i: int| pick(state_after(SEED, (i + 1) as nat), n as int))
}

/// The vector in a sample that a state of the generator chooses.
pub open spec fn drawn(sample: Seq<usize>, x: u64) -> usize {
    sample[pick(x, sample.len() as int)]
}

/// How a centroid moves.
#[derive(Clone, Copy, Debug, PartialEq, Eq, Structural)]
pub enum Center {
    /// To the mean of that many members.
    Mean(u32),
    /// To a vector drawn anew, since the cluster has no members.
    Restart(usize),
}

/// How the first `m` centroids move, given the members of each cluster, and the state of the
/// generator after that.
pub open spec fn moves(members: Seq<int>, sample: Seq<usize>, state: u64, m: nat) -> (
    Seq<Center>,
    u64,
)
    decreases m,
{
    if m == 0 {
        (Seq::empty(), state)
    } else {
        let (before, x) = moves(members, sample, state, (m - 1) as nat);
        if members[m - 1] > 0 {
            (before.push(Center::Mean(members[m - 1] as u32)), x)
        } else {
            let y = xorshift(x);
            (before.push(Center::Restart(drawn(sample, y))), y)
        }
    }
}

/// The members of each of `k` clusters.
pub open spec fn memberships(assign: Seq<u32>, k: nat) -> Seq<int> {
    Seq::new(k, |c: int| reorder::members(assign, c, assign.len() as int))
}

/// A training: the sample that clusters are trained on, and the generator.
pub struct Training {
    pub sample: Vec<usize>,
    pub rng: Rng,
}

fn draw(rng: &mut Rng, sample: &Vec<usize>) -> (v: usize)
    requires
        sample.len() > 0,
    ensures
        final(rng).0 == xorshift(old(rng).0),
        v == drawn(sample@, final(rng).0),
{
    let x = rng.next();
    sample[(x as usize) % sample.len()]
}

impl Training {
    /// Draws a sample of `n` vectors and from it the vectors that `k` centroids start at.
    pub fn start(n: usize, k: usize) -> (r: (Training, Vec<usize>))
        requires
            n > 0 || k == 0,
        ensures
            r.0.sample@.map_values(|v: usize| v as int) == sampled(n as nat),
            n <= 300_000 ==> r.0.sample.len() == n,
            n > 300_000 ==> r.0.sample.len() == 300_000,
            r.1.len() == k,
            forall|c: int|
                0 <= c < k ==> #[trigger] r.1[c] == drawn(
                    r.0.sample@,
                    state_after(SEED, (sample_size(n as nat) + c + 1) as nat),
                ),
            r.0.rng.0 == state_after(SEED, sample_size(n as nat) + k as nat),
    {
        let mut rng = Rng(SEED);
        let size: usize = if n < MAX_SAMPLE {
            n
        } else {
            MAX_SAMPLE
        };
        let mut sample: Vec<usize> = Vec::with_capacity(size);
        for i in 0..size
            invariant
                size <= n,
                sample.len() == i,
                rng.0 == state_after(SEED, i as nat),
                forall|j: int|
                    0 <= j < i ==> #[trigger] sample@[j] == pick(
                        state_after(SEED, (j + 1) as nat),
                        n as int,
                    ),
        {
            let x = rng.next();
            sample.push((x as usize) % n);
        }
        assert(sample@.map_values(|v: usize| v as int) =~= sampled(n as nat));
        let mut points: Vec<usize> = Vec::with_capacity(k);
        for c in 0..k
            invariant
                sample.len() == size,
                size > 0 || k == 0,
                points.len() == c,
                rng.0 == state_after(SEED, (size + c) as nat),
                forall|d: int|
                    0 <= d < c ==> #[trigger] points@[d] == drawn(
                        sample@,
                        state_after(SEED, (size + d + 1) as nat),
                    ),
        {
            points.push(draw(&mut rng, &sample));
        }
        (Training { sample, rng }, points)
    }

    /// Tells how the centroids of `k` clusters move, given the cluster of every sampled vector.
    pub fn recenter(&mut self, assign: &[u32], k: usize) -> (centers: Vec<Center>)
        requires
            assign.len() <= u32::MAX,
            forall|i: int| 0 <= i < assign.len() ==> #[trigger] assign[i] < k,
            old(self).sample.len() > 0 || forall|c: int|
                0 <= c < k ==> #[trigger] memberships(assign@, k as nat)[c] > 0,
        ensures
            (centers@, final(self).rng.0) == moves(
                memberships(assign@, k as nat),
                old(self).sample@,
                old(self).rng.0,
                k as nat,
            ),
            final(self).sample@ == old(self).sample@,
    {
        let counts = counts(assign, k);
        let ghost members = memberships(assign@, k as nat);
        let ghost sample = old(self).sample@;
        let mut centers: Vec<Center> = Vec::with_capacity(k);
        for c in 0..k
            invariant
                counts.len() == k,
                forall|c: int| 0 <= c < k ==> #[trigger] counts[c] == members[c],
                members.len() == k,
                self.sample@ == sample,
                sample == old(self).sample@,
                sample.len() > 0 || forall|c: int| 0 <= c < k ==> #[trigger] members[c] > 0,
                (centers@, self.rng.0) == moves(members, sample, old(self).rng.0, c as nat),
        {
            assert(counts[c as int] == members[c as int]);
            if counts[c] > 0 {
                centers.push(Center::Mean(counts[c]));
            } else {
                centers.push(Center::Restart(draw(&mut self.rng, &self.sample)));
            }
        }
        centers
    }
}

/// Every cluster with members moves to their mean, every other one to a vector of the sample.
pub proof fn moves_fit_members(members: Seq<int>, sample: Seq<usize>, state: u64, m: nat)
    requires
        m <= members.len(),
        forall|c: int| 0 <= c < members.len() ==> 0 <= #[trigger] members[c] <= u32::MAX,
        sample.len() > 0,
    ensures
        moves(members, sample, state, m).0.len() == m,
        forall|c: int|
            #![trigger moves(members, sample, state, m).0[c]]
            0 <= c < m ==> match moves(members, sample, state, m).0[c] {
                Center::Mean(n) => n == members[c] && n > 0,
                Center::Restart(v) => members[c] == 0 && sample.contains(v),
            },
    decreases m,
{
    if m > 0 {
        moves_fit_members(members, sample, state, (m - 1) as nat);
        let (before, x) = moves(members, sample, state, (m - 1) as nat);
        let all = moves(members, sample, state, m).0;
        assert forall|c: int|
            #![trigger all[c]]
            0 <= c < m implies match all[c] {
            Center::Mean(n) => n == members[c] && n > 0,
            Center::Restart(v) => members[c] == 0 && sample.contains(v),
        } by {
            if c < m - 1 {
                assert(all[c] == before[c]);
            } else {
                drawn_is_sampled(sample, xorshift(x));
            }
        }
    }
}

/// Every vector that is drawn is one of those drawn from.
pub proof fn samples_are_vectors(n: nat)
    ensures
        sampled(n).len() == sample_size(n),
        forall|i: int| 0 <= i < sampled(n).len() ==> 0 <= #[trigger] sampled(n)[i] < n,
{
}

/// What a state of the generator chooses in a sample is in the sample.
pub proof fn drawn_is_sampled(sample: Seq<usize>, x: u64)
    requires
        sample.len() > 0,
    ensures
        sample.contains(drawn(sample, x)),
{
    let i = pick(x, sample.len() as int);
    assert(0 <= i < sample.len());
    assert(sample[i] == drawn(sample, x));
}

proof fn shifts_are_linear(x: u64, y: u64)
    by (bit_vector)
    ensures
        (x ^ y) ^ ((x ^ y) << 13) == (x ^ (x << 13)) ^ (y ^ (y << 13)),
        (x ^ y) ^ ((x ^ y) >> 7) == (x ^ (x >> 7)) ^ (y ^ (y >> 7)),
        (x ^ y) ^ ((x ^ y) << 17) == (x ^ (x << 17)) ^ (y ^ (y << 17)),
{
}

/// The successor of a state is that of its parts: bits never carry over into each other. With
/// the successors of single bits this tells those of all states.
pub proof fn xorshift_is_linear(x: u64, y: u64)
    ensures
        xorshift(x ^ y) == xorshift(x) ^ xorshift(y),
{
    let a = x ^ (x << 13);
    let b = y ^ (y << 13);
    let c = a ^ (a >> 7);
    let d = b ^ (b >> 7);
    shifts_are_linear(x, y);
    shifts_are_linear(a, b);
    shifts_are_linear(c, d);
}

/// States follow each other by the generator's step.
pub proof fn states_follow_each_other(x: u64, i: nat)
    ensures
        state_after(x, 0) == x,
        state_after(x, i + 1) == xorshift(state_after(x, i)),
{
}

/// What a state picks is its remainder.
pub proof fn picks_are_remainders(x: u64, n: int)
    requires
        n > 0,
    ensures
        0 <= pick(x, n) < n,
        x <= usize::MAX ==> pick(x, n) == x as int % n,
{
}

/// A sample has as many entries as there are vectors, but no more than 300,000; entry `i` is
/// picked by state `i + 1` of the generator, counted from its seed.
pub proof fn samples_are_picked_in_order(n: nat, i: int)
    requires
        0 <= i < sampled(n).len(),
    ensures
        n <= 300_000 ==> sampled(n).len() == n,
        n > 300_000 ==> sampled(n).len() == 300_000,
        sampled(n)[i] == pick(state_after(0x9E37_79B9_7F4A_7C15, (i + 1) as nat), n as int),
{
}

/// What is drawn from a sample is the entry that the state picks.
pub proof fn draws_are_picks(sample: Seq<usize>, x: u64)
    requires
        sample.len() > 0,
        x <= usize::MAX,
    ensures
        drawn(sample, x) == sample[x as int % sample.len() as int],
{
}

/// One more cluster: with members it moves to the mean of that many and the generator stays;
/// without, the generator takes a step and picks a vector of the sample for it.
pub proof fn moves_go_cluster_by_cluster(members: Seq<int>, sample: Seq<usize>, state: u64, m: nat)
    requires
        m < members.len(),
        0 <= members[m as int] <= u32::MAX,
    ensures
        ({
            let (before, x) = moves(members, sample, state, m);
            let (after, y) = moves(members, sample, state, m + 1);
            &&& moves(members, sample, state, 0) == (Seq::<Center>::empty(), state)
            &&& members[m as int] > 0 ==> y == x && after.len() == before.len() + 1 && after.take(
                before.len() as int,
            ) == before && after.last() == Center::Mean(members[m as int] as u32)
            &&& members[m as int] == 0 ==> y == xorshift(x) && after.len() == before.len() + 1
                && after.take(before.len() as int) == before && after.last() == Center::Restart(
                sample[pick(y, sample.len() as int)],
            )
        }),
{
    let (before, _) = moves(members, sample, state, m);
    let (after, _) = moves(members, sample, state, m + 1);
    assert(after.take(before.len() as int) =~= before);
}

/// A cluster has as many members as vectors are assigned to it.
pub proof fn memberships_are_counted(assign: Seq<u32>, k: nat, c: int)
    requires
        0 <= c < k,
    ensures
        memberships(assign, k).len() == k,
        memberships(assign, k)[c] == sums::total(
            |i: int|
                if assign[i] == c {
                    1
                } else {
                    0
                },
            assign.len(),
        ),
{
    reorder::members_are_counted(assign, c, assign.len());
}

} // verus!
