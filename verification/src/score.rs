//! From quantised features to a decision.

use vstd::prelude::*;
use crate::blob;
use crate::consts::{DIM, PAD};
use crate::index;
use crate::index::{approved, Index};
use crate::neighbors;
use crate::probe;
use crate::vectorize;
use crate::vectorize::quantize;

verus! {

/// The row that features are quantised to once they are scaled and rounded.
pub open spec fn row_of(scaled: Seq<i64>) -> Seq<i16> {
    Seq::new(
        PAD as nat,
        |i: int|
            if i < DIM {
                vectorize::saturated(scaled[i] as int)
            } else {
                0
            },
    )
}

/// The candidates that are compared with a transaction.
pub open spec fn compared(
    x: blob::Blob,
    keys: Seq<u32>,
    scaled: Seq<i64>,
    nprobe: nat,
) -> Seq<neighbors::Candidate> {
    index::scan_clusters(x, row_of(scaled), probe::probed(keys, nprobe))
}

/// Decides on a transaction, given the distances `keys` of its features to all centroids and
/// the features, scaled and rounded. Returns whether it is approved and how many of its
/// neighbours are frauds; `None` if the index cannot be searched.
pub fn score(index: &Index<'_>, keys: &[u32], scaled: &[i64; 14], nprobe: usize) -> (r: Option<
    (bool, u32),
>)
    ensures
        r is Some <==> {
            &&& blob::well_formed(index@)
            &&& keys.len() == index.num_clusters
            &&& probe::can_probe(keys@, nprobe as nat)
            &&& index::searchable(index@, probe::probed(keys@, nprobe as nat))
        },
        r matches Some((yes, frauds)) ==> {
            &&& frauds == neighbors::fraud_votes(
                compared(index@, keys@, scaled@, nprobe as nat),
            )
            &&& frauds <= neighbors::NEIGHBORS
            &&& yes == index::is_approved(frauds as int)
            &&& yes <==> frauds <= 2
        },
{
    let q = quantize(scaled);
    assert(q@ =~= row_of(scaled@));
    match index.checked_fraud_score(keys, &q, nprobe) {
        Some(frauds) => Some((approved(frauds), frauds)),
        None => None,
    }
}

/// A transaction is approved exactly if at most two of its neighbours are frauds.
pub proof fn two_frauds_are_tolerated(frauds: int)
    ensures
        index::is_approved(frauds) <==> frauds <= 2,
{
}

/// The row of features: each as it is, or the nearest end of the range of 16 bits, and two zeros
/// behind them.
pub proof fn rows_hold_the_features(scaled: Seq<i64>, i: int)
    requires
        0 <= i < 14,
    ensures
        row_of(scaled).len() == 16,
        -32768 <= scaled[i] <= 32767 ==> row_of(scaled)[i] == scaled[i],
        scaled[i] > 32767 ==> row_of(scaled)[i] == 32767,
        scaled[i] < -32768 ==> row_of(scaled)[i] == -32768,
        row_of(scaled)[14] == 0,
        row_of(scaled)[15] == 0,
{
}

/// A transaction is compared with the vectors of the probed clusters, cluster by cluster.
pub proof fn compared_with_probed_clusters(
    x: blob::Blob,
    keys: Seq<u32>,
    scaled: Seq<i64>,
    nprobe: nat,
)
    ensures
        compared(x, keys, scaled, nprobe) == index::scan_clusters(
            x,
            row_of(scaled),
            probe::probed(keys, nprobe),
        ),
{
}

} // verus!
