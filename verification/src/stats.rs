//! Figures on decisions and on the reference data.

use vstd::prelude::*;
use crate::sums;

verus! {

/// How many of the first `m` outcomes, each a decision and the expected one, are this one.
pub open spec fn outcomes(results: Seq<(bool, bool)>, what: (bool, bool), m: int) -> int
    decreases m,
{
    if m <= 0 {
        0
    } else {
        outcomes(results, what, m - 1) + if results[m - 1] == what {
            1int
        } else {
            0
        }
    }
}

/// Decisions against what was expected. A fraud is what is denied, so a true positive is a
/// fraud that was denied.
#[derive(Clone, Copy, Debug, PartialEq, Eq, Structural)]
pub struct Confusion {
    /// Frauds denied.
    pub tp: u32,
    /// Legitimate transactions approved.
    pub tn: u32,
    /// Legitimate transactions denied.
    pub fp: u32,
    /// Frauds approved.
    pub fn_: u32,
}

proof fn outcomes_bounds(results: Seq<(bool, bool)>, m: int)
    requires
        0 <= m,
    ensures
        outcomes(results, (true, true), m) + outcomes(results, (false, false), m) + outcomes(
            results,
            (true, false),
            m,
        ) + outcomes(results, (false, true), m) == m,
        0 <= outcomes(results, (true, true), m),
        0 <= outcomes(results, (false, false), m),
        0 <= outcomes(results, (true, false), m),
        0 <= outcomes(results, (false, true), m),
    decreases m,
{
    if m > 0 {
        outcomes_bounds(results, m - 1);
        let r = results[m - 1];
        assert(r == (r.0, r.1));
    }
}

impl Confusion {
    /// Every outcome is counted once.
    pub open spec fn of(self, results: Seq<(bool, bool)>) -> bool {
        let n = results.len() as int;
        &&& self.tp == outcomes(results, (false, false), n)
        &&& self.tn == outcomes(results, (true, true), n)
        &&& self.fp == outcomes(results, (false, true), n)
        &&& self.fn_ == outcomes(results, (true, false), n)
    }

    /// Counts outcomes: for each transaction whether it was approved and whether it should
    /// have been.
    pub fn tally(results: &[(bool, bool)]) -> (c: Confusion)
        requires
            results.len() <= u32::MAX,
        ensures
            c.of(results@),
            c.tp == outcomes(results@, (false, false), results.len() as int),
            c.tn == outcomes(results@, (true, true), results.len() as int),
            c.fp == outcomes(results@, (false, true), results.len() as int),
            c.fn_ == outcomes(results@, (true, false), results.len() as int),
            c.tp + c.tn + c.fp + c.fn_ == results.len(),
    {
        let mut c = Confusion { tp: 0, tn: 0, fp: 0, fn_: 0 };
        for i in 0..results.len()
            invariant
                results.len() <= u32::MAX,
                c.tp == outcomes(results@, (false, false), i as int),
                c.tn == outcomes(results@, (true, true), i as int),
                c.fp == outcomes(results@, (false, true), i as int),
                c.fn_ == outcomes(results@, (true, false), i as int),
        {
            proof {
                outcomes_bounds(results@, i as int);
            }
            let (approved, expected) = results[i];
            if approved {
                if expected {
                    c.tn = c.tn + 1;
                } else {
                    c.fn_ = c.fn_ + 1;
                }
            } else {
                if expected {
                    c.fp = c.fp + 1;
                } else {
                    c.tp = c.tp + 1;
                }
            }
        }
        proof {
            outcomes_bounds(results@, results.len() as int);
        }
        c
    }

    /// All outcomes.
    pub fn total(&self) -> (n: u64)
        ensures
            n == self.tp + self.tn + self.fp + self.fn_,
    {
        self.tp as u64 + self.tn as u64 + self.fp as u64 + self.fn_ as u64
    }

    /// Wrong decisions.
    pub fn failures(&self) -> (n: u64)
        ensures
            n == self.fp + self.fn_,
    {
        self.fp as u64 + self.fn_ as u64
    }

    /// Wrong decisions, an approved fraud counting three times.
    pub fn weighted(&self) -> (n: u64)
        ensures
            n == self.fp + 3 * self.fn_,
    {
        self.fp as u64 + 3 * self.fn_ as u64
    }
}

/// The share of wrong decisions, in hundredths, above which detection counts as failed.
pub const MAX_FAILURES: u64 = 15;

/// More than that share of the decisions are wrong.
pub open spec fn is_failed(failures: int, total: int) -> bool {
    100 * failures > MAX_FAILURES * total
}

impl Confusion {
    /// Tells whether too many decisions are wrong for detection to be scored.
    pub fn failed(&self) -> (yes: bool)
        ensures
            yes == is_failed(self.fp + self.fn_, self.tp + self.tn + self.fp + self.fn_),
            yes <==> 100 * (self.fp + self.fn_) > 15 * (self.tp + self.tn + self.fp + self.fn_),
    {
        100 * self.failures() > MAX_FAILURES * self.total()
    }
}

/// A query that was decided wrongly: its number, the frauds among its neighbours, and whether
/// it should have been approved.
pub open spec fn wrong(
    results: Seq<(bool, u32)>,
    expected: Seq<bool>,
    m: int,
) -> Seq<(usize, u32, bool)>
    decreases m,
{
    if m <= 0 {
        Seq::empty()
    } else {
        let before = wrong(results, expected, m - 1);
        if results[m - 1].0 != expected[m - 1] {
            before.push(((m - 1) as usize, results[m - 1].1, expected[m - 1]))
        } else {
            before
        }
    }
}

/// Lists the queries that were decided wrongly.
pub fn misses(results: &[(bool, u32)], expected: &[bool]) -> (out: Vec<(usize, u32, bool)>)
    requires
        results.len() == expected.len(),
    ensures
        out@ == wrong(results@, expected@, results.len() as int),
{
    let mut out: Vec<(usize, u32, bool)> = Vec::new();
    for i in 0..results.len()
        invariant
            results.len() == expected.len(),
            out@ == wrong(results@, expected@, i as int),
    {
        if results[i].0 != expected[i] {
            out.push((i, results[i].1, expected[i]));
        }
    }
    out
}

/// Decisions with what was expected of each.
pub open spec fn paired(results: Seq<(bool, u32)>, expected: Seq<bool>) -> Seq<(bool, bool)> {
    Seq::new(results.len(), |i: int| (results[i].0, expected[i]))
}

proof fn wrong_are_outcomes(results: Seq<(bool, u32)>, expected: Seq<bool>, m: int)
    requires
        0 <= m <= results.len(),
    ensures
        wrong(results, expected, m).len() == outcomes(
            paired(results, expected),
            (false, true),
            m,
        ) + outcomes(paired(results, expected), (true, false), m),
    decreases m,
{
    if m > 0 {
        wrong_are_outcomes(results, expected, m - 1);
        let r = paired(results, expected)[m - 1];
        assert(r == (results[m - 1].0, expected[m - 1]));
    }
}

/// As many queries are listed as decided wrongly as there are false positives and false
/// negatives.
pub proof fn misses_are_failures(c: Confusion, results: Seq<(bool, u32)>, expected: Seq<bool>)
    requires
        c.of(paired(results, expected)),
    ensures
        wrong(results, expected, results.len() as int).len() == c.fp + c.fn_,
{
    wrong_are_outcomes(results, expected, results.len() as int);
}

/// How many outcomes are of one sort, one by one.
pub proof fn outcomes_are_counted(results: Seq<(bool, bool)>, what: (bool, bool), m: nat)
    ensures
        outcomes(results, what, m as int) == sums::total(
            |i: int|
                if results[i].0 == what.0 && results[i].1 == what.1 {
                    1
                } else {
                    0
                },
            m,
        ),
    decreases m,
{
    if m > 0 {
        outcomes_are_counted(results, what, (m - 1) as nat);
        let r = results[m - 1];
        assert(r == (r.0, r.1) && what == (what.0, what.1));
    }
}

/// Exactly the queries whose decision is not the expected one are listed, in order, each with
/// its number, its frauds and what was expected.
pub proof fn wrong_decisions_are_listed(results: Seq<(bool, u32)>, expected: Seq<bool>, m: int)
    requires
        0 <= m <= results.len(),
        m <= expected.len(),
        m <= usize::MAX,
    ensures
        ({
            let w = wrong(results, expected, m);
            &&& forall|j: int|
                #![trigger w[j]]
                0 <= j < w.len() ==> w[j].0 < m && results[w[j].0 as int].0
                    != expected[w[j].0 as int] && w[j].1 == results[w[j].0 as int].1 && w[j].2
                    == expected[w[j].0 as int]
            &&& forall|j: int, k: int| 0 <= j < k < w.len() ==> w[j].0 < w[k].0
            &&& forall|i: int|
                #![trigger results[i]]
                0 <= i < m && results[i].0 != expected[i] ==> exists|j: int|
                    0 <= j < w.len() && (#[trigger] w[j]).0 == i
        }),
    decreases m,
{
    if m > 0 {
        wrong_decisions_are_listed(results, expected, m - 1);
        let before = wrong(results, expected, m - 1);
        let w = wrong(results, expected, m);
        if results[m - 1].0 != expected[m - 1] {
            assert(w[w.len() - 1].0 == m - 1);
        }
        assert forall|i: int|
            #![trigger results[i]]
            0 <= i < m && results[i].0 != expected[i] implies exists|j: int|
            0 <= j < w.len() && (#[trigger] w[j]).0 == i by {
            if i < m - 1 {
                let j = choose|j: int| 0 <= j < before.len() && (#[trigger] before[j]).0 == i;
                assert(w[j].0 == i);
            }
        }
    }
}

} // verus!
