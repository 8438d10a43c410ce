//! Sums over the first integers and over some of them.

use vstd::prelude::*;

verus! {

/// The sum of `h` over the integers from 0 up to but without `n`.
pub open spec fn total(h: spec_fn(int) -> int, n: nat) -> int
    decreases n,
{
    if n == 0 {
        0
    } else {
        total(h, (n - 1) as nat) + h(n - 1)
    }
}

/// What `h` gives for the members of `s`, and 0 for everything else.
pub open spec fn masked(s: Seq<int>, h: spec_fn(int) -> int) -> spec_fn(int) -> int {
    |p: int|
        if s.contains(p) {
            h(p)
        } else {
            0
        }
}

/// What `h` gives for the entries of `s`.
pub open spec fn along(s: Seq<int>, h: spec_fn(int) -> int) -> spec_fn(int) -> int {
    |j: int| h(s[j])
}

/// No entry of `s` occurs twice, and all are below `n`.
pub open spec fn is_selection(s: Seq<int>, n: nat) -> bool {
    &&& forall|j: int| 0 <= j < s.len() ==> 0 <= #[trigger] s[j] < n
    &&& s.no_duplicates()
}

/// Functions that agree have the same sum.
pub proof fn total_of_equals(a: spec_fn(int) -> int, b: spec_fn(int) -> int, n: nat)
    requires
        forall|p: int| 0 <= p < n ==> #[trigger] a(p) == b(p),
    ensures
        total(a, n) == total(b, n),
    decreases n,
{
    if n > 0 {
        total_of_equals(a, b, (n - 1) as nat);
        assert(a(n - 1) == b(n - 1));
    }
}

proof fn one_more(
    a: spec_fn(int) -> int,
    b: spec_fn(int) -> int,
    v: int,
    x: int,
    n: nat,
)
    requires
        0 <= v,
        forall|p: int|
            0 <= p < n ==> #[trigger] a(p) == b(p) + if p == v {
                x
            } else {
                0
            },
    ensures
        total(a, n) == total(b, n) + if v < n {
            x
        } else {
            0
        },
    decreases n,
{
    if n > 0 {
        one_more(a, b, v, x, (n - 1) as nat);
        assert(a(n - 1) == b(n - 1) + if n - 1 == v {
            x
        } else {
            0
        });
    }
}

/// Summing along a selection is summing over its members.
pub proof fn total_along_selection(s: Seq<int>, h: spec_fn(int) -> int, n: nat)
    requires
        is_selection(s, n),
    ensures
        total(along(s, h), s.len()) == total(masked(s, h), n),
    decreases s.len(),
{
    if s.len() == 0 {
        total_of_zeros(masked(s, h), n);
    } else {
        let t = s.drop_last();
        let v = s.last();
        assert forall|j: int| 0 <= j < t.len() implies 0 <= #[trigger] t[j] < n by {
            assert(t[j] == s[j]);
        }
        total_along_selection(t, h, n);
        total_of_equals(along(s, h), along(t, h), t.len());
        assert(0 <= s[s.len() - 1] < n);
        assert forall|p: int| 0 <= p < n implies #[trigger] masked(s, h)(p) == masked(t, h)(p) + if p
            == v {
            h(v)
        } else {
            0
        } by {
            if s.contains(p) && p != v {
                let j = choose|j: int| 0 <= j < s.len() && s[j] == p;
                assert(t[j] == p);
            }
            if t.contains(p) {
                let j = choose|j: int| 0 <= j < t.len() && t[j] == p;
                assert(s[j] == p);
            }
            if p == v {
                assert(s[s.len() - 1] == p);
            }
        }
        one_more(masked(s, h), masked(t, h), v, h(v), n);
    }
}

proof fn total_of_zeros(h: spec_fn(int) -> int, n: nat)
    requires
        forall|p: int| 0 <= p < n ==> #[trigger] h(p) == 0,
    ensures
        total(h, n) == 0,
    decreases n,
{
    if n > 0 {
        total_of_zeros(h, (n - 1) as nat);
        assert(h(n - 1) == 0);
    }
}

/// A selection of `n` out of `n` selects everything.
pub proof fn full_selection(s: Seq<int>, n: nat)
    requires
        is_selection(s, n),
        s.len() == n,
    ensures
        forall|p: int| 0 <= p < n ==> s.contains(p),
{
    let one = |p: int| 1int;
    total_along_selection(s, one, n);
    total_of_ones(along(s, one), n);
    total_of_ones(one, n);
    rest_is_zero(s, one, n);
    assert forall|p: int| 0 <= p < n implies s.contains(p) by {
        if !s.contains(p) {
            assert(one(p) == 0);
        }
    }
}

proof fn total_of_ones(h: spec_fn(int) -> int, n: nat)
    requires
        forall|p: int| 0 <= p < n ==> #[trigger] h(p) == 1,
    ensures
        total(h, n) == n,
    decreases n,
{
    if n > 0 {
        total_of_ones(h, (n - 1) as nat);
        assert(h(n - 1) == 1);
    }
}

/// The members of a selection make up no more than everything does; if they make up everything,
/// what is not selected adds nothing.
pub proof fn rest_is_zero(s: Seq<int>, h: spec_fn(int) -> int, n: nat)
    requires
        forall|p: int| 0 <= p < n ==> 0 <= #[trigger] h(p),
    ensures
        total(masked(s, h), n) <= total(h, n),
        total(masked(s, h), n) == total(h, n) ==> forall|p: int|
            0 <= p < n && !s.contains(p) ==> #[trigger] h(p) == 0,
    decreases n,
{
    if n > 0 {
        rest_is_zero(s, h, (n - 1) as nat);
        assert(0 <= h(n - 1));
        assert(0 <= masked(s, h)(n - 1) <= h(n - 1));
    }
}

/// One more integer adds what `h` gives for it, and nothing adds up to 0.
pub proof fn total_grows(h: spec_fn(int) -> int, n: nat)
    ensures
        total(h, 0) == 0,
        total(h, n + 1) == total(h, n) + h(n as int),
{
}

} // verus!
