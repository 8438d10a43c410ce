//! The load balancer: which backend gets a connection, and how long to wait for it.

use vstd::prelude::*;

verus! {

/// Deals connections out to the backends in turn.
#[derive(Clone, Copy, Debug, PartialEq, Eq, Structural)]
pub struct RoundRobin {
    pub dealt: usize,
}

impl RoundRobin {
    /// No connection dealt out yet.
    pub fn new() -> (r: RoundRobin)
        ensures
            r.dealt == 0,
    {
        RoundRobin { dealt: 0 }
    }

    /// The backend, out of `n`, that gets the next connection.
    pub fn next(&mut self, n: usize) -> (backend: usize)
        requires
            n > 0,
        ensures
            backend == backend_of(old(self).dealt as int, n as int),
            backend < n,
            backend == old(self).dealt as int % n as int,
            final(self).dealt == old(self).dealt + 1 || (old(self).dealt == usize::MAX
                && final(self).dealt == 0),
            final(self).dealt == old(self).dealt.wrapping_add(1),
    {
        let backend: usize = self.dealt % n;
        self.dealt = self.dealt.wrapping_add(1);
        backend
    }
}

/// The backend of connection `i`, counted from 0, out of `n`.
pub open spec fn backend_of(i: int, n: int) -> int {
    i % n
}

/// Of `n` connections in a row every backend gets exactly one, unless the count of connections
/// starts over in between.
pub proof fn turns_are_fair(start: int, n: int, backend: int)
    requires
        0 <= start,
        start + n - 1 <= usize::MAX,
        0 <= backend < n,
    ensures
        exists|i: int|
            start <= i < start + n && #[trigger] backend_of(i, n) == backend,
        forall|i: int, j: int|
            start <= i < start + n && start <= j < start + n && #[trigger] backend_of(i, n)
                == #[trigger] backend_of(j, n) ==> i == j,
{
    let r = start % n;
    let i = start + (backend - r) + if backend < r {
        n
    } else {
        0
    };
    assert(start <= i < start + n && backend_of(i, n) == backend) by {
        vstd::arithmetic::div_mod::lemma_fundamental_div_mod(start, n);
        let q = start / n + if backend < r {
            1int
        } else {
            0
        };
        assert(i == n * q + backend) by (nonlinear_arith)
            requires
                start == n * (start / n) + r,
                i == start + (backend - r) + if backend < r {
                    n
                } else {
                    0
                },
                q == start / n + if backend < r {
                    1int
                } else {
                    0
                },
        ;
        vstd::arithmetic::div_mod::lemma_fundamental_div_mod_converse(i, n, q, backend);
        assert(0 <= r < n);
    }
    assert forall|i: int, j: int|
        start <= i < start + n && start <= j < start + n && #[trigger] backend_of(i, n)
            == #[trigger] backend_of(j, n) implies i == j by {
        let a = i / n;
        let b = j / n;
        let r = i % n;
        vstd::arithmetic::div_mod::lemma_fundamental_div_mod(i, n);
        vstd::arithmetic::div_mod::lemma_fundamental_div_mod(j, n);
        assert(i - j == n * (a - b)) by (nonlinear_arith)
            requires
                i == n * a + r,
                j == n * b + r,
        ;
        if a > b {
            assert(n * (a - b) >= n) by (nonlinear_arith)
                requires
                    a > b,
                    n > 0,
            ;
        } else if a < b {
            assert(n * (a - b) <= -n) by (nonlinear_arith)
                requires
                    a < b,
                    n > 0,
            ;
        } else {
            assert(n * (a - b) == 0) by (nonlinear_arith)
                requires
                    a == b,
            ;
        }
    }
}

/// How often a backend is tried.
pub const ATTEMPTS: u32 = 200;

/// Milliseconds between two attempts.
pub const PAUSE_MILLIS: u64 = 50;

/// What follows an attempt to connect.
#[derive(Clone, Copy, Debug, PartialEq, Eq, Structural)]
pub enum Retry {
    /// Use the connection.
    Connected,
    /// Wait that many milliseconds and try again.
    Again(u64),
    /// Wait that many milliseconds and give up.
    GiveUp(u64),
}

/// Tells what follows attempt number `attempt`, counted from 1.
pub fn after_attempt(attempt: u32, connected: bool) -> (r: Retry)
    ensures
        r == if connected {
            Retry::Connected
        } else if attempt < ATTEMPTS {
            Retry::Again(PAUSE_MILLIS)
        } else {
            Retry::GiveUp(PAUSE_MILLIS)
        },
        connected <==> r is Connected,
        !connected && attempt < 200 <==> r == Retry::Again(50),
        !connected && attempt >= 200 <==> r == Retry::GiveUp(50),
{
    if connected {
        Retry::Connected
    } else if attempt < ATTEMPTS {
        Retry::Again(PAUSE_MILLIS)
    } else {
        Retry::GiveUp(PAUSE_MILLIS)
    }
}

/// The first connection goes to the first backend, and every other one to the backend behind
/// that of the connection before it, or to the first again behind the last.
pub proof fn backends_follow_each_other(i: int, n: int)
    requires
        0 <= i,
        n > 0,
    ensures
        0 <= backend_of(i, n) < n,
        backend_of(0, n) == 0,
        backend_of(i, n) < n - 1 ==> backend_of(i + 1, n) == backend_of(i, n) + 1,
        backend_of(i, n) == n - 1 ==> backend_of(i + 1, n) == 0,
{
    let r = i % n;
    let q = i / n;
    vstd::arithmetic::div_mod::lemma_fundamental_div_mod(i, n);
    vstd::arithmetic::div_mod::lemma_small_mod(0, n as nat);
    if r < n - 1 {
        assert(i + 1 == q * n + (r + 1)) by (nonlinear_arith)
            requires
                i == n * q + r,
        ;
        vstd::arithmetic::div_mod::lemma_fundamental_div_mod_converse(i + 1, n, q, r + 1);
    } else {
        assert(i + 1 == (q + 1) * n + 0) by (nonlinear_arith)
            requires
                i == n * q + r,
                r == n - 1,
        ;
        vstd::arithmetic::div_mod::lemma_fundamental_div_mod_converse(i + 1, n, q + 1, 0);
    }
}

} // verus!
