use crate::circle::advance_seq;
use crate::order::{lemma_lex_greater_trans, lex_cmp};
use std::cmp::Ordering;
use vstd::prelude::*;

verus! {

/// The state reached after `t` steps from `x0`.
pub open spec fn orbit(x0: Seq<u8>, t: nat) -> Seq<u8>
    decreases t,
{
    if t == 0 {
        x0
    } else {
        advance_seq(orbit(x0, (t - 1) as nat))
    }
}

/// The state seen at step `s` comes back for the first time `d` steps later.
pub open spec fn first_return(x0: Seq<u8>, s: nat, d: nat) -> bool {
    &&& d > 0
    &&& orbit(x0, s + d) == orbit(x0, s)
    &&& forall|u: nat| 0 < u < d ==> #[trigger] orbit(x0, s + u) != orbit(x0, s)
}

/// `d` is the first return time of some state on the orbit of `x0`.
pub open spec fn detected(x0: Seq<u8>, d: nat) -> bool {
    exists|s: nat| first_return(x0, s, d)
}

/// Equal states stay equal after the same number of further steps.
pub proof fn lemma_orbit_shift(x0: Seq<u8>, a: nat, b: nat, k: nat)
    requires
        orbit(x0, a) == orbit(x0, b),
    ensures
        orbit(x0, a + k) == orbit(x0, b + k),
    decreases k,
{
    if k > 0 {
        lemma_orbit_shift(x0, a, b, (k - 1) as nat);
        assert(orbit(x0, a + k) == advance_seq(orbit(x0, (a + k - 1) as nat)));
        assert(orbit(x0, b + k) == advance_seq(orbit(x0, (b + k - 1) as nat)));
    }
}

/// Once the state at step `s` returns after `d` steps, every later state
/// returns after any multiple of `d` steps.
pub proof fn lemma_orbit_periodic(x0: Seq<u8>, s: nat, d: nat, n: nat, c: nat)
    requires
        orbit(x0, s + d) == orbit(x0, s),
        s <= n,
    ensures
        orbit(x0, n + c * d) == orbit(x0, n),
    decreases c,
{
    if c > 0 {
        lemma_orbit_periodic(x0, s, d, n, (c - 1) as nat);
        let m = (n + (c - 1) * d) as nat;
        assert(m >= s) by (nonlinear_arith)
            requires m == n + (c - 1) * d, n >= s, c >= 1, d >= 0;
        lemma_orbit_shift(x0, s + d, s, (m - s) as nat);
        assert(n + c * d == m + d) by (nonlinear_arith)
            requires m == n + (c - 1) * d, c >= 1;
        assert(orbit(x0, m + d) == orbit(x0, m));
        assert(orbit(x0, m) == orbit(x0, n));
    } else {
        assert(n + c * d == n) by (nonlinear_arith)
            requires c == 0;
    }
}

proof fn lemma_return_le(x0: Seq<u8>, s: nat, d: nat, q: nat, p: nat)
    requires
        first_return(x0, s, d),
        first_return(x0, q, p),
    ensures
        d <= p,
{
    let m = s + q * d;
    assert(m >= q) by (nonlinear_arith)
        requires m == s + q * d, d >= 1;
    lemma_orbit_periodic(x0, s, d, s, q);
    lemma_orbit_periodic(x0, q, p, m, 1);
    assert(m + 1 * p == (s + p) + q * d) by (nonlinear_arith)
        requires m == s + q * d;
    lemma_orbit_periodic(x0, s, d, s + p, q);
    assert(orbit(x0, s + p) == orbit(x0, s));
    if p < d {
        assert(orbit(x0, s + p) != orbit(x0, s));
    }
}

/// Every state that comes back does so after the same number of steps: the
/// detected value of an orbit that enters a cycle of period `p` after `q`
/// steps is `p`, whatever the bucket count and capacity that found it.
pub proof fn lemma_detected_is_period(x0: Seq<u8>, q: nat, p: nat, d: nat)
    requires
        first_return(x0, q, p),
        detected(x0, d),
    ensures
        d == p,
{
    let s = choose|s: nat| first_return(x0, s, d);
    lemma_return_le(x0, s, d, q, p);
    lemma_return_le(x0, q, p, s, d);
}

/// The first step in `q..q + k` whose state is largest in that window.
pub open spec fn peak_time(x0: Seq<u8>, q: nat, k: nat) -> nat
    decreases k,
{
    if k <= 1 {
        q
    } else {
        let m = peak_time(x0, q, (k - 1) as nat);
        if lex_cmp(orbit(x0, (q + k - 1) as nat), orbit(x0, m)) == Ordering::Greater {
            (q + k - 1) as nat
        } else {
            m
        }
    }
}

/// The peak lies in its window and no state of the window is above it.
pub proof fn lemma_peak(x0: Seq<u8>, q: nat, k: nat)
    requires
        k >= 1,
    ensures
        q <= peak_time(x0, q, k) < q + k,
        forall|t: nat|
            q <= t < q + k ==> lex_cmp(#[trigger] orbit(x0, t), orbit(x0, peak_time(x0, q, k)))
                != Ordering::Greater,
    decreases k,
{
    if k > 1 {
        let m = peak_time(x0, q, (k - 1) as nat);
        lemma_peak(x0, q, (k - 1) as nat);
        let last = orbit(x0, (q + k - 1) as nat);
        if lex_cmp(last, orbit(x0, m)) == Ordering::Greater {
            assert forall|t: nat| q <= t < q + k implies lex_cmp(
                #[trigger] orbit(x0, t),
                last,
            ) != Ordering::Greater by {
                if t < q + k - 1 && lex_cmp(orbit(x0, t), last) == Ordering::Greater {
                    lemma_lex_greater_trans(orbit(x0, t), last, orbit(x0, m));
                }
                if t == q + k - 1 {
                    crate::order::lemma_lex_equal(last, last);
                }
            }
        }
    } else {
        crate::order::lemma_lex_equal(orbit(x0, q), orbit(x0, q));
    }
}

/// Once the orbit is in its cycle, no state is above the peak of the cycle.
pub proof fn lemma_below_peak(x0: Seq<u8>, q: nat, p: nat, t: nat)
    requires
        first_return(x0, q, p),
        q <= t,
    ensures
        lex_cmp(orbit(x0, t), orbit(x0, peak_time(x0, q, p))) != Ordering::Greater,
    decreases t,
{
    lemma_peak(x0, q, p);
    if t >= q + p {
        lemma_orbit_shift(x0, q + p, q, (t - q - p) as nat);
        assert(orbit(x0, t) == orbit(x0, (t - p) as nat));
        lemma_below_peak(x0, q, p, (t - p) as nat);
    }
}

/// A state of the cycle does not come back before `p` steps.
pub proof fn lemma_no_early_return(x0: Seq<u8>, q: nat, p: nat, j: nat, u: nat)
    requires
        first_return(x0, q, p),
        j < p,
        0 < u < p,
    ensures
        orbit(x0, q + j + u) != orbit(x0, q + j),
{
    if orbit(x0, q + j + u) == orbit(x0, q + j) {
        lemma_orbit_shift(x0, q + j + u, q + j, (p - j) as nat);
        lemma_orbit_shift(x0, q + p, q, u);
        assert(orbit(x0, q + u) == orbit(x0, q));
    }
}

/// Within one period after the peak of the cycle, every state is below it.
pub proof fn lemma_strictly_below_peak(x0: Seq<u8>, q: nat, p: nat, t: nat)
    requires
        first_return(x0, q, p),
        peak_time(x0, q, p) < t < peak_time(x0, q, p) + p,
    ensures
        lex_cmp(orbit(x0, peak_time(x0, q, p)), orbit(x0, t)) == Ordering::Greater,
{
    let tm = peak_time(x0, q, p);
    lemma_peak(x0, q, p);
    lemma_no_early_return(x0, q, p, (tm - q) as nat, (t - tm) as nat);
    assert(q + (tm - q) + (t - tm) == t);
    assert(q + (tm - q) == tm);
    lemma_below_peak(x0, q, p, t);
    crate::order::lemma_lex_total(orbit(x0, t), orbit(x0, tm));
}

/// A state of the cycle comes back after `p` steps.
pub proof fn lemma_cycle_return(x0: Seq<u8>, q: nat, p: nat, t: nat)
    requires
        first_return(x0, q, p),
        q <= t,
    ensures
        orbit(x0, t + p) == orbit(x0, t),
{
    lemma_orbit_shift(x0, q + p, q, (t - q) as nat);
}

} // verus!
