//! The congruence resolver: turns a Bézout identity for `gcd(a, c)` into
//! the solution set of the linear congruence `a*x ≡ b (mod c)` — a unique
//! residue class, a definitive "no solution", the trivial modulus, or a
//! rejection of a zero modulus.

use vstd::prelude::*;
use crate::arith::{
    divides,
    gcd,
    lemma_divides_tmod,
    lemma_gcd_divides,
    lemma_tdiv_tmod,
    lemma_tmod_bound,
    lemma_tmod_unit,
    tdiv,
    tmod,
};
use crate::bezout::{
    backward,
    eq_at,
    fits,
    fold_ok,
    lemma_bezout_identity,
    lemma_eq_at_shape,
    Equation,
};
use crate::sequence::{euclid_seq, forward, ints, lemma_euclid_seq_shape};

verus! {

/// The outcome of resolving `a*x ≡ b (mod c)`.
///
/// `b_used` is the right-hand side the resolver actually worked with:
/// `b` itself when it already lies in `[0, c)`, else `b % c` — a
/// normalization the caller should report, not an error.
#[derive(Clone, Copy, Debug, PartialEq, Eq, Structural)]
pub enum Resolution {
    /// The modulus was zero; nothing was computed.
    InvalidModulus,
    /// The modulus was one: every integer satisfies the congruence.
    AlwaysTrue,
    /// The Bézout fold could not complete: the remainder chain was too
    /// short to seed an identity, or a coefficient left the `i128` range.
    Degenerate,
    /// `b_used` is not a multiple of the gcd, so no integer satisfies the
    /// congruence; `bezout.r` is that gcd.
    NoSolution { bezout: Equation, b_used: i128 },
    /// The canonical representative of the solution class:
    /// `residue == (bezout.n * (b_used / bezout.r)) % modulus`.
    Unique { bezout: Equation, residue: i128, modulus: i128, b_used: i128 },
}

/// The right-hand side after normalization: `b` when it already lies in
/// `[0, c)`, else the truncating remainder `b % c`.
pub open spec fn norm_b(b: int, c: int) -> int {
    if 0 <= b < c {
        b
    } else {
        tmod(b, c)
    }
}

/// What resolving `a*x ≡ b (mod c)` must return — a full case analysis,
/// so the outcome is a function of the inputs alone.
pub open spec fn resolution_post(a: int, b: int, c: int, res: Resolution) -> bool {
    if c == 0 {
        res is InvalidModulus
    } else if c == 1 {
        res is AlwaysTrue
    } else {
        let br = norm_b(b, c);
        let s = euclid_seq(a, c);
        if s.len() < 3 || !fold_ok(s, 0) {
            res is Degenerate
        } else {
            let e = eq_at(s, 0);
            if tmod(br, e.r) != 0 {
                &&& res matches Resolution::NoSolution { bezout, b_used }
                &&& bezout@ == e
                &&& b_used == br
            } else if !fits(e.n * tdiv(br, e.r)) {
                res is Degenerate
            } else {
                &&& res matches Resolution::Unique { bezout, residue, modulus, b_used }
                &&& bezout@ == e
                &&& residue == tmod(e.n * tdiv(br, e.r), c)
                &&& modulus == c
                &&& b_used == br
            }
        }
    }
}

/// Resolves the linear congruence `a*x ≡ b (mod c)`: rejects a zero
/// modulus, short-circuits a modulus of one, normalizes `b` into
/// `[0, c)` by the truncating remainder, runs the forward and backward
/// Euclidean passes on `(a, c)`, and reads the solution off the Bézout
/// identity. The three excluded corner pairs are the only inputs on
/// which a remainder step would overflow `i128`.
#[verifier::rlimit(50)]
pub fn resolve(a: i128, b: i128, c: i128) -> (res: Resolution)
    requires
        !(a == i128::MIN && c == -1),
        !(a == -1 && c == i128::MIN),
        !(b == i128::MIN && c == -1),
    ensures
        resolution_post(a as int, b as int, c as int, res),
{
    if c == 0 {
        return Resolution::InvalidModulus;
    }
    if c == 1 {
        return Resolution::AlwaysTrue;
    }
    proof {
        lemma_tmod_bound(b as int, c as int);
    }
    let br = if 0 <= b && b < c {
        b
    } else {
        b.checked_rem(c).unwrap()
    };
    let v = forward(a, c);
    let ghost s = ints(v@);
    let bez = match backward(&v) {
        Some(e) => e,
        None => {
            return Resolution::Degenerate;
        },
    };
    proof {
        lemma_euclid_seq_shape(a as int, c as int);
        lemma_eq_at_shape(s, 0);
        assert(bez@.r == s[s.len() - 1]);
        assert(bez.r != 0);
        lemma_tmod_bound(br as int, bez.r as int);
        assert(c != -1) by {
            if c == -1 {
                lemma_tmod_unit(a as int, -1);
                assert(euclid_seq(a as int, -1) == seq![a as int] + euclid_seq(-1, 0));
                assert(euclid_seq(a as int, -1).len() == 2);
            }
        }
    }
    let rem = br.checked_rem(bez.r).unwrap();
    if rem != 0 {
        return Resolution::NoSolution { bezout: bez, b_used: br };
    }
    proof {
        crate::arith::lemma_tdiv_bound(br as int, bez.r as int);
    }
    let t = br.checked_div(bez.r).unwrap();
    let p = match bez.n.checked_mul(t) {
        Some(p) => p,
        None => {
            return Resolution::Degenerate;
        },
    };
    proof {
        lemma_tmod_bound(p as int, c as int);
    }
    let residue = p.checked_rem(c).unwrap();
    Resolution::Unique { bezout: bez, residue, modulus: c, b_used: br }
}

/// Law: a `Unique` outcome is sound. Its equation's target is
/// `gcd(a, c)`, and the reported residue really satisfies the
/// congruence: `c` divides `a * residue - b_used` exactly.
pub proof fn lemma_unique_solves(a: int, b: int, c: int, res: Resolution)
    requires
        resolution_post(a, b, c, res),
        res is Unique,
    ensures
        res matches Resolution::Unique { bezout, residue, modulus, b_used } ==> {
            &&& modulus == c
            &&& bezout.r == gcd(a, c)
            &&& divides(c, a * residue - b_used)
        },
{
    let s = euclid_seq(a, c);
    let e = eq_at(s, 0);
    let br = norm_b(b, c);
    lemma_euclid_seq_shape(a, c);
    assert(s[2] == tmod(a, c) && s[2] != 0);
    lemma_bezout_identity(a, c);
    assert(e.r != 0);
    lemma_divides_tmod(br, e.r);
    let t = tdiv(br, e.r);
    lemma_tdiv_tmod(br, e.r);
    assert(br == e.r * t);
    let p = e.n * t;
    let k = tdiv(p, c);
    lemma_tdiv_tmod(p, c);
    let residue = tmod(p, c);
    assert(a * residue - br == (-(e.m * t) - a * k) * c) by (nonlinear_arith)
        requires
            e.r == e.n * a + e.m * c,
            br == e.r * t,
            e.n * t == c * k + residue,
    ;
    assert(divides(c, a * residue - br));
}

/// Law: a `NoSolution` outcome is definitive. Its equation's target is
/// `gcd(a, c)`, and no integer `x` satisfies the congruence: `c` divides
/// `a * x - b_used` for no `x` at all.
pub proof fn lemma_no_solution_definitive(a: int, b: int, c: int, res: Resolution)
    requires
        resolution_post(a, b, c, res),
        res is NoSolution,
    ensures
        res matches Resolution::NoSolution { bezout, b_used } ==> {
            &&& bezout.r == gcd(a, c)
            &&& forall|x: int| !#[trigger] divides(c, a * x - b_used)
        },
{
    let s = euclid_seq(a, c);
    let e = eq_at(s, 0);
    let br = norm_b(b, c);
    lemma_euclid_seq_shape(a, c);
    assert(s[2] == tmod(a, c) && s[2] != 0);
    lemma_bezout_identity(a, c);
    let g = e.r;
    assert(g == gcd(a, c) && g != 0);
    assert(tmod(br, g) != 0);
    assert forall|x: int| !#[trigger] divides(c, a * x - br) by {
        if divides(c, a * x - br) {
            let y = choose|k: int| a * x - br == #[trigger] (k * c);
            lemma_gcd_divides(a, c);
            let ka = choose|k: int| a == #[trigger] (k * g);
            let kc = choose|k: int| c == #[trigger] (k * g);
            assert(br == (ka * x - y * kc) * g) by (nonlinear_arith)
                requires
                    a * x - br == y * c,
                    a == ka * g,
                    c == kc * g,
            ;
            assert(divides(g, br));
            lemma_divides_tmod(br, g);
        }
    }
}

/// Law: an `AlwaysTrue` outcome is sound. It is returned exactly for
/// modulus one, and modulo one every integer satisfies the congruence.
pub proof fn lemma_always_true_sound(a: int, b: int, c: int, res: Resolution)
    requires
        resolution_post(a, b, c, res),
        res is AlwaysTrue,
    ensures
        c == 1,
        forall|x: int| #[trigger] divides(c, a * x - b),
{
    assert forall|x: int| #[trigger] divides(c, a * x - b) by {
        assert(a * x - b == (a * x - b) * 1);
    }
}

/// Law: resolution is a pure function of its inputs. Any two outcomes
/// that satisfy the resolver's contract for the same `(a, b, c)` are
/// equal, so re-running the resolver on identical inputs yields an
/// identical result.
pub proof fn lemma_resolution_deterministic(
    a: int,
    b: int,
    c: int,
    r1: Resolution,
    r2: Resolution,
)
    requires
        resolution_post(a, b, c, r1),
        resolution_post(a, b, c, r2),
    ensures
        r1 == r2,
{
}

} // verus!
