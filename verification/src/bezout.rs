//! The backward pass of the extended Euclidean algorithm: folding a
//! remainder chain into a single Bézout equation `r = n*x + m*q` that
//! expresses the chain's last element — the gcd — as an integer linear
//! combination of its first two.
//!
//! The fold is modelled by the spec functions `seed_eq` / `step_eq` /
//! `eq_at`, which state exactly which equation each step produces, and by
//! `seed_ok` / `step_ok` / `fold_ok`, which state exactly when every
//! intermediate coefficient fits in `i128`. The executable `backward`
//! returns `Some` precisely on chains of length at least three whose fold
//! stays in range.

use vstd::prelude::*;
use crate::arith::{gcd, lemma_tdiv_tmod, tdiv, tmod};
use crate::sequence::{chain_wf, euclid_seq, ints, lemma_euclid_seq_shape};

verus! {

/// A linear relation `r = n*x + m*q`: the gcd `r` written as a
/// combination of two values `x` and `q` of the remainder chain with
/// coefficients `n` and `m`.
#[derive(Clone, Copy, Debug, PartialEq, Eq, Structural)]
pub struct Equation {
    pub r: i128,
    pub x: i128,
    pub q: i128,
    pub n: i128,
    pub m: i128,
}

/// The same relation over mathematical integers: the model an `Equation`
/// is read as.
pub struct EquationModel {
    pub r: int,
    pub x: int,
    pub q: int,
    pub n: int,
    pub m: int,
}

impl View for Equation {
    type V = EquationModel;

    open spec fn view(&self) -> EquationModel {
        EquationModel {
            r: self.r as int,
            x: self.x as int,
            q: self.q as int,
            n: self.n as int,
            m: self.m as int,
        }
    }
}

impl EquationModel {
    /// The invariant of a Bézout equation: the stated relation is exact.
    pub open spec fn holds(self) -> bool {
        self.r == self.n * self.x + self.m * self.q
    }
}

/// Whether a mathematical integer fits in `i128`.
pub open spec fn fits(x: int) -> bool {
    i128::MIN <= x <= i128::MAX
}

/// The equation substitution produces from `e2` (the one further up the
/// chain, expressing `e1`'s `q` term) and `e1` (the accumulated one):
/// `e1`'s target rewritten over `e2`'s two values.
pub open spec fn substitute_model(e2: EquationModel, e1: EquationModel) -> EquationModel {
    EquationModel {
        r: e1.r,
        x: e2.x,
        q: e2.q,
        n: e1.m * e2.n,
        m: e1.n + e1.m * e2.m,
    }
}

/// When substitution succeeds: `e2` really expresses `e1`'s `q` term, and
/// both combined coefficients fit in `i128`.
pub open spec fn substitute_ok(e2: EquationModel, e1: EquationModel) -> bool {
    &&& e2.r == e1.q
    &&& fits(e1.m * e2.n)
    &&& fits(e1.m * e2.m)
    &&& fits(e1.n + e1.m * e2.m)
}

/// Substitution preserves the equation invariant: when both inputs hold
/// exactly and they share their middle value (`e2.q == e1.x` besides
/// `e2.r == e1.q`), the combined equation holds exactly too.
pub proof fn lemma_substitute_holds(e2: EquationModel, e1: EquationModel)
    requires
        e1.holds(),
        e2.holds(),
        e2.r == e1.q,
        e2.q == e1.x,
    ensures
        substitute_model(e2, e1).holds(),
{
    assert(e1.r == (e1.m * e2.n) * e2.x + (e1.n + e1.m * e2.m) * e2.q) by (nonlinear_arith)
        requires
            e1.r == e1.n * e1.x + e1.m * e1.q,
            e2.r == e2.n * e2.x + e2.m * e2.q,
            e2.r == e1.q,
            e2.q == e1.x,
    ;
}

impl Equation {
    /// Combines two equations by substituting `e2` — the equation
    /// "further up" the chain — into `e1`. Returns `None` when `e2` does
    /// not express the value `e1` refers to as `q`, or when a combined
    /// coefficient overflows `i128`.
    pub fn substitute(e2: &Self, e1: &Self) -> (res: Option<Self>)
        ensures
            match res {
                Some(e) => substitute_ok(e2@, e1@) && e@ == substitute_model(e2@, e1@),
                None => !substitute_ok(e2@, e1@),
            },
    {
        if e2.r != e1.q {
            return None;
        }
        let n = match e1.m.checked_mul(e2.n) {
            Some(v) => v,
            None => {
                return None;
            },
        };
        let t = match e1.m.checked_mul(e2.m) {
            Some(v) => v,
            None => {
                return None;
            },
        };
        let m = match e1.n.checked_add(t) {
            Some(v) => v,
            None => {
                return None;
            },
        };
        Some(Equation { r: e1.r, x: e2.x, q: e2.q, n, m })
    }
}

/// The seed equation of the backward pass, from the chain's last three
/// values `x, q, h`: since `x == (x / q) * q + h`, the relation
/// `h == 1 * x + (-(x / q)) * q` holds.
pub open spec fn seed_eq(s: Seq<int>) -> EquationModel {
    let x = s[s.len() - 3];
    let q = s[s.len() - 2];
    EquationModel { r: s[s.len() - 1], x, q, n: 1, m: -tdiv(x, q) }
}

/// When the seed step succeeds: the divisor is non-zero and the seed
/// coefficient fits in `i128`.
pub open spec fn seed_ok(s: Seq<int>) -> bool {
    let x = s[s.len() - 3];
    let q = s[s.len() - 2];
    &&& q != 0
    &&& fits(tdiv(x, q))
    &&& fits(-tdiv(x, q))
}

/// One fold step: the accumulated equation `e1` combined with the fresh
/// relation for the next-earlier chain value `x2` over `x1` (the value
/// `e1` expresses as `x`).
pub open spec fn step_eq(e1: EquationModel, x2: int, x1: int) -> EquationModel {
    EquationModel {
        r: e1.r,
        x: x2,
        q: x1,
        n: e1.m,
        m: e1.n + e1.m * (-tdiv(x2, x1)),
    }
}

/// When one fold step succeeds: the divisor is non-zero and every
/// intermediate value fits in `i128`.
pub open spec fn step_ok(e1: EquationModel, x2: int, x1: int) -> bool {
    &&& x1 != 0
    &&& fits(tdiv(x2, x1))
    &&& fits(-tdiv(x2, x1))
    &&& fits(e1.m * (-tdiv(x2, x1)))
    &&& fits(e1.n + e1.m * (-tdiv(x2, x1)))
}

/// The equation the backward pass holds once it has consumed the chain
/// suffix starting at index `j` (for `j` between 0 and `len - 3`): the
/// seed at `len - 3`, and one `step_eq` per earlier index.
pub open spec fn eq_at(s: Seq<int>, j: int) -> EquationModel
    decreases s.len() - j,
{
    if j >= s.len() - 3 {
        seed_eq(s)
    } else {
        step_eq(eq_at(s, j + 1), s[j], s[j + 1])
    }
}

/// Whether every fold step from the seed down to index `j` succeeds.
pub open spec fn fold_ok(s: Seq<int>, j: int) -> bool
    decreases s.len() - j,
{
    if j >= s.len() - 3 {
        seed_ok(s)
    } else {
        fold_ok(s, j + 1) && step_ok(eq_at(s, j + 1), s[j], s[j + 1])
    }
}

/// The fold's equation at index `j` spans exactly the chain values at `j`
/// and `j + 1`, and its target is the chain's last element.
pub proof fn lemma_eq_at_shape(s: Seq<int>, j: int)
    requires
        s.len() >= 3,
        0 <= j <= s.len() - 3,
    ensures
        eq_at(s, j).x == s[j],
        eq_at(s, j).q == s[j + 1],
        eq_at(s, j).r == s[s.len() - 1],
    decreases s.len() - j,
{
    if j < s.len() - 3 {
        lemma_eq_at_shape(s, j + 1);
    }
}

/// A failed fold step poisons every earlier index: if the fold is not in
/// range at `j`, it is not in range at 0 either.
pub proof fn lemma_fold_ok_poisons(s: Seq<int>, j: int)
    requires
        s.len() >= 3,
        0 <= j <= s.len() - 3,
        !fold_ok(s, j),
    ensures
        !fold_ok(s, 0),
    decreases j,
{
    if j > 0 {
        assert(!fold_ok(s, j - 1));
        lemma_fold_ok_poisons(s, j - 1);
    }
}

/// On a well-formed remainder chain every fold equation holds exactly:
/// the chain property makes the seed exact, and substitution preserves
/// exactness step by step.
pub proof fn lemma_eq_at_holds(s: Seq<int>, j: int)
    requires
        chain_wf(s),
        s.len() >= 3,
        0 <= j <= s.len() - 3,
    ensures
        eq_at(s, j).holds(),
    decreases s.len() - j,
{
    if j == s.len() - 3 {
        let x = s[j];
        let q = s[j + 1];
        let h = s[j + 2];
        assert(h == tmod(x, q));
        lemma_tdiv_tmod(x, q);
        assert(h == 1 * x + (-tdiv(x, q)) * q) by (nonlinear_arith)
            requires
                x == q * tdiv(x, q) + h,
        ;
    } else {
        lemma_eq_at_holds(s, j + 1);
        lemma_eq_at_shape(s, j + 1);
        let e1 = eq_at(s, j + 1);
        let e2 = EquationModel { r: s[j + 2], n: 1, x: s[j], q: s[j + 1], m: -tdiv(s[j], s[j + 1]) };
        assert(s[j + 2] == tmod(s[j], s[j + 1]));
        lemma_tdiv_tmod(s[j], s[j + 1]);
        assert(e2.holds()) by (nonlinear_arith)
            requires
                e2.r == e2.x - e2.q * tdiv(e2.x, e2.q),
                e2.n == 1,
                e2.m == -tdiv(e2.x, e2.q),
        ;
        lemma_substitute_holds(e2, e1);
        assert(substitute_model(e2, e1) == eq_at(s, j)) by {
            assert(e1.m * e2.n == e1.m);
        }
    }
}

/// Law: folding the Euclidean remainder sequence of `(a, b)` yields a
/// Bézout identity for `gcd(a, b)`. Whenever the sequence is long enough
/// to fold — that is, whenever `b` is non-zero and does not divide `a`
/// exactly — the final equation spans exactly the two original inputs,
/// its target is `gcd(a, b)`, and `gcd(a, b) == n * a + m * b` exactly.
pub proof fn lemma_bezout_identity(a: int, b: int)
    requires
        b != 0,
        tmod(a, b) != 0,
    ensures
        ({
            let s = euclid_seq(a, b);
            let e = eq_at(s, 0);
            &&& s.len() >= 3
            &&& e.x == a
            &&& e.q == b
            &&& e.r == gcd(a, b)
            &&& e.r == e.n * a + e.m * b
        }),
{
    let s = euclid_seq(a, b);
    lemma_euclid_seq_shape(a, b);
    assert(s.len() >= 3) by {
        if s.len() == 2 {
            assert(tmod(s[0], s[1]) == 0);
        }
    }
    lemma_eq_at_shape(s, 0);
    lemma_eq_at_holds(s, 0);
}

/// Folds the remainder chain `v` from its end into a single Bézout
/// equation. Returns `Some` exactly when the chain has at least three
/// elements and no step of the fold divides by zero or overflows `i128`;
/// the result is then precisely the fold's final equation.
pub fn backward(v: &Vec<i128>) -> (res: Option<Equation>)
    ensures
        match res {
            Some(e) => v@.len() >= 3 && fold_ok(ints(v@), 0) && e@ == eq_at(ints(v@), 0),
            None => v@.len() < 3 || !fold_ok(ints(v@), 0),
        },
{
    let len: usize = v.len();
    if len < 3 {
        return None;
    }
    let ghost s = ints(v@);
    let x = v[len - 3];
    let q = v[len - 2];
    let hcf = v[len - 1];
    if q == 0 {
        proof {
            lemma_fold_ok_poisons(s, len - 3);
        }
        return None;
    }
    let d = match x.checked_div(q) {
        Some(d) => d,
        None => {
            proof {
                lemma_fold_ok_poisons(s, len - 3);
            }
            return None;
        },
    };
    if d == i128::MIN {
        proof {
            lemma_fold_ok_poisons(s, len - 3);
        }
        return None;
    }
    let mut e1 = Equation { r: hcf, n: 1, x, q, m: -d };
    let mut i: usize = len - 3;
    proof {
        assert(e1@ == seed_eq(s));
        assert(fold_ok(s, i as int));
    }
    while i > 0
        invariant
            v@.len() == len,
            3 <= len <= usize::MAX,
            0 <= i <= len - 3,
            s == ints(v@),
            fold_ok(s, i as int),
            e1@ == eq_at(s, i as int),
        decreases i,
    {
        proof {
            lemma_eq_at_shape(s, i as int);
        }
        let x2 = v[i - 1];
        if e1.x == 0 {
            proof {
                assert(!step_ok(e1@, s[i - 1], s[i as int]));
                lemma_fold_ok_poisons(s, i - 1);
            }
            return None;
        }
        let d = match x2.checked_div(e1.x) {
            Some(d) => d,
            None => {
                proof {
                    assert(!step_ok(e1@, s[i - 1], s[i as int]));
                    lemma_fold_ok_poisons(s, i - 1);
                }
                return None;
            },
        };
        if d == i128::MIN {
            proof {
                assert(!step_ok(e1@, s[i - 1], s[i as int]));
                lemma_fold_ok_poisons(s, i - 1);
            }
            return None;
        }
        let e2 = Equation { r: e1.q, n: 1, x: x2, q: e1.x, m: -d };
        let combined = match Equation::substitute(&e2, &e1) {
            Some(e) => e,
            None => {
                proof {
                    assert(!step_ok(e1@, s[i - 1], s[i as int]));
                    lemma_fold_ok_poisons(s, i - 1);
                }
                return None;
            },
        };
        proof {
            assert(combined@ == step_eq(e1@, s[i - 1], s[i as int])) by {
                assert(e1@.m * 1 == e1@.m);
            }
            assert(step_ok(e1@, s[i - 1], s[i as int]));
        }
        e1 = combined;
        i = i - 1;
    }
    Some(e1)
}

} // verus!
