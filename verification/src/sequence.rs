//! The forward pass of the extended Euclidean algorithm: from a pair
//! `(a, b)` to the ordered sequence of successive remainders
//! `a, b, a % b, ...`, ending at the last value before the remainder
//! reaches zero — so the final element is `gcd(a, b)` and zero itself is
//! never recorded.

use vstd::prelude::*;
use vstd::math::abs;
use crate::arith::{gcd, lemma_tmod_bound, tmod};

verus! {

/// A sequence of machine integers read as mathematical integers.
pub open spec fn ints(s: Seq<i128>) -> Seq<int> {
    s.map(|i: int, x: i128| x as int)
}

/// The Euclidean remainder sequence of `(a, b)`: just `[a]` when `b` is
/// zero, else `a` followed by the sequence of `(b, a % b)` with the
/// truncating remainder.
pub open spec fn euclid_seq(a: int, b: int) -> Seq<int>
    decreases abs(b),
    via euclid_seq_terminates
{
    if b == 0 {
        seq![a]
    } else {
        seq![a] + euclid_seq(b, tmod(a, b))
    }
}

#[via_fn]
proof fn euclid_seq_terminates(a: int, b: int) {
    if b != 0 {
        lemma_tmod_bound(a, b);
    }
}

/// A well-formed remainder chain: every element after the first is
/// non-zero, each element from the third on is the truncating remainder
/// of the two before it, and the chain stops exactly where the next
/// remainder would be zero.
pub open spec fn chain_wf(s: Seq<int>) -> bool {
    &&& s.len() >= 1
    &&& forall|i: int| 1 <= i < s.len() ==> s[i] != 0
    &&& forall|i: int| 2 <= i < s.len() ==> #[trigger] s[i] == tmod(s[i - 2], s[i - 1])
    &&& s.len() >= 2 ==> tmod(s[s.len() - 2], s[s.len() - 1]) == 0
}

/// The Euclidean remainder sequence is a well-formed chain that starts at
/// `(a, b)` and ends at `gcd(a, b)`.
pub proof fn lemma_euclid_seq_shape(a: int, b: int)
    ensures
        ({
            let s = euclid_seq(a, b);
            &&& chain_wf(s)
            &&& s[0] == a
            &&& (b == 0 ==> s.len() == 1)
            &&& (b != 0 ==> s.len() >= 2 && s[1] == b)
            &&& s[s.len() - 1] == gcd(a, b)
        }),
    decreases abs(b),
{
    let s = euclid_seq(a, b);
    if b == 0 {
        assert(s =~= seq![a]);
    } else {
        lemma_tmod_bound(a, b);
        lemma_euclid_seq_shape(b, tmod(a, b));
        let t = euclid_seq(b, tmod(a, b));
        assert(s =~= seq![a] + t);
        assert(forall|i: int| 0 <= i < t.len() ==> s[i + 1] == t[i]);
        assert forall|i: int| 2 <= i < s.len() implies #[trigger] s[i] == tmod(s[i - 2], s[i - 1]) by {
            if i == 2 {
                assert(t.len() >= 2);
                assert(t[1] == tmod(a, b));
            } else {
                assert(t[i - 1] == tmod(t[i - 3], t[i - 2]));
            }
        }
    }
}

/// Generates the Euclidean remainder sequence of `(a, b)` by repeated
/// truncating division, iteratively. The two excluded corner pairs are
/// the only ones on which a remainder step would overflow `i128`.
pub fn forward(a: i128, b: i128) -> (v: Vec<i128>)
    requires
        !(a == i128::MIN && b == -1),
        !(a == -1 && b == i128::MIN),
    ensures
        ints(v@) == euclid_seq(a as int, b as int),
{
    let mut v: Vec<i128> = Vec::new();
    let mut x: i128 = a;
    let mut y: i128 = b;
    proof {
        assert(ints(v@) + euclid_seq(a as int, b as int) =~= euclid_seq(a as int, b as int));
    }
    while y != 0
        invariant
            !(x == i128::MIN && y == -1),
            !(x == -1 && y == i128::MIN),
            euclid_seq(a as int, b as int) == ints(v@) + euclid_seq(x as int, y as int),
        decreases abs(y as int),
    {
        proof {
            lemma_tmod_bound(x as int, y as int);
        }
        let r = x.checked_rem(y).unwrap();
        let ghost vs = v@;
        v.push(x);
        proof {
            assert(ints(v@) =~= ints(vs) + seq![x as int]);
            assert(euclid_seq(x as int, y as int) == seq![x as int] + euclid_seq(
                y as int,
                tmod(x as int, y as int),
            ));
            assert(euclid_seq(a as int, b as int) == ints(v@) + euclid_seq(y as int, r as int));
            // The next pair stays clear of the two overflow corners: a
            // remainder of -1 under divisor i128::MIN forces x == -1,
            // which the invariant rules out.
            if y == i128::MIN && r == -1 {
                assert(x == -1 || x == i128::MIN) by {
                    lemma_tmod_bound(x as int, y as int);
                };
            }
        }
        x = y;
        y = r;
    }
    let ghost vs = v@;
    v.push(x);
    proof {
        assert(ints(v@) =~= ints(vs) + seq![x as int]);
        assert(euclid_seq(x as int, 0) == seq![x as int]);
        assert(ints(v@) == euclid_seq(a as int, b as int));
    }
    v
}

} // verus!
