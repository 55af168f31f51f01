//! Collections that store their items palette-compressed.

use vstd::prelude::*;

pub mod vec;

pub use vec::{PVec, Iter, IndexIter};

verus! {

/// The number of times `x` occurs in `s`.
pub open spec fn occurrences<A>(s: Seq<A>, x: A) -> nat
    decreases s.len(),
{
    if s.len() == 0 {
        0
    } else {
        occurrences(s.drop_last(), x) + if s.last() == x {
            1nat
        } else {
            0nat
        }
    }
}

/// Appending `y` adds one occurrence of `y` and none of anything else.
pub proof fn lemma_occurrences_push<A>(s: Seq<A>, y: A, x: A)
    ensures
        occurrences(s.push(y), x) == occurrences(s, x) + if y == x {
            1nat
        } else {
            0nat
        },
{
    assert(s.push(y).drop_last() =~= s);
}

/// An element occurs at most as often as the sequence is long, and occurs
/// at all exactly when some position holds it.
pub proof fn lemma_occurrences_bounds<A>(s: Seq<A>, x: A)
    ensures
        occurrences(s, x) <= s.len(),
        occurrences(s, x) > 0 <==> exists|i: int| 0 <= i < s.len() && s[i] == x,
    decreases s.len(),
{
    if s.len() > 0 {
        lemma_occurrences_bounds(s.drop_last(), x);
        if occurrences(s.drop_last(), x) > 0 {
            let i = choose|i: int| 0 <= i < s.drop_last().len() && s.drop_last()[i] == x;
            assert(s[i] == x);
        }
        if exists|i: int| 0 <= i < s.len() && s[i] == x {
            let i = choose|i: int| 0 <= i < s.len() && s[i] == x;
            if i < s.len() - 1 {
                assert(s.drop_last()[i] == x);
            }
        }
    }
}

/// Renaming the elements through `f` keeps the count of `x` as the count of
/// `f(x)`, as long as no other element of `s` is renamed to `f(x)`.
pub proof fn lemma_occurrences_map<A, B>(s: Seq<A>, f: spec_fn(A) -> B, x: A)
    requires
        forall|i: int| 0 <= i < s.len() && f(#[trigger] s[i]) == f(x) ==> s[i] == x,
    ensures
        occurrences(s.map_values(f), f(x)) == occurrences(s, x),
    decreases s.len(),
{
    if s.len() > 0 {
        assert forall|i: int| 0 <= i < s.drop_last().len() && f(#[trigger] s.drop_last()[i]) == f(x)
            implies s.drop_last()[i] == x by {
            assert(s.drop_last()[i] == s[i]);
        }
        lemma_occurrences_map(s.drop_last(), f, x);
        assert(s.map_values(f).drop_last() =~= s.drop_last().map_values(f));
    }
}

/// A run of `n` copies of `x` holds `n` occurrences of it.
pub proof fn lemma_occurrences_repeat<A>(n: nat, x: A)
    ensures
        occurrences(Seq::new(n, |i: int| x), x) == n,
    decreases n,
{
    if n > 0 {
        lemma_occurrences_repeat((n - 1) as nat, x);
        assert(Seq::new(n, |i: int| x).drop_last() =~= Seq::new((n - 1) as nat, |i: int| x));
    }
}

} // verus!
