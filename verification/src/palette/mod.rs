//! Palettes: how values are stored in their compressed state.
//!
//! A palette keeps each distinct value once, as an [`Entry`] that counts how
//! many times the value is used; a collection then stores, for each of its
//! positions, the index of the palette entry holding its value.

use vstd::prelude::*;
use vstd::arithmetic::power2::{pow2, lemma_pow2_unfold, lemma2_to64_rest};

pub mod hybrid;
mod key_map;

pub use key_map::{KeyIndexMap, key_index_contents, no_keys};

verus! {

/// A unique-value/count pair stored in a palette.
#[derive(Clone, Copy, Debug, PartialEq, Eq, Hash)]
pub struct Entry<T> {
    /// The unique value being stored.
    pub value: T,
    /// The number of times this value is stored.
    pub count: usize,
}

impl<T> Entry<T> {
    /// Constructs a new [`Entry`].
    pub fn new(count: usize, value: T) -> (r: Self)
        ensures
            r.value == value,
            r.count == count,
    {
        Entry { value, count }
    }
}

/// A value that a palette can store: copyable, and identified by a 64-bit
/// key that no other value shares.
pub trait PaletteValue: Copy {
    /// The key of the value.
    spec fn spec_key(self) -> u64;

    /// Returns the key of the value.
    fn key(&self) -> (k: u64)
        ensures
            k == self.spec_key(),
    ;

    /// Different values have different keys.
    proof fn lemma_key_injective(a: Self, b: Self)
        ensures
            a.spec_key() == b.spec_key() ==> a == b,
    ;
}

impl PaletteValue for u8 {
    open spec fn spec_key(self) -> u64 {
        self as u64
    }

    fn key(&self) -> (k: u64) {
        *self as u64
    }

    proof fn lemma_key_injective(a: Self, b: Self) {
    }
}

impl PaletteValue for u16 {
    open spec fn spec_key(self) -> u64 {
        self as u64
    }

    fn key(&self) -> (k: u64) {
        *self as u64
    }

    proof fn lemma_key_injective(a: Self, b: Self) {
    }
}

impl PaletteValue for u32 {
    open spec fn spec_key(self) -> u64 {
        self as u64
    }

    fn key(&self) -> (k: u64) {
        *self as u64
    }

    proof fn lemma_key_injective(a: Self, b: Self) {
    }
}

impl PaletteValue for u64 {
    open spec fn spec_key(self) -> u64 {
        self
    }

    fn key(&self) -> (k: u64) {
        *self
    }

    proof fn lemma_key_injective(a: Self, b: Self) {
    }
}

/// The number of occupied slots in `s`.
pub open spec fn count_some<E>(s: Seq<Option<E>>) -> nat
    decreases s.len(),
{
    if s.len() == 0 {
        0
    } else {
        count_some(s.drop_last()) + if s.last() is Some {
            1nat
        } else {
            0nat
        }
    }
}

/// The number of bits needed to write `n` (zero for zero).
pub open spec fn bit_width(n: nat) -> nat
    decreases n,
{
    if n == 0 {
        0
    } else {
        1 + bit_width(n / 2)
    }
}

/// `n` is below `2^bit_width(n)`, and at least `2^(bit_width(n) - 1)` when
/// positive.
pub proof fn lemma_bit_width_bounds(n: nat)
    ensures
        n < pow2(bit_width(n)),
        n > 0 ==> pow2((bit_width(n) - 1) as nat) <= n,
    decreases n,
{
    if n == 0 {
        vstd::arithmetic::power2::lemma_pow2_pos(0);
    } else {
        lemma_bit_width_bounds(n / 2);
        lemma_pow2_unfold(bit_width(n));
        if n / 2 > 0 {
            lemma_pow2_unfold((bit_width(n) - 1) as nat);
        } else {
            assert(pow2(0) == 1) by {
                vstd::arithmetic::power2::lemma2_to64();
            }
        }
    }
}

/// A number below `2^w` needs at most `w` bits.
pub proof fn lemma_bit_width_fits(m: nat, w: nat)
    requires
        m < pow2(w),
    ensures
        bit_width(m) <= w,
{
    lemma_bit_width_bounds(m);
    if m > 0 && bit_width(m) > w {
        if bit_width(m) - 1 > w {
            vstd::arithmetic::power2::lemma_pow2_strictly_increases(w, (bit_width(m) - 1) as nat);
        }
    }
}

/// A `usize` needs at most 64 bits.
pub proof fn lemma_bit_width_usize(n: usize)
    ensures
        bit_width(n as nat) <= 64,
{
    lemma_bit_width_bounds(n as nat);
    if bit_width(n as nat) > 64 {
        lemma2_to64_rest();
        assert(pow2(64) <= pow2((bit_width(n as nat) - 1) as nat)) by {
            if bit_width(n as nat) - 1 > 64 {
                vstd::arithmetic::power2::lemma_pow2_strictly_increases(
                    64,
                    (bit_width(n as nat) - 1) as nat,
                );
            }
        }
    }
}

/// Returns the number of bits needed to write `n`: `ilog2(n) + 1`, or zero
/// for zero.
pub fn index_width_for(n: usize) -> (r: u32)
    ensures
        r as nat == bit_width(n as nat),
        r <= 64,
{
    proof {
        lemma_bit_width_usize(n);
    }
    let mut r: u32 = 0;
    let mut m: usize = n;
    while m > 0
        invariant
            bit_width(n as nat) == r + bit_width(m as nat),
            bit_width(n as nat) <= 64,
        decreases m,
    {
        m = m / 2;
        r = r + 1;
    }
    r
}

} // verus!

verus! {

/// Changing one slot changes the count by what left and what came in.
pub proof fn lemma_count_some_update<E>(s: Seq<Option<E>>, i: int, x: Option<E>)
    requires
        0 <= i < s.len(),
    ensures
        count_some(s.update(i, x)) + (if s[i] is Some {
            1int
        } else {
            0int
        }) == count_some(s) + (if x is Some {
            1int
        } else {
            0int
        }),
    decreases s.len(),
{
    if i == s.len() - 1 {
        assert(s.update(i, x).drop_last() =~= s.drop_last());
    } else {
        lemma_count_some_update(s.drop_last(), i, x);
        assert(s.update(i, x).drop_last() =~= s.drop_last().update(i, x));
    }
}

/// Appending a slot adds one to the count exactly when it is occupied.
pub proof fn lemma_count_some_push<E>(s: Seq<Option<E>>, x: Option<E>)
    ensures
        count_some(s.push(x)) == count_some(s) + (if x is Some {
            1nat
        } else {
            0nat
        }),
{
    assert(s.push(x).drop_last() =~= s);
}

/// A prefix has no more occupied slots than the whole, and at most its
/// length.
pub proof fn lemma_count_some_prefix<E>(s: Seq<Option<E>>, n: int)
    requires
        0 <= n <= s.len(),
    ensures
        count_some(s.take(n)) <= count_some(s),
        count_some(s) <= s.len(),
    decreases s.len(),
{
    if s.len() > 0 {
        if n == s.len() {
            assert(s.take(n) =~= s);
            lemma_count_some_prefix(s.drop_last(), n - 1);
        } else {
            lemma_count_some_prefix(s.drop_last(), n);
            assert(s.drop_last().take(n) =~= s.take(n));
        }
    }
}

/// A run of occupied slots counts its own length.
pub proof fn lemma_count_some_all<E>(s: Seq<Option<E>>)
    requires
        forall|i: int| 0 <= i < s.len() ==> #[trigger] s[i] is Some,
    ensures
        count_some(s) == s.len(),
    decreases s.len(),
{
    if s.len() > 0 {
        lemma_count_some_all(s.drop_last());
    }
}

/// A run of free slots counts zero.
pub proof fn lemma_count_some_none<E>(s: Seq<Option<E>>)
    requires
        forall|i: int| 0 <= i < s.len() ==> #[trigger] s[i] is None,
    ensures
        count_some(s) == 0,
    decreases s.len(),
{
    if s.len() > 0 {
        lemma_count_some_none(s.drop_last());
    }
}

} // verus!

verus! {

/// Slots occupied exactly below `k` count `k`.
pub proof fn lemma_count_some_exact<E>(s: Seq<Option<E>>, k: int)
    requires
        0 <= k <= s.len(),
        forall|j: int| 0 <= j < s.len() ==> ((#[trigger] s[j]) is Some <==> j < k),
    ensures
        count_some(s) == k,
    decreases s.len(),
{
    if s.len() == k {
        lemma_count_some_all(s);
    } else {
        lemma_count_some_exact(s.drop_last(), k);
    }
}

} // verus!

verus! {

/// The occupied indices of `s`.
pub open spec fn occupied<E>(s: Seq<Option<E>>) -> Set<usize> {
    Set::new(|i: usize| (i as int) < s.len() && s[i as int] is Some)
}

/// The occupied indices of `s` form a finite set of [`count_some`] elements.
pub proof fn lemma_count_some_card<E>(s: Seq<Option<E>>)
    requires
        s.len() <= usize::MAX + 1,
    ensures
        occupied(s).finite(),
        occupied(s).len() == count_some(s),
    decreases s.len(),
{
    if s.len() == 0 {
        assert(occupied(s) =~= Set::<usize>::empty());
    } else {
        let t = s.drop_last();
        lemma_count_some_card(t);
        let last = (s.len() - 1) as usize;
        if s.last() is Some {
            assert(occupied(s) =~= occupied(t).insert(last));
        } else {
            assert(occupied(s) =~= occupied(t));
        }
    }
}

} // verus!

verus! {

/// The entries held by the occupied slots of `s`, in slot order.
pub open spec fn live_entries<E>(s: Seq<Option<E>>) -> Seq<E>
    decreases s.len(),
{
    if s.len() == 0 {
        Seq::empty()
    } else if s.last() is Some {
        live_entries(s.drop_last()).push(s.last()->0)
    } else {
        live_entries(s.drop_last())
    }
}

/// There are as many live entries as occupied slots.
pub proof fn lemma_live_entries_len<E>(s: Seq<Option<E>>)
    ensures
        live_entries(s).len() == count_some(s),
    decreases s.len(),
{
    if s.len() > 0 {
        lemma_live_entries_len(s.drop_last());
    }
}

} // verus!
