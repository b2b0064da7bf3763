//! Every subset of a sequence of elements, one per bit mask.
//!
//! The elements count by position: two equal values at different
//! positions are different elements.

use vstd::arithmetic::div_mod::lemma_basic_div;
use vstd::arithmetic::div_mod::lemma_div_denominator;
use vstd::arithmetic::div_mod::lemma_hoist_over_denominator;
use vstd::arithmetic::div_mod::lemma_mod_multiples_vanish;
use vstd::arithmetic::power2::lemma2_to64;
use vstd::arithmetic::power2::lemma_pow2_adds;
use vstd::arithmetic::power2::lemma_pow2_pos;
use vstd::arithmetic::power2::lemma_pow2_unfold;
use vstd::arithmetic::power2::pow2;
use vstd::bits::lemma_low_bits_mask_div2;
use vstd::bits::lemma_low_bits_mask_is_odd;
use vstd::bits::lemma_usize_pow2_no_overflow;
use vstd::bits::lemma_usize_shl_is_mul;
use vstd::bits::lemma_usize_shr_is_div;
use vstd::bits::low_bits_mask;
use vstd::multiset::Multiset;
use vstd::prelude::*;
use vstd::seq_lib::to_multiset_build;
use vstd::seq_lib::to_multiset_contains;
use vstd::seq_lib::to_multiset_len;

verus! {

/// Whether bit `i` of `mask` is set.
pub open spec fn bit_set(mask: nat, i: nat) -> bool {
    (mask / pow2(i)) % 2 == 1
}

/// The elements of `s` at the positions below `k` whose bit is set in
/// `mask`, in ascending order of position.
pub open spec fn picked<T>(s: Seq<T>, mask: nat, k: nat) -> Seq<T>
    decreases k,
{
    if k == 0 {
        Seq::empty()
    } else if bit_set(mask, (k - 1) as nat) {
        picked(s, mask, (k - 1) as nat).push(s[k - 1])
    } else {
        picked(s, mask, (k - 1) as nat)
    }
}

/// The subset of `s` that `mask` selects.
pub open spec fn subset_at<T>(s: Seq<T>, mask: nat) -> Seq<T> {
    picked(s, mask, s.len())
}

/// The bit test of the machine agrees with the arithmetic one.
proof fn lemma_bit_test(mask: usize, idx: usize)
    requires
        idx < usize::BITS,
    ensures
        (mask & (1usize << idx) > 0) == bit_set(mask as nat, idx as nat),
{
    assert((mask & (1usize << idx) > 0) == ((mask >> idx) & 1 == 1)) by (bit_vector)
        requires
            idx < usize::BITS,
    ;
    let shifted = mask >> idx;
    assert(shifted & 1 == shifted % 2) by (bit_vector);
    lemma_usize_shr_is_div(mask, idx);
}

/// A subset holds no more elements than positions were looked at.
pub proof fn lemma_picked_len<T>(s: Seq<T>, mask: nat, k: nat)
    ensures
        picked(s, mask, k).len() <= k,
    decreases k,
{
    if k > 0 {
        lemma_picked_len(s, mask, (k - 1) as nat);
    }
}

/// The mask 0 selects nothing.
pub proof fn lemma_picked_none<T>(s: Seq<T>, k: nat)
    ensures
        picked(s, 0, k) == Seq::<T>::empty(),
    decreases k,
{
    if k > 0 {
        lemma_picked_none(s, (k - 1) as nat);
        lemma_pow2_pos((k - 1) as nat);
        lemma_basic_div(0, pow2((k - 1) as nat) as int);
    }
}

/// Every bit below `n` is set in the mask of `n` ones.
pub proof fn lemma_low_bits_all_set(n: nat, i: nat)
    requires
        i < n,
    ensures
        low_bits_mask(n) / pow2(i) == low_bits_mask((n - i) as nat),
        bit_set(low_bits_mask(n), i),
    decreases i,
{
    if i == 0 {
        lemma2_to64();
    } else {
        let j = (i - 1) as nat;
        lemma_low_bits_all_set(n, j);
        lemma_pow2_pos(j);
        lemma_pow2_unfold(i);
        lemma_div_denominator(low_bits_mask(n) as int, pow2(j) as int, 2);
        assert(pow2(j) * 2 == pow2(i));
        lemma_low_bits_mask_div2((n - j) as nat);
    }
    lemma_low_bits_mask_is_odd((n - i) as nat);
}

/// The mask of all ones selects everything, in the order of `s`.
pub proof fn lemma_picked_all<T>(s: Seq<T>, k: nat)
    requires
        k <= s.len(),
    ensures
        picked(s, low_bits_mask(s.len()), k) == s.take(k as int),
    decreases k,
{
    if k > 0 {
        lemma_picked_all(s, (k - 1) as nat);
        lemma_low_bits_all_set(s.len(), (k - 1) as nat);
        assert(s.take(k - 1).push(s[k - 1]) =~= s.take(k as int));
    } else {
        assert(s.take(0) =~= Seq::<T>::empty());
    }
}

/// A mask below 2 to the `k` has bit `k` clear.
pub proof fn lemma_bit_clear_above(mask: nat, k: nat)
    requires
        mask < pow2(k),
    ensures
        !bit_set(mask, k),
{
    lemma_basic_div(mask as int, pow2(k) as int);
}

/// Adding 2 to the `k` to a mask below it sets bit `k` and keeps the
/// bits below.
pub proof fn lemma_bit_raised(mask: nat, k: nat, i: nat)
    requires
        mask < pow2(k),
        i <= k,
    ensures
        bit_set(mask + pow2(k), i) == (i == k || bit_set(mask, i)),
{
    let d = pow2(i);
    let j = pow2((k - i) as nat);
    lemma_pow2_pos(i);
    lemma_pow2_adds((k - i) as nat, i);
    assert(j * d == pow2(k));
    lemma_hoist_over_denominator(mask as int, j as int, d);
    assert((mask + pow2(k)) / d == mask / d + j);
    if i == k {
        lemma2_to64();
        lemma_basic_div(mask as int, d as int);
    } else {
        let h = pow2((k - i - 1) as nat);
        lemma_pow2_unfold((k - i) as nat);
        lemma_mod_multiples_vanish(h as int, (mask / d) as int, 2);
    }
}

/// Masks that agree on the bits below `k` select the same elements below
/// position `k`.
pub proof fn lemma_picked_same_bits<T>(s: Seq<T>, a: nat, b: nat, k: nat)
    requires
        forall|i: nat| i < k ==> bit_set(a, i) == bit_set(b, i),
    ensures
        picked(s, a, k) == picked(s, b, k),
    decreases k,
{
    if k > 0 {
        lemma_picked_same_bits(s, a, b, (k - 1) as nat);
    }
}

/// What a mask selects below position `k` is part of the elements below
/// position `k`.
pub proof fn lemma_picked_within<T>(s: Seq<T>, mask: nat, k: nat)
    requires
        k <= s.len(),
    ensures
        picked(s, mask, k).to_multiset().subset_of(s.take(k as int).to_multiset()),
    decreases k,
{
    broadcast use vstd::multiset::group_multiset_axioms;

    if k > 0 {
        let j = (k - 1) as nat;
        lemma_picked_within(s, mask, j);
        assert(s.take(j as int).push(s[j as int]) =~= s.take(k as int));
        to_multiset_build(s.take(j as int), s[j as int]);
        to_multiset_build(picked(s, mask, j), s[j as int]);
        assert forall|v: T|
            picked(s, mask, k).to_multiset().count(v) <= s.take(k as int).to_multiset().count(
                v,
            ) by {
            assert(picked(s, mask, j).to_multiset().count(v) <= s.take(j as int).to_multiset().count(
                v,
            ));
        }
    } else {
        assert forall|v: T| picked(s, mask, k).to_multiset().count(v) == 0 by {
            to_multiset_contains(picked(s, mask, k), v);
        }
    }
}

/// Every part of the elements below position `k` is selected by some
/// mask below 2 to the `k`.
pub proof fn lemma_part_has_mask<T>(s: Seq<T>, k: nat, part: Multiset<T>) -> (mask: nat)
    requires
        k <= s.len(),
        part.subset_of(s.take(k as int).to_multiset()),
    ensures
        mask < pow2(k),
        picked(s, mask, k).to_multiset() == part,
    decreases k,
{
    broadcast use vstd::multiset::group_multiset_axioms;

    if k == 0 {
        lemma2_to64();
        assert(s.take(0) =~= Seq::<T>::empty());
        assert(s.take(0).to_multiset().len() == 0) by {
            to_multiset_len(s.take(0));
        }
        assert(picked(s, 0, 0).to_multiset().len() == 0) by {
            to_multiset_len(picked(s, 0, 0));
        }
        assert forall|v: T| part.count(v) == 0 by {
            assert(s.take(0).to_multiset().count(v) <= s.take(0).to_multiset().len());
        }
        assert forall|v: T| picked(s, 0, 0).to_multiset().count(v) == 0 by {
            assert(picked(s, 0, 0).to_multiset().count(v) <= picked(s, 0, 0).to_multiset().len());
        }
        assert(picked(s, 0, 0).to_multiset() =~= part);
        0
    } else {
        let j = (k - 1) as nat;
        let x = s[j as int];
        let before = s.take(j as int).to_multiset();
        assert(s.take(j as int).push(x) =~= s.take(k as int));
        to_multiset_build(s.take(j as int), x);
        lemma_pow2_unfold(k);
        if part.count(x) > before.count(x) {
            let rest = part.remove(x);
            assert(rest.subset_of(before)) by {
                assert forall|v: T| rest.count(v) <= before.count(v) by {
                    assert(part.count(v) <= before.insert(x).count(v));
                }
            }
            let low = lemma_part_has_mask(s, j, rest);
            let mask = low + pow2(j);
            assert forall|i: nat| i < j implies bit_set(mask, i) == bit_set(low, i) by {
                lemma_bit_raised(low, j, i);
            }
            lemma_bit_raised(low, j, j);
            lemma_picked_same_bits(s, mask, low, j);
            to_multiset_build(picked(s, low, j), x);
            assert(rest.insert(x) =~= part);
            mask
        } else {
            assert(part.subset_of(before)) by {
                assert forall|v: T| part.count(v) <= before.count(v) by {
                    assert(part.count(v) <= before.insert(x).count(v));
                }
            }
            let mask = lemma_part_has_mask(s, j, part);
            lemma_bit_clear_above(mask, j);
            mask
        }
    }
}

/// The subsets are the parts: a multiset is part of the elements of `s`
/// exactly if some mask below 2 to the length of `s` selects it.
pub proof fn lemma_subsets_are_the_parts<T>(s: Seq<T>, part: Multiset<T>)
    ensures
        part.subset_of(s.to_multiset()) <==> exists|mask: nat|
            mask < pow2(s.len()) && #[trigger] subset_at(s, mask).to_multiset() == part,
{
    assert(s.take(s.len() as int) =~= s);
    if part.subset_of(s.to_multiset()) {
        let mask = lemma_part_has_mask(s, s.len(), part);
        assert(subset_at(s, mask).to_multiset() == part);
    }
    if exists|mask: nat| mask < pow2(s.len()) && #[trigger] subset_at(s, mask).to_multiset() == part {
        let mask = choose|mask: nat|
            mask < pow2(s.len()) && #[trigger] subset_at(s, mask).to_multiset() == part;
        lemma_picked_within(s, mask, s.len());
    }
}

/// All subsets of `els`, one for each mask from 0 up to, but not
/// including, 2 to the power of the number of elements, in that order.
/// The subset at a mask holds the elements at the positions whose bit is
/// set in the mask, in ascending order of position: the first subset is
/// empty and the last is `els` itself.
///
/// The number of subsets must fit in a `usize`, so there must be fewer
/// elements than a `usize` has bits.
pub fn powerset<T>(els: &[T]) -> (sets: Vec<Vec<T>>) where T: Copy
    requires
        els@.len() < usize::BITS,
    ensures
        sets@.len() == pow2(els@.len()),
        forall|mask: int|
            0 <= mask < sets@.len() ==> (#[trigger] sets@[mask])@ == subset_at(els@, mask as nat),
        sets@[0]@ == Seq::<T>::empty(),
        sets@[sets@.len() - 1]@ == els@,
{
    let n: usize = els.len();
    proof {
        lemma_usize_pow2_no_overflow(n as nat);
        lemma_usize_shl_is_mul(1, n);
    }
    let size: usize = 1usize << n;
    let mut sets: Vec<Vec<T>> = Vec::new();
    for mask in 0..size
        invariant
            n == els@.len(),
            n < usize::BITS,
            size == pow2(n as nat),
            sets@.len() == mask,
            forall|m: int| 0 <= m < mask ==> (#[trigger] sets@[m])@ == subset_at(els@, m as nat),
    {
        let mut set: Vec<T> = Vec::new();
        for idx in 0..n
            invariant
                n == els@.len(),
                n < usize::BITS,
                set@ == picked(els@, mask as nat, idx as nat),
        {
            proof {
                lemma_bit_test(mask, idx);
            }
            if mask & (1usize << idx) > 0 {
                set.push(els[idx]);
            }
        }
        sets.push(set);
    }
    proof {
        lemma_picked_none(els@, n as nat);
        lemma_picked_all(els@, n as nat);
        assert(els@.take(n as int) =~= els@);
    }
    sets
}

} // verus!
