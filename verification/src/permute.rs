//! Every arrangement of a sequence of letters.
//!
//! The arrangements come from `permutohedron`'s `Heap`, one at a time.
//! This module is trusted: it names the order in which `Heap` hands them
//! out and states what is known of it.

use permutohedron::Heap;
use vstd::prelude::*;

verus! {

/// `permutohedron::Heap`, the iterator over the arrangements. Nothing of
/// its inside is known to the proofs but what the functions below state.
#[verifier::external_type_specification]
#[verifier::external_body]
#[verifier::reject_recursive_types(Data)]
#[verifier::reject_recursive_types(T)]
pub struct ExHeap<'a, Data: 'a + ?Sized, T: 'a>(Heap<'a, Data, T>);

/// The most letters that `Heap` arranges.
pub const MAX_LETTERS: usize = 16;

/// The arrangements of `items` in the order in which `Heap` yields them.
pub uninterp spec fn heap_order(items: Seq<char>) -> Seq<Seq<char>>;

/// The arrangements that `heap` has yet to yield, in order.
pub uninterp spec fn heap_pending(heap: Heap<'_, Vec<char>, char>) -> Seq<Seq<char>>;

/// `order` holds the arrangements of `items`: a sequence occurs in it
/// exactly if it has the letters of `items`, each as often as `items`.
pub open spec fn arranges(order: Seq<Seq<char>>, items: Seq<char>) -> bool {
    forall|p: Seq<char>| #[trigger] order.contains(p) <==> p.to_multiset() == items.to_multiset()
}

/// `Heap::new`: an iterator over all arrangements of `items`, which may
/// hold at most `MAX_LETTERS` letters. Its order is a function of `items`
/// alone. Each arrangement holds the letters of `items`, and each
/// sequence of those letters is among them.
#[verifier::external_body]
pub(crate) fn heap_new<'a>(items: &'a mut Vec<char>) -> (heap: Heap<'a, Vec<char>, char>)
    requires
        old(items)@.len() <= MAX_LETTERS,
    ensures
        heap_pending(heap) == heap_order(old(items)@),
        arranges(heap_order(old(items)@), old(items)@),
{
    Heap::new(items)
}

/// `Heap::next`: the next arrangement, or `None` when all have been
/// yielded.
#[verifier::external_body]
pub(crate) fn heap_next(heap: &mut Heap<'_, Vec<char>, char>) -> (next: Option<Vec<char>>)
    ensures
        heap_pending(*old(heap)).len() == 0 ==> next is None && heap_pending(*final(heap))
            == heap_pending(*old(heap)),
        heap_pending(*old(heap)).len() > 0 ==> next is Some && next->0@ == heap_pending(
            *old(heap),
        )[0] && heap_pending(*final(heap)) == heap_pending(*old(heap)).drop_first(),
{
    heap.next()
}

} // verus!
