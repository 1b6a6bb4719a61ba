use vstd::prelude::*;
use vstd::multiset::Multiset;

verus! {

#[verifier::external_type_specification]
#[verifier::external_body]
#[verifier::reject_recursive_types(K)]
#[verifier::reject_recursive_types(P)]
pub struct ExPairingHeap<K, P>(pheap::PairingHeap<K, P>);

/// The multiset of (key, priority) entries a frontier heap holds.
pub uninterp spec fn heap_entries(h: pheap::PairingHeap<usize, usize>) -> Multiset<(usize, usize)>;

/// Relies on pheap::PairingHeap::new: creates an empty heap.
#[verifier::external_body]
pub(crate) fn heap_new() -> (r: pheap::PairingHeap<usize, usize>)
    ensures
        heap_entries(r) == Multiset::<(usize, usize)>::empty(),
{
    pheap::PairingHeap::new()
}

/// Relies on pheap::PairingHeap::insert: adds one (key, priority) entry and
/// keeps all others.
#[verifier::external_body]
pub(crate) fn heap_insert(h: &mut pheap::PairingHeap<usize, usize>, key: usize, prio: usize)
    ensures
        heap_entries(*final(h)) == heap_entries(*old(h)).insert((key, prio)),
{
    h.insert(key, prio);
}

/// Relies on pheap::PairingHeap::is_empty: tells whether the heap holds no
/// entry.
#[verifier::external_body]
pub(crate) fn heap_is_empty(h: &pheap::PairingHeap<usize, usize>) -> (r: bool)
    ensures
        r <==> heap_entries(*h).len() == 0,
{
    h.is_empty()
}

/// Relies on pheap::PairingHeap::delete_min: on a non-empty heap it removes
/// and returns one held entry whose priority is minimal among all held
/// entries; on an empty heap it returns nothing and changes nothing.
#[verifier::external_body]
pub(crate) fn heap_delete_min(h: &mut pheap::PairingHeap<usize, usize>) -> (r: Option<
    (usize, usize),
>)
    ensures
        (match r {
            Option::None => heap_entries(*old(h)).len() == 0 && heap_entries(*final(h))
                == heap_entries(*old(h)),
            Option::Some(e) => {
                &&& heap_entries(*old(h)).count(e) > 0
                &&& heap_entries(*final(h)) == heap_entries(*old(h)).remove(e)
                &&& forall|x: (usize, usize)|
                    heap_entries(*old(h)).count(x) > 0 ==> e.1 <= x.1
            },
        }),
{
    h.delete_min()
}

} // verus!
