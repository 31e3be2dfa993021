//! The insertion-ordered set of imported fingerprints, held in an
//! `indexmap::IndexSet<String>`. Its contents are named
//! (`fingerprint_entries`: the strings in insertion order) and each method
//! the library calls has a wrapper whose contract states, over that name,
//! what the crate's source does.
use vstd::prelude::*;
use indexmap::IndexSet;

verus! {

#[verifier::external_type_specification]
#[verifier::external_body]
#[verifier::reject_recursive_types(T)]
#[verifier::reject_recursive_types(S)]
pub struct ExIndexSet<T, S>(IndexSet<T, S>);

/// The strings held in `set`, in insertion order.
pub uninterp spec fn fingerprint_entries(set: IndexSet<String>) -> Seq<Seq<char>>;

/// `IndexSet::new`: an empty set.
#[verifier::external_body]
pub(crate) fn new_fingerprint_set() -> (res: IndexSet<String>)
    ensures
        fingerprint_entries(res) == Seq::<Seq<char>>::empty(),
{
    IndexSet::new()
}

/// `IndexSet::len`: the number of strings held.
#[verifier::external_body]
pub(crate) fn fingerprint_set_len(set: &IndexSet<String>) -> (res: usize)
    ensures
        res == fingerprint_entries(*set).len(),
{
    set.len()
}

/// `IndexSet::contains`: whether a string equal to `value` is held.
#[verifier::external_body]
pub(crate) fn fingerprint_set_contains(set: &IndexSet<String>, value: &str) -> (res: bool)
    ensures
        res == fingerprint_entries(*set).contains(value@),
{
    set.contains(value)
}

/// `IndexSet::insert`: when an equal string is already held the set is
/// left as it was (order included) and the result is `false`; otherwise
/// the string is appended at the end and the result is `true`.
#[verifier::external_body]
pub(crate) fn fingerprint_set_insert(set: &mut IndexSet<String>, value: String) -> (res: bool)
    ensures
        res == !fingerprint_entries(*old(set)).contains(value@),
        fingerprint_entries(*final(set)) == if fingerprint_entries(*old(set)).contains(value@) {
            fingerprint_entries(*old(set))
        } else {
            fingerprint_entries(*old(set)).push(value@)
        },
{
    set.insert(value)
}

/// `IndexSet`'s `Index<usize>`: the string at position `index`. A set
/// holds no string twice, so no other position holds an equal string.
#[verifier::external_body]
pub(crate) fn fingerprint_set_at(set: &IndexSet<String>, index: usize) -> (res: &String)
    requires
        index < fingerprint_entries(*set).len(),
    ensures
        res@ == fingerprint_entries(*set)[index as int],
        forall|j: int|
            0 <= j < fingerprint_entries(*set).len() && j != index ==> fingerprint_entries(
                *set,
            )[j] != res@,
{
    &set[index]
}

/// `IndexSet::shift_remove_index`: removes the string at `index`, the
/// later ones moving down one place in order; out of range, nothing
/// changes and the result is `None`.
#[verifier::external_body]
pub(crate) fn fingerprint_set_shift_remove_index(set: &mut IndexSet<String>, index: usize) -> (res:
    Option<String>)
    ensures
        index < fingerprint_entries(*old(set)).len() ==> {
            &&& fingerprint_entries(*final(set)) == fingerprint_entries(*old(set)).remove(
                index as int,
            )
            &&& res matches Some(v) && v@ == fingerprint_entries(*old(set))[index as int]
        },
        index >= fingerprint_entries(*old(set)).len() ==> {
            &&& fingerprint_entries(*final(set)) == fingerprint_entries(*old(set))
            &&& res is None
        },
{
    set.shift_remove_index(index)
}

/// `PartialEq for IndexSet`: the sets have the same length and every
/// string of `a` is held in `b` (order does not count).
#[verifier::external_body]
pub(crate) fn fingerprint_sets_equal(a: &IndexSet<String>, b: &IndexSet<String>) -> (res: bool)
    ensures
        res == (fingerprint_entries(*a).len() == fingerprint_entries(*b).len() && forall|x: Seq<char>|
            #[trigger] fingerprint_entries(*a).contains(x) ==> fingerprint_entries(*b).contains(x)),
{
    a == b
}

} // verus!
