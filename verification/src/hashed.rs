use vstd::prelude::*;
use rustc_hash::FxHashMap;

verus! {

/// The hasher of `rustc_hash`. Nothing is said of it: it is here so that a
/// hash map that uses it can be held.
#[verifier::external_type_specification]
#[verifier::external_body]
pub struct ExFxHasher(rustc_hash::FxHasher);

/// The standard builder of hashers of one type. Nothing is said of it: it
/// is here so that a hash map that uses it can be held.
#[verifier::external_type_specification]
#[verifier::external_body]
#[verifier::reject_recursive_types(H)]
pub struct ExBuildHasherDefault<H>(core::hash::BuildHasherDefault<H>);

/// What a hash map of texts holds: for each text the number recorded with
/// it.
pub uninterp spec fn recorded(seen: FxHashMap<Vec<u8>, usize>) -> Map<Seq<u8>, usize>;

/// An empty hash map, as `FxHashMap::default` makes it.
#[verifier::external_body]
pub(crate) fn nothing_seen() -> (seen: FxHashMap<Vec<u8>, usize>)
    ensures
        recorded(seen).dom() == Set::<Seq<u8>>::empty(),
{
    FxHashMap::default()
}

/// Records `number` with `text`, as `HashMap::insert` does: the number that
/// was recorded with the text before is returned and replaced, and a text
/// that was not in the map is added to it.
#[verifier::external_body]
pub(crate) fn record(seen: &mut FxHashMap<Vec<u8>, usize>, text: Vec<u8>, number: usize) -> (before:
    Option<usize>)
    ensures
        recorded(*final(seen)) == recorded(*old(seen)).insert(text@, number),
        before == if recorded(*old(seen)).dom().contains(text@) {
            Some(recorded(*old(seen))[text@])
        } else {
            None
        },
{
    seen.insert(text, number)
}

/// The number recorded with `text`, as `HashMap::get` finds it, or nothing
/// where the text is not in the map.
#[verifier::external_body]
pub(crate) fn lookup(seen: &FxHashMap<Vec<u8>, usize>, text: &[u8]) -> (found: Option<usize>)
    ensures
        found == if recorded(*seen).dom().contains(text@) {
            Some(recorded(*seen)[text@])
        } else {
            None
        },
{
    seen.get(text).copied()
}

/// The number of texts in the map, as `HashMap::len` gives it.
#[verifier::external_body]
pub(crate) fn count(seen: &FxHashMap<Vec<u8>, usize>) -> (number: usize)
    ensures
        number == recorded(*seen).dom().len(),
{
    seen.len()
}

/// The texts of the map, each with its number, as `HashMap::iter` walks
/// them: every text once, in no order that could be stated.
#[verifier::external_body]
pub(crate) fn all_recorded(seen: &FxHashMap<Vec<u8>, usize>) -> (entries: Vec<(Vec<u8>, usize)>)
    ensures
        forall|i: int|
            0 <= i < entries@.len() ==> recorded(*seen).dom().contains(
                (#[trigger] entries@[i]).0@,
            ) && recorded(*seen)[entries@[i].0@] == entries@[i].1,
        forall|text: Seq<u8>| #[trigger]
            recorded(*seen).dom().contains(text) ==> exists|i: int|
                0 <= i < entries@.len() && (#[trigger] entries@[i]).0@ == text,
{
    seen.iter().map(|(text, number)| (text.clone(), *number)).collect()
}

} // verus!
