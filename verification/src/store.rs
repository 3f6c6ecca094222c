//! The hashed collections of the scanner, held behind contracts.

use fxhash::FxHashMap;
use fxhash::FxHashSet;
use vstd::prelude::*;

verus! {

/// The hasher of the `fxhash` crate. Opaque: it is only ever named as the
/// hasher parameter of the collections below.
#[verifier::external_type_specification]
#[verifier::external_body]
pub struct ExFxHasher(fxhash::FxHasher);

/// `std::hash::BuildHasherDefault`, the hasher factory that `fxhash` plugs
/// into the standard collections.
#[verifier::external_type_specification]
#[verifier::external_body]
#[verifier::reject_recursive_types(H)]
pub struct ExBuildHasherDefault<H>(std::hash::BuildHasherDefault<H>);

/// The texts that a set of strings holds.
pub uninterp spec fn set_texts(set: FxHashSet<String>) -> Set<Seq<char>>;

/// The value recorded for each text that a map is keyed by.
pub uninterp spec fn map_entries(map: FxHashMap<String, u128>) -> Map<Seq<char>, u128>;

/// `FxHashSet::default`: a set that holds nothing.
#[verifier::external_body]
pub(crate) fn set_new() -> (set: FxHashSet<String>)
    ensures
        set_texts(set) == Set::<Seq<char>>::empty(),
{
    FxHashSet::default()
}

/// `HashSet::contains`: whether the set holds a string with the same text.
#[verifier::external_body]
pub(crate) fn set_contains(set: &FxHashSet<String>, key: &String) -> (found: bool)
    ensures
        found == set_texts(*set).contains(key@),
{
    set.contains(key)
}

/// `HashSet::insert`: the set gains the text; the result tells whether it was new.
#[verifier::external_body]
pub(crate) fn set_insert(set: &mut FxHashSet<String>, key: String) -> (fresh: bool)
    ensures
        set_texts(*final(set)) == set_texts(*old(set)).insert(key@),
        fresh == !set_texts(*old(set)).contains(key@),
{
    set.insert(key)
}

/// `FxHashMap::default`: a map that records nothing.
#[verifier::external_body]
pub(crate) fn map_new() -> (table: FxHashMap<String, u128>)
    ensures
        map_entries(table) == (Map::<Seq<char>, u128>::empty()),
{
    FxHashMap::default()
}

/// `HashMap::insert`: the map records the value under the key's text and
/// hands back what it recorded there before, if anything.
#[verifier::external_body]
pub(crate) fn map_insert(table: &mut FxHashMap<String, u128>, key: String, value: u128) -> (previous:
    Option<u128>)
    ensures
        map_entries(*final(table)) == map_entries(*old(table)).insert(key@, value),
        previous == if map_entries(*old(table)).dom().contains(key@) {
            Some(map_entries(*old(table))[key@])
        } else {
            None::<u128>
        },
{
    table.insert(key, value)
}

/// `HashSet::iter`, each string cloned, collected into a vector: every text
/// of the set once, in no order that could be told beforehand.
#[verifier::external_body]
pub(crate) fn set_items(set: &FxHashSet<String>) -> (items: Vec<String>)
    ensures
        crate::text::strings_text(items@).no_duplicates(),
        crate::text::strings_text(items@).to_set() == set_texts(*set),
{
    set.iter().cloned().collect()
}

} // verus!
