//! Name-keyed collections.
//!
//! Outputs, environments and sets of known inputs are `fxhash` maps and sets
//! keyed by `String`. Verus does not look inside them, and what vstd says of
//! the standard maps holds only of key types and hashers that it knows,
//! which these are not. So what a collection holds is given a name here,
//! with each key as its sequence of characters, and each operation on one
//! is a thin function whose contract says, over those names, what the
//! standard library documents of the call. These contracts are believed,
//! not proved.

use vstd::prelude::*;
use fxhash::{FxHashMap, FxHashSet};
use crate::term::{Term, Value};

verus! {

/// The hasher of `fxhash`. It is carried through; nothing is said of it.
#[verifier::external_type_specification]
#[verifier::external_body]
pub struct ExFxHasher(fxhash::FxHasher);

/// The standard builder of hashers that start from their default. It is
/// carried through; nothing is said of it.
#[verifier::external_type_specification]
#[verifier::external_body]
#[verifier::reject_recursive_types(H)]
pub struct ExBuildHasherDefault<H>(std::hash::BuildHasherDefault<H>);

/// The bindings of a name-to-term map, each key as its sequence of characters.
pub uninterp spec fn term_entries(m: FxHashMap<String, Term>) -> Map<Seq<char>, Term>;

/// The bindings of a name-to-value map, each key as its sequence of characters.
pub uninterp spec fn value_entries(m: FxHashMap<String, Value>) -> Map<Seq<char>, Value>;

/// The members of a name set, each as its sequence of characters.
pub uninterp spec fn name_members(s: FxHashSet<String>) -> Set<Seq<char>>;

/// Whether `s` is a finite set of `n` elements.
pub open spec fn has_size<A>(s: Set<A>, n: nat) -> bool {
    s.finite() && s.len() == n
}

/// `FxHashMap::default`, which makes an empty map: the result has no binding.
#[verifier::external_body]
pub(crate) fn term_map_new() -> (m: FxHashMap<String, Term>)
    ensures
        term_entries(m) == (Map::<Seq<char>, Term>::empty()),
{
    FxHashMap::default()
}

/// `HashMap::insert`: `name` is bound to `t` afterwards and every other
/// binding is as before; the result is what `name` was bound to before.
#[verifier::external_body]
pub(crate) fn term_map_insert(m: &mut FxHashMap<String, Term>, name: String, t: Term) -> (prev: Option<Term>)
    ensures
        term_entries(*final(m)) == term_entries(*old(m)).insert(name@, t),
        prev == (if term_entries(*old(m)).contains_key(name@) {
            Some(term_entries(*old(m))[name@])
        } else {
            None
        }),
{
    m.insert(name, t)
}

/// `HashMap::get`: the term that `name` is bound to, if it is bound.
#[verifier::external_body]
pub(crate) fn term_map_get(m: &FxHashMap<String, Term>, name: &String) -> (found: Option<Term>)
    ensures
        found == (if term_entries(*m).contains_key(name@) {
            Some(term_entries(*m)[name@])
        } else {
            None
        }),
{
    m.get(name).copied()
}

/// `HashMap::len`: the number of bindings, which is finite.
#[verifier::external_body]
pub(crate) fn term_map_len(m: &FxHashMap<String, Term>) -> (n: usize)
    ensures
        has_size(term_entries(*m).dom(), n as nat),
{
    m.len()
}

/// `HashMap::remove`: `name` is unbound afterwards and every other binding
/// is as before; the result is what `name` was bound to before.
#[verifier::external_body]
pub(crate) fn term_map_remove(m: &mut FxHashMap<String, Term>, name: &String) -> (prev: Option<Term>)
    ensures
        term_entries(*final(m)) == term_entries(*old(m)).remove(name@),
        prev == (if term_entries(*old(m)).contains_key(name@) {
            Some(term_entries(*old(m))[name@])
        } else {
            None
        }),
{
    m.remove(name)
}

/// `HashMap::clone`: the copy has the bindings of the map it was made from.
#[verifier::external_body]
pub(crate) fn value_map_clone(m: &FxHashMap<String, Value>) -> (copy: FxHashMap<String, Value>)
    ensures
        value_entries(copy) == value_entries(*m),
{
    m.clone()
}

/// `HashMap::insert`: `name` is bound to `v` afterwards and every other
/// binding is as before; the result is what `name` was bound to before.
#[verifier::external_body]
pub(crate) fn value_map_insert(m: &mut FxHashMap<String, Value>, name: String, v: Value) -> (prev: Option<Value>)
    ensures
        value_entries(*final(m)) == value_entries(*old(m)).insert(name@, v),
        prev == (if value_entries(*old(m)).contains_key(name@) {
            Some(value_entries(*old(m))[name@])
        } else {
            None
        }),
{
    m.insert(name, v)
}

/// `HashMap::get`: the value that `name` is bound to, if it is bound.
#[verifier::external_body]
pub(crate) fn value_map_get(m: &FxHashMap<String, Value>, name: &String) -> (found: Option<Value>)
    ensures
        found == (if value_entries(*m).contains_key(name@) {
            Some(value_entries(*m)[name@])
        } else {
            None
        }),
{
    m.get(name).copied()
}

/// `FxHashSet::default`, which makes an empty set: the result has no member.
#[verifier::external_body]
pub(crate) fn name_set_new() -> (s: FxHashSet<String>)
    ensures
        name_members(s) == Set::<Seq<char>>::empty(),
{
    FxHashSet::default()
}

/// `HashSet::insert`: `name` is a member afterwards and every other name is
/// one just when it was before; the result says whether `name` is new.
#[verifier::external_body]
pub(crate) fn name_set_insert(s: &mut FxHashSet<String>, name: String) -> (fresh: bool)
    ensures
        name_members(*final(s)) == name_members(*old(s)).insert(name@),
        fresh == !name_members(*old(s)).contains(name@),
{
    s.insert(name)
}

/// `HashSet::contains`: whether `name` is a member.
#[verifier::external_body]
pub(crate) fn name_set_contains(s: &FxHashSet<String>, name: &String) -> (found: bool)
    ensures
        found == name_members(*s).contains(name@),
{
    s.contains(name)
}

} // verus!
