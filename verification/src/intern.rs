//! Field names repeat from frame to frame; within one response each distinct
//! name is allocated once and shared.
//!
//! The store is a `fnv::FnvHashSet`, a standard hash set with the FNV hasher.
//! What it holds is named by [`interned`]; the contracts of its methods below
//! are taken from the documentation of `HashSet` and are not proved here.

use crate::text::shared_clone;
use crate::text::shared_from;
use fnv::FnvHashSet;
use std::sync::Arc;
use vstd::prelude::*;

verus! {

/// `fnv::FnvHasher`, the hasher of the store. Nothing is claimed of it.
#[verifier::external_type_specification]
#[verifier::external_body]
pub struct ExFnvHasher(fnv::FnvHasher);

/// `core::hash::BuildHasherDefault`, which makes the store's hashers.
/// Nothing is claimed of it.
#[verifier::external_type_specification]
#[verifier::external_body]
#[verifier::reject_recursive_types(H)]
pub struct ExBuildHasherDefault<H>(core::hash::BuildHasherDefault<H>);

/// The names a store holds.
pub uninterp spec fn interned(store: FnvHashSet<Arc<str>>) -> Set<Seq<char>>;

/// `FnvHashSet::default`: a store that holds no name.
#[verifier::external_body]
pub(crate) fn empty_store() -> (store: FnvHashSet<Arc<str>>)
    ensures
        interned(store) == Set::<Seq<char>>::empty(),
{
    FnvHashSet::default()
}

/// `HashSet::get`: the stored name equal to `name`, if the store holds one.
#[verifier::external_body]
pub(crate) fn stored<'a>(store: &'a FnvHashSet<Arc<str>>, name: &str) -> (found: Option<
    &'a Arc<str>,
>)
    ensures
        found is Some <==> interned(*store).contains(name@),
        found matches Some(shared) ==> (**shared)@ == name@,
{
    store.get(name)
}

/// `HashSet::insert`: afterwards the store also holds `name`; returns whether
/// it was new.
#[verifier::external_body]
pub(crate) fn store_insert(store: &mut FnvHashSet<Arc<str>>, name: Arc<str>) -> (fresh: bool)
    ensures
        interned(*final(store)) == interned(*old(store)).insert((*name)@),
        fresh == !interned(*old(store)).contains((*name)@),
{
    store.insert(name)
}

/// `HashSet::clone`: a store that holds the same names.
#[verifier::external_body]
pub(crate) fn clone_store(store: &FnvHashSet<Arc<str>>) -> (res: FnvHashSet<Arc<str>>)
    ensures
        interned(res) == interned(*store),
{
    store.clone()
}

/// Returns the shared allocation of `value`, adding one to the store when it
/// holds none yet.
pub fn simple_intern(store: &mut FnvHashSet<Arc<str>>, value: &str) -> (shared: Arc<str>)
    ensures
        (*shared)@ == value@,
        interned(*final(store)) == interned(*old(store)).insert(value@),
{
    match stored(store, value) {
        Some(v) => {
            let shared = shared_clone(v);
            assert(interned(*store).insert(value@) =~= interned(*store));
            shared
        },
        None => {
            let v = shared_from(value);
            store_insert(store, shared_clone(&v));
            v
        },
    }
}

} // verus!
