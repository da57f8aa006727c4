use vstd::prelude::*;
use std::any::TypeId;
use std::collections::HashMap;
use foldhash::fast::RandomState;

verus! {

/// `std::any::TypeId`, carried as an opaque key.
#[verifier::external_type_specification]
#[verifier::external_body]
pub struct ExTypeId(TypeId);

/// `foldhash::fast::RandomState`, the hasher of the maps keyed by `TypeId`.
#[verifier::external_type_specification]
#[verifier::external_body]
pub struct ExFoldRandomState(RandomState);

/// A map keyed by `TypeId` with the foldhash hasher (`foldhash::HashMap<TypeId, V>`).
pub type TypeMap<V> = HashMap<TypeId, V, RandomState>;

/// Calls `foldhash::HashMapExt::new` for a map keyed by `TypeId`.
/// Trusted: the new map is empty.
#[verifier::external_body]
pub(crate) fn type_map_new<V>() -> (r: TypeMap<V>)
    ensures
        r@.dom() == Set::<TypeId>::empty(),
{
    <TypeMap<V> as foldhash::HashMapExt>::new()
}

/// Calls `HashMap::get` on a map keyed by `TypeId` with the foldhash hasher.
/// Trusted: the result is the value stored under `key`, or `None` when there is none
/// (`TypeId` compares and hashes by value, and a foldhash hasher is fixed for the map's life).
#[verifier::external_body]
pub(crate) fn type_map_get<'a, V>(m: &'a TypeMap<V>, key: &TypeId) -> (r: Option<&'a V>)
    ensures
        r is Some <==> m@.contains_key(*key),
        r is Some ==> *r->0 == m@[*key],
{
    m.get(key)
}

/// Calls `HashMap::get_mut` on a map keyed by `TypeId` with the foldhash hasher.
/// Trusted: the result refers to the value stored under `key`, the map changes only
/// through it, and `None` comes exactly when there is no such value.
#[verifier::external_body]
pub(crate) fn type_map_get_mut<'a, V>(m: &'a mut TypeMap<V>, key: &TypeId) -> (r: Option<&'a mut V>)
    ensures
        r is Some <==> old(m)@.contains_key(*key),
        r is Some ==> *r->0 == old(m)@[*key] && final(m)@ == old(m)@.insert(*key, *final(r->0)),
        r is None ==> final(m)@ == old(m)@,
{
    m.get_mut(key)
}

/// Calls `HashMap::insert` on a map keyed by `TypeId` with the foldhash hasher.
/// Trusted: afterwards `key` maps to `value` and every other key is unchanged.
#[verifier::external_body]
pub(crate) fn type_map_insert<V>(m: &mut TypeMap<V>, key: TypeId, value: V)
    ensures
        final(m)@ == old(m)@.insert(key, value),
{
    m.insert(key, value);
}

/// Calls `std::any::TypeId::of::<T>()`. Nothing is stated of the result: it names `T`
/// and has no value Verus can see.
#[verifier::external_body]
pub(crate) fn type_id_of<T: ?Sized + 'static>() -> TypeId {
    TypeId::of::<T>()
}

/// Calls `<TypeId as PartialEq>::eq`.
/// Trusted: `TypeId` compares by value, so the result is equality of the two ids.
#[verifier::external_body]
pub(crate) fn type_ids_equal(a: &TypeId, b: &TypeId) -> (r: bool)
    ensures
        r == (*a == *b),
{
    *a == *b
}

} // verus!
