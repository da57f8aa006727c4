use vstd::prelude::*;
use crate::containers::{GenerationalIndex, MAX_INDEX};
use crate::foreign::{type_id_of, type_ids_equal};
use std::any::TypeId;
use std::marker::PhantomData;
use vstd::std_specs::cmp::PartialEqSpec;

verus! {

/// An entity of the world, named by its generational index.
#[derive(Copy, Clone, Eq, Hash, PartialEq, Debug, Structural)]
pub struct Entity(GenerationalIndex);

impl Entity {
    /// The generational index that names this entity.
    pub closed spec fn key(self) -> GenerationalIndex {
        self.0
    }

    /// Entities are equal exactly when their indices are.
    pub broadcast proof fn lemma_key_determines(a: Self, b: Self)
        ensures
            #[trigger] a.key() == #[trigger] b.key() ==> a == b,
    {
    }

    pub fn index(&self) -> (r: GenerationalIndex)
        ensures
            r == self.key(),
    {
        self.0
    }
}

impl From<GenerationalIndex> for Entity {
    fn from(handle: GenerationalIndex) -> (r: Self)
        ensures
            r.key() == handle,
    {
        Entity(handle)
    }
}

impl vstd::std_specs::convert::FromSpecImpl<GenerationalIndex> for Entity {
    open spec fn obeys_from_spec() -> bool {
        true
    }

    open spec fn from_spec(v: GenerationalIndex) -> Self {
        Entity::from_key(v)
    }
}

impl Entity {
    /// The entity named by `key`.
    pub closed spec fn from_key(key: GenerationalIndex) -> Self {
        Entity(key)
    }

    pub proof fn lemma_from_key(key: GenerationalIndex)
        ensures
            #[trigger] Self::from_key(key).key() == key,
    {
    }
}

/// The source of fresh ids for entities and handles: one counter, shared by everything that
/// needs an id, hands each id out once (slot = the counter's value, generation 0).
pub struct IdCounter {
    next: u32,
}

impl IdCounter {
    /// The slot of the id the counter hands out next.
    pub closed spec fn value(&self) -> u32 {
        self.next
    }

    /// The ids handed out so far: generation 0, each slot below the counter's value.
    pub open spec fn issued(&self) -> Set<GenerationalIndex> {
        Set::new(|g: GenerationalIndex| g.gen() == 0 && g.slot() < self.value())
    }

    pub fn new() -> (r: Self)
        ensures
            r.value() == 0,
            r.issued() == Set::<GenerationalIndex>::empty(),
    {
        let r = IdCounter { next: 0 };
        assert(r.issued() =~= Set::<GenerationalIndex>::empty());
        r
    }

    /// The slot of the id the counter hands out next.
    pub fn current(&self) -> (r: u32)
        ensures
            r == self.value(),
    {
        self.next
    }

    /// Hands out the next id, which no earlier call handed out, and steps the counter.
    pub(crate) fn draw(&mut self) -> (r: GenerationalIndex)
        requires
            old(self).value() <= MAX_INDEX,
        ensures
            r == GenerationalIndex::spec_new(old(self).value() as nat, 0),
            final(self).value() == old(self).value() + 1,
            !old(self).issued().contains(r),
            final(self).issued() == old(self).issued().insert(r),
    {
        let v = self.next;
        let r = GenerationalIndex::new(v, 0);
        self.next = v + 1;
        proof {
            assert forall|g: GenerationalIndex| #[trigger] self.issued().contains(g)
                == old(self).issued().insert(r).contains(g) by {
                GenerationalIndex::lemma_eq_iff_parts(g, r);
            }
            assert(self.issued() =~= old(self).issued().insert(r));
        }
        r
    }
}

/// A typed reference to an entity's component of type `T`.
#[derive(Debug, Hash)]
pub struct Handle<T>(GenerationalIndex, PhantomData<T>);

impl<T> Handle<T> {
    /// The generational index this handle names.
    pub closed spec fn key(self) -> GenerationalIndex {
        self.0
    }

    /// The handle that names `key`.
    pub closed spec fn from_key(key: GenerationalIndex) -> Self {
        Handle(key, PhantomData)
    }

    pub proof fn lemma_from_key(key: GenerationalIndex)
        ensures
            #[trigger] Self::from_key(key).key() == key,
    {
    }

    /// A handle to a fresh id from `counter`: an id at generation 0 that the counter never
    /// handed out before, to a handle or to an entity.
    pub fn new(counter: &mut IdCounter) -> (r: Self)
        requires
            old(counter).value() <= MAX_INDEX,
        ensures
            r.key() == GenerationalIndex::spec_new(old(counter).value() as nat, 0),
            final(counter).value() == old(counter).value() + 1,
            !old(counter).issued().contains(r.key()),
            final(counter).issued() == old(counter).issued().insert(r.key()),
    {
        Self(counter.draw(), PhantomData)
    }

    pub fn index(&self) -> (r: GenerationalIndex)
        ensures
            r == self.key(),
    {
        self.0
    }

    pub fn entity(&self) -> (r: Entity)
        ensures
            r.key() == self.key(),
    {
        Entity::from(self.0)
    }
}

impl<T> Clone for Handle<T> {
    fn clone(&self) -> (r: Self)
        ensures
            r == *self,
    {
        *self
    }
}

impl<T> Copy for Handle<T> {
}

impl<T> PartialEq for Handle<T> {
    fn eq(&self, other: &Self) -> (r: bool) {
        self.0 == other.0
    }
}

impl<T> vstd::std_specs::cmp::PartialEqSpecImpl for Handle<T> {
    open spec fn obeys_eq_spec() -> bool {
        true
    }

    open spec fn eq_spec(&self, other: &Self) -> bool {
        self.key() == other.key()
    }
}

impl<T> Eq for Handle<T> {
}

impl<T> Handle<T> {
    /// The handle to id `value` (taken modulo 2^32) at generation 0.
    pub fn from_usize(value: usize) -> (r: Self)
        requires
            (value as u32) <= MAX_INDEX,
        ensures
            r.key() == GenerationalIndex::spec_new((value as u32) as nat, 0),
    {
        Self(GenerationalIndex::new(value as u32, 0), PhantomData)
    }
}

impl<T> From<GenerationalIndex> for Handle<T> {
    fn from(value: GenerationalIndex) -> (r: Self)
        ensures
            r.key() == value,
    {
        Self(value, PhantomData)
    }
}

impl<T> vstd::std_specs::convert::FromSpecImpl<GenerationalIndex> for Handle<T> {
    open spec fn obeys_from_spec() -> bool {
        true
    }

    open spec fn from_spec(v: GenerationalIndex) -> Self {
        Self::from_key(v)
    }
}

impl<T> From<Entity> for Handle<T> {
    fn from(value: Entity) -> (r: Self)
        ensures
            r.key() == value.key(),
    {
        Self(value.index(), PhantomData)
    }
}

impl<T> vstd::std_specs::convert::FromSpecImpl<Entity> for Handle<T> {
    open spec fn obeys_from_spec() -> bool {
        true
    }

    open spec fn from_spec(v: Entity) -> Self {
        Self::from_key(v.key())
    }
}

/// A handle together with a value that describes it.
pub struct MetaHandle<T, Meta> {
    handle: Handle<T>,
    pub metadata: Meta,
}

impl<T, Meta> MetaHandle<T, Meta> {
    /// The handle part.
    pub closed spec fn spec_handle(&self) -> Handle<T> {
        self.handle
    }

    /// The description.
    pub closed spec fn spec_metadata(&self) -> Meta {
        self.metadata
    }

    /// A fresh handle from `counter`, described by `metadata`.
    pub fn new(counter: &mut IdCounter, metadata: Meta) -> (r: Self)
        requires
            old(counter).value() <= MAX_INDEX,
        ensures
            r.spec_handle().key() == GenerationalIndex::spec_new(old(counter).value() as nat, 0),
            r.spec_metadata() == metadata,
            final(counter).value() == old(counter).value() + 1,
            !old(counter).issued().contains(r.spec_handle().key()),
            final(counter).issued() == old(counter).issued().insert(r.spec_handle().key()),
    {
        Self { handle: Handle::new(counter), metadata }
    }

    pub fn handle(&self) -> (r: &Handle<T>)
        ensures
            *r == self.spec_handle(),
    {
        &self.handle
    }
}

impl<T, Meta: PartialEq> PartialEq for MetaHandle<T, Meta> {
    fn eq(&self, other: &Self) -> (r: bool) {
        self.metadata == other.metadata && self.handle.0 == other.handle.0
    }
}

impl<T, Meta: PartialEq> vstd::std_specs::cmp::PartialEqSpecImpl for MetaHandle<T, Meta> {
    open spec fn obeys_eq_spec() -> bool {
        Meta::obeys_eq_spec()
    }

    open spec fn eq_spec(&self, other: &Self) -> bool {
        self.spec_metadata().eq_spec(&other.spec_metadata())
            && self.spec_handle().key() == other.spec_handle().key()
    }
}

impl<T, Meta: Eq> Eq for MetaHandle<T, Meta> {
}

impl<T, Meta: Clone> Clone for MetaHandle<T, Meta> {
    fn clone(&self) -> (r: Self)
        ensures
            r.spec_handle() == self.spec_handle(),
    {
        Self { handle: self.handle, metadata: self.metadata.clone() }
    }
}

impl<T, Meta: Copy> Copy for MetaHandle<T, Meta> {
}

/// A handle that remembers the type of its component at run time.
#[derive(Clone, Copy, PartialEq, Eq, Hash, Debug)]
pub struct DynHandle {
    id: GenerationalIndex,
    type_id: TypeId,
}

impl DynHandle {
    /// The generational index this handle names.
    pub closed spec fn key(self) -> GenerationalIndex {
        self.id
    }

    /// The type of the component this handle names.
    pub closed spec fn type_key(self) -> TypeId {
        self.type_id
    }
}

impl<T: 'static> From<Handle<T>> for DynHandle {
    /// Keeps the index and records `TypeId::of::<T>()`.
    fn from(value: Handle<T>) -> (r: Self)
        ensures
            r.key() == value.key(),
    {
        Self { id: value.0, type_id: type_id_of::<T>() }
    }
}

impl<'a, T: 'static> From<&'a Handle<T>> for DynHandle {
    /// Keeps the index and records `TypeId::of::<T>()`.
    fn from(value: &'a Handle<T>) -> (r: Self)
        ensures
            r.key() == value.key(),
    {
        Self { id: value.0, type_id: type_id_of::<T>() }
    }
}

impl<T: 'static> vstd::std_specs::convert::FromSpecImpl<Handle<T>> for DynHandle {
    /// The recorded type id is not modelled, so no whole value is claimed for `from`.
    open spec fn obeys_from_spec() -> bool {
        false
    }

    closed spec fn from_spec(v: Handle<T>) -> Self {
        DynHandle { id: v.0, type_id: arbitrary() }
    }
}

impl<T: 'static> TryFrom<DynHandle> for Handle<T> {
    type Error = DynHandle;

    fn try_from(value: DynHandle) -> (r: Result<Self, DynHandle>)
        ensures
            r is Ok ==> (r->Ok_0).key() == value.key(),
            r is Err ==> r->Err_0 == value,
    {
        Self::try_from_dyn(value)
    }
}

impl<T: 'static> vstd::std_specs::convert::TryFromSpecImpl<DynHandle> for Handle<T> {
    /// Which way the conversion goes rests on `TypeId::of::<T>()`, which is not modelled.
    open spec fn obeys_try_from_spec() -> bool {
        false
    }

    closed spec fn try_from_spec(v: DynHandle) -> Result<Self, DynHandle> {
        Err(v)
    }
}

impl<'a, T: 'static> vstd::std_specs::convert::FromSpecImpl<&'a Handle<T>> for DynHandle {
    /// The recorded type id is not modelled, so no whole value is claimed for `from`.
    open spec fn obeys_from_spec() -> bool {
        false
    }

    closed spec fn from_spec(v: &'a Handle<T>) -> Self {
        DynHandle { id: v.0, type_id: arbitrary() }
    }
}

impl<'a, T: 'static> vstd::std_specs::convert::TryFromSpecImpl<&'a DynHandle> for Handle<T> {
    /// Which way the conversion goes rests on `TypeId::of::<T>()`, which is not modelled.
    open spec fn obeys_try_from_spec() -> bool {
        false
    }

    closed spec fn try_from_spec(v: &'a DynHandle) -> Result<Self, &'a DynHandle> {
        Err(v)
    }
}

impl<'a, T: 'static> TryFrom<&'a DynHandle> for Handle<T> {
    type Error = &'a DynHandle;

    fn try_from(value: &'a DynHandle) -> (r: Result<Self, &'a DynHandle>)
        ensures
            r is Ok ==> (r->Ok_0).key() == value.key(),
            r is Err ==> *r->Err_0 == *value,
    {
        let expected = type_id_of::<T>();
        if type_ids_equal(&value.type_id, &expected) {
            Ok(Self(value.id, PhantomData))
        } else {
            Err(value)
        }
    }
}

impl<T: 'static> Handle<T> {
    /// The typed handle, when `value` was made from a handle of type `T`; `value` back otherwise.
    pub fn try_from_dyn(value: DynHandle) -> (r: Result<Self, DynHandle>)
        ensures
            r is Ok ==> (r->Ok_0).key() == value.key(),
            r is Err ==> r->Err_0 == value,
    {
        let expected = type_id_of::<T>();
        if type_ids_equal(&value.type_id, &expected) {
            Ok(Self(value.id, PhantomData))
        } else {
            Err(value)
        }
    }
}

/// How a tree is walked: children before their parent, or the parent first.
pub enum TreeOrder {
    PostOrder,
    PreOrder,
}

/// A typed name for the resource of type `T`.
pub struct Res<T> {
    _phantom: PhantomData<T>,
}

impl<T> Clone for Res<T> {
    fn clone(&self) -> (r: Self)
        ensures
            r == *self,
    {
        *self
    }
}

impl<T> Copy for Res<T> {
}

impl<T> Res<T> {
    pub fn new() -> Self {
        Res { _phantom: PhantomData }
    }
}

/// Any type that can live in the world as a resource.
pub trait DynResource {
}

impl<T: 'static> DynResource for T {
}

} // verus!
