use vstd::prelude::*;
use crate::containers::{GenerationalIndex, MAX_INDEX, MAX_GENERATION};
use crate::ecs::Entity;
use crate::containers::{DynEcsContainer, DynEcsEntityContainer, EcsContainer, EcsEntityContainer};

verus! {

/// The position of the last entry whose key lives in slot `slot`.
pub open spec fn last_in_slot<T>(entries: Seq<(GenerationalIndex, T)>, slot: nat) -> Option<int>
    decreases entries.len(),
{
    if entries.len() == 0 {
        None
    } else if entries.last().0.slot() == slot {
        Some(entries.len() - 1)
    } else {
        last_in_slot(entries.drop_last(), slot)
    }
}

/// Whether a slot entry that points at dense position `pos` with generation `generation`
/// coincides with the empty-slot marker.
pub open spec fn is_null_entry(pos: int, generation: nat) -> bool {
    pos == MAX_INDEX && generation == MAX_GENERATION
}

/// What a set holding `entries` (in insertion order) answers for `key`: the value of the
/// last entry in the key's slot, if that entry carries exactly this key.
pub open spec fn lookup<T>(entries: Seq<(GenerationalIndex, T)>, key: GenerationalIndex) -> Option<T> {
    match last_in_slot(entries, key.slot()) {
        Some(p) => if entries[p].0 == key && !is_null_entry(p, key.gen()) {
            Some(entries[p].1)
        } else {
            None
        },
        None => None,
    }
}

/// The slot entry that a set holding `entries` keeps for slot `slot`.
pub open spec fn slot_entry_matches<T>(
    entries: Seq<(GenerationalIndex, T)>,
    slot: nat,
    e: GenerationalIndex,
) -> bool {
    match last_in_slot(entries, slot) {
        Some(p) => e.slot() == p && e.gen() == entries[p].0.gen(),
        None => e.slot() == MAX_INDEX && e.gen() == MAX_GENERATION,
    }
}

/// The slot entry kept for `slot`: the position and generation of the slot's last entry,
/// or the empty-slot marker.
pub open spec fn slot_entry<T>(entries: Seq<(GenerationalIndex, T)>, slot: nat) -> GenerationalIndex {
    match last_in_slot(entries, slot) {
        Some(p) => GenerationalIndex::spec_new(p as nat, entries[p].0.gen()),
        None => GenerationalIndex::spec_null(),
    }
}

/// The dense position the slot table keeps for `slot` (the empty-slot marker's slot when none).
pub open spec fn slot_position<T>(entries: Seq<(GenerationalIndex, T)>, slot: nat) -> int {
    slot_entry(entries, slot).slot() as int
}

/// The number of slots the slot table covers: one past the largest slot of any entry.
pub open spec fn slot_bound<T>(entries: Seq<(GenerationalIndex, T)>) -> nat
    decreases entries.len(),
{
    if entries.len() == 0 {
        0
    } else {
        let rest = slot_bound(entries.drop_last());
        let here = entries.last().0.slot() + 1;
        if rest < here { here } else { rest }
    }
}

/// What walking the slot table through each entry yields: for every entry in order,
/// the slot entry of its slot.
pub open spec fn slot_entries_of<T>(entries: Seq<(GenerationalIndex, T)>) -> Seq<GenerationalIndex> {
    Seq::new(entries.len(), |p: int| slot_entry(entries, entries[p].0.slot()))
}

/// The keys of the entries, as entities, in order.
pub open spec fn entities_of<T>(entries: Seq<(GenerationalIndex, T)>) -> Seq<Entity> {
    Seq::new(entries.len(), |p: int| Entity::from_key(entries[p].0))
}

pub proof fn lemma_last_in_slot_push<T>(entries: Seq<(GenerationalIndex, T)>, x: (GenerationalIndex, T), slot: nat)
    ensures
        last_in_slot(entries.push(x), slot) == if x.0.slot() == slot {
            Some(entries.len() as int)
        } else {
            last_in_slot(entries, slot)
        },
{
    assert(entries.push(x).drop_last() =~= entries);
}

pub proof fn lemma_last_in_slot_facts<T>(entries: Seq<(GenerationalIndex, T)>, slot: nat)
    ensures
        match last_in_slot(entries, slot) {
            Some(p) => {
                &&& 0 <= p < entries.len()
                &&& entries[p].0.slot() == slot
                &&& forall|q: int| p < q < entries.len() ==> (#[trigger] entries[q]).0.slot() != slot
            },
            None => forall|q: int| 0 <= q < entries.len() ==> (#[trigger] entries[q]).0.slot() != slot,
        },
    decreases entries.len(),
{
    if entries.len() > 0 {
        lemma_last_in_slot_facts(entries.drop_last(), slot);
        assert forall|q: int| 0 <= q < entries.len() - 1 implies entries.drop_last()[q] == entries[q] by {}
    }
}

/// Entries with the same keys in the same order have the same last position in every slot.
pub proof fn lemma_last_in_slot_same_keys<T>(a: Seq<(GenerationalIndex, T)>, b: Seq<(GenerationalIndex, T)>, slot: nat)
    requires
        a.len() == b.len(),
        forall|q: int| 0 <= q < a.len() ==> (#[trigger] a[q]).0 == b[q].0,
    ensures
        last_in_slot(a, slot) == last_in_slot(b, slot),
    decreases a.len(),
{
    if a.len() > 0 {
        assert(a.last().0 == b.last().0);
        assert forall|q: int| 0 <= q < a.drop_last().len() implies (#[trigger] a.drop_last()[q]).0 == b.drop_last()[q].0 by {
            assert(a[q].0 == b[q].0);
        }
        lemma_last_in_slot_same_keys(a.drop_last(), b.drop_last(), slot);
    }
}

/// Entries with the same keys in the same order cover the same slots.
pub proof fn lemma_slot_bound_same_keys<T>(a: Seq<(GenerationalIndex, T)>, b: Seq<(GenerationalIndex, T)>)
    requires
        a.len() == b.len(),
        forall|q: int| 0 <= q < a.len() ==> (#[trigger] a[q]).0 == b[q].0,
    ensures
        slot_bound(a) == slot_bound(b),
    decreases a.len(),
{
    if a.len() > 0 {
        assert(a.last().0 == b.last().0);
        assert forall|q: int| 0 <= q < a.drop_last().len() implies (#[trigger] a.drop_last()[q]).0 == b.drop_last()[q].0 by {
            assert(a[q].0 == b[q].0);
        }
        lemma_slot_bound_same_keys(a.drop_last(), b.drop_last());
    }
}

/// A set with no entries holds no key.
pub proof fn lemma_empty_lookup<T>(key: GenerationalIndex)
    ensures
        lookup(Seq::<(GenerationalIndex, T)>::empty(), key) is None,
{
}

/// Inserting `(key, value)` makes `key` answer `value` (unless its dense position and generation
/// coincide with the empty-slot marker), hides every other key of the same slot, and leaves
/// the keys of other slots as they were.
pub proof fn lemma_lookup_after_insert<T>(
    entries: Seq<(GenerationalIndex, T)>,
    key: GenerationalIndex,
    value: T,
    other: GenerationalIndex,
)
    ensures
        lookup(entries.push((key, value)), other) == if other.slot() != key.slot() {
            lookup(entries, other)
        } else if other == key && !is_null_entry(entries.len() as int, key.gen()) {
            Some(value)
        } else {
            None
        },
{
    lemma_last_in_slot_push(entries, (key, value), other.slot());
    let e2 = entries.push((key, value));
    if other.slot() != key.slot() {
        lemma_last_in_slot_facts(entries, other.slot());
        if last_in_slot(entries, other.slot()) is Some {
            let p = last_in_slot(entries, other.slot())->0;
            assert(e2[p] == entries[p]);
        }
    }
}

/// A present key sits at the position its slot keeps.
pub proof fn lemma_lookup_position<T>(entries: Seq<(GenerationalIndex, T)>, key: GenerationalIndex)
    requires
        entries.len() <= 0x100000,
        lookup(entries, key) is Some,
    ensures
        0 <= slot_position(entries, key.slot()) < entries.len(),
        entries[slot_position(entries, key.slot())].0 == key,
        lookup(entries, key) == Some(entries[slot_position(entries, key.slot())].1),
{
    lemma_last_in_slot_facts(entries, key.slot());
    let p = last_in_slot(entries, key.slot())->0;
    GenerationalIndex::lemma_parts(entries[p].0);
    GenerationalIndex::lemma_spec_new(p as nat, entries[p].0.gen());
}

/// Writing a new value through the position of a present key changes what that key answers
/// and nothing else.
pub proof fn lemma_lookup_after_write<T>(
    entries: Seq<(GenerationalIndex, T)>,
    key: GenerationalIndex,
    value: T,
    other: GenerationalIndex,
)
    requires
        entries.len() <= 0x100000,
        lookup(entries, key) is Some,
    ensures
        lookup(entries.update(slot_position(entries, key.slot()), (key, value)), other)
            == if other == key { Some(value) } else { lookup(entries, other) },
{
    lemma_last_in_slot_facts(entries, key.slot());
    let p = last_in_slot(entries, key.slot())->0;
    GenerationalIndex::lemma_parts(entries[p].0);
    GenerationalIndex::lemma_spec_new(p as nat, entries[p].0.gen());
    assert(slot_position(entries, key.slot()) == p);
    let e2 = entries.update(p, (key, value));
    assert forall|q: int| 0 <= q < e2.len() implies (#[trigger] e2[q]).0 == entries[q].0 by {}
    lemma_last_in_slot_same_keys(e2, entries, other.slot());
    lemma_last_in_slot_facts(entries, other.slot());
    if other.slot() == key.slot() {
        if other != key {
            assert(e2[p].0 == key);
        }
    } else {
        if last_in_slot(entries, other.slot()) is Some {
            let q = last_in_slot(entries, other.slot())->0;
            assert(q != p);
            assert(e2[q] == entries[q]);
        }
    }
}

/// A set of values keyed by [`GenerationalIndex`]: values sit densely in insertion order,
/// and a sparse table maps each slot to the dense position of its latest entry.
pub struct SparseSet<T> {
    sparse: Vec<GenerationalIndex>,
    dense: Vec<(GenerationalIndex, T)>,
    total: usize,
}

impl<T> View for SparseSet<T> {
    type V = Seq<(GenerationalIndex, T)>;

    /// The entries in insertion order.
    closed spec fn view(&self) -> Seq<(GenerationalIndex, T)> {
        self.dense@
    }
}

impl<T> SparseSet<T> {
    /// The sparse table agrees with the dense entries.
    pub closed spec fn wf(&self) -> bool {
        &&& self.total == self.dense.len()
        &&& self.dense.len() <= 0x100000
        &&& self.sparse.len() <= 0x100000
        &&& self.sparse.len() == slot_bound(self.dense@)
        &&& forall|p: int| 0 <= p < self.dense.len() ==> (#[trigger] self.dense@[p]).0.slot() < self.sparse.len()
        &&& forall|s: int| 0 <= s < self.sparse.len() ==> slot_entry_matches(self.dense@, s as nat, #[trigger] self.sparse@[s])
    }

    /// Both sets keep the same slot table and count; only their entries may differ.
    pub closed spec fn same_table(&self, other: Self) -> bool {
        &&& self.sparse == other.sparse
        &&& self.total == other.total
    }

    /// Writing new values under the same keys keeps a set well-formed: the slot table only
    /// looks at the keys.
    pub proof fn lemma_wf_same_keys(&self, before: Self)
        requires
            before.wf(),
            self.same_table(before),
            self@.len() == before@.len(),
            forall|i: int| 0 <= i < before@.len() ==> (#[trigger] self@[i]).0 == before@[i].0,
        ensures
            self.wf(),
    {
        lemma_slot_bound_same_keys(self@, before@);
        assert forall|p: int| 0 <= p < self.dense.len() implies (#[trigger] self.dense@[p]).0.slot() < self.sparse.len() by {
            assert(before.dense@[p].0 == self.dense@[p].0);
        }
        assert forall|s: int| 0 <= s < self.sparse.len() implies slot_entry_matches(self.dense@, s as nat, #[trigger] self.sparse@[s]) by {
            lemma_last_in_slot_same_keys(self@, before@, s as nat);
            assert(slot_entry_matches(before.dense@, s as nat, before.sparse@[s]));
            lemma_last_in_slot_facts(self@, s as nat);
            if last_in_slot(self@, s as nat) is Some {
                let p = last_in_slot(self@, s as nat)->0;
                assert(self@[p].0 == before@[p].0);
            }
        }
    }

    /// A well-formed set holds at most 2^20 entries.
    pub proof fn lemma_wf_len(&self)
        requires
            self.wf(),
        ensures
            self@.len() <= 0x100000,
    {
    }

    /// The slot table leads from `index` to a dense entry that carries `index`.
    pub closed spec fn located(&self, index: GenerationalIndex) -> bool {
        &&& index.slot() < self.sparse@.len()
        &&& self.sparse@[index.slot() as int].slot() < self.dense@.len()
        &&& self.dense@[self.sparse@[index.slot() as int].slot() as int].0 == index
    }

    /// The dense position the slot table gives for `index`.
    pub closed spec fn position(&self, index: GenerationalIndex) -> int {
        self.sparse@[index.slot() as int].slot() as int
    }

    /// What the set answers for `key`.
    pub open spec fn spec_get(&self, key: GenerationalIndex) -> Option<T> {
        lookup(self@, key)
    }

    pub fn new() -> (r: Self)
        ensures
            r.wf(),
            r@ == Seq::<(GenerationalIndex, T)>::empty(),
    {
        Self { sparse: Vec::new(), dense: Vec::new(), total: 0 }
    }

    pub fn insert(&mut self, index: GenerationalIndex, value: T)
        requires
            old(self).wf(),
            old(self)@.len() < 0x100000,
        ensures
            final(self).wf(),
            final(self)@ == old(self)@.push((index, value)),
    {
        let ghost old_dense = self.dense@;
        let ghost old_sparse = self.sparse@;
        let dense_location = self.dense.len();
        self.dense.push((index, value));

        let sparse_location = index.index();
        proof {
            GenerationalIndex::lemma_parts(index);
        }
        self.sparse.reserve(sparse_location);

        while self.sparse.len() <= sparse_location
            invariant
                self.dense@ == old_dense.push((index, value)),
                self.total == old_dense.len(),
                dense_location == old_dense.len(),
                sparse_location == index.slot(),
                sparse_location < 0x100000,
                old_sparse.len() <= self.sparse.len() <= 0x100000,
                old_sparse.len() <= sparse_location ==> self.sparse.len() <= sparse_location + 1,
                old_sparse.len() > sparse_location ==> self.sparse.len() == old_sparse.len(),
                forall|s: int| 0 <= s < old_sparse.len() ==> self.sparse@[s] == old_sparse[s],
                forall|s: int| old_sparse.len() <= s < self.sparse.len() ==> (#[trigger] self.sparse@[s]).slot() == MAX_INDEX
                    && self.sparse@[s].gen() == MAX_GENERATION,
            decreases sparse_location + 1 - self.sparse.len(),
        {
            self.sparse.push(GenerationalIndex::null());
        }
        let entry = GenerationalIndex::new(dense_location as u32, index.generation());
        self.sparse.set(sparse_location, entry);
        self.total = self.total + 1;

        proof {
            let nd = self.dense@;
            assert(nd.drop_last() =~= old_dense);
            assert(self.sparse.len() == slot_bound(nd));
            assert forall|p: int| 0 <= p < nd.len() implies (#[trigger] nd[p]).0.slot() < self.sparse.len() by {
                if p < old_dense.len() {
                    assert(nd[p] == old_dense[p]);
                }
            }
            assert forall|s: int| 0 <= s < self.sparse.len() implies slot_entry_matches(nd, s as nat, #[trigger] self.sparse@[s]) by {
                lemma_last_in_slot_push(old_dense, (index, value), s as nat);
                if s == sparse_location {
                    assert(self.sparse@[s] == entry);
                    assert(nd[dense_location as int].0 == index);
                    assert(slot_entry_matches(nd, s as nat, self.sparse@[s]));
                } else {
                    if s >= old_sparse.len() {
                        lemma_last_in_slot_facts(old_dense, s as nat);
                        if last_in_slot(old_dense, s as nat) is Some {
                            let p = last_in_slot(old_dense, s as nat)->0;
                            assert(old_dense[p].0.slot() < old_sparse.len());
                        }
                    } else {
                        let p = last_in_slot(old_dense, s as nat);
                        lemma_last_in_slot_facts(old_dense, s as nat);
                        if p is Some {
                            assert(nd[p->0] == old_dense[p->0]);
                        }
                        assert(self.sparse@[s] == old_sparse[s]);
                        assert(slot_entry_matches(old_dense, s as nat, old_sparse[s]));
                        assert(slot_entry_matches(nd, s as nat, self.sparse@[s]));
                    }
                }
            }
        }
    }

    /// Whether `index` has a value; never panics, whatever the state.
    pub fn contains(&self, index: GenerationalIndex) -> (r: bool)
        ensures
            self.wf() ==> r == self.spec_get(index) is Some,
            r ==> self.located(index),
            self.wf() && r ==> self.spec_get(index) == Some(self@[self.position(index)].1),
    {
        let sparse_index = index.index();
        if self.sparse.len() <= sparse_index {
            proof {
                if self.wf() {
                    lemma_last_in_slot_facts(self.dense@, index.slot());
                    if last_in_slot(self.dense@, index.slot()) is Some {
                        let p = last_in_slot(self.dense@, index.slot())->0;
                        assert(self.dense@[p].0.slot() < self.sparse.len());
                    }
                }
            }
            return false;
        }
        let dense_index = self.sparse[sparse_index];
        if dense_index == GenerationalIndex::null() {
            proof {
                GenerationalIndex::lemma_eq_iff_parts(dense_index, GenerationalIndex::spec_null());
                if self.wf() {
                    assert(slot_entry_matches(self.dense@, index.slot(), self.sparse@[sparse_index as int]));
                }
            }
            return false;
        }
        proof {
            GenerationalIndex::lemma_eq_iff_parts(dense_index, GenerationalIndex::spec_null());
        }
        let dense_index = dense_index.index();
        if dense_index >= self.dense.len() {
            proof {
                if self.wf() {
                    assert(slot_entry_matches(self.dense@, index.slot(), self.sparse@[sparse_index as int]));
                    lemma_last_in_slot_facts(self.dense@, index.slot());
                }
            }
            return false;
        }
        if self.dense[dense_index].0 != index {
            proof {
                if self.wf() {
                    assert(slot_entry_matches(self.dense@, index.slot(), self.sparse@[sparse_index as int]));
                    lemma_last_in_slot_facts(self.dense@, index.slot());
                }
            }
            return false;
        }
        proof {
            if self.wf() {
                assert(slot_entry_matches(self.dense@, index.slot(), self.sparse@[sparse_index as int]));
                lemma_last_in_slot_facts(self.dense@, index.slot());
            }
        }
        true
    }

    fn get_unchecked(&self, index: GenerationalIndex) -> (r: &T)
        requires
            self.located(index),
        ensures
            *r == self@[self.position(index)].1,
    {
        let sparse_index = index.index();
        let dense_index = self.sparse[sparse_index].index();
        &self.dense[dense_index].1
    }

    fn get_mut_unchecked(&mut self, index: GenerationalIndex) -> (r: &mut T)
        requires
            old(self).located(index),
        ensures
            *r == old(self)@[old(self).position(index)].1,
            final(self)@ == old(self)@.update(old(self).position(index), (index, *final(r))),
            final(self).sparse == old(self).sparse,
            final(self).total == old(self).total,
    {
        let sparse_index = index.index();
        let dense_index = self.sparse[sparse_index].index();
        &mut self.dense[dense_index].1
    }

    /// The value stored under `index`, if any; never panics.
    pub fn get(&self, index: GenerationalIndex) -> (r: Option<&T>)
        ensures
            self.wf() ==> (r is Some <==> self.spec_get(index) is Some),
            self.wf() && r is Some ==> *r->0 == self.spec_get(index)->0,
    {
        if !self.contains(index) {
            None
        } else {
            Some(self.get_unchecked(index))
        }
    }

    /// A mutable reference to the value stored under `index`, if any; never panics.
    pub fn get_mut(&mut self, index: GenerationalIndex) -> (r: Option<&mut T>)
        ensures
            old(self).wf() ==> (r is Some <==> old(self).spec_get(index) is Some),
            old(self).wf() && r is Some ==> *r->0 == old(self).spec_get(index)->0,
            old(self).wf() && r is Some ==> final(self)@ == old(self)@.update(
                slot_position(old(self)@, index.slot()),
                (index, *final(r->0)),
            ),
            old(self).wf() && r is Some ==> final(self).spec_get(index) == Some(*final(r->0)),
            old(self).wf() && r is Some ==> forall|k: GenerationalIndex| k != index
                ==> #[trigger] final(self).spec_get(k) == old(self).spec_get(k),
            r is None ==> *final(self) == *old(self),
            old(self).wf() ==> final(self).wf(),
    {
        if !self.contains(index) {
            None
        } else {
            proof {
                if old(self).wf() {
                    old(self).lemma_wf_len();
                    let e = old(self)@;
                    let pos = slot_position(e, index.slot());
                    assert forall|v: T, k: GenerationalIndex|
                        #[trigger] lookup(e.update(pos, (index, v)), k)
                            == if k == index { Some(v) } else { lookup(e, k) } by {
                        lemma_lookup_after_write(e, index, v, k);
                    }
                }
                old(self).lemma_position(index);
                let pos = old(self).position(index);
                assert forall|b: Self|
                    old(self).wf() && b.sparse == old(self).sparse && b.total == old(self).total
                        && b.dense@ == old(self).dense@.update(pos, (index, b.dense@[pos].1))
                    implies #[trigger] b.wf() by {
                    Self::lemma_value_update_keeps_wf(*old(self), b, pos, (index, b.dense@[pos].1));
                }
            }
            Some(self.get_mut_unchecked(index))
        }
    }

    proof fn lemma_value_update_keeps_wf(a: Self, b: Self, pos: int, v: (GenerationalIndex, T))
        requires
            a.wf(),
            b.sparse == a.sparse,
            b.total == a.total,
            0 <= pos < a.dense@.len(),
            v.0 == a.dense@[pos].0,
            b.dense@ == a.dense@.update(pos, v),
        ensures
            b.wf(),
    {
        assert forall|p: int| 0 <= p < b.dense.len() implies (#[trigger] b.dense@[p]).0 == a.dense@[p].0 by {}
        lemma_slot_bound_same_keys(b.dense@, a.dense@);
        assert forall|p: int| 0 <= p < b.dense.len() implies (#[trigger] b.dense@[p]).0.slot() < b.sparse.len() by {
            assert(a.dense@[p].0.slot() < a.sparse.len());
        }
        assert forall|s: int| 0 <= s < b.sparse.len() implies slot_entry_matches(b.dense@, s as nat, #[trigger] b.sparse@[s]) by {
            lemma_last_in_slot_same_keys(b.dense@, a.dense@, s as nat);
            assert(slot_entry_matches(a.dense@, s as nat, a.sparse@[s]));
            lemma_last_in_slot_facts(a.dense@, s as nat);
        }
    }

    proof fn lemma_slot_entry(&self, slot: int)
        requires
            self.wf(),
            0 <= slot < self.sparse@.len(),
        ensures
            self.sparse@[slot] == slot_entry(self@, slot as nat),
    {
        assert(slot_entry_matches(self.dense@, slot as nat, self.sparse@[slot]));
        lemma_last_in_slot_facts(self.dense@, slot as nat);
        let e = slot_entry(self@, slot as nat);
        GenerationalIndex::lemma_spec_new(MAX_INDEX as nat, MAX_GENERATION as nat);
        match last_in_slot(self.dense@, slot as nat) {
            Some(p) => {
                GenerationalIndex::lemma_parts(self.dense@[p].0);
                GenerationalIndex::lemma_spec_new(p as nat, self.dense@[p].0.gen());
            },
            None => {},
        }
        GenerationalIndex::lemma_eq_iff_parts(self.sparse@[slot], e);
    }

    proof fn lemma_position(&self, index: GenerationalIndex)
        requires
            self.located(index),
        ensures
            self.wf() ==> self.position(index) == slot_position(self@, index.slot()),
    {
        if self.wf() {
            self.lemma_slot_entry(index.slot() as int);
        }
    }

    /// Mutable references to the values at the dense positions that the slot table keeps
    /// for the slots of `indices` (generations are not compared).
    pub fn get_disjoint_mut<const N: usize>(&mut self, indices: [GenerationalIndex; N]) -> (r: [&mut T; N])
        requires
            old(self).wf(),
            forall|i: int| 0 <= i < N ==> (#[trigger] indices[i]).slot() < slot_bound(old(self)@),
            forall|i: int, j: int| 0 <= i < j < N ==> indices[i].slot() != indices[j].slot(),
            forall|i: int| 0 <= i < N ==> slot_position(old(self)@, (#[trigger] indices[i]).slot()) < old(self)@.len(),
            forall|i: int, j: int| 0 <= i < j < N ==>
                slot_position(old(self)@, indices[i].slot()) != slot_position(old(self)@, indices[j].slot()),
        ensures
            final(self).wf(),
            forall|i: int| 0 <= i < N ==>
                *r[i] == old(self)@[slot_position(old(self)@, indices[i].slot())].1,
            final(self)@.len() == old(self)@.len(),
            forall|p: int| 0 <= p < old(self)@.len()
                && (forall|i: int| 0 <= i < N ==> slot_position(old(self)@, indices[i].slot()) != p)
                ==> final(self)@[p] == old(self)@[p],
            forall|i: int| 0 <= i < N ==> final(self)@[slot_position(old(self)@, indices[i].slot())]
                == (old(self)@[slot_position(old(self)@, indices[i].slot())].0, *final(r[i])),
    {
        let mut positions: [usize; N] = [0; N];
        let mut i: usize = 0;
        while i < N
            invariant
                self.wf(),
                *self == *old(self),
                forall|k: int| 0 <= k < N ==> (#[trigger] indices[k]).slot() < slot_bound(self@),
                forall|k: int| 0 <= k < i ==> positions[k] == slot_position(self@, (#[trigger] indices[k]).slot()),
            decreases N - i,
        {
            let slot = indices[i].index();
            proof {
                self.lemma_slot_entry(slot as int);
            }
            positions[i] = self.sparse[slot].index();
            i = i + 1;
        }
        proof {
            let a = *old(self);
            assert forall|b: Self|
                b.sparse == a.sparse && b.total == a.total && b.dense@.len() == a.dense@.len()
                    && (forall|p: int| 0 <= p < a.dense@.len() ==> (#[trigger] b.dense@[p]).0 == a.dense@[p].0)
                implies #[trigger] b.wf() by {
                Self::lemma_same_keys_keeps_wf(a, b);
            }
            assert forall|k: int| 0 <= k < N implies #[trigger] positions[k] == slot_position(a@, indices[k].slot()) by {
                assert(indices[k].slot() == indices[k].slot());
            }
        }
        values_disjoint_mut(&mut self.dense, positions)
    }

    proof fn lemma_same_keys_keeps_wf(a: Self, b: Self)
        requires
            a.wf(),
            b.sparse == a.sparse,
            b.total == a.total,
            b.dense@.len() == a.dense@.len(),
            forall|p: int| 0 <= p < a.dense@.len() ==> (#[trigger] b.dense@[p]).0 == a.dense@[p].0,
        ensures
            b.wf(),
    {
        lemma_slot_bound_same_keys(b.dense@, a.dense@);
        assert forall|p: int| 0 <= p < b.dense.len() implies (#[trigger] b.dense@[p]).0.slot() < b.sparse.len() by {
            assert(a.dense@[p].0.slot() < a.sparse.len());
        }
        assert forall|s: int| 0 <= s < b.sparse.len() implies slot_entry_matches(b.dense@, s as nat, #[trigger] b.sparse@[s]) by {
            lemma_last_in_slot_same_keys(b.dense@, a.dense@, s as nat);
            assert(slot_entry_matches(a.dense@, s as nat, a.sparse@[s]));
            lemma_last_in_slot_facts(a.dense@, s as nat);
        }
    }

    /// Whether some entry has a key in slot `slot`; never panics.
    pub fn slot_occupied(&self, slot: usize) -> (r: bool)
        ensures
            self.wf() ==> r == last_in_slot(self@, slot as nat) is Some,
    {
        if slot >= self.sparse.len() {
            proof {
                if self.wf() {
                    lemma_last_in_slot_facts(self.dense@, slot as nat);
                    if last_in_slot(self.dense@, slot as nat) is Some {
                        let p = last_in_slot(self.dense@, slot as nat)->0;
                        assert(self.dense@[p].0.slot() < self.sparse.len());
                    }
                }
            }
            return false;
        }
        let pos = self.sparse[slot].index();
        if pos >= self.dense.len() {
            proof {
                if self.wf() {
                    self.lemma_slot_entry(slot as int);
                    lemma_last_in_slot_facts(self.dense@, slot as nat);
                    if last_in_slot(self.dense@, slot as nat) is Some {
                        let p = last_in_slot(self.dense@, slot as nat)->0;
                        GenerationalIndex::lemma_parts(self.dense@[p].0);
                        GenerationalIndex::lemma_spec_new(p as nat, self.dense@[p].0.gen());
                    }
                }
            }
            return false;
        }
        let found = self.dense[pos].0.index() == slot;
        proof {
            if self.wf() {
                self.lemma_slot_entry(slot as int);
                lemma_last_in_slot_facts(self.dense@, slot as nat);
                GenerationalIndex::lemma_spec_new(MAX_INDEX as nat, MAX_GENERATION as nat);
                if last_in_slot(self.dense@, slot as nat) is Some {
                    let p = last_in_slot(self.dense@, slot as nat)->0;
                    GenerationalIndex::lemma_parts(self.dense@[p].0);
                    GenerationalIndex::lemma_spec_new(p as nat, self.dense@[p].0.gen());
                }
            }
        }
        found
    }

    /// Whether `get_disjoint_mut` may be called with `indices`: every slot is covered by the
    /// slot table, no two slots are the same, and the dense positions they lead to are in
    /// range and pairwise distinct.
    pub fn disjoint_ok(&self, indices: &[GenerationalIndex]) -> (r: bool)
        requires
            self.wf(),
        ensures
            r == {
                &&& forall|i: int| 0 <= i < indices@.len() ==> (#[trigger] indices@[i]).slot() < slot_bound(self@)
                &&& forall|i: int, j: int| 0 <= i < j < indices@.len() ==> indices@[i].slot() != indices@[j].slot()
                &&& forall|i: int| 0 <= i < indices@.len() ==> slot_position(self@, (#[trigger] indices@[i]).slot()) < self@.len()
                &&& forall|i: int, j: int| 0 <= i < j < indices@.len() ==>
                    slot_position(self@, indices@[i].slot()) != slot_position(self@, indices@[j].slot())
            },
    {
        let n = indices.len();
        let mut i: usize = 0;
        while i < n
            invariant
                self.wf(),
                n == indices@.len(),
                i <= n,
                forall|a: int| 0 <= a < i ==> (#[trigger] indices@[a]).slot() < slot_bound(self@),
                forall|a: int| 0 <= a < i ==> slot_position(self@, (#[trigger] indices@[a]).slot()) < self@.len(),
            decreases n - i,
        {
            let slot = indices[i].index();
            if slot >= self.sparse.len() {
                return false;
            }
            proof {
                self.lemma_slot_entry(slot as int);
            }
            if self.sparse[slot].index() >= self.dense.len() {
                return false;
            }
            i = i + 1;
        }
        let mut a: usize = 0;
        while a < n
            invariant
                self.wf(),
                n == indices@.len(),
                a <= n,
                forall|x: int| 0 <= x < n ==> (#[trigger] indices@[x]).slot() < slot_bound(self@),
                forall|x: int| 0 <= x < n ==> slot_position(self@, (#[trigger] indices@[x]).slot()) < self@.len(),
                forall|x: int, y: int| 0 <= x < a && x < y < n ==> indices@[x].slot() != indices@[y].slot(),
                forall|x: int, y: int| 0 <= x < a && x < y < n ==>
                    slot_position(self@, indices@[x].slot()) != slot_position(self@, indices@[y].slot()),
            decreases n - a,
        {
            let mut b: usize = a + 1;
            while b < n
                invariant
                    self.wf(),
                    n == indices@.len(),
                    a < n,
                    a < b <= n,
                    forall|x: int| 0 <= x < n ==> (#[trigger] indices@[x]).slot() < slot_bound(self@),
                    forall|x: int| 0 <= x < n ==> slot_position(self@, (#[trigger] indices@[x]).slot()) < self@.len(),
                    forall|x: int, y: int| 0 <= x < a && x < y < n ==> indices@[x].slot() != indices@[y].slot(),
                    forall|x: int, y: int| 0 <= x < a && x < y < n ==>
                        slot_position(self@, indices@[x].slot()) != slot_position(self@, indices@[y].slot()),
                    forall|y: int| a < y < b ==> indices@[a as int].slot() != (#[trigger] indices@[y]).slot(),
                    forall|y: int| a < y < b ==>
                        slot_position(self@, indices@[a as int].slot()) != slot_position(self@, (#[trigger] indices@[y]).slot()),
                decreases n - b,
            {
                let sa = indices[a].index();
                let sb = indices[b].index();
                if sa == sb {
                    return false;
                }
                proof {
                    self.lemma_slot_entry(sa as int);
                    self.lemma_slot_entry(sb as int);
                }
                if self.sparse[sa].index() == self.sparse[sb].index() {
                    return false;
                }
                b = b + 1;
            }
            a = a + 1;
        }
        true
    }

    /// The number of entries; never panics.
    pub fn len(&self) -> (r: usize)
        ensures
            self.wf() ==> r == self@.len(),
    {
        self.total
    }

    /// The keys of all entries, as entities, in insertion order.
    pub fn entities_vec(&self) -> (r: Vec<Entity>)
        ensures
            r@ == entities_of(self@),
    {
        let mut out: Vec<Entity> = Vec::new();
        let mut i: usize = 0;
        while i < self.dense.len()
            invariant
                i <= self.dense@.len(),
                out@ == entities_of(self@.take(i as int)),
            decreases self.dense@.len() - i,
        {
            out.push(Entity::from(self.dense[i].0));
            proof {
                assert(self@.take(i + 1) == self@.take(i as int).push(self@[i as int]));
                assert(entities_of(self@.take(i + 1)) =~= entities_of(self@.take(i as int)).push(Entity::from_key(self@[i as int].0)));
            }
            i = i + 1;
        }
        proof {
            assert(self@.take(i as int) =~= self@);
        }
        out
    }

    /// A cursor over the slot entries of the entries, in insertion order.
    pub fn indices(&self) -> (r: IndexIterator<'_, T>)
        ensures
            r.entries() == self@,
            r.pos() == 0,
            self.wf() ==> r.valid(),
    {
        IndexIterator { container: self, idx: 0 }
    }

    /// A cursor over mutable references to the values, in insertion order.
    pub fn iter_mut(&mut self) -> (r: DenseMutIterator<'_, T>)
        ensures
            r.remaining() == old(self)@,
            final(self)@ == final(r.rest_borrow())@,
            final(self).same_table(*old(self)),
    {
        DenseMutIterator { rest: self.dense.as_mut_slice() }
    }

    /// A cursor over the entities named by the slot entries of the entries, in insertion order.
    pub fn entities(&self) -> (r: EntityIterator<'_, T>)
        ensures
            r.entries() == self@,
            r.pos() == 0,
            self.wf() ==> r.valid(),
    {
        EntityIterator::from(self.indices())
    }

    /// A cursor over the entities named by the slot entries, with the values, in insertion order.
    pub fn entities_components(&self) -> (r: EntityComponentIterator<'_, T>)
        ensures
            r.entries() == self@,
            r.pos() == 0,
            self.wf() ==> r.valid(),
    {
        EntityComponentIterator::from(self.iter())
    }

    /// A cursor over the keys, as entities, with mutable references to the values.
    pub fn entities_components_mut(&mut self) -> (r: EntityComponentMutIterator<'_, T>)
        ensures
            r.remaining() == old(self)@,
            final(self)@ == final(r.rest_borrow())@,
            final(self).same_table(*old(self)),
    {
        EntityComponentMutIterator::from(self.iter_mut())
    }

    /// A cursor over the values, in insertion order.
    pub fn iter(&self) -> (r: DenseIterator<'_, T>)
        ensures
            r.entries() == self@,
            r.pos() == 0,
            self.wf() ==> r.valid(),
    {
        DenseIterator { container: self, idx: 0 }
    }
}

/// A cursor that yields, for each entry in insertion order, the slot entry of its slot.
pub struct IndexIterator<'a, T> {
    container: &'a SparseSet<T>,
    idx: usize,
}

impl<'a, T> IndexIterator<'a, T> {
    pub closed spec fn entries(&self) -> Seq<(GenerationalIndex, T)> {
        self.container@
    }

    pub closed spec fn pos(&self) -> nat {
        self.idx as nat
    }

    pub closed spec fn valid(&self) -> bool {
        self.container.wf() && self.idx <= self.container@.len()
    }

    pub fn next(&mut self) -> (r: Option<GenerationalIndex>)
        requires
            old(self).valid(),
        ensures
            final(self).valid(),
            final(self).entries() == old(self).entries(),
            old(self).pos() < old(self).entries().len() ==> r == Some(slot_entries_of(old(self).entries())[old(self).pos() as int])
                && final(self).pos() == old(self).pos() + 1,
            old(self).pos() >= old(self).entries().len() ==> r is None && final(self).pos() == old(self).pos(),
    {
        if self.idx < self.container.len() {
            let key = self.container.dense[self.idx].0;
            let slot = key.index();
            proof {
                assert(self.container.dense@[self.idx as int].0.slot() < self.container.sparse.len());
                self.container.lemma_slot_entry(slot as int);
            }
            let ret = Some(self.container.sparse[slot]);
            self.idx = self.idx + 1;
            ret
        } else {
            None
        }
    }
}

/// A cursor that yields, for each entry in insertion order, the entity named by the slot
/// entry of its slot.
pub struct EntityIterator<'a, T> {
    container: &'a SparseSet<T>,
    idx: usize,
}

impl<'a, T> EntityIterator<'a, T> {
    pub closed spec fn entries(&self) -> Seq<(GenerationalIndex, T)> {
        self.container@
    }

    pub closed spec fn pos(&self) -> nat {
        self.idx as nat
    }

    pub closed spec fn valid(&self) -> bool {
        self.container.wf() && self.idx <= self.container@.len()
    }

    pub fn next(&mut self) -> (r: Option<Entity>)
        requires
            old(self).valid(),
        ensures
            final(self).valid(),
            final(self).entries() == old(self).entries(),
            old(self).pos() < old(self).entries().len() ==> r == Some(Entity::from_key(slot_entries_of(old(self).entries())[old(self).pos() as int]))
                && final(self).pos() == old(self).pos() + 1,
            old(self).pos() >= old(self).entries().len() ==> r is None && final(self).pos() == old(self).pos(),
    {
        if self.idx < self.container.len() {
            let key = self.container.dense[self.idx].0;
            let slot = key.index();
            proof {
                assert(self.container.dense@[self.idx as int].0.slot() < self.container.sparse.len());
                self.container.lemma_slot_entry(slot as int);
            }
            let ret = Some(Entity::from(self.container.sparse[slot]));
            self.idx = self.idx + 1;
            ret
        } else {
            None
        }
    }
}

impl<'a, T> vstd::std_specs::convert::FromSpecImpl<IndexIterator<'a, T>> for EntityIterator<'a, T> {
    open spec fn obeys_from_spec() -> bool {
        true
    }

    closed spec fn from_spec(v: IndexIterator<'a, T>) -> Self {
        Self { container: v.container, idx: v.idx }
    }
}

impl<'a, T> From<IndexIterator<'a, T>> for EntityIterator<'a, T> {
    fn from(value: IndexIterator<'a, T>) -> (r: Self)
        ensures
            r.entries() == value.entries(),
            r.pos() == value.pos(),
            r.valid() == value.valid(),
    {
        Self { container: value.container, idx: value.idx }
    }
}

/// A cursor that yields, for each entry in insertion order, the entity named by the slot
/// entry of its slot together with the entry's value.
pub struct EntityComponentIterator<'a, T> {
    container: &'a SparseSet<T>,
    idx: usize,
}

impl<'a, T> EntityComponentIterator<'a, T> {
    pub closed spec fn entries(&self) -> Seq<(GenerationalIndex, T)> {
        self.container@
    }

    pub closed spec fn pos(&self) -> nat {
        self.idx as nat
    }

    pub closed spec fn valid(&self) -> bool {
        self.container.wf() && self.idx <= self.container@.len()
    }

    pub fn next(&mut self) -> (r: Option<(Entity, &'a T)>)
        requires
            old(self).valid(),
        ensures
            final(self).valid(),
            final(self).entries() == old(self).entries(),
            old(self).pos() < old(self).entries().len() ==> r is Some
                && (r->0).0 == Entity::from_key(slot_entries_of(old(self).entries())[old(self).pos() as int])
                && *(r->0).1 == old(self).entries()[old(self).pos() as int].1
                && final(self).pos() == old(self).pos() + 1,
            old(self).pos() >= old(self).entries().len() ==> r is None && final(self).pos() == old(self).pos(),
    {
        if self.idx < self.container.len() {
            let key = self.container.dense[self.idx].0;
            let slot = key.index();
            proof {
                assert(self.container.dense@[self.idx as int].0.slot() < self.container.sparse.len());
                self.container.lemma_slot_entry(slot as int);
            }
            let ret = Some((Entity::from(self.container.sparse[slot]), &self.container.dense[self.idx].1));
            self.idx = self.idx + 1;
            ret
        } else {
            None
        }
    }
}

/// A cursor over the values of a set, in insertion order.
pub struct DenseIterator<'a, T> {
    container: &'a SparseSet<T>,
    idx: usize,
}

impl<'a, T> DenseIterator<'a, T> {
    pub closed spec fn entries(&self) -> Seq<(GenerationalIndex, T)> {
        self.container@
    }

    pub closed spec fn pos(&self) -> nat {
        self.idx as nat
    }

    pub closed spec fn valid(&self) -> bool {
        self.container.wf() && self.idx <= self.container@.len()
    }

    pub fn next(&mut self) -> (r: Option<&'a T>)
        requires
            old(self).valid(),
        ensures
            final(self).valid(),
            final(self).entries() == old(self).entries(),
            old(self).pos() < old(self).entries().len() ==> r is Some
                && *r->0 == old(self).entries()[old(self).pos() as int].1
                && final(self).pos() == old(self).pos() + 1,
            old(self).pos() >= old(self).entries().len() ==> r is None && final(self).pos() == old(self).pos(),
    {
        if self.idx < self.container.len() {
            let ret = Some(&self.container.dense[self.idx].1);
            self.idx = self.idx + 1;
            ret
        } else {
            None
        }
    }
}

impl<'a, T> vstd::std_specs::convert::FromSpecImpl<DenseIterator<'a, T>> for EntityComponentIterator<'a, T> {
    open spec fn obeys_from_spec() -> bool {
        true
    }

    closed spec fn from_spec(v: DenseIterator<'a, T>) -> Self {
        Self { container: v.container, idx: v.idx }
    }
}

impl<'a, T> From<DenseIterator<'a, T>> for EntityComponentIterator<'a, T> {
    fn from(value: DenseIterator<'a, T>) -> (r: Self)
        ensures
            r.entries() == value.entries(),
            r.pos() == value.pos(),
            r.valid() == value.valid(),
    {
        Self { container: value.container, idx: value.idx }
    }
}

/// A cursor over mutable references to the values of a set, in insertion order.
pub struct DenseMutIterator<'a, T> {
    rest: &'a mut [(GenerationalIndex, T)],
}

impl<'a, T> DenseMutIterator<'a, T> {
    /// The entries not yet visited.
    pub closed spec fn remaining(&self) -> Seq<(GenerationalIndex, T)> {
        self.rest@
    }

    /// The borrow of the entries not yet visited.
    pub closed spec fn rest_borrow(&self) -> &'a mut [(GenerationalIndex, T)] {
        self.rest
    }

    pub fn next(&mut self) -> (r: Option<&'a mut T>)
        ensures
            old(self).remaining().len() == 0 ==> r is None && final(self).remaining() == old(self).remaining(),
            old(self).remaining().len() > 0 ==> r is Some
                && *r->0 == old(self).remaining()[0].1
                && final(self).remaining() == old(self).remaining().drop_first(),
            old(self).remaining().len() > 0 ==> final(old(self).rest_borrow())@
                == seq![(old(self).remaining()[0].0, *final(r->0))] + final(final(self).rest_borrow())@,
            old(self).remaining().len() == 0 ==> final(old(self).rest_borrow())@ == Seq::<(GenerationalIndex, T)>::empty(),
    {
        let mut taken: &'a mut [(GenerationalIndex, T)] = &mut [];
        std::mem::swap(&mut taken, &mut self.rest);
        if taken.len() == 0 {
            // Nothing is left behind an exhausted cursor.
            let _ = taken.first_mut();
            return None;
        }
        let (first, tail) = taken.split_at_mut(1);
        self.rest = tail;
        let pair = first.first_mut().unwrap();
        Some(&mut pair.1)
    }
}

/// A cursor over the entities and mutable references to the values of a set, in insertion order.
pub struct EntityComponentMutIterator<'a, T> {
    rest: &'a mut [(GenerationalIndex, T)],
}

impl<'a, T> EntityComponentMutIterator<'a, T> {
    /// The entries not yet visited.
    pub closed spec fn remaining(&self) -> Seq<(GenerationalIndex, T)> {
        self.rest@
    }

    /// The borrow of the entries not yet visited.
    pub closed spec fn rest_borrow(&self) -> &'a mut [(GenerationalIndex, T)] {
        self.rest
    }

    pub fn next(&mut self) -> (r: Option<(Entity, &'a mut T)>)
        ensures
            old(self).remaining().len() == 0 ==> r is None && final(self).remaining() == old(self).remaining(),
            old(self).remaining().len() > 0 ==> r is Some
                && (r->0).0 == Entity::from_key(old(self).remaining()[0].0)
                && *(r->0).1 == old(self).remaining()[0].1
                && final(self).remaining() == old(self).remaining().drop_first(),
            old(self).remaining().len() > 0 ==> final(old(self).rest_borrow())@
                == seq![(old(self).remaining()[0].0, *final((r->0).1))] + final(final(self).rest_borrow())@,
            old(self).remaining().len() == 0 ==> final(old(self).rest_borrow())@ == Seq::<(GenerationalIndex, T)>::empty(),
    {
        let mut taken: &'a mut [(GenerationalIndex, T)] = &mut [];
        std::mem::swap(&mut taken, &mut self.rest);
        if taken.len() == 0 {
            // Nothing is left behind an exhausted cursor.
            let _ = taken.first_mut();
            return None;
        }
        let (first, tail) = taken.split_at_mut(1);
        self.rest = tail;
        let pair = first.first_mut().unwrap();
        let entity = Entity::from(pair.0);
        Some((entity, &mut pair.1))
    }
}

impl<'a, T> vstd::std_specs::convert::FromSpecImpl<DenseMutIterator<'a, T>> for EntityComponentMutIterator<'a, T> {
    open spec fn obeys_from_spec() -> bool {
        false
    }

    closed spec fn from_spec(v: DenseMutIterator<'a, T>) -> Self {
        Self { rest: v.rest }
    }
}

impl<'a, T> From<DenseMutIterator<'a, T>> for EntityComponentMutIterator<'a, T> {
    fn from(value: DenseMutIterator<'a, T>) -> (r: Self)
        ensures
            r.remaining() == value.remaining(),
            final(r.rest_borrow())@ == final(value.rest_borrow())@,
    {
        Self { rest: value.rest }
    }
}

/// Calls `<[T]>::get_disjoint_mut` on the entries and keeps the value half of each pair.
/// Trusted: for pairwise distinct in-bounds positions std returns `Ok` with one mutable
/// reference per position, each to the element at that position, and the entries change
/// only through those references.
#[verifier::external_body]
fn values_disjoint_mut<T, const N: usize>(
    v: &mut Vec<(GenerationalIndex, T)>,
    positions: [usize; N],
) -> (r: [&mut T; N])
    requires
        forall|i: int| 0 <= i < N ==> positions[i] < old(v)@.len(),
        forall|i: int, j: int| 0 <= i < j < N ==> positions[i] != positions[j],
    ensures
        forall|i: int| 0 <= i < N ==> *r[i] == old(v)@[positions[i] as int].1,
        final(v)@.len() == old(v)@.len(),
        forall|p: int| 0 <= p < old(v)@.len() && (forall|i: int| 0 <= i < N ==> positions[i] != p)
            ==> final(v)@[p] == old(v)@[p],
        forall|i: int| 0 <= i < N ==> final(v)@[positions[i] as int] == (old(v)@[positions[i] as int].0, *final(r[i])),
{
    v.get_disjoint_mut(positions).unwrap().map(|x| &mut x.1)
}

impl<T> DynEcsContainer for SparseSet<T> {
    fn is_resource(&self) -> (r: bool)
        ensures
            !r,
    {
        false
    }
}

impl<T> EcsContainer for SparseSet<T> {
    type Item = T;
}

impl<T> DynEcsEntityContainer for SparseSet<T> {
    fn len(&self) -> (r: usize)
        ensures
            self.wf() ==> r == self@.len(),
    {
        SparseSet::len(self)
    }

    fn contains_entity(&self, entity: Entity) -> (r: bool)
        ensures
            self.wf() ==> r == self.spec_get(entity.key()) is Some,
    {
        self.contains(entity.index())
    }

    fn entities_vec(&self) -> (r: Vec<Entity>)
        ensures
            r@ == entities_of(self@),
    {
        SparseSet::entities_vec(self)
    }
}

impl<T> EcsEntityContainer for SparseSet<T> {
    open spec fn valid(&self) -> bool {
        self.wf()
    }

    open spec fn component(&self, ett: Entity) -> Option<T> {
        self.spec_get(ett.key())
    }

    fn get(&self, ett: Entity) -> Option<&T> {
        SparseSet::get(self, ett.index())
    }

    fn get_mut(&mut self, ett: Entity) -> Option<&mut T> {
        let r = SparseSet::get_mut(self, ett.index());
        proof {
            broadcast use Entity::lemma_key_determines;
        }
        r
    }
}


/// The entries a cursor walk leaves behind from position `j` on: each key from `entries` with
/// the value written at its step.
pub open spec fn written_back<T>(entries: Seq<(GenerationalIndex, T)>, written: Seq<T>, j: int) -> Seq<(GenerationalIndex, T)> {
    Seq::new((entries.len() - j) as nat, |k: int| (entries[j + k].0, written[j + k]))
}

/// A walk of a mutable cursor to its end writes back, in order, what each step's reference
/// held at the end. `behind[i]` is what lies behind the cursor before step `i`: as `next`
/// states, the step's key with the value written through its reference (`written[i]`),
/// followed by what lies behind the next step; behind the exhausted cursor lies nothing. Then
/// what lay behind the fresh cursor (which `iter_mut` states is the set afterwards) holds the
/// same keys in the same order, each with the value written at its step.
pub proof fn lemma_walk_writes_back<T>(
    entries: Seq<(GenerationalIndex, T)>,
    written: Seq<T>,
    behind: Seq<Seq<(GenerationalIndex, T)>>,
)
    requires
        written.len() == entries.len(),
        behind.len() == entries.len() + 1,
        behind[entries.len() as int] == Seq::<(GenerationalIndex, T)>::empty(),
        forall|i: int| 0 <= i < entries.len() ==> behind[i] == seq![((#[trigger] entries[i]).0, written[i])] + behind[i + 1],
    ensures
        behind[0] == written_back(entries, written, 0),
        behind[0].len() == entries.len(),
        forall|i: int| 0 <= i < entries.len() ==> #[trigger] behind[0][i] == (entries[i].0, written[i]),
{
    lemma_walk_from(entries, written, behind, 0);
}

proof fn lemma_walk_from<T>(
    entries: Seq<(GenerationalIndex, T)>,
    written: Seq<T>,
    behind: Seq<Seq<(GenerationalIndex, T)>>,
    j: int,
)
    requires
        0 <= j <= entries.len(),
        written.len() == entries.len(),
        behind.len() == entries.len() + 1,
        behind[entries.len() as int] == Seq::<(GenerationalIndex, T)>::empty(),
        forall|i: int| 0 <= i < entries.len() ==> behind[i] == seq![((#[trigger] entries[i]).0, written[i])] + behind[i + 1],
    ensures
        behind[j] == written_back(entries, written, j),
    decreases entries.len() - j,
{
    if j == entries.len() {
        assert(behind[j] =~= written_back(entries, written, j));
    } else {
        lemma_walk_from(entries, written, behind, j + 1);
        assert(behind[j] == seq![(entries[j].0, written[j])] + behind[j + 1]);
        assert(behind[j] =~= written_back(entries, written, j));
    }
}

} // verus!
