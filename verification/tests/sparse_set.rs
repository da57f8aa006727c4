use sparse_ecs::{DynEcsContainer, DynEcsEntityContainer, EcsEntityContainer, Entity, GenerationalIndex, SparseSet};

fn gi(i: u32, g: u16) -> GenerationalIndex {
    GenerationalIndex::new(i, g)
}

#[test]
fn empty_set_holds_nothing() {
    let s: SparseSet<u32> = SparseSet::new();
    assert_eq!(s.len(), 0);
    assert_eq!(s.get(gi(0, 0)), None);
    assert!(!s.contains(gi(3, 0)));
    assert!(s.entities_vec().is_empty());
}

#[test]
fn insert_then_get() {
    let mut s = SparseSet::new();
    s.insert(gi(4, 0), "four");
    s.insert(gi(1, 0), "one");
    assert_eq!(s.len(), 2);
    assert_eq!(s.get(gi(4, 0)), Some(&"four"));
    assert_eq!(s.get(gi(1, 0)), Some(&"one"));
    assert_eq!(s.get(gi(2, 0)), None);
    assert_eq!(s.get(gi(9, 0)), None);
    assert!(s.contains(gi(4, 0)));
}

#[test]
fn get_mut_writes_are_read_back() {
    let mut s = SparseSet::new();
    s.insert(gi(2, 0), 10u32);
    s.insert(gi(5, 0), 50u32);
    *s.get_mut(gi(2, 0)).unwrap() = 11;
    assert_eq!(s.get(gi(2, 0)), Some(&11));
    assert_eq!(s.get(gi(5, 0)), Some(&50));
    assert!(s.get_mut(gi(3, 0)).is_none());
}

#[test]
fn a_newer_generation_hides_the_older_one() {
    let mut s = SparseSet::new();
    s.insert(gi(5, 0), 'a');
    s.insert(gi(5, 1), 'b');
    assert_eq!(s.get(gi(5, 0)), None);
    assert_eq!(s.get(gi(5, 1)), Some(&'b'));
    assert_eq!(s.len(), 2);
}

#[test]
fn inserting_a_key_twice_keeps_both_entries() {
    let mut s = SparseSet::new();
    s.insert(gi(3, 0), 1);
    s.insert(gi(3, 0), 2);
    assert_eq!(s.len(), 2);
    assert_eq!(s.get(gi(3, 0)), Some(&2));
    let mut it = s.iter();
    assert_eq!(it.next(), Some(&1));
    assert_eq!(it.next(), Some(&2));
    assert_eq!(it.next(), None);
}

#[test]
fn values_come_in_insertion_order() {
    let mut s = SparseSet::new();
    s.insert(gi(9, 0), 90);
    s.insert(gi(0, 0), 0);
    s.insert(gi(4, 0), 40);
    let mut it = s.iter();
    let mut seen = Vec::new();
    while let Some(v) = it.next() {
        seen.push(*v);
    }
    assert_eq!(seen, vec![90, 0, 40]);
}

#[test]
fn indices_yield_the_slot_entry_of_each_entry() {
    let mut s = SparseSet::new();
    s.insert(gi(7, 0), ());
    s.insert(gi(2, 3), ());
    let mut it = s.indices();
    // The slot entry of slot 7 points at dense position 0, that of slot 2 at position 1.
    assert_eq!(it.next(), Some(gi(0, 0)));
    assert_eq!(it.next(), Some(gi(1, 3)));
    assert_eq!(it.next(), None);
    let mut ents = s.entities();
    assert_eq!(ents.next(), Some(Entity::from(gi(0, 0))));
    assert_eq!(ents.next(), Some(Entity::from(gi(1, 3))));
    assert_eq!(ents.next(), None);
}

#[test]
fn entities_vec_lists_the_keys() {
    let mut s = SparseSet::new();
    s.insert(gi(7, 0), 'x');
    s.insert(gi(2, 3), 'y');
    assert_eq!(s.entities_vec(), vec![Entity::from(gi(7, 0)), Entity::from(gi(2, 3))]);
}

#[test]
fn entity_component_cursor_pairs_slot_entries_with_values() {
    let mut s = SparseSet::new();
    s.insert(gi(7, 0), 'x');
    let mut it = s.entities_components();
    assert_eq!(it.next(), Some((Entity::from(gi(0, 0)), &'x')));
    assert_eq!(it.next(), None);
}

#[test]
fn iter_mut_changes_every_value() {
    let mut s = SparseSet::new();
    s.insert(gi(1, 0), 1);
    s.insert(gi(2, 0), 2);
    {
        let mut it = s.iter_mut();
        while let Some(v) = it.next() {
            *v *= 10;
        }
    }
    assert_eq!(s.get(gi(1, 0)), Some(&10));
    assert_eq!(s.get(gi(2, 0)), Some(&20));
}

#[test]
fn entities_components_mut_yields_keys_and_values() {
    let mut s = SparseSet::new();
    s.insert(gi(6, 2), 5);
    {
        let mut it = s.entities_components_mut();
        let (e, v) = it.next().unwrap();
        assert_eq!(e, Entity::from(gi(6, 2)));
        *v = 6;
        assert!(it.next().is_none());
    }
    assert_eq!(s.get(gi(6, 2)), Some(&6));
}

#[test]
fn get_disjoint_mut_gives_separate_references() {
    let mut s = SparseSet::new();
    s.insert(gi(0, 0), 1);
    s.insert(gi(1, 0), 2);
    s.insert(gi(2, 0), 3);
    {
        let [a, c] = s.get_disjoint_mut([gi(0, 0), gi(2, 0)]);
        std::mem::swap(a, c);
    }
    assert_eq!(s.get(gi(0, 0)), Some(&3));
    assert_eq!(s.get(gi(1, 0)), Some(&2));
    assert_eq!(s.get(gi(2, 0)), Some(&1));
}

#[test]
fn container_traits_answer_for_entities() {
    let mut s = SparseSet::new();
    s.insert(gi(3, 0), "c");
    let e = Entity::from(gi(3, 0));
    assert!(!s.is_resource());
    assert!(s.contains_entity(e));
    assert!(!s.contains_entity(Entity::from(gi(4, 0))));
    assert_eq!(DynEcsEntityContainer::len(&s), 1);
    assert_eq!(EcsEntityContainer::get(&s, e), Some(&"c"));
    *EcsEntityContainer::get_mut(&mut s, e).unwrap() = "d";
    assert_eq!(s.get(gi(3, 0)), Some(&"d"));
}

#[test]
fn far_slots_grow_the_slot_table() {
    let mut s = SparseSet::new();
    s.insert(gi(1000, 0), 'f');
    s.insert(gi(2, 0), 'n');
    assert_eq!(s.get(gi(1000, 0)), Some(&'f'));
    assert_eq!(s.get(gi(999, 0)), None);
    assert!(s.slot_occupied(1000));
    assert!(!s.slot_occupied(999));
    assert!(!s.slot_occupied(5000));
}

#[test]
fn disjoint_ok_rejects_repeated_or_missing_slots() {
    let mut s = SparseSet::new();
    s.insert(gi(0, 0), 1);
    s.insert(gi(1, 0), 2);
    assert!(s.disjoint_ok(&[gi(0, 0), gi(1, 0)]));
    assert!(!s.disjoint_ok(&[gi(0, 0), gi(0, 0)]));
    assert!(!s.disjoint_ok(&[gi(0, 0), gi(7, 0)]));
    assert!(s.disjoint_ok(&[]));
}

#[test]
fn a_full_iter_mut_walk_visits_each_entry_once_and_keeps_the_keys() {
    let mut s = SparseSet::new();
    s.insert(gi(3, 0), 5i32);
    s.insert(gi(0, 0), -1i32);
    s.insert(gi(7, 0), 40i32);
    let mut steps = 0;
    {
        let mut it = s.iter_mut();
        while let Some(v) = it.next() {
            *v += 1;
            steps += 1;
        }
        assert!(it.next().is_none());
    }
    assert_eq!(steps, 3);
    assert_eq!(s.len(), 3);
    assert_eq!(s.get(gi(3, 0)), Some(&6));
    assert_eq!(s.get(gi(0, 0)), Some(&0));
    assert_eq!(s.get(gi(7, 0)), Some(&41));
    let values: Vec<i32> = {
        let mut out = Vec::new();
        let mut it = s.iter();
        while let Some(v) = it.next() {
            out.push(*v);
        }
        out
    };
    assert_eq!(values, vec![6, 0, 41]);
    assert_eq!(s.entities_vec(), vec![Entity::from(gi(3, 0)), Entity::from(gi(0, 0)), Entity::from(gi(7, 0))]);
}
