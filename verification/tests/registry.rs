use std::any::TypeId;
use sparse_ecs::{shortest_at, Entity, GenerationalIndex, Handle, IdCounter, ParamSource, Registry, SystemPlan, TreeOrder};

struct Pos;
struct Vel;
struct Tag;

fn pos() -> TypeId {
    TypeId::of::<Pos>()
}
fn vel() -> TypeId {
    TypeId::of::<Vel>()
}
fn tag() -> TypeId {
    TypeId::of::<Tag>()
}

#[test]
fn new_entities_are_numbered_in_order() {
    let mut r = Registry::new();
    let mut ids = IdCounter::new();
    let a = r.new_entity(&mut ids);
    let b = r.new_entity(&mut ids);
    assert_eq!(a.index(), GenerationalIndex::new(0, 0));
    assert_eq!(b.index(), GenerationalIndex::new(1, 0));
    assert_ne!(a, b);
    assert_eq!(r.entities(), &vec![a, b]);
}

#[test]
fn components_are_recorded_per_type() {
    let mut r = Registry::new();
    let mut ids = IdCounter::new();
    let a = r.new_entity(&mut ids);
    let b = r.new_entity(&mut ids);
    assert_eq!(r.component_count(pos()), None);
    r.add_component(pos(), a);
    r.add_component(vel(), b);
    assert!(r.has_component(pos(), a));
    assert!(!r.has_component(pos(), b));
    assert!(r.has_component(vel(), b));
    assert!(!r.has_component(tag(), a));
    assert_eq!(r.component_count(pos()), Some(1));
    assert_eq!(r.component_entities(vel()), Some(vec![b]));
    assert_eq!(r.component_entities(tag()), None);
}

#[test]
fn query_keeps_creation_order_and_needs_every_type() {
    let mut r = Registry::new();
    let mut ids = IdCounter::new();
    let a = r.new_entity(&mut ids);
    let b = r.new_entity(&mut ids);
    let c = r.new_entity(&mut ids);
    r.add_component(pos(), c);
    r.add_component(pos(), a);
    r.add_component(vel(), a);
    r.add_component(vel(), b);
    r.add_component(vel(), c);
    assert_eq!(r.query(&[pos()]), vec![a, c]);
    assert_eq!(r.query(&[pos(), vel()]), vec![a, c]);
    assert_eq!(r.query(&[vel()]), vec![a, b, c]);
    assert_eq!(r.query(&[]), vec![a, b, c]);
}

#[test]
fn query_with_a_missing_type_finds_nothing() {
    let mut r = Registry::new();
    let mut ids = IdCounter::new();
    let a = r.new_entity(&mut ids);
    r.add_component(pos(), a);
    assert_eq!(r.query(&[pos(), tag()]), Vec::<Entity>::new());
}

fn tree() -> (Registry, Entity, Entity, Entity, Entity) {
    // root -> [x, y], x -> [z]
    let mut r = Registry::new();
    let mut ids = IdCounter::new();
    let root = r.new_entity(&mut ids);
    let x = r.new_entity(&mut ids);
    let y = r.new_entity(&mut ids);
    let z = r.new_entity(&mut ids);
    r.add_root(root);
    r.add_child(root, x);
    r.add_child(root, y);
    r.add_child(x, z);
    (r, root, x, y, z)
}

#[test]
fn children_are_listed_in_the_order_they_were_added() {
    let (r, root, x, y, z) = tree();
    assert_eq!(r.get_children(root), vec![x, y]);
    assert_eq!(r.get_children(x), vec![z]);
    assert_eq!(r.get_children(y), Vec::<Entity>::new());
    assert!(r.relation(root).unwrap().has_children());
    assert!(!r.relation(z).unwrap().has_children());
    assert!(r.relation(Entity::from(GenerationalIndex::new(40, 0))).is_none());
}

#[test]
fn pre_order_visits_parents_first() {
    let (r, root, x, y, z) = tree();
    assert_eq!(r.visit_pre_order(root), vec![root, x, z, y]);
    assert_eq!(r.visit_pre_order(x), vec![x, z]);
}

#[test]
fn post_order_is_pre_order_backwards() {
    let (r, root, x, y, z) = tree();
    let post = r.visit_post_order(root);
    assert_eq!(post, vec![y, z, x, root]);
    let mut pre = r.visit_pre_order(root);
    pre.reverse();
    assert_eq!(post, pre);
}

#[test]
fn parent_child_pairs_follow_each_edge() {
    let (r, root, x, y, z) = tree();
    assert_eq!(r.parent_child_pairs(root), vec![(root, x), (x, z), (root, y)]);
    assert_eq!(r.parent_child_pairs(y), Vec::<(Entity, Entity)>::new());
}

#[test]
fn query_tree_filters_the_walk() {
    let (mut r, root, x, y, z) = tree();
    r.add_component(pos(), z);
    r.add_component(pos(), root);
    r.add_component(pos(), y);
    assert_eq!(r.query_tree(&[pos()], root, TreeOrder::PreOrder), vec![root, z, y]);
    assert_eq!(r.query_tree(&[pos()], root, TreeOrder::PostOrder), vec![y, z, root]);
    assert_eq!(r.query_tree(&[], x, TreeOrder::PreOrder), vec![x, z]);
    assert_eq!(r.query_tree(&[tag()], root, TreeOrder::PreOrder), Vec::<Entity>::new());
}

#[test]
fn an_entity_can_be_its_own_first_child() {
    let mut r = Registry::new();
    let mut ids = IdCounter::new();
    let root = r.new_entity(&mut ids);
    let a = r.new_entity(&mut ids);
    let b = r.new_entity(&mut ids);
    r.add_root(root);
    r.add_child(a, a);
    r.add_child(a, b);
    assert_eq!(r.get_children(a), vec![a, b]);
    assert_eq!(r.get_children(b), Vec::<Entity>::new());
}

#[test]
fn shortest_container_is_the_first_of_the_smallest() {
    assert_eq!(shortest_at(&[]), None);
    assert_eq!(shortest_at(&[None, None]), None);
    assert_eq!(shortest_at(&[Some(3), None, Some(2), Some(2)]), Some((2, 2)));
    assert_eq!(shortest_at(&[None, Some(5)]), Some((5, 1)));
    assert_eq!(shortest_at(&[Some(0), Some(0)]), Some((0, 0)));
}

#[test]
fn param_sources_need_exactly_one_container() {
    assert!(matches!(sparse_ecs::query::param_source(true, false, pos()), Some(ParamSource::Component(k)) if k == pos()));
    assert!(matches!(sparse_ecs::query::param_source(false, true, pos()), Some(ParamSource::Resource)));
    assert!(sparse_ecs::query::param_source(true, true, pos()).is_none());
    assert!(sparse_ecs::query::param_source(false, false, pos()).is_none());
}

#[test]
fn system_plans() {
    let mut r = Registry::new();
    let mut ids = IdCounter::new();
    let a = r.new_entity(&mut ids);
    let b = r.new_entity(&mut ids);
    let c = r.new_entity(&mut ids);
    r.add_component(pos(), a);
    r.add_component(pos(), b);
    r.add_component(pos(), c);
    r.add_component(vel(), c);
    r.add_component(vel(), a);
    // Two component parameters: driven by the shorter container (vel), in its order.
    match r.plan_system(&[(pos(), false), (vel(), false)]) {
        SystemPlan::Each(v) => assert_eq!(v, vec![c, a]),
        _ => panic!("expected a run per entity"),
    }
    // A resource and a component: every entity of the component container.
    match r.plan_system(&[(tag(), true), (pos(), false)]) {
        SystemPlan::Each(v) => assert_eq!(v, vec![a, b, c]),
        _ => panic!("expected a run per entity"),
    }
    // Only resources: once.
    assert!(matches!(r.plan_system(&[(tag(), true)]), SystemPlan::Once));
    // A parameter with neither container: skipped.
    assert!(matches!(r.plan_system(&[(pos(), false), (tag(), false)]), SystemPlan::Skip));
    // A parameter with both a component container and a resource: skipped.
    assert!(matches!(r.plan_system(&[(pos(), true)]), SystemPlan::Skip));
}

#[test]
fn a_newer_generation_of_a_slot_hides_the_older_component() {
    let mut r = Registry::new();
    let mut ids = IdCounter::new();
    let old = Entity::from(GenerationalIndex::new(3, 0));
    let new = Entity::from(GenerationalIndex::new(3, 1));
    let other = Entity::from(GenerationalIndex::new(4, 0));
    r.add_component(pos(), old);
    r.add_component(pos(), other);
    assert!(r.has_component(pos(), old));
    r.add_component(pos(), new);
    assert!(!r.has_component(pos(), old));
    assert!(r.has_component(pos(), new));
    assert!(r.has_component(pos(), other));
    assert_eq!(r.component_count(pos()), Some(3));
}

#[test]
fn hierarchy_checks_answer_what_add_child_needs() {
    let mut r = Registry::new();
    let mut ids = IdCounter::new();
    let a = r.new_entity(&mut ids);
    let b = r.new_entity(&mut ids);
    assert!(!r.is_in_hierarchy(a));
    assert!(!r.is_walkable(a));
    assert!(!r.children_readable(a));
    r.add_root(a);
    assert!(r.is_in_hierarchy(a));
    assert!(!r.is_in_hierarchy(Entity::from(GenerationalIndex::new(0, 5))));
    assert!(!r.is_in_hierarchy(b));
    assert!(r.is_walkable(a));
    assert!(r.children_readable(a));
    assert_eq!(r.hierarchy_size(), 1);
    r.add_child(b, b);
    assert!(!r.is_walkable(b));
    assert_eq!(r.hierarchy_size(), 2);
    assert!(r.relation_ref(b).unwrap().has_children());
    assert_eq!(r.relation(b).unwrap().last_child(), Some(b));
}

#[test]
fn another_generation_of_a_slot_hides_the_older_relation() {
    let mut r = Registry::new();
    let mut ids = IdCounter::new();
    let root = r.new_entity(&mut ids);
    let x = r.new_entity(&mut ids);
    let y = r.new_entity(&mut ids);
    r.add_root(root);
    r.add_child(root, x);
    let x2 = Entity::from(GenerationalIndex::new(x.index().index() as u32, 1));
    r.add_child(y, y);
    // x2 shares x's slot: its relation hides the one of x, which stays in root's list.
    r.add_child(y, x2);
    assert!(r.relation(x).is_none());
    assert!(r.is_in_hierarchy(x));
    assert_eq!(r.relation(x2).unwrap().last_child(), None);
    assert!(!r.children_readable(root));
    assert!(!r.is_walkable(root));
    assert!(r.children_readable(y));
    assert_eq!(r.get_children(y), vec![y, x2]);
}

#[test]
fn a_root_without_links_can_be_given_a_new_relation() {
    let mut r = Registry::new();
    let mut ids = IdCounter::new();
    let a = r.new_entity(&mut ids);
    r.add_root(a);
    r.add_root(a);
    assert_eq!(r.hierarchy_size(), 2);
    assert!(r.relation(a).unwrap().is_unlinked());
    assert_eq!(r.get_children(a), Vec::<Entity>::new());
}

#[test]
fn post_order_answers_are_pre_order_answers_backwards_and_edges_follow_pre_order() {
    let (mut r, root, x, y, z) = tree();
    r.add_component(pos(), root);
    r.add_component(pos(), z);
    r.add_component(pos(), y);
    let mut pre = r.query_tree(&[pos()], root, TreeOrder::PreOrder);
    pre.reverse();
    assert_eq!(r.query_tree(&[pos()], root, TreeOrder::PostOrder), pre);
    let children: Vec<Entity> = r.parent_child_pairs(root).into_iter().map(|(_, c)| c).collect();
    assert_eq!(children, vec![x, z, y]);
    assert_eq!(r.visit_pre_order(root)[1..].to_vec(), children);
}

#[test]
fn entities_and_handles_from_one_counter_never_share_an_id() {
    let mut ids = IdCounter::new();
    let mut first = Registry::new();
    let mut second = Registry::new();
    let h: Handle<u8> = Handle::new(&mut ids);
    let a = first.new_entity(&mut ids);
    let b = second.new_entity(&mut ids);
    let h2: Handle<u8> = Handle::new(&mut ids);
    let c = first.new_entity(&mut ids);
    assert_eq!(h.index(), GenerationalIndex::new(0, 0));
    assert_eq!(a.index(), GenerationalIndex::new(1, 0));
    assert_eq!(b.index(), GenerationalIndex::new(2, 0));
    assert_eq!(h2.index(), GenerationalIndex::new(3, 0));
    assert_eq!(c.index(), GenerationalIndex::new(4, 0));
    assert_ne!(h.entity(), a);
    assert_ne!(a, b);
    assert_ne!(h2.entity(), c);
    assert_eq!(first.entities(), &vec![a, c]);
    assert_eq!(second.entities(), &vec![b]);
    assert_eq!(ids.current(), 5);
}

#[test]
fn relation_links_follow_the_children_lists() {
    let mut r = Registry::new();
    let mut ids = IdCounter::new();
    let p = r.new_entity(&mut ids);
    let a = r.new_entity(&mut ids);
    let b = r.new_entity(&mut ids);
    r.add_root(p);
    assert!(!r.relation(p).unwrap().has_children());
    r.add_child(p, a);
    r.add_child(p, b);
    assert!(r.relation(p).unwrap().has_children());
    assert_eq!(r.get_children(p), vec![a, b]);
    assert!(!r.relation(a).unwrap().has_children());
}

#[test]
fn a_node_can_be_its_own_child_once_the_hierarchy_exists() {
    let mut r = Registry::new();
    let mut ids = IdCounter::new();
    let root = r.new_entity(&mut ids);
    let x = r.new_entity(&mut ids);
    r.add_root(root);
    r.add_child(x, x);
    assert_eq!(r.get_children(x), vec![x]);
    assert!(!r.is_walkable(x));
}
