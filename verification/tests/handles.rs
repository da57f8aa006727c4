use sparse_ecs::{DynHandle, EcsGlobalContainer, DynEcsContainer, Entity, GenerationalIndex, GlobalContainer, Handle, IdCounter, MetaHandle};

#[test]
fn handles_take_fresh_ids_from_the_counter() {
    let mut counter = IdCounter::new();
    let a: Handle<u32> = Handle::new(&mut counter);
    let b: Handle<u32> = Handle::new(&mut counter);
    assert_eq!(a.index(), GenerationalIndex::new(0, 0));
    assert_eq!(b.index(), GenerationalIndex::new(1, 0));
    assert_ne!(a, b);
    assert_eq!(counter.current(), 2);
}

#[test]
fn handle_conversions_keep_the_index() {
    let g = GenerationalIndex::new(12, 3);
    let h: Handle<String> = Handle::from(g);
    assert_eq!(h.index(), g);
    assert_eq!(h.entity(), Entity::from(g));
    let h2: Handle<String> = Handle::from(Entity::from(g));
    assert_eq!(h, h2);
    let h3: Handle<String> = Handle::from_usize(12);
    assert_eq!(h3.index(), GenerationalIndex::new(12, 0));
}

#[test]
fn dyn_handle_converts_back_only_to_its_own_type() {
    let h: Handle<u32> = Handle::from(GenerationalIndex::new(4, 0));
    let d = DynHandle::from(h);
    let back: Result<Handle<u32>, DynHandle> = Handle::try_from(d);
    assert_eq!(back.unwrap(), h);
    let wrong: Result<Handle<u64>, DynHandle> = Handle::try_from(d);
    assert_eq!(wrong.unwrap_err(), d);
}

#[test]
fn meta_handles_compare_metadata_and_index() {
    let mut counter = IdCounter::new();
    let a: MetaHandle<u8, &str> = MetaHandle::new(&mut counter, "a");
    let b = a.clone();
    assert!(a == b);
    assert_eq!(a.metadata, "a");
    assert_eq!(a.handle().index(), GenerationalIndex::new(0, 0));
    let c: MetaHandle<u8, &str> = MetaHandle::new(&mut counter, "a");
    assert!(a != c);
}

#[test]
fn global_container_holds_one_value() {
    let mut g = GlobalContainer::new(5u8);
    assert!(g.is_resource());
    assert_eq!(*g.get(), 5);
    *g.get_mut() = 6;
    assert_eq!(g.inner, 6);
}

#[test]
fn conversions_by_reference_match_those_by_value() {
    let h: Handle<u32> = Handle::from(GenerationalIndex::new(9, 2));
    let d = DynHandle::from(&h);
    assert_eq!(d, DynHandle::from(h));
    let back: Result<Handle<u32>, &DynHandle> = Handle::try_from(&d);
    assert_eq!(back.unwrap(), h);
    let wrong: Result<Handle<u8>, &DynHandle> = Handle::try_from(&d);
    assert_eq!(wrong.unwrap_err(), &d);
}
