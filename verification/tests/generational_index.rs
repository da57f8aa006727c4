use sparse_ecs::GenerationalIndex;

#[test]
fn new_keeps_index_and_generation() {
    let g = GenerationalIndex::new(5, 3);
    assert_eq!(g.index(), 5);
    assert_eq!(g.index_32(), 5);
    assert_eq!(g.generation(), 3);
}

#[test]
fn new_accepts_the_widest_fields() {
    let g = GenerationalIndex::new(0xFFFFF, 0xFFF);
    assert_eq!(g.index_32(), 0xFFFFF);
    assert_eq!(g.generation(), 0xFFF);
}

#[test]
fn null_is_the_widest_index() {
    let n = GenerationalIndex::null();
    assert_eq!(n.index(), 0xFFFFF);
    assert_eq!(n.generation(), 0xFFF);
    assert_eq!(n, GenerationalIndex::new(0xFFFFF, 0xFFF));
}

#[test]
fn default_is_null() {
    assert_eq!(GenerationalIndex::default(), GenerationalIndex::null());
}

#[test]
fn rebuilding_from_parts_gives_the_same_index() {
    for (i, g) in [(0u32, 0u16), (1, 0), (17, 4), (0xFFFFF, 1), (3, 0xFFF)] {
        let a = GenerationalIndex::new(i, g);
        let b = GenerationalIndex::new(a.index_32(), a.generation());
        assert_eq!(a, b);
    }
}

#[test]
fn indices_differ_by_generation() {
    assert_ne!(GenerationalIndex::new(9, 0), GenerationalIndex::new(9, 1));
    assert_ne!(GenerationalIndex::new(9, 0), GenerationalIndex::new(8, 0));
}

#[test]
fn display_text_names_generation_then_id() {
    assert_eq!(GenerationalIndex::new(7, 2).to_display_string(), "(Generation 2, ID 7)");
    assert_eq!(GenerationalIndex::new(0, 0).to_display_string(), "(Generation 0, ID 0)");
    assert_eq!(GenerationalIndex::null().to_display_string(), "(Generation 4095, ID 1048575)");
    assert_eq!(GenerationalIndex::new(120, 10).to_display_string(), "(Generation 10, ID 120)");
}
