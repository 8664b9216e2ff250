use aecs::archetype::Archetype;
use aecs::tables::{EdgeTable, EntityTable, PairSet};
use aecs::type_graph::TypeGraph;
use aecs::{ArchetypeId, ComponentType, EntityId};

const A: ComponentType = ComponentType(1);
const B: ComponentType = ComponentType(2);

#[test]
fn archetype_column_set() {
    let mut a: Archetype<i32> = Archetype::new();
    a.add_component(A);
    a.add_component(B);
    a.add_component(A);
    assert_eq!(a.component_types(), vec![A, B]);
    a.remove_component(A);
    assert_eq!(a.component_types(), vec![B]);
    assert!(a.has_type(B));
    assert!(!a.has_type(A));
    let im = a.imitate();
    assert_eq!(im.component_types(), vec![B]);
    assert_eq!(im.len(), 0);
}

#[test]
fn archetype_rows_move_up_and_down() {
    let mut root: Archetype<i32> = Archetype::new();
    let mut with_a = root.imitate();
    with_a.add_component(A);
    let r0 = root.push_entity(EntityId(10));
    let r1 = root.push_entity(EntityId(11));
    assert_eq!((r0, r1), (0, 1));
    let n = root.upgrade_entity(&mut with_a, 0, A, 5);
    assert_eq!(n, 0);
    assert_eq!(root.len(), 1);
    assert_eq!(root.entity_at(0), EntityId(11));
    assert_eq!(with_a.entity_at(0), EntityId(10));
    assert_eq!(with_a.get_component(A, 0), Some(&5));
    assert_eq!(with_a.get_component(B, 0), None);
    *with_a.get_component_mut(A, 0).unwrap() = 6;
    assert_eq!(with_a.get_component_vec(A), &[6]);
    with_a.set_component(A, 0, 7);
    assert_eq!(with_a.get_component_vec(A), &[7]);
    let m = with_a.downgrade_entity(&mut root, 0);
    assert_eq!(m, 1);
    assert_eq!(with_a.len(), 0);
    assert_eq!(root.entity_at(1), EntityId(10));
    root.remove_entity(0);
    assert_eq!(root.len(), 1);
    assert_eq!(root.entity_at(0), EntityId(10));
}

#[test]
fn one_more_type_between_archetypes() {
    let mut small: Archetype<i32> = Archetype::new();
    small.add_component(A);
    let mut big = small.imitate();
    big.add_component(B);
    assert_eq!(small.one_more_type(&big), Some(B));
    assert_eq!(big.one_more_type(&small), None);
    assert_eq!(small.one_more_type(&small), None);
}

#[test]
fn graph_edges_link_both_ways() {
    let mut g: TypeGraph<i32> = TypeGraph::new();
    let root = g.root();
    assert_eq!(root, ArchetypeId(0));
    assert_eq!(g.get_superset_with(root, A), None);
    let a = g.create_superset_with(root, A);
    assert_eq!(a, ArchetypeId(1));
    assert_eq!(g.get_superset_with(root, A), Some(a));
    assert_eq!(g.get_subset_without(a, A), Some(root));
    let ab = g.create_superset_with(a, B);
    let b = g.create_subset_without(ab, A);
    assert_eq!(g.get_subset_without(ab, A), Some(b));
    assert_eq!(g.get_superset_with(b, A), Some(ab));
    assert_eq!(g.get_superset_with(root, B), Some(b));
    assert_eq!(g.get_subset_without(b, B), Some(root));
    assert_eq!(g.len(), 4);
    assert_eq!(g.get(b).unwrap().component_types(), vec![B]);
    assert!(g.get(ArchetypeId(9)).is_none());
}

#[test]
fn tables_store_and_forget() {
    let mut t = EntityTable::new();
    assert_eq!(t.get(3), None);
    t.insert(3, (1, 2));
    t.insert(4, (5, 6));
    t.insert(3, (7, 8));
    assert_eq!(t.get(3), Some((7, 8)));
    assert_eq!(t.len(), 2);
    t.remove(3);
    assert_eq!(t.get(3), None);
    assert_eq!(t.len(), 1);
    let mut p = PairSet::new();
    assert!(!p.contains((1, 2)));
    p.insert((1, 2));
    assert!(p.contains((1, 2)));
    assert!(!p.contains((2, 1)));
    let mut e = EdgeTable::new();
    e.insert(9, 4);
    assert_eq!(e.get(9), Some(4));
    assert_eq!(e.get(8), None);
}

#[test]
fn archetype_two_columns_at_once() {
    let mut root: Archetype<i32> = Archetype::new();
    let mut ab = root.imitate();
    ab.add_component(A);
    ab.add_component(B);
    let mut with_a = root.imitate();
    with_a.add_component(A);
    root.push_entity(EntityId(1));
    root.upgrade_entity(&mut with_a, 0, A, 3);
    with_a.upgrade_entity(&mut ab, 0, B, 4);
    {
        let (b, a) = ab.get_two_components_mut(B, A, 0).unwrap();
        assert_eq!((*a, *b), (3, 4));
        *a = 30;
        *b = 40;
    }
    assert_eq!(ab.get_component(A, 0), Some(&30));
    assert_eq!(ab.get_component(B, 0), Some(&40));
    assert_eq!(with_a.len(), 0);
}
