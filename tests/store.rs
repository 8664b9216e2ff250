use std::cell::Cell;
use std::rc::Rc;

use aecs::{ArchetypeId, ComponentType, ECS, EntityId};

trait Letter {
    fn val(&self) -> char;
}

#[derive(Debug, PartialEq)]
enum Comp {
    A(usize),
    B(f32),
    C(i64),
}

impl Letter for Comp {
    fn val(&self) -> char {
        match self {
            Comp::A(x) => *x as u8 as char,
            Comp::B(x) => *x as u8 as char,
            Comp::C(x) => *x as u8 as char,
        }
    }
}

const A: ComponentType = ComponentType(1);
const B: ComponentType = ComponentType(2);
const C: ComponentType = ComponentType(3);

fn create_entity_from(ecs: &mut ECS<Comp>, comps: Vec<(ComponentType, Comp)>) -> EntityId {
    let eid = ecs.create_entity();
    for (t, c) in comps {
        ecs.attach_component(eid, t, c);
    }
    eid
}

fn basic_ecs() -> (ECS<Comp>, [EntityId; 4]) {
    let mut ecs = ECS::new();
    let e1 = create_entity_from(&mut ecs, vec![(A, Comp::A(10)), (B, Comp::B(-5.0))]);
    let e2 = create_entity_from(&mut ecs, vec![(A, Comp::A(5)), (C, Comp::C(100))]);
    let e3 = create_entity_from(&mut ecs, vec![(B, Comp::B(3.14)), (C, Comp::C(-4))]);
    let e4 = create_entity_from(&mut ecs, vec![(A, Comp::A(0)), (B, Comp::B(0.)), (C, Comp::C(0))]);
    (ecs, [e1, e2, e3, e4])
}

#[test]
fn iter() {
    let (ecs, entities) = basic_ecs();

    for (e, vals) in ecs.iter_components(&vec![A, B]) {
        match (e, vals[0], vals[1]) {
            (e, a, b) if e == entities[0] => assert_eq!((a, b), (&Comp::A(10), &Comp::B(-5.0))),
            (e, a, b) if e == entities[3] => assert_eq!((a, b), (&Comp::A(0), &Comp::B(0.))),
            _ => assert!(false, "Invalid entity"),
        }
    }
}

#[test]
fn iter_mut() {
    let (mut ecs, entities) = basic_ecs();

    {
        for a in ecs.archetypes_with(C) {
            let (ids, mut cols) = ecs.iter_components_mut(a, &vec![C]).unwrap();
            let cs = cols.pop().unwrap();
            for (e, c) in ids.into_iter().zip(cs) {
                if e == entities[1] {
                    *c = Comp::C(-10);
                }
            }
        }
    }
    {
        for (e, vals) in ecs.iter_components(&vec![C]) {
            match (e, vals[0]) {
                (e, c) if e == entities[1] => assert_eq!(c, &Comp::C(-10)),
                (e, c) if e == entities[2] => assert_eq!(c, &Comp::C(-4)),
                (e, c) if e == entities[3] => assert_eq!(c, &Comp::C(0)),
                _ => assert!(false, "Invalid entry"),
            }
        }
    }
}

#[test]
fn iter_cast() {
    let (ecs, _entities) = basic_ecs();

    let mut x: Vec<&dyn Letter> = Vec::new();
    for t in [A, C] {
        for (_e, vals) in ecs.iter_components(&vec![t]) {
            x.push(vals[0] as &dyn Letter);
        }
    }
    let x = &x[..];
    assert_eq!(x.len(), 6);
    let _chars: Vec<char> = x.iter().map(|l| l.val()).collect();
}

#[test]
fn iter_yields_exactly_matching_entities() {
    let (ecs, entities) = basic_ecs();
    let rows = ecs.iter_components(&vec![A, B]);
    assert_eq!(rows.len(), 2);
    let ids: Vec<EntityId> = rows.iter().map(|(e, _)| *e).collect();
    assert!(ids.contains(&entities[0]));
    assert!(ids.contains(&entities[3]));
    let rows = ecs.iter_components(&vec![C]);
    assert_eq!(rows.len(), 3);
    let rows = ecs.iter_components(&vec![]);
    assert_eq!(rows.len(), 4);
    let rows = ecs.iter_components(&vec![ComponentType(99)]);
    assert_eq!(rows.len(), 0);
}

#[test]
fn destroy_swaps_last_row_in() {
    let mut ecs: ECS<Comp> = ECS::new();
    let e1 = ecs.create_entity();
    let e2 = ecs.create_entity();
    let e3 = ecs.create_entity();
    ecs.destroy_entity(e1);
    let ids: Vec<EntityId> = ecs.iter_components(&vec![]).into_iter().map(|(e, _)| e).collect();
    assert_eq!(ids, vec![e3, e2]);
    assert_eq!(ecs.location(e3), Some((ecs.root(), 0)));
    assert_eq!(ecs.location(e2), Some((ecs.root(), 1)));
    assert_eq!(ecs.location(e1), None);
}

#[test]
fn attach_then_detach_returns_to_root() {
    let mut ecs: ECS<Comp> = ECS::new();
    let e = ecs.create_entity();
    ecs.attach_component(e, A, Comp::A(1));
    assert!(ecs.has_component(e, A));
    ecs.detach_component(e, A);
    assert!(!ecs.has_component(e, A));
    assert_eq!(ecs.location(e).map(|(a, _)| a), Some(ecs.root()));
    let (a, _) = ecs.location(e).unwrap();
    let types = ecs.archetypes().get(a).unwrap().component_types();
    let root_types = ecs.archetypes().get(ecs.root()).unwrap().component_types();
    assert_eq!(types, root_types);
    assert!(types.is_empty());
}

#[test]
fn attach_detach_round_trip_keeps_archetype() {
    let (mut ecs, entities) = basic_ecs();
    let e = entities[0];
    let (before, _) = ecs.location(e).unwrap();
    ecs.attach_component(e, C, Comp::C(7));
    assert_eq!(ecs.get_component(e, C), Some(&Comp::C(7)));
    assert_ne!(ecs.location(e).unwrap().0, before);
    ecs.detach_component(e, C);
    assert_eq!(ecs.location(e).unwrap().0, before);
    assert!(!ecs.has_component(e, C));
    assert_eq!(ecs.get_component(e, A), Some(&Comp::A(10)));
    assert_eq!(ecs.get_component(e, B), Some(&Comp::B(-5.0)));
}

#[test]
fn attach_then_get_returns_value() {
    let mut ecs: ECS<Comp> = ECS::new();
    let e = ecs.create_entity();
    ecs.attach_component(e, B, Comp::B(2.5));
    assert_eq!(ecs.get_component(e, B), Some(&Comp::B(2.5)));
    assert_eq!(ecs.get_component(e, A), None);
}

#[test]
fn attach_existing_type_overwrites_in_place() {
    let mut ecs: ECS<Comp> = ECS::new();
    let e = ecs.create_entity();
    ecs.attach_component(e, A, Comp::A(1));
    let loc = ecs.location(e);
    ecs.attach_component(e, A, Comp::A(2));
    assert_eq!(ecs.location(e), loc);
    assert_eq!(ecs.get_component(e, A), Some(&Comp::A(2)));
}

#[test]
fn detach_missing_type_changes_nothing() {
    let mut ecs: ECS<Comp> = ECS::new();
    let e = ecs.create_entity();
    ecs.attach_component(e, A, Comp::A(1));
    let loc = ecs.location(e);
    ecs.detach_component(e, B);
    assert_eq!(ecs.location(e), loc);
    assert_eq!(ecs.get_component(e, A), Some(&Comp::A(1)));
}

#[test]
fn destroy_twice_is_noop() {
    let (mut ecs, entities) = basic_ecs();
    ecs.destroy_entity(entities[1]);
    let after_first = ecs.iter_components(&vec![]).len();
    ecs.destroy_entity(entities[1]);
    assert_eq!(ecs.iter_components(&vec![]).len(), after_first);
    assert_eq!(after_first, 3);
    assert!(!ecs.has_component(entities[1], A));
    assert_eq!(ecs.get_component(entities[1], A), None);
    assert_eq!(ecs.get_component(entities[0], A), Some(&Comp::A(10)));
}

#[test]
fn unknown_entity_is_ignored() {
    let (mut ecs, _entities) = basic_ecs();
    let ghost = EntityId(12345);
    assert!(!ecs.has_component(ghost, A));
    assert_eq!(ecs.get_component(ghost, A), None);
    assert!(ecs.get_component_mut(ghost, A).is_none());
    ecs.attach_component(ghost, A, Comp::A(3));
    ecs.detach_component(ghost, A);
    ecs.destroy_entity(ghost);
    assert_eq!(ecs.iter_components(&vec![]).len(), 4);
    assert_eq!(ecs.location(ghost), None);
}

#[test]
fn second_entity_keeps_values_after_first_destroyed() {
    let mut ecs: ECS<Comp> = ECS::new();
    let first = create_entity_from(&mut ecs, vec![(A, Comp::A(1)), (B, Comp::B(1.5))]);
    let second = create_entity_from(&mut ecs, vec![(A, Comp::A(2)), (B, Comp::B(2.5))]);
    assert_eq!(ecs.location(second).unwrap().1, 1);
    ecs.destroy_entity(first);
    assert_eq!(ecs.location(second).unwrap().1, 0);
    assert_eq!(ecs.get_component(second, A), Some(&Comp::A(2)));
    assert_eq!(ecs.get_component(second, B), Some(&Comp::B(2.5)));
}

#[test]
fn sum_over_all_three_types() {
    let mut ecs: ECS<Comp> = ECS::new();
    let mut seed: u64 = 0x2545F4914F6CDD1D;
    let mut expected: i64 = 0;
    for i in 0..1000i64 {
        seed = seed.wrapping_mul(6364136223846793005).wrapping_add(1442695040888963407);
        let mask = (seed >> 33) % 8;
        let e = ecs.create_entity();
        if mask & 1 != 0 {
            ecs.attach_component(e, A, Comp::A(i as usize));
        }
        if mask & 2 != 0 {
            ecs.attach_component(e, B, Comp::B(i as f32));
        }
        if mask & 4 != 0 {
            ecs.attach_component(e, C, Comp::C(i));
        }
        if mask == 7 {
            expected += 3 * i;
        }
    }
    let mut sum: i64 = 0;
    for (_e, vals) in ecs.iter_components(&vec![A, B, C]) {
        for v in vals {
            sum += match v {
                Comp::A(x) => *x as i64,
                Comp::B(x) => *x as i64,
                Comp::C(x) => *x,
            };
        }
    }
    assert_eq!(sum, expected);
}

struct Counted(Rc<Cell<usize>>);

impl Drop for Counted {
    fn drop(&mut self) {
        self.0.set(self.0.get() + 1);
    }
}

#[test]
fn dropping_store_releases_each_value_once() {
    let drops = Rc::new(Cell::new(0));
    {
        let mut ecs: ECS<Counted> = ECS::new();
        let mut es = Vec::new();
        for _ in 0..5 {
            let e = ecs.create_entity();
            ecs.attach_component(e, A, Counted(drops.clone()));
            es.push(e);
        }
        ecs.attach_component(es[0], B, Counted(drops.clone()));
        assert_eq!(drops.get(), 0);
        ecs.detach_component(es[0], B);
        assert_eq!(drops.get(), 1);
        ecs.destroy_entity(es[1]);
        assert_eq!(drops.get(), 2);
        ecs.attach_component(es[2], A, Counted(drops.clone()));
        assert_eq!(drops.get(), 3);
    }
    assert_eq!(drops.get(), 3 + 4);
}

#[test]
fn create_entity_with_uses_free_key() {
    let mut ecs: ECS<Comp> = ECS::new();
    let e = ecs.create_entity_with(42);
    assert_eq!(e, EntityId(42));
    let f = ecs.create_entity_with(42);
    assert_eq!(f, EntityId(0));
    let g = ecs.create_entity_with(0);
    assert_eq!(g, EntityId(1));
}

#[test]
fn random_entities_differ() {
    let mut ecs: ECS<Comp> = ECS::new();
    let e = ecs.create_entity();
    let f = ecs.create_entity();
    assert_ne!(e, f);
    assert_eq!(ecs.location(e), Some((ArchetypeId(0), 0)));
    assert_eq!(ecs.location(f), Some((ArchetypeId(0), 1)));
}

#[test]
fn type_index_lists_archetypes_with_type() {
    let (ecs, entities) = basic_ecs();
    let with_a = ecs.archetypes_with(A);
    let (a1, _) = ecs.location(entities[0]).unwrap();
    let (a4, _) = ecs.location(entities[3]).unwrap();
    assert!(with_a.contains(&a1));
    assert!(with_a.contains(&a4));
    for a in &with_a {
        assert!(ecs.archetypes().get(*a).unwrap().has_type(A));
    }
    let (a3, _) = ecs.location(entities[2]).unwrap();
    assert!(!with_a.contains(&a3));
    assert!(ecs.archetypes_with(ComponentType(99)).is_empty());
    assert!(ecs.has_component(entities[3], A));
    assert!(ecs.has_component(entities[3], B));
    assert!(ecs.has_component(entities[3], C));
    assert!(!ecs.has_component(entities[2], A));
}

#[test]
fn two_components_borrowed_at_once() {
    let (mut ecs, entities) = basic_ecs();
    {
        let (a, c) = ecs.get_components_mut(entities[3], A, C).unwrap();
        *a = Comp::A(1);
        *c = Comp::C(2);
    }
    assert_eq!(ecs.get_component(entities[3], A), Some(&Comp::A(1)));
    assert_eq!(ecs.get_component(entities[3], C), Some(&Comp::C(2)));
    assert_eq!(ecs.get_component(entities[3], B), Some(&Comp::B(0.)));
    assert_eq!(ecs.get_component(entities[1], A), Some(&Comp::A(5)));
    assert!(ecs.get_components_mut(entities[0], A, C).is_none());
    let (c, b) = ecs.get_components_mut(entities[2], C, B).unwrap();
    assert_eq!((&*c, &*b), (&Comp::C(-4), &Comp::B(3.14)));
}

#[test]
fn get_component_mut_writes_one_value() {
    let (mut ecs, entities) = basic_ecs();
    *ecs.get_component_mut(entities[1], C).unwrap() = Comp::C(55);
    assert_eq!(ecs.get_component(entities[1], C), Some(&Comp::C(55)));
    assert_eq!(ecs.get_component(entities[1], A), Some(&Comp::A(5)));
    assert_eq!(ecs.get_component(entities[2], C), Some(&Comp::C(-4)));
    assert!(ecs.get_component_mut(entities[0], C).is_none());
}

#[test]
fn iter_components_mut_needs_types_in_archetype() {
    let (mut ecs, entities) = basic_ecs();
    let (a1, _) = ecs.location(entities[0]).unwrap();
    assert!(ecs.iter_components_mut(a1, &vec![C]).is_none());
    assert!(ecs.iter_components_mut(a1, &vec![A, C]).is_none());
    assert!(ecs.iter_components_mut(ArchetypeId(1000), &vec![A]).is_none());
    let (ids, cols) = ecs.iter_components_mut(a1, &vec![A]).unwrap();
    assert_eq!(ids, vec![entities[0]]);
    assert_eq!(cols.len(), 1);
    assert_eq!(*cols[0][0], Comp::A(10));
}

#[test]
fn iter_components_mut_over_several_types() {
    let (mut ecs, entities) = basic_ecs();
    let (a4, _) = ecs.location(entities[3]).unwrap();
    {
        let (ids, mut cols) = ecs.iter_components_mut(a4, &vec![C, A]).unwrap();
        assert_eq!(ids, vec![entities[3]]);
        let mut a_col = cols.pop().unwrap();
        let mut c_col = cols.pop().unwrap();
        assert_eq!((&*c_col[0], &*a_col[0]), (&Comp::C(0), &Comp::A(0)));
        *c_col.pop().unwrap() = Comp::C(9);
        *a_col.pop().unwrap() = Comp::A(8);
    }
    assert_eq!(ecs.get_component(entities[3], C), Some(&Comp::C(9)));
    assert_eq!(ecs.get_component(entities[3], A), Some(&Comp::A(8)));
    assert_eq!(ecs.get_component(entities[3], B), Some(&Comp::B(0.)));
    assert_eq!(ecs.get_component(entities[1], C), Some(&Comp::C(100)));
}

#[test]
fn attach_lands_on_last_row_and_fills_hole() {
    let mut ecs: ECS<Comp> = ECS::new();
    let x = ecs.create_entity();
    let y = ecs.create_entity();
    let z = ecs.create_entity();
    ecs.attach_component(y, A, Comp::A(1));
    assert_eq!(ecs.location(z), Some((ecs.root(), 1)));
    assert_eq!(ecs.location(x), Some((ecs.root(), 0)));
    let (with_a, row) = ecs.location(y).unwrap();
    assert_eq!(row, 0);
    assert_eq!(ecs.archetypes().len(), 2);
    ecs.attach_component(x, A, Comp::A(2));
    assert_eq!(ecs.location(x), Some((with_a, 1)));
    assert_eq!(ecs.archetypes().len(), 2);
    assert_eq!(ecs.location(z), Some((ecs.root(), 0)));
}

#[test]
fn new_store_holds_only_the_empty_root() {
    let ecs: ECS<Comp> = ECS::new();
    assert_eq!(ecs.archetypes().len(), 1);
    assert_eq!(ecs.root(), ArchetypeId(0));
    let root = ecs.archetypes().get(ecs.root()).unwrap();
    assert!(root.component_types().is_empty());
    assert_eq!(root.len(), 0);
    assert!(ecs.archetypes_with(A).is_empty());
}
