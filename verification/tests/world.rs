use archetype_ecs::bitset::BitSet;
use archetype_ecs::world::World;

const A: u64 = 11;
const B: u64 = 22;
const C: u64 = 33;

fn bytes(v: u64) -> Vec<u8> {
    v.to_le_bytes().to_vec()
}

fn value(b: &[u8]) -> u64 {
    let mut a: [u8; 8] = [0; 8];
    a.copy_from_slice(b);
    u64::from_le_bytes(a)
}

fn abc_world() -> (World, usize, usize, usize) {
    let mut world = World::new();
    let a = world.register_component(A, 8, 8);
    let b = world.register_component(B, 8, 8);
    let c = world.register_component(C, 8, 8);
    (world, a, b, c)
}

fn set_of(bits: &[usize]) -> BitSet {
    let mut s = BitSet::new();
    for b in bits {
        s.set(*b);
    }
    s
}

/// Checks, on the whole world, what must hold in every state: rows and
/// records agree, columns are as long as the entity lists, edges differ by
/// their component, no set occurs twice.
fn check_invariants(world: &World) {
    let graph = world.archetype_manager();
    let directory = world.entity_manager();
    assert!(graph.len() >= 1);
    assert!(graph.get_root().component_set().equals(&BitSet::new()));
    for i in 0..graph.len() {
        let archetype = graph.get(i);
        assert_eq!(archetype.id(), i);
        for (row, e) in archetype.entities().iter().enumerate() {
            assert!(directory.alive(*e));
            assert_eq!(directory.get_record(*e).archetype_id, i);
            assert_eq!(directory.get_record(*e).archetype_row, row);
        }
        for c in archetype.comp_ids() {
            assert!(archetype.has_component(*c));
            assert!(archetype.has_storage(*c));
            let column = archetype.get_storage(*c);
            assert_eq!(column.id(), *c);
            assert_eq!(column.len(), archetype.len());
            if column.is_tracked() {
                assert_eq!(column.get_tracker().len(), archetype.len());
            }
        }
        for c in 0..world.component_count() {
            assert_eq!(archetype.has_component(c), archetype.comp_ids().contains(&c));
            if let Some(target) = archetype.edge(c) {
                assert!(target < graph.len());
                let mut expected = archetype.component_set().duplicate();
                if archetype.has_component(c) {
                    expected.clear(c);
                } else {
                    expected.set(c);
                }
                assert!(graph.get(target).component_set().equals(&expected));
            }
        }
        for j in 0..i {
            assert!(!graph.get(j).component_set().equals(archetype.component_set()));
        }
    }
}

#[test]
fn archetype_creation_chain() {
    let (mut world, a, b, c) = abc_world();
    assert_eq!((a, b, c), (0, 1, 2));
    let e = world.create_entity().unwrap();
    world.add_component(e, a, &bytes(1));
    world.add_component(e, b, &bytes(2));
    world.add_component(e, c, &bytes(3));
    let graph = world.archetype_manager();
    assert_eq!(graph.len(), 4);
    let record = *world.entity_manager().get_record(e);
    let home = graph.get(record.archetype_id);
    assert!(home.component_set().equals(&set_of(&[a, b, c])));
    assert_eq!(home.get_storage(a).len(), 1);
    assert_eq!(home.get_storage(b).len(), 1);
    assert_eq!(home.get_storage(c).len(), 1);
    assert_eq!(graph.get_root().entities().len(), 0);
    assert_eq!(graph.find_by_set(&set_of(&[a])).map(|i| graph.get(i).len()), Some(0));
    assert_eq!(graph.find_by_set(&set_of(&[a, b])).map(|i| graph.get(i).len()), Some(0));
    assert_eq!(graph.find_by_set(&set_of(&[a, b, c])), Some(record.archetype_id));
    assert_eq!(graph.find_by_set(&set_of(&[b])), None);
    assert_eq!(graph.find_by_set(&BitSet::new()), Some(0));
    assert_eq!(value(world.get_component(e, a).unwrap()), 1);
    assert_eq!(value(world.get_component(e, b).unwrap()), 2);
    assert_eq!(value(world.get_component(e, c).unwrap()), 3);
    check_invariants(&world);
}

#[test]
fn swap_remove_row_fixup() {
    let (mut world, a, _, _) = abc_world();
    let e1 = world.create_entity().unwrap();
    let e2 = world.create_entity().unwrap();
    world.add_component(e1, a, &bytes(100));
    world.add_component(e2, a, &bytes(200));
    let with_a = world.archetype_manager().find_by_set(&set_of(&[a])).unwrap();
    assert_eq!(world.archetype_manager().get(with_a).entities(), &vec![e1, e2]);
    assert_eq!(world.entity_manager().get_record(e1).archetype_row, 0);
    assert_eq!(world.entity_manager().get_record(e2).archetype_row, 1);
    world.remove_component(e1, a);
    assert_eq!(world.entity_manager().get_record(e1).archetype_id, 0);
    assert_eq!(world.entity_manager().get_record(e1).archetype_row, 0);
    assert_eq!(world.archetype_manager().get(with_a).entities(), &vec![e2]);
    assert_eq!(world.entity_manager().get_record(e2).archetype_id, with_a);
    assert_eq!(world.entity_manager().get_record(e2).archetype_row, 0);
    assert_eq!(value(world.get_component(e2, a).unwrap()), 200);
    assert!(world.get_component(e1, a).is_none());
    check_invariants(&world);
}

#[test]
fn new_world_has_the_root_alone() {
    let world = World::new();
    assert_eq!(world.tick(), 0);
    assert_eq!(world.component_count(), 0);
    assert_eq!(world.archetype_manager().len(), 1);
    assert_eq!(world.archetype_manager().get_root().len(), 0);
    assert!(world.archetype_manager().new_archetypes_queue().is_empty());
    assert!(!world.is_entity_alive(0));
    assert_eq!(world.component_id(A), None);
    check_invariants(&world);
}

#[test]
fn registering_a_component_twice_changes_nothing() {
    let (mut world, a, b, _) = abc_world();
    assert_eq!(world.register_component(A, 8, 8), a);
    assert_eq!(world.register_component(B, 8, 8), b);
    assert_eq!(world.component_count(), 3);
    assert_eq!(world.component_id(B), Some(b));
    assert_eq!(world.component_id(99), None);
    assert_eq!(world.component_manager().get_metadata(a).type_tag, A);
}

#[test]
fn adding_then_removing_gives_back_the_set() {
    let (mut world, a, b, c) = abc_world();
    let e = world.create_entity().unwrap();
    world.add_component(e, a, &bytes(5));
    world.add_component(e, c, &bytes(7));
    let before = world.entity_manager().get_record(e).archetype_id;
    world.add_component(e, b, &bytes(6));
    assert!(world.has_component(e, b));
    assert_ne!(world.entity_manager().get_record(e).archetype_id, before);
    world.remove_component(e, b);
    assert!(!world.has_component(e, b));
    let after = world.entity_manager().get_record(e).archetype_id;
    assert!(world.archetype_manager().get(after).component_set().equals(&set_of(&[a, c])));
    assert_eq!(after, before);
    assert_eq!(value(world.get_component(e, a).unwrap()), 5);
    assert_eq!(value(world.get_component(e, c).unwrap()), 7);
    check_invariants(&world);
}

#[test]
fn deleting_twice_is_deleting_once() {
    let (mut world, a, _, _) = abc_world();
    let e1 = world.create_entity().unwrap();
    let e2 = world.create_entity().unwrap();
    world.add_component(e1, a, &bytes(1));
    world.add_component(e2, a, &bytes(2));
    world.delete_entity(e1);
    assert!(!world.is_entity_alive(e1));
    assert!(world.is_entity_alive(e2));
    let rows = world.archetype_manager().get(1).entities().clone();
    world.delete_entity(e1);
    assert!(!world.is_entity_alive(e1));
    assert!(world.is_entity_alive(e2));
    assert_eq!(world.archetype_manager().get(1).entities(), &rows);
    assert_eq!(value(world.get_component(e2, a).unwrap()), 2);
    let e3 = world.create_entity().unwrap();
    assert_ne!(e3, e1);
    world.delete_entity(e1);
    assert!(world.is_entity_alive(e3));
    check_invariants(&world);
}

#[test]
fn operations_on_dead_entities_change_nothing() {
    let (mut world, a, b, _) = abc_world();
    let e = world.create_entity().unwrap();
    world.add_component(e, a, &bytes(1));
    world.delete_entity(e);
    world.add_component(e, b, &bytes(2));
    world.remove_component(e, a);
    world.flag_modified(e, a);
    assert!(!world.set_component(e, a, &bytes(3)));
    assert!(!world.has_component(e, a));
    assert!(!world.has_component(e, b));
    assert!(world.get_component(e, a).is_none());
    assert_eq!(world.archetype_manager().len(), 2);
    assert_eq!(world.archetype_manager().get(1).len(), 0);
    check_invariants(&world);
}

#[test]
fn adding_a_held_component_keeps_the_old_value() {
    let (mut world, a, b, _) = abc_world();
    let e = world.create_entity().unwrap();
    world.add_component(e, a, &bytes(1));
    world.add_component(e, a, &bytes(2));
    assert_eq!(value(world.get_component(e, a).unwrap()), 1);
    world.remove_component(e, b);
    assert!(world.has_component(e, a));
    assert!(!world.has_component(e, 17));
    assert!(world.get_component(e, 17).is_none());
    world.remove_component(e, 17);
    assert_eq!(world.archetype_manager().len(), 2);
}

#[test]
fn set_component_overwrites_one_value() {
    let (mut world, a, b, _) = abc_world();
    let e1 = world.create_entity().unwrap();
    let e2 = world.create_entity().unwrap();
    for e in [e1, e2] {
        world.add_component(e, a, &bytes(1));
        world.add_component(e, b, &bytes(2));
    }
    assert!(world.set_component(e2, b, &bytes(50)));
    assert!(!world.set_component(e2, 2, &bytes(60)));
    assert_eq!(value(world.get_component(e1, a).unwrap()), 1);
    assert_eq!(value(world.get_component(e1, b).unwrap()), 2);
    assert_eq!(value(world.get_component(e2, a).unwrap()), 1);
    assert_eq!(value(world.get_component(e2, b).unwrap()), 50);
    check_invariants(&world);
}

#[test]
fn values_travel_with_their_entity() {
    let (mut world, a, b, c) = abc_world();
    let mut entities: Vec<u32> = Vec::new();
    for i in 0..40u64 {
        let e = world.create_entity().unwrap();
        world.add_component(e, a, &bytes(i));
        if i % 2 == 0 {
            world.add_component(e, b, &bytes(1000 + i));
        }
        if i % 3 == 0 {
            world.add_component(e, c, &bytes(2000 + i));
        }
        entities.push(e);
    }
    for (i, e) in entities.iter().enumerate() {
        if i % 4 == 0 {
            world.remove_component(*e, a);
        }
        if i % 7 == 0 {
            world.delete_entity(*e);
        }
    }
    check_invariants(&world);
    for (i, e) in entities.iter().enumerate() {
        let i = i as u64;
        if i % 7 == 0 {
            assert!(!world.is_entity_alive(*e));
            assert!(world.get_component(*e, a).is_none());
            continue;
        }
        assert_eq!(world.get_component(*e, a).map(value), if i % 4 == 0 { None } else { Some(i) });
        assert_eq!(world.get_component(*e, b).map(value), if i % 2 == 0 { Some(1000 + i) } else { None });
        assert_eq!(world.get_component(*e, c).map(value), if i % 3 == 0 { Some(2000 + i) } else { None });
    }
}

#[test]
fn the_same_set_is_reached_by_any_order() {
    let (mut world, a, b, c) = abc_world();
    let e1 = world.create_entity().unwrap();
    world.add_component(e1, a, &bytes(1));
    world.add_component(e1, b, &bytes(2));
    world.add_component(e1, c, &bytes(3));
    let e2 = world.create_entity().unwrap();
    world.add_component(e2, c, &bytes(3));
    world.add_component(e2, b, &bytes(2));
    world.add_component(e2, a, &bytes(1));
    assert_eq!(
        world.entity_manager().get_record(e1).archetype_id,
        world.entity_manager().get_record(e2).archetype_id
    );
    assert_eq!(world.entity_manager().get_record(e2).archetype_row, 1);
    // root, {a}, {a,b}, {a,b,c}, {c}, {b,c}
    assert_eq!(world.archetype_manager().len(), 6);
    check_invariants(&world);
}

#[test]
fn end_update_advances_the_tick_and_empties_the_queue() {
    let (mut world, a, _, _) = abc_world();
    let e = world.create_entity().unwrap();
    world.add_component(e, a, &bytes(1));
    assert_eq!(world.archetype_manager().new_archetypes_queue(), &vec![1usize]);
    world.end_update();
    assert_eq!(world.tick(), 1);
    assert!(world.archetype_manager().new_archetypes_queue().is_empty());
    world.end_update();
    assert_eq!(world.tick(), 2);
    assert!(world.is_entity_alive(e));
}

#[test]
fn flag_modified_enables_tracking_and_marks_the_row() {
    let (mut world, a, _, _) = abc_world();
    let e1 = world.create_entity().unwrap();
    let e2 = world.create_entity().unwrap();
    world.add_component(e1, a, &bytes(1));
    world.add_component(e2, a, &bytes(2));
    world.end_update();
    world.end_update();
    world.flag_modified(e2, a);
    let column = world.archetype_manager().get(1).get_storage(a);
    assert!(column.is_tracked());
    assert_eq!(column.get_tracker().get(1).modified, 2);
    assert_eq!(value(world.get_component(e2, a).unwrap()), 2);
    check_invariants(&world);
}

#[test]
fn full_world_creates_no_entity() {
    let mut world = World::new();
    let limit: u32 = 1 << 22;
    for _ in 0..limit {
        assert!(world.create_entity().is_some());
    }
    assert_eq!(world.create_entity(), None);
    assert_eq!(world.archetype_manager().get_root().len(), limit as usize);
    world.delete_entity(0);
    assert_eq!(world.archetype_manager().get_root().entities()[0], limit - 1);
    assert_eq!(world.entity_manager().get_record(limit - 1).archetype_row, 0);
    assert_eq!(world.create_entity(), Some(1 << 22));
    assert_eq!(world.create_entity(), None);
}

#[test]
fn graph_starts_with_an_empty_root() {
    let mut graph = archetype_ecs::graph::ArchetypeManager::new();
    assert_eq!(graph.len(), 1);
    assert_eq!(graph.get_root().id(), 0);
    assert_eq!(graph.get_root_mut().len(), 0);
    assert!(graph.get_root().comp_ids().is_empty());
    assert_eq!(graph.find_by_set(&BitSet::new()), Some(0));
    assert_eq!(graph.find_by_set(&set_of(&[0])), None);
}
