use archetype_ecs::command::{
    AddComponentCommand, AddEntityCommand, CommandKind, CommandMetadata, CommandQueue,
    FlagModifiedCommand, RemoveComponentCommand, RemoveEntityCommand,
};
use archetype_ecs::world::World;

const A: u64 = 5;
const B: u64 = 6;

fn bytes(v: u32) -> Vec<u8> {
    v.to_le_bytes().to_vec()
}

fn value(b: &[u8]) -> u32 {
    let mut a: [u8; 4] = [0; 4];
    a.copy_from_slice(b);
    u32::from_le_bytes(a)
}

fn world_ab() -> (World, usize, usize) {
    let mut world = World::new();
    let a = world.register_component(A, 4, 4);
    let b = world.register_component(B, 4, 4);
    (world, a, b)
}

#[test]
fn queued_commands_wait_for_the_flush() {
    let (mut world, a, _) = world_ab();
    let e = world.create_entity().unwrap();
    let mut queue = CommandQueue::new();
    assert_eq!(queue.len(), 0);
    queue.add_component(e, a, &bytes(77));
    queue.add_entity();
    assert_eq!(queue.len(), 2);
    assert!(!world.has_component(e, a));
    queue.flush(&mut world);
    assert_eq!(queue.len(), 0);
    assert_eq!(value(world.get_component(e, a).unwrap()), 77);
    assert_eq!(world.archetype_manager().get_root().len(), 1);
    queue.flush(&mut world);
    assert_eq!(value(world.get_component(e, a).unwrap()), 77);
    assert_eq!(world.archetype_manager().get_root().len(), 1);
}

#[test]
fn commands_run_in_the_order_queued() {
    let (mut world, a, b) = world_ab();
    let e = world.create_entity().unwrap();
    let f = world.create_entity().unwrap();
    let mut queue = CommandQueue::new();
    queue.add_component(e, a, &bytes(1));
    queue.add_component(e, b, &bytes(2));
    queue.remove_component(e, a);
    queue.add_component(e, a, &bytes(3));
    queue.add_component(f, b, &bytes(0xdead_beef));
    queue.remove_entity(f);
    queue.add_component(f, a, &bytes(9));
    queue.flag_modified(e, b);
    queue.flush(&mut world);
    assert_eq!(value(world.get_component(e, a).unwrap()), 3);
    assert_eq!(value(world.get_component(e, b).unwrap()), 2);
    assert!(!world.is_entity_alive(f));
    let home = world.entity_manager().get_record(e).archetype_id;
    let column = world.archetype_manager().get(home).get_storage(b);
    assert!(column.is_tracked());
    assert!(column.is_modified(0));
}

#[test]
fn commands_that_cannot_apply_change_nothing() {
    let (mut world, a, _) = world_ab();
    let e = world.create_entity().unwrap();
    let mut queue = CommandQueue::new();
    queue.add_component(e, 9, &bytes(1));
    queue.add_component(e, a, &vec![1u8, 2]);
    queue.remove_component(e, a);
    queue.remove_component(e, usize::MAX);
    queue.flag_modified(e, a);
    queue.remove_entity(0x3ff_ffff);
    queue.flush(&mut world);
    assert!(world.is_entity_alive(e));
    assert!(!world.has_component(e, a));
    assert_eq!(world.archetype_manager().len(), 1);
    assert_eq!(world.archetype_manager().get_root().len(), 1);
}

#[test]
fn each_command_executes_on_its_own() {
    let (mut world, a, _) = world_ab();
    AddEntityCommand::new().execute(&mut world);
    let e = world.archetype_manager().get_root().entities()[0];
    AddComponentCommand::new(e, a, bytes(8)).execute(&mut world);
    assert_eq!(value(world.get_component(e, a).unwrap()), 8);
    FlagModifiedCommand::new(e, a).execute(&mut world);
    assert!(world.archetype_manager().get(1).get_storage(a).is_tracked());
    RemoveComponentCommand::new(e, a).execute(&mut world);
    assert!(!world.has_component(e, a));
    assert!(world.is_entity_alive(e));
    RemoveEntityCommand::new(e).execute(&mut world);
    assert!(!world.is_entity_alive(e));
    AddComponentCommand::new(e, a, bytes(8)).execute(&mut world);
    assert!(!world.has_component(e, a));
}

#[test]
fn command_metadata_holds_what_it_was_given() {
    let m = CommandMetadata::new(12, CommandKind::AddComponent);
    assert_eq!(m.size, 12);
    assert!(matches!(m.kind, CommandKind::AddComponent));
}

#[test]
fn large_components_survive_the_queue() {
    let mut world = World::new();
    let big = world.register_component(1, 1000, 8);
    let e = world.create_entity().unwrap();
    let payload: Vec<u8> = (0..1000usize).map(|i: usize| (i % 251) as u8).collect();
    let mut queue = CommandQueue::new();
    queue.add_component(e, big, &payload);
    queue.flush(&mut world);
    assert_eq!(world.get_component(e, big).unwrap(), payload.as_slice());
}
