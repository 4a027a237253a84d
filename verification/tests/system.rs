use archetype_ecs::bitset::BitSet;
use archetype_ecs::bundle::{Access, Item};
use archetype_ecs::command::CommandQueue;
use archetype_ecs::filter::TrackedItem;
use archetype_ecs::iter::ComponentBundleIter;
use archetype_ecs::query::QueryBuilder;
use archetype_ecs::resource::{ResourceId, ResourceManager};
use archetype_ecs::system::{Phase, Schedule, ScheduleBuilder, System, SystemManager};
use archetype_ecs::world::World;

const SPEED: u64 = 1;
const HEALTH: u64 = 2;

fn bytes(v: usize) -> Vec<u8> {
    (v as u64).to_le_bytes().to_vec()
}

fn value(b: &[u8]) -> usize {
    let mut a: [u8; 8] = [0; 8];
    a.copy_from_slice(b);
    u64::from_le_bytes(a) as usize
}

fn component<'a>(item: &Item<'a>) -> &'a [u8] {
    match item {
        Item::Component(b) => *b,
        _ => panic!("not a component"),
    }
}

fn entity(item: &Item) -> u32 {
    match item {
        Item::Entity(e) => *e,
        _ => panic!("not an entity"),
    }
}

fn set_of(bits: &[usize]) -> BitSet {
    let mut s = BitSet::new();
    for b in bits {
        s.set(*b);
    }
    s
}

/// One update of the world: every system runs in order, `run` standing for
/// the functions of the systems, and then the queued commands are
/// executed, the queries synced and the tick advanced.
fn update(
    world: &mut World,
    systems: &mut SystemManager,
    run: &mut dyn FnMut(usize, usize, &mut ComponentBundleIter, &mut CommandQueue),
) {
    let mut phase = Phase::Idle;
    loop {
        phase = systems.step(world, phase);
        match phase {
            Phase::Running { schedule, system } => {
                let (current, commands) = systems.schedule_mut(schedule).split(system);
                let mut rows = world.iter_query(current.query());
                run(schedule, system, &mut rows, commands);
            }
            Phase::Idle => break,
            Phase::Flushing | Phase::Syncing => {}
        }
    }
}

#[test]
fn test_system() {
    let mut world = World::new();
    let speed = world.register_component(SPEED, 8, 8);
    let health = world.register_component(HEALTH, 8, 8);
    let mut systems = SystemManager::new();

    let speed_system =
        System::new(world.query(QueryBuilder::new(vec![Access::EntityHandle, Access::Read(speed)])));

    for i in 0..10usize {
        let player = world.create_entity().unwrap();
        world.add_component(player, speed, &bytes(i));
    }

    systems.add(ScheduleBuilder::new().add(speed_system).build());

    let mut speed_runs: Vec<usize> = Vec::new();
    let mut health_runs: Vec<usize> = Vec::new();
    let mut run = |s: usize, _i: usize, rows: &mut ComponentBundleIter, commands: &mut CommandQueue| {
        let mut n: usize = 0;
        while let Some(row) = rows.next() {
            let e = entity(&row[0]);
            if s == 0 {
                println!("Speed: {}", value(component(&row[1])));
                commands.add_component(e, 1, &bytes(e as usize));
            } else {
                println!("Health: {}", value(component(&row[1])));
                assert_eq!(value(component(&row[1])), e as usize);
                commands.remove_entity(e);
            }
            n += 1;
        }
        if s == 0 {
            speed_runs.push(n);
        } else {
            health_runs.push(n);
        }
    };

    // The query was built before any entity had a speed: nothing is yielded
    // yet, and the sync at the end brings the archetype in.
    update(&mut world, &mut systems, &mut run);

    let health_system =
        System::new(world.query(QueryBuilder::new(vec![Access::EntityHandle, Access::Read(health)])));
    systems.add(ScheduleBuilder::new().add(health_system).build());

    // The speed system gives every entity a health: they move to another
    // archetype, which both queries hold after the sync.
    update(&mut world, &mut systems, &mut run);
    let both = world.archetype_manager().find_by_set(&set_of(&[speed, health])).unwrap();
    assert_eq!(world.archetype_manager().get(both).len(), 10);

    // Both run; the health system deletes every entity.
    update(&mut world, &mut systems, &mut run);
    assert_eq!(world.archetype_manager().get(both).len(), 0);

    update(&mut world, &mut systems, &mut run);
    assert_eq!(speed_runs, vec![0, 10, 10, 0]);
    assert_eq!(health_runs, vec![0, 10, 0]);
    assert_eq!(world.tick(), 4);
    assert_eq!(health, 1);
}

#[test]
fn tracking_test() {
    let mut world = World::new();
    let speed = world.register_component(SPEED, 8, 8);
    let _health = world.register_component(HEALTH, 8, 8);
    let mut systems = SystemManager::new();

    let flag_modify_system =
        System::new(world.query(QueryBuilder::new(vec![Access::EntityHandle, Access::Read(speed)])));
    let tracked_system = System::new(world.query(QueryBuilder::new(vec![Access::TrackedRead(speed)])));

    for i in 0..10usize {
        let player = world.create_entity().unwrap();
        world.add_component(player, speed, &bytes(i));
    }

    systems.add(ScheduleBuilder::new().add(flag_modify_system).add(tracked_system).build());

    let mut reports: Vec<Vec<bool>> = Vec::new();
    let mut run = |_s: usize, i: usize, rows: &mut ComponentBundleIter, commands: &mut CommandQueue| {
        if i == 0 {
            while let Some(row) = rows.next() {
                let v = value(component(&row[1]));
                println!("Speed: {}", v);
                if v % 2 == 0 {
                    commands.flag_modified(entity(&row[0]), 0);
                }
            }
        } else {
            let mut seen: Vec<bool> = Vec::new();
            while let Some(row) = rows.next() {
                let modified = match &row[0] {
                    Item::Watched(t) => t.is_modified(),
                    _ => panic!("not a tracked component"),
                };
                println!("Modified: {}", if modified { "yes" } else { "no" });
                seen.push(modified);
            }
            reports.push(seen);
        }
    };

    // Runs nothing; the sync thereafter brings the archetype into the queries.
    println!("First update");
    update(&mut world, &mut systems, &mut run);

    // All newly added components count as modified.
    println!("Second update");
    update(&mut world, &mut systems, &mut run);

    // Only the components flagged in the second update count as modified.
    println!("Third update");
    update(&mut world, &mut systems, &mut run);

    assert_eq!(reports.len(), 3);
    assert!(reports[0].is_empty());
    assert_eq!(reports[1], vec![true; 10]);
    let alternating: Vec<bool> = (0..10).map(|i: usize| i % 2 == 0).collect();
    assert_eq!(reports[2], alternating);
}

#[test]
fn resource_test() {
    let mut world = World::new();
    let speed = world.register_component(SPEED, 8, 8);
    let health = world.register_component(HEALTH, 8, 8);
    let mut resources = ResourceManager::new();
    let mut systems = SystemManager::new();

    let encode = |a: usize, b: usize, c: usize| -> Vec<u8> {
        let mut v: Vec<u8> = bytes(a);
        v.extend(bytes(b));
        v.extend(bytes(c));
        v
    };
    let global_id: ResourceId<(usize, usize, usize)> = resources.add(77, encode(3, 5, 7));

    let global = resources.get_unchecked(global_id);
    assert_eq!(value(&global[0..8]), 3);
    assert_eq!(value(&global[8..16]), 5);
    assert_eq!(value(&global[16..24]), 7);

    let system_with_resource = System::new(world.query(
        QueryBuilder::new(vec![Access::Read(health), Access::Read(speed)]).with_resources(vec![global_id.index]),
    ));
    assert_eq!(system_with_resource.query().res_param_ids(), &vec![global_id.index]);

    systems.add(ScheduleBuilder::new().add(system_with_resource).build());

    for i in 0..10usize {
        let player = world.create_entity().unwrap();
        world.add_component(player, speed, &bytes(i));
        world.add_component(player, health, &bytes(i));
    }

    let mut yielded: usize = 0;
    let mut run = |_s: usize, _i: usize, rows: &mut ComponentBundleIter, _commands: &mut CommandQueue| {
        resources.set(global_id, encode(4, 6, 8));
        while let Some(row) = rows.next() {
            println!("{}", value(component(&row[0])));
            let global = resources.get_unchecked(global_id);
            assert_eq!(value(&global[0..8]), 4);
            assert_eq!(value(&global[8..16]), 6);
            assert_eq!(value(&global[16..24]), 8);
            yielded += 1;
        }
    };

    // The first update runs over nothing; the sync thereafter brings the
    // archetype into the query, so the second runs over the entities.
    update(&mut world, &mut systems, &mut run);
    update(&mut world, &mut systems, &mut run);
    assert_eq!(yielded, 10);

    let global = resources.get_unchecked(global_id);
    assert_eq!(value(&global[0..8]), 4);
    assert_eq!(value(&global[8..16]), 6);
    assert_eq!(value(&global[16..24]), 8);
}

#[test]
fn deferred_command() {
    let mut world = World::new();
    let a = world.register_component(SPEED, 8, 8);
    let b = world.register_component(HEALTH, 0, 1);
    let mut holders: Vec<u32> = Vec::new();
    for i in 0..5usize {
        let e = world.create_entity().unwrap();
        world.add_component(e, a, &bytes(i));
        holders.push(e);
    }
    let bystander = world.create_entity().unwrap();
    let mut systems = SystemManager::new();
    let system = System::new(world.query(QueryBuilder::new(vec![Access::EntityHandle, Access::Read(a)])));
    systems.add(system.into_schedule());

    let with_a = world.archetype_manager().find_by_set(&set_of(&[a])).unwrap();
    let mut cursor: Option<(usize, usize)> = systems.next_system(None);
    assert_eq!(cursor, Some((0, 0)));
    while let Some((s, i)) = cursor {
        {
            let (system, commands) = systems.schedule_mut(s).split(i);
            let mut rows = world.iter_query(system.query());
            while let Some(row) = rows.next() {
                commands.add_component(entity(&row[0]), b, &Vec::new());
            }
        }
        systems.schedule_mut(s).system_ran(i, &world);
        cursor = systems.next_system(cursor);
    }
    // Before the flush nothing has moved.
    assert_eq!(world.archetype_manager().get(with_a).entities(), &holders);
    assert!(world.archetype_manager().find_by_set(&set_of(&[a, b])).is_none());
    for e in &holders {
        assert!(!world.has_component(*e, b));
    }

    systems.update(&mut world);

    let with_both = world.archetype_manager().find_by_set(&set_of(&[a, b])).unwrap();
    assert_eq!(world.archetype_manager().get(with_both).entities(), &holders);
    assert_eq!(world.archetype_manager().get(with_a).len(), 0);
    assert_eq!(world.archetype_manager().get_root().entities(), &vec![bystander]);
    for (i, e) in holders.iter().enumerate() {
        assert!(world.has_component(*e, b));
        assert_eq!(value(world.get_component(*e, a).unwrap()), i);
    }
    assert_eq!(world.tick(), 1);
    assert_eq!(systems.schedule(0).system(0).query().archetype_ids(), &vec![with_a, with_both]);
}

#[test]
fn tracked_read_semantics() {
    let mut world = World::new();
    let a = world.register_component(SPEED, 8, 8);
    let mut systems = SystemManager::new();
    let system = System::new(world.query(QueryBuilder::new(vec![Access::EntityHandle, Access::TrackedRead(a)])));
    systems.add(ScheduleBuilder::new().add(system).build());
    let e = world.create_entity().unwrap();
    world.add_component(e, a, &bytes(5));
    assert_eq!(world.tick(), 0);

    let mut reports: Vec<(u32, bool)> = Vec::new();
    let mut run = |_s: usize, _i: usize, rows: &mut ComponentBundleIter, commands: &mut CommandQueue| {
        let tick: usize = reports.len();
        while let Some(row) = rows.next() {
            match &row[1] {
                Item::Watched(TrackedItem::Modified(b)) => {
                    assert_eq!(value(b), 5);
                    reports.push((entity(&row[0]), true));
                }
                Item::Watched(TrackedItem::Unmodified(b)) => {
                    assert_eq!(value(b), 5);
                    reports.push((entity(&row[0]), false));
                    if tick == 1 {
                        commands.flag_modified(entity(&row[0]), 0);
                    }
                }
                _ => panic!("not a tracked component"),
            }
        }
    };

    // Tick 0: the query does not hold the archetype yet.
    update(&mut world, &mut systems, &mut run);
    let tracker = world.archetype_manager().get(1).get_storage(a).get_tracker();
    assert_eq!(tracker.get(0).modified, 0);
    assert_eq!(tracker.last_read(), 0);
    // Tick 1: modified.
    update(&mut world, &mut systems, &mut run);
    assert_eq!(world.archetype_manager().get(1).get_storage(a).get_tracker().last_read(), 1);
    // Tick 2: unmodified; the write flagged now is recorded at the flush.
    update(&mut world, &mut systems, &mut run);
    assert_eq!(world.archetype_manager().get(1).get_storage(a).get_tracker().get(0).modified, 2);
    // Tick 3: modified.
    update(&mut world, &mut systems, &mut run);
    // Tick 4: unmodified again.
    update(&mut world, &mut systems, &mut run);
    assert_eq!(reports, vec![(e, true), (e, false), (e, true), (e, false)]);
    assert_eq!(world.tick(), 5);
    assert_eq!(systems.schedule(0).system(0).last_update(), 4);
}

#[test]
fn systems_run_in_the_order_of_their_declaration() {
    let mut world = World::new();
    let a = world.register_component(SPEED, 8, 8);
    let mut systems = SystemManager::new();
    assert_eq!(systems.next_system(None), None);
    let system = |world: &mut World| System::new(world.query(QueryBuilder::new(vec![Access::Read(a)])));
    let first = ScheduleBuilder::new().add(system(&mut world)).add(system(&mut world)).build();
    let empty = ScheduleBuilder::new().build();
    let mut last = Schedule::new(Vec::new(), CommandQueue::new());
    last.add(system(&mut world));
    systems.add(first);
    systems.add(empty);
    systems.add(last);
    assert_eq!(systems.len(), 3);
    assert_eq!(systems.schedule(0).len(), 2);
    assert_eq!(systems.schedule(1).len(), 0);
    assert_eq!(systems.next_system(None), Some((0, 0)));
    assert_eq!(systems.next_system(Some((0, 0))), Some((0, 1)));
    assert_eq!(systems.next_system(Some((0, 1))), Some((2, 0)));
    assert_eq!(systems.next_system(Some((2, 0))), None);
    assert_eq!(systems.next_system(Some((1, 0))), Some((2, 0)));
    assert_eq!(systems.next_system(Some((0, 9))), Some((2, 0)));
    assert_eq!(systems.next_system(Some((5, 0))), None);
}

#[test]
fn commands_of_all_schedules_are_flushed_in_order() {
    let mut world = World::new();
    let a = world.register_component(SPEED, 8, 8);
    let e = world.create_entity().unwrap();
    let mut systems = SystemManager::new();
    systems.add(ScheduleBuilder::new().build());
    systems.add(ScheduleBuilder::new().build());
    systems.schedule_mut(0).commands().add_component(e, a, &bytes(1));
    systems.schedule_mut(1).commands().remove_component(e, a);
    systems.schedule_mut(1).commands().add_component(e, a, &bytes(2));
    systems.schedule_mut(0).commands().add_component(e, a, &bytes(3));
    systems.flush_commands(&mut world);
    assert_eq!(value(world.get_component(e, a).unwrap()), 2);
    assert_eq!(systems.schedule_mut(0).commands().len(), 0);
    assert_eq!(systems.schedule_mut(1).commands().len(), 0);
    assert_eq!(world.tick(), 0);
    systems.sync(&mut world);
    assert_eq!(world.tick(), 0);
}

#[test]
fn update_goes_through_its_phases() {
    let mut world = World::new();
    let a = world.register_component(SPEED, 8, 8);
    let e = world.create_entity().unwrap();
    let mut systems = SystemManager::new();
    let query = |world: &mut World| world.query(QueryBuilder::new(vec![Access::Read(a)]));
    systems.add(ScheduleBuilder::new().add(System::new(query(&mut world))).build());
    systems.add(ScheduleBuilder::new().build());
    systems.add(
        ScheduleBuilder::new().add(System::new(query(&mut world))).add(System::new(query(&mut world))).build(),
    );
    world.end_update();
    world.end_update();
    assert_eq!(world.tick(), 2);

    let mut phase = systems.step(&mut world, Phase::Idle);
    assert_eq!(phase, Phase::Running { schedule: 0, system: 0 });
    systems.schedule_mut(2).commands().add_component(e, a, &bytes(7));
    phase = systems.step(&mut world, phase);
    assert_eq!(phase, Phase::Running { schedule: 2, system: 0 });
    assert_eq!(systems.schedule(0).system(0).last_update(), 2);
    assert_eq!(systems.schedule(2).system(0).last_update(), 0);
    phase = systems.step(&mut world, phase);
    assert_eq!(phase, Phase::Running { schedule: 2, system: 1 });
    phase = systems.step(&mut world, phase);
    assert_eq!(phase, Phase::Flushing);
    assert_eq!(systems.schedule(2).system(1).last_update(), 2);
    assert!(!world.has_component(e, a));
    assert_eq!(systems.schedule_mut(2).commands().len(), 1);

    phase = systems.step(&mut world, phase);
    assert_eq!(phase, Phase::Syncing);
    assert!(world.has_component(e, a));
    assert_eq!(systems.schedule_mut(2).commands().len(), 0);
    assert_eq!(world.tick(), 2);
    assert_eq!(world.archetype_manager().new_archetypes_queue(), &vec![1usize]);
    assert!(systems.schedule(0).system(0).query().archetype_ids().is_empty());

    phase = systems.step(&mut world, phase);
    assert_eq!(phase, Phase::Idle);
    assert_eq!(world.tick(), 3);
    assert!(world.archetype_manager().new_archetypes_queue().is_empty());
    assert_eq!(systems.schedule(0).system(0).query().archetype_ids(), &vec![1usize]);
    assert_eq!(systems.schedule(2).system(1).query().archetype_ids(), &vec![1usize]);
}

#[test]
fn update_without_systems_only_flushes_and_ticks() {
    let mut world = World::new();
    let mut systems = SystemManager::new();
    assert_eq!(systems.step(&mut world, Phase::Idle), Phase::Flushing);
    assert_eq!(systems.step(&mut world, Phase::Flushing), Phase::Syncing);
    assert_eq!(world.tick(), 0);
    assert_eq!(systems.step(&mut world, Phase::Syncing), Phase::Idle);
    assert_eq!(world.tick(), 1);
    // A system that does not exist is passed over.
    assert_eq!(systems.step(&mut world, Phase::Running { schedule: 3, system: 1 }), Phase::Flushing);
    systems.finish(&mut world);
    assert_eq!(world.tick(), 2);
}

#[test]
fn query_becomes_a_system_that_has_not_run() {
    let mut world = World::new();
    let a = world.register_component(SPEED, 8, 8);
    let e = world.create_entity().unwrap();
    world.add_component(e, a, &bytes(1));
    let system = world.query(QueryBuilder::new(vec![Access::Read(a)])).into_system();
    assert_eq!(system.last_update(), 0);
    assert_eq!(system.query().archetype_ids(), &vec![1usize]);
    assert_eq!(system.query().comp_param_ids(), &vec![Access::Read(a)]);
    assert!(system.query().get_filter().matches(&set_of(&[a])));
}
