use archetype_ecs::bundle::{build_filter, count, fetch_items, Access, Item};
use archetype_ecs::filter::{And, FilterBuilder, Not, TrackedItem};
use archetype_ecs::bitset::BitSet;
use archetype_ecs::iter::ComponentChunkIter;
use archetype_ecs::query::{Query, QueryBuilder};
use archetype_ecs::world::World;

const SPEED: u64 = 1;
const HEALTH: u64 = 2;
const POWER: u64 = 3;
const SUPER: u64 = 4;

fn bytes(v: usize) -> Vec<u8> {
    (v as u64).to_le_bytes().to_vec()
}

fn value(b: &[u8]) -> usize {
    let mut a: [u8; 8] = [0; 8];
    a.copy_from_slice(b);
    u64::from_le_bytes(a) as usize
}

fn component<'a>(item: &Item<'a>) -> &'a [u8] {
    match item {
        Item::Component(b) => *b,
        _ => panic!("not a component"),
    }
}

fn entity(item: &Item) -> u32 {
    match item {
        Item::Entity(e) => *e,
        _ => panic!("not an entity"),
    }
}

fn set_of(bits: &[usize]) -> BitSet {
    let mut s = BitSet::new();
    for b in bits {
        s.set(*b);
    }
    s
}

#[test]
fn test_iter() {
    let mut world = World::new();
    let speed = world.register_component(SPEED, 8, 8);
    let health = world.register_component(HEALTH, 8, 8);
    let power = world.register_component(POWER, 8, 8);

    for i in 0..1_000usize {
        let player = world.create_entity().unwrap();
        world.add_component(player, speed, &bytes(i));
        world.add_component(player, health, &bytes(i * 2));
    }

    for i in 0..700usize {
        let player = world.create_entity().unwrap();
        world.add_component(player, speed, &bytes(i));
        world.add_component(player, health, &bytes(i * 2));
        world.add_component(player, power, &bytes(i * 5));

        if i % 2 == 0 {
            world.remove_component(player, speed);
            assert!(!world.has_component(player, speed));
            assert!(world.has_component(player, health));
            assert!(world.has_component(player, power));
        }

        if i % 5 == 0 {
            world.delete_entity(player);
            assert!(!world.is_entity_alive(player));
        }
    }

    let query = world.query(QueryBuilder::new(vec![
        Access::EntityHandle,
        Access::Write(speed),
        Access::Write(health),
    ]));

    assert_eq!(query.archetype_ids().len(), 2);

    let mut writes: Vec<(u32, usize, usize)> = Vec::new();
    {
        let mut rows = world.iter_query(&query);
        while let Some(row) = rows.next() {
            let s = value(component(&row[1])) + 3;
            let h = value(component(&row[2])) * s;
            writes.push((entity(&row[0]), s, h));
        }
    }
    // 1000 of the first loop, and of the second those with an odd `i`, less
    // those deleted: the odd multiples of 5.
    assert_eq!(writes.len(), 1000 + 350 - 70);
    for (e, s, h) in &writes {
        assert!(world.set_component(*e, speed, &bytes(*s)));
        assert!(world.set_component(*e, health, &bytes(*h)));
    }

    let query = world.query(QueryBuilder::new(vec![Access::EntityHandle, Access::Write(health)]));
    let mut writes: Vec<(u32, usize)> = Vec::new();
    {
        let mut rows = world.iter_query(&query);
        while let Some(row) = rows.next() {
            writes.push((entity(&row[0]), value(component(&row[1])) * 3));
        }
    }
    assert_eq!(writes.len(), 1000 + 700 - 140);
    for (e, h) in &writes {
        assert!(world.set_component(*e, health, &bytes(*h)));
    }
    let first = writes[0].0;
    assert_eq!(value(world.get_component(first, speed).unwrap()), 3);
    assert_eq!(value(world.get_component(first, health).unwrap()), 0);
    let second = writes[1].0;
    assert_eq!(value(world.get_component(second, speed).unwrap()), 4);
    assert_eq!(value(world.get_component(second, health).unwrap()), 2 * 4 * 3);
}

#[test]
fn option_test() {
    let mut world = World::new();
    let speed = world.register_component(SPEED, 8, 8);
    let health = world.register_component(HEALTH, 8, 8);
    let power = world.register_component(POWER, 8, 8);

    for i in 0..1_000usize {
        let player = world.create_entity().unwrap();
        world.add_component(player, speed, &bytes(i));
        world.add_component(player, health, &bytes(i));
    }

    for i in 0..1_000usize {
        let player = world.create_entity().unwrap();
        world.add_component(player, speed, &bytes(i));
        world.add_component(player, health, &bytes(i));
        world.add_component(player, power, &bytes(i));
    }

    let query = world.query(QueryBuilder::new(vec![
        Access::EntityHandle,
        Access::Write(speed),
        Access::OptionalWrite(power),
    ]));
    let mut writes: Vec<(u32, usize)> = Vec::new();
    let mut with_power: usize = 0;
    {
        let mut rows = world.iter_query(&query);
        while let Some(row) = rows.next() {
            let s = value(component(&row[1]));
            let s = match &row[2] {
                Item::Optional(Some(p)) => {
                    with_power += 1;
                    s + value(p)
                }
                Item::Optional(None) => s + 1,
                _ => panic!("not an optional component"),
            };
            writes.push((entity(&row[0]), s));
        }
    }
    assert_eq!(writes.len(), 2000);
    assert_eq!(with_power, 1000);
    for (e, s) in &writes {
        assert!(world.set_component(*e, speed, &bytes(*s)));
    }

    let query = world.query(QueryBuilder::new(vec![
        Access::EntityHandle,
        Access::Write(speed),
        Access::Write(health),
    ]));
    let mut products: Vec<(u32, usize)> = Vec::new();
    {
        let mut rows = world.iter_query(&query);
        while let Some(row) = rows.next() {
            products.push((entity(&row[0]), value(component(&row[1])) * value(component(&row[2]))));
        }
    }
    assert_eq!(products.len(), 2000);
    for (e, s) in &products {
        assert!(world.set_component(*e, speed, &bytes(*s)));
    }
    // Entity 7 of the first thousand: (7 + 1) * 7; of the second: (7 + 7) * 7.
    assert_eq!(value(world.get_component(products[7].0, speed).unwrap()), 56);
    assert_eq!(value(world.get_component(products[1007].0, speed).unwrap()), 98);
}

#[test]
fn and_tag_component() {
    let mut world = World::new();
    let speed = world.register_component(SPEED, 8, 8);
    let health = world.register_component(HEALTH, 8, 8);
    let tag = world.register_component(SUPER, 0, 1);

    for i in 0..42usize {
        let player = world.create_entity().unwrap();
        world.add_component(player, speed, &bytes(i));
        world.add_component(player, health, &bytes(i));
    }

    for i in 0..77usize {
        let player = world.create_entity().unwrap();
        world.add_component(player, speed, &bytes(i));
        world.add_component(player, health, &bytes(i));
        world.add_component(player, tag, &Vec::new());
    }

    let query = world.query(
        QueryBuilder::new(vec![Access::Write(speed), Access::Write(health)]).filter(&vec![Access::With(tag)]),
    );

    let mut count: usize = 0;
    let mut rows = world.iter_query(&query);
    while let Some(row) = rows.next() {
        assert_eq!(row.len(), 2);
        count += 1;
    }

    assert_eq!(count, 77);
}

#[test]
fn query_filter() {
    let mut world = World::new();
    let a = world.register_component(SPEED, 8, 8);
    let b = world.register_component(HEALTH, 8, 8);
    let c = world.register_component(POWER, 8, 8);
    let x = world.create_entity().unwrap();
    let y = world.create_entity().unwrap();
    let z = world.create_entity().unwrap();
    let w = world.create_entity().unwrap();
    world.add_component(x, a, &bytes(1));
    world.add_component(y, a, &bytes(2));
    world.add_component(y, b, &bytes(20));
    world.add_component(z, a, &bytes(3));
    world.add_component(z, c, &bytes(30));
    world.add_component(w, b, &bytes(40));

    let query = world.query(QueryBuilder::new(vec![
        Access::EntityHandle,
        Access::Read(a),
        Access::Without(c),
    ]));
    let graph = world.archetype_manager();
    let mut matched: Vec<usize> = query.archetype_ids().clone();
    matched.sort();
    let mut expected: Vec<usize> =
        vec![graph.find_by_set(&set_of(&[a])).unwrap(), graph.find_by_set(&set_of(&[a, b])).unwrap()];
    expected.sort();
    assert_eq!(matched, expected);

    let mut seen: Vec<(u32, usize)> = Vec::new();
    let mut rows = world.iter_query(&query);
    while let Some(row) = rows.next() {
        assert_eq!(row.len(), 3);
        assert!(matches!(row[2], Item::Tag));
        seen.push((entity(&row[0]), value(component(&row[1]))));
    }
    seen.sort();
    let mut want: Vec<(u32, usize)> = vec![(x, 1), (y, 2)];
    want.sort();
    assert_eq!(seen, want);
}

#[test]
fn optional_component() {
    let mut world = World::new();
    let a = world.register_component(SPEED, 8, 8);
    let b = world.register_component(HEALTH, 8, 8);
    let u = world.create_entity().unwrap();
    let v = world.create_entity().unwrap();
    world.add_component(u, a, &bytes(1));
    world.add_component(v, a, &bytes(2));
    world.add_component(v, b, &bytes(9));

    let query = world.query(QueryBuilder::new(vec![
        Access::EntityHandle,
        Access::Read(a),
        Access::OptionalRead(b),
    ]));
    let mut seen: Vec<(u32, usize, Option<usize>)> = Vec::new();
    let mut rows = world.iter_query(&query);
    while let Some(row) = rows.next() {
        let other = match &row[2] {
            Item::Optional(o) => o.map(value),
            _ => panic!("not an optional component"),
        };
        seen.push((entity(&row[0]), value(component(&row[1])), other));
    }
    seen.sort();
    let mut want: Vec<(u32, usize, Option<usize>)> = vec![(u, 1, None), (v, 2, Some(9))];
    want.sort();
    assert_eq!(seen, want);
}

#[test]
fn query_over_nothing_yields_nothing() {
    let mut world = World::new();
    let a = world.register_component(SPEED, 8, 8);
    let query = world.query(QueryBuilder::new(vec![Access::Read(a)]));
    assert!(query.archetype_ids().is_empty());
    let mut rows = world.iter_query(&query);
    assert!(rows.next().is_none());
    assert!(rows.next().is_none());
}

#[test]
fn entity_query_matches_every_archetype() {
    let mut world = World::new();
    let a = world.register_component(SPEED, 8, 8);
    let e1 = world.create_entity().unwrap();
    let e2 = world.create_entity().unwrap();
    world.add_component(e2, a, &bytes(2));
    let query = world.query(QueryBuilder::new(vec![Access::EntityHandle]));
    assert_eq!(query.archetype_ids(), &vec![0usize, 1]);
    let mut seen: Vec<u32> = Vec::new();
    let mut rows = world.iter_query(&query);
    while let Some(row) = rows.next() {
        seen.push(entity(&row[0]));
    }
    assert_eq!(seen, vec![e1, e2]);
}

#[test]
fn sync_adds_new_archetypes_once() {
    let mut world = World::new();
    let a = world.register_component(SPEED, 8, 8);
    let b = world.register_component(HEALTH, 8, 8);
    let mut query = world.query(QueryBuilder::new(vec![Access::Read(a)]));
    assert!(query.archetype_ids().is_empty());
    let e = world.create_entity().unwrap();
    world.add_component(e, a, &bytes(1));
    world.sync_query(&mut query);
    assert_eq!(query.archetype_ids(), &vec![1usize]);
    world.sync_query(&mut query);
    assert_eq!(query.archetype_ids(), &vec![1usize]);
    world.end_update();
    world.add_component(e, b, &bytes(2));
    world.sync_query(&mut query);
    world.sync_query(&mut query);
    assert_eq!(query.archetype_ids(), &vec![1usize, 2]);
    let built_late = world.query(QueryBuilder::new(vec![Access::Read(a)]));
    assert_eq!(built_late.archetype_ids(), &vec![1usize, 2]);
}

#[test]
fn tracked_read_reports_writes_since_the_last_sync() {
    let mut world = World::new();
    let a = world.register_component(SPEED, 8, 8);
    let e1 = world.create_entity().unwrap();
    let e2 = world.create_entity().unwrap();
    world.add_component(e1, a, &bytes(1));
    world.add_component(e2, a, &bytes(2));
    let mut query = world.query(QueryBuilder::new(vec![Access::EntityHandle, Access::TrackedRead(a)]));
    assert!(world.archetype_manager().get(1).get_storage(a).is_tracked());

    let read = |world: &World, query: &Query| -> Vec<(u32, bool, usize)> {
        let mut seen: Vec<(u32, bool, usize)> = Vec::new();
        let mut rows = world.iter_query(query);
        while let Some(row) = rows.next() {
            match &row[1] {
                Item::Watched(TrackedItem::Modified(b)) => seen.push((entity(&row[0]), true, value(b))),
                Item::Watched(TrackedItem::Unmodified(b)) => seen.push((entity(&row[0]), false, value(b))),
                _ => panic!("not a tracked component"),
            }
        }
        seen
    };

    assert_eq!(read(&world, &query), vec![(e1, true, 1), (e2, true, 2)]);
    world.sync_query(&mut query);
    world.end_update();
    assert_eq!(read(&world, &query), vec![(e1, true, 1), (e2, true, 2)]);
    world.sync_query(&mut query);
    world.end_update();
    assert_eq!(read(&world, &query), vec![(e1, false, 1), (e2, false, 2)]);
    world.flag_modified(e2, a);
    assert_eq!(read(&world, &query), vec![(e1, false, 1), (e2, true, 2)]);
    world.sync_query(&mut query);
    world.end_update();
    assert_eq!(read(&world, &query), vec![(e1, false, 1), (e2, true, 2)]);
    world.sync_query(&mut query);
    world.end_update();
    assert_eq!(read(&world, &query), vec![(e1, false, 1), (e2, false, 2)]);
}

#[test]
fn filter_builder_collects_ids() {
    let filter = FilterBuilder::new().and(1).and(3).not(2).track(3).build();
    assert_eq!(filter.and(), &vec![1usize, 3]);
    assert_eq!(filter.not(), &vec![2usize]);
    assert_eq!(filter.track(), &vec![3usize]);
    assert!(filter.matches(&set_of(&[1, 3])));
    assert!(filter.matches(&set_of(&[1, 3, 5])));
    assert!(!filter.matches(&set_of(&[1, 2, 3])));
    assert!(!filter.matches(&set_of(&[1])));
    assert!(!filter.matches(&BitSet::new()));
    let all = FilterBuilder::with_capacity(4).build();
    assert!(all.matches(&BitSet::new()));
    assert!(all.matches(&set_of(&[9])));
    let markers = Not { inner: 6usize }.build_filter(And { inner: 5usize }.build_filter(FilterBuilder::new())).build();
    assert_eq!(markers.and(), &vec![5usize]);
    assert_eq!(markers.not(), &vec![6usize]);
    assert!(markers.track().is_empty());
}

#[test]
fn tracked_item_tells_its_state() {
    let m: TrackedItem<u8> = TrackedItem::Modified(4);
    let u: TrackedItem<u8> = TrackedItem::Unmodified(5);
    assert!(m.is_modified());
    assert!(!m.is_unmodified());
    assert!(!u.is_modified());
    assert!(u.is_unmodified());
    assert_eq!(m.unwrap(), 4);
    assert_eq!(u.unwrap(), 5);
}

#[test]
fn bundle_counts_and_filters() {
    let bundle: Vec<Access> = vec![
        Access::Read(0),
        Access::OptionalWrite(1),
        Access::TrackedWrite(2),
        Access::Without(3),
        Access::With(4),
        Access::EntityHandle,
    ];
    // The entity handle is no component.
    assert_eq!(count(&bundle), 5);
    assert_eq!(Access::Read(0).count(), 1);
    assert_eq!(Access::EntityHandle.count(), 0);
    assert_eq!(count(&Vec::new()), 0);
    assert_eq!(count(&vec![Access::EntityHandle, Access::EntityHandle]), 0);
    assert_eq!(count(&vec![Access::Without(1), Access::OptionalRead(1), Access::EntityHandle]), 2);
    let filter = build_filter(&bundle, FilterBuilder::new()).build();
    assert_eq!(filter.and(), &vec![0usize, 2, 4]);
    assert_eq!(filter.not(), &vec![3usize]);
    assert_eq!(filter.track(), &vec![2usize]);
    let one = Access::TrackedRead(7).build_filter(FilterBuilder::new()).build();
    assert_eq!(one.and(), &vec![7usize]);
    assert_eq!(one.track(), &vec![7usize]);
}

#[test]
fn fetch_reads_the_row_asked_for() {
    let mut world = World::new();
    let a = world.register_component(SPEED, 8, 8);
    let b = world.register_component(HEALTH, 8, 8);
    let e1 = world.create_entity().unwrap();
    let e2 = world.create_entity().unwrap();
    world.add_component(e1, a, &bytes(10));
    world.add_component(e2, a, &bytes(20));
    let archetype = world.archetype_manager().get(1);
    let bundle: Vec<Access> = vec![Access::EntityHandle, Access::Read(a), Access::OptionalRead(b)];
    let row = fetch_items(&bundle, archetype, 1);
    assert_eq!(entity(&row[0]), e2);
    assert_eq!(value(component(&row[1])), 20);
    assert!(matches!(row[2], Item::Optional(None)));
    let single = Access::Read(a).fetch_item(archetype, 0);
    assert_eq!(value(component(&single)), 10);
}

#[test]
fn chunk_cursor_yields_each_row_once() {
    let mut chunk = ComponentChunkIter::new(3, 2);
    assert_eq!(chunk.next(), Some((3, 0)));
    assert_eq!(chunk.next(), Some((3, 1)));
    assert_eq!(chunk.next(), None);
    assert_eq!(chunk.next(), None);
    let mut empty = ComponentChunkIter::new(0, 0);
    assert_eq!(empty.next(), None);
}

#[test]
fn size_hint_counts_the_rows_left() {
    let mut world = World::new();
    let a = world.register_component(SPEED, 8, 8);
    let b = world.register_component(HEALTH, 8, 8);
    for i in 0..5usize {
        let e = world.create_entity().unwrap();
        world.add_component(e, a, &bytes(i));
        if i < 2 {
            world.add_component(e, b, &bytes(i));
        }
    }
    let query = world.query(QueryBuilder::new(vec![Access::Read(a)]));
    let mut rows = world.iter_query(&query);
    assert_eq!(rows.size_hint(), (5, Some(5)));
    let mut left: usize = 5;
    while let Some(_) = rows.next() {
        left -= 1;
        assert_eq!(rows.size_hint(), (left, Some(left)));
    }
    assert_eq!(left, 0);
    let mut chunk = ComponentChunkIter::new(1, 3);
    assert_eq!(chunk.size_hint(), (3, Some(3)));
    chunk.next();
    assert_eq!(chunk.size_hint(), (2, Some(2)));
}
