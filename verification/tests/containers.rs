use archetype_ecs::bitset::BitSet;
use archetype_ecs::entity::{EntityManager, EntityRecord};
use archetype_ecs::event::{EventManager, Events};
use archetype_ecs::resource::{ResourceId, ResourceManager};
use archetype_ecs::sparse_map::SparseMap;
use archetype_ecs::util::{get_two_mut, get_two_mut_unchecked};

fn set_of(bits: &[usize]) -> BitSet {
    let mut s = BitSet::new();
    for b in bits {
        s.set(*b);
    }
    s
}

#[test]
fn bitset_set_test_clear() {
    let mut s = BitSet::new();
    assert!(!s.test(0));
    assert!(!s.test(1000));
    s.set(0);
    s.set(63);
    s.set(64);
    s.set(200);
    assert!(s.test(0) && s.test(63) && s.test(64) && s.test(200));
    assert!(!s.test(1) && !s.test(65) && !s.test(199));
    s.clear(64);
    assert!(!s.test(64));
    assert!(s.test(63));
    s.clear(5000);
    assert!(s.test(200));
}

#[test]
fn bitset_superset_and_disjoint() {
    let abc = set_of(&[1, 70, 130]);
    let ac = set_of(&[1, 130]);
    let d = set_of(&[2, 300]);
    let empty = BitSet::new();
    assert!(abc.contains(&ac));
    assert!(!ac.contains(&abc));
    assert!(abc.contains(&empty));
    assert!(empty.contains(&empty));
    assert!(!empty.contains(&ac));
    assert!(abc.contains_none(&d));
    assert!(d.contains_none(&abc));
    assert!(!abc.contains_none(&ac));
    assert!(abc.contains_none(&empty));
}

#[test]
fn bitset_equality_ignores_cleared_high_bits() {
    let mut a = set_of(&[3, 500]);
    let b = set_of(&[3]);
    assert!(!a.equals(&b));
    a.clear(500);
    assert!(a.equals(&b));
    assert!(b.equals(&a));
    assert_eq!(a.significant_words(), b.significant_words());
    let c = a.duplicate();
    assert!(c.equals(&a));
    assert!(c.test(3));
}

#[test]
fn sparse_map_insert_get_overwrite() {
    let mut m: SparseMap<u32> = SparseMap::new();
    assert_eq!(m.len(), 0);
    assert!(m.get(4).is_none());
    m.insert(4, 40);
    m.insert(0, 1);
    m.insert(9, 90);
    assert_eq!(m.len(), 3);
    assert_eq!(m.get(4), Some(&40));
    assert_eq!(m.get(0), Some(&1));
    assert_eq!(m.get(5), None);
    assert!(m.contains_key(9));
    assert!(!m.contains_key(8));
    m.insert(4, 44);
    assert_eq!(m.len(), 3);
    assert_eq!(*m.get_unchecked(4), 44);
    *m.get_mut_unchecked(9) = 91;
    assert_eq!(m.get(9), Some(&91));
    assert_eq!(m.keys(), &vec![4usize, 0, 9]);
    assert_eq!(m.key_at(2), 9);
    let n: SparseMap<u8> = SparseMap::with_capacity(16);
    assert_eq!(n.len(), 0);
}

#[test]
fn two_distinct_elements_can_be_borrowed_at_once() {
    let mut v: Vec<u32> = vec![10, 20, 30];
    {
        let (a, b) = get_two_mut_unchecked(&mut v, 2, 0);
        *a += 1;
        *b += 2;
    }
    assert_eq!(v, vec![12, 20, 31]);
    {
        let pair = get_two_mut(&mut v, 0, 1);
        let (a, b) = pair.unwrap();
        core::mem::swap(a, b);
    }
    assert_eq!(v, vec![20, 12, 31]);
    assert!(get_two_mut(&mut v, 0, 3).is_none());
    assert!(get_two_mut(&mut v, 7, 1).is_none());
}

#[test]
fn entity_handles_are_not_reissued() {
    let mut em = EntityManager::new();
    let a = em.create().unwrap();
    let b = em.create().unwrap();
    assert_ne!(a, b);
    assert!(em.alive(a) && em.alive(b));
    em.delete(a);
    assert!(!em.alive(a));
    assert!(em.alive(b));
    let c = em.create().unwrap();
    assert_ne!(c, a);
    assert_ne!(c, b);
    assert_eq!(c & 0x3f_ffff, a & 0x3f_ffff);
    assert_eq!(c >> 22, (a >> 22) + 1);
    assert!(!em.alive(a));
    assert!(em.alive(c));
    em.delete(a);
    assert!(em.alive(c));
}

#[test]
fn entity_record_is_kept() {
    let mut em = EntityManager::new();
    let a = em.create().unwrap();
    assert_eq!(*em.get_record(a), EntityRecord::default());
    em.set_record(a, EntityRecord { archetype_id: 3, archetype_row: 8 });
    assert_eq!(em.get_record(a).archetype_id, 3);
    assert_eq!(em.get_record(a).archetype_row, 8);
    assert!(!em.full());
}

#[test]
fn slot_is_retired_when_its_generations_are_used_up() {
    let mut em = EntityManager::new();
    let first = em.create().unwrap();
    let mut last = first;
    let mut seen: Vec<u32> = vec![first];
    for _ in 0..1023 {
        em.delete(last);
        last = em.create().unwrap();
        assert_eq!(last & 0x3f_ffff, 0);
        seen.push(last);
    }
    assert_eq!(last >> 22, 1023);
    em.delete(last);
    let other = em.create().unwrap();
    assert_eq!(other & 0x3f_ffff, 1);
    assert_eq!(other >> 22, 0);
    seen.sort();
    seen.dedup();
    assert_eq!(seen.len(), 1024);
    for e in seen {
        assert!(!em.alive(e));
    }
}

#[test]
fn events_are_read_after_the_swap() {
    let mut events: Events<u32> = Events::new();
    events.push(1);
    events.push(2);
    assert!(events.iter().is_empty());
    events.clear();
    assert_eq!(events.iter(), &vec![1u32, 2]);
    events.push(3);
    assert_eq!(events.iter(), &vec![1u32, 2]);
    events.clear();
    assert_eq!(events.iter(), &vec![3u32]);
    events.clear();
    assert!(events.iter().is_empty());
}

#[test]
fn event_buffers_are_registered_in_order() {
    let mut manager = EventManager::new();
    assert!(manager.event_lists().is_empty());
    manager.register_event(ResourceId::<u8>::new(4));
    manager.register_event(ResourceId::<u32>::new(1));
    assert_eq!(manager.event_lists(), &vec![4usize, 1]);
}

#[test]
fn resources_are_found_by_tag_and_id() {
    let mut resources = ResourceManager::new();
    assert!(resources.get_id::<u64>(7).is_none());
    let a: ResourceId<u64> = resources.add(7, vec![1, 2, 3]);
    let b: ResourceId<u8> = resources.add(8, vec![9]);
    assert_eq!(a.index, 0);
    assert_eq!(b.index, 1);
    assert_eq!(resources.get_id::<u64>(7).unwrap().index, 0);
    assert_eq!(resources.get_id::<u8>(8).unwrap().index, 1);
    assert!(resources.get_id::<u8>(9).is_none());
    assert_eq!(resources.get(a), Some(&vec![1u8, 2, 3]));
    assert_eq!(resources.get_unchecked(b), &vec![9u8]);
    assert!(resources.get(ResourceId::<u8>::new(2)).is_none());
    resources.set(a, vec![4, 5, 6]);
    assert_eq!(resources.get(a.clone()), Some(&vec![4u8, 5, 6]));
    assert_eq!(resources.get_storage().len(), 2);
}

#[test]
fn full_directory_creates_nothing() {
    let mut em = EntityManager::new();
    let limit: u32 = 1 << 22;
    for i in 0..limit {
        assert_eq!(em.create(), Some(i));
    }
    assert!(em.full());
    assert_eq!(em.create(), None);
    assert!(em.alive(limit - 1));
    em.delete(5);
    assert!(!em.full());
    assert_eq!(em.create(), Some(5 | (1 << 22)));
    assert!(em.full());
    assert_eq!(em.create(), None);
}

#[test]
fn bitset_keeps_sixty_four_bits_to_the_word() {
    let s = set_of(&[0, 63, 64, 130]);
    assert_eq!(s.significant_words(), &[0x8000_0000_0000_0001u64, 1, 4]);
    let mut t = set_of(&[200]);
    t.clear(200);
    assert!(t.significant_words().is_empty());
    assert!(BitSet::new().significant_words().is_empty());
}

#[test]
fn resources_can_be_changed_in_place() {
    let mut resources = ResourceManager::new();
    let a: ResourceId<u32> = resources.add(1, vec![1, 2]);
    resources.get_mut(a).unwrap().push(3);
    resources.get_mut_unchecked(a)[0] = 9;
    assert_eq!(resources.get(a), Some(&vec![9u8, 2, 3]));
    assert!(resources.get_mut(ResourceId::<u32>::new(1)).is_none());
    // A second resource of the same type takes over the tag.
    let b: ResourceId<u32> = resources.add(1, vec![7]);
    assert_eq!(resources.get_id::<u32>(1).unwrap().index, b.index);
    assert_eq!(resources.get(a), Some(&vec![9u8, 2, 3]));
}
