use archetype_ecs::component::{ComponentManager, ComponentMetaData};
use archetype_ecs::storage::ComponentStorage;
use archetype_ecs::tracking::{ChangeTracking, TrackingInfo};

const TAG_A: u64 = 0xA11CE;
const TAG_B: u64 = 0xB0B;

fn bytes32(v: u32) -> Vec<u8> {
    v.to_le_bytes().to_vec()
}

fn value32(b: &[u8]) -> u32 {
    let mut a: [u8; 4] = [0; 4];
    a.copy_from_slice(b);
    u32::from_le_bytes(a)
}

fn registry() -> ComponentManager {
    let mut manager = ComponentManager::new();
    manager.register(TAG_A, 4, 4);
    manager.register(TAG_B, 8, 8);
    manager
}

fn column_a(id: usize) -> ComponentStorage {
    ComponentStorage::from_metadata(id, &ComponentMetaData::new(TAG_A, 4, 4))
}

#[test]
fn component_registration() {
    let manager = registry();
    assert_eq!(manager.get_id(TAG_A), Some(0));
    assert_eq!(manager.get_id(TAG_B), Some(1));
}

#[test]
fn push_component() {
    let _manager = registry();
    let mut storage = column_a(0);
    storage.push(&bytes32(42), 0);
    assert_eq!(value32(storage.get(0)), 42);
}

#[test]
fn delete_component() {
    let _manager = registry();
    let mut storage = column_a(0);
    storage.push(&bytes32(42), 0);
    storage.delete(0);
    assert_eq!(storage.len(), 0);
}

#[test]
fn move_component() {
    let _manager = registry();
    let mut storage = column_a(0);
    storage.push(&bytes32(42), 0);
    let mut other = column_a(1);
    storage.transfer(0, &mut other, 0);
    assert_eq!(storage.len(), 0);
    assert_eq!(value32(other.get(0)), 42);
}

#[test]
fn registering_twice_gives_the_same_id() {
    let mut manager = ComponentManager::new();
    let first = manager.register(TAG_A, 4, 4);
    let second = manager.register(TAG_B, 8, 8);
    let again = manager.register(TAG_A, 4, 4);
    assert_eq!(first, 0);
    assert_eq!(second, 1);
    assert_eq!(again, first);
    assert_eq!(manager.len(), 2);
    assert_eq!(manager.get_metadata(1).size, 8);
    assert_eq!(manager.get_metadata(1).type_tag, TAG_B);
}

#[test]
fn unknown_tag_has_no_id() {
    let manager = registry();
    assert_eq!(manager.get_id(0xDEAD), None);
    let empty = ComponentManager::new();
    assert_eq!(empty.get_id(TAG_A), None);
}

#[test]
fn ids_are_found_by_tag_not_by_order() {
    let mut manager = ComponentManager::new();
    let tags: [u64; 5] = [900, 3, u64::MAX, 0, 77];
    for tag in tags {
        manager.register(tag, 1, 1);
    }
    assert_eq!(manager.get_id(u64::MAX), Some(2));
    assert_eq!(manager.get_id(0), Some(3));
    assert_eq!(manager.get_id(900), Some(0));
    assert_eq!(manager.get_id(77), Some(4));
    assert_eq!(manager.get_id(4), None);
}

#[test]
fn delete_moves_the_last_row_into_the_gap() {
    let mut storage = column_a(0);
    for v in [10u32, 20, 30, 40] {
        storage.push(&bytes32(v), 0);
    }
    storage.delete(1);
    assert_eq!(storage.len(), 3);
    assert_eq!(value32(storage.get(0)), 10);
    assert_eq!(value32(storage.get(1)), 40);
    assert_eq!(value32(storage.get(2)), 30);
    storage.delete(2);
    assert_eq!(storage.len(), 2);
    assert_eq!(value32(storage.get(1)), 40);
}

#[test]
fn transfer_appends_and_swap_removes() {
    let mut src = column_a(0);
    let mut dst = column_a(0);
    for v in [1u32, 2, 3] {
        src.push(&bytes32(v), 0);
    }
    dst.push(&bytes32(9), 0);
    src.transfer(0, &mut dst, 0);
    assert_eq!(src.len(), 2);
    assert_eq!(dst.len(), 2);
    assert_eq!(value32(src.get(0)), 3);
    assert_eq!(value32(src.get(1)), 2);
    assert_eq!(value32(dst.get(0)), 9);
    assert_eq!(value32(dst.get(1)), 1);
}

#[test]
fn set_overwrites_one_row() {
    let mut storage = column_a(0);
    for v in [5u32, 6, 7] {
        storage.push(&bytes32(v), 0);
    }
    storage.set(1, &bytes32(600));
    assert_eq!(value32(storage.get(0)), 5);
    assert_eq!(value32(storage.get(1)), 600);
    assert_eq!(value32(storage.get(2)), 7);
}

#[test]
fn zero_sized_components_have_rows() {
    let mut storage = ComponentStorage::from_metadata(3, &ComponentMetaData::new(1, 0, 1));
    let nothing: Vec<u8> = Vec::new();
    storage.push(&nothing, 0);
    storage.push(&nothing, 0);
    assert_eq!(storage.len(), 2);
    assert_eq!(storage.get(1).len(), 0);
    storage.delete(0);
    assert_eq!(storage.len(), 1);
    assert_eq!(storage.id(), 3);
}

#[test]
fn sibling_column_is_empty_with_the_same_layout() {
    let mut storage = column_a(4);
    storage.push(&bytes32(1), 0);
    storage.enable_tracking();
    let sibling = ComponentStorage::from_other(&storage);
    assert_eq!(sibling.len(), 0);
    assert_eq!(sibling.id(), 4);
    assert_eq!(sibling.metadata().size, 4);
}

#[test]
fn tracker_follows_the_rows_of_its_column() {
    let mut storage = column_a(0);
    storage.push(&bytes32(1), 0);
    storage.push(&bytes32(2), 0);
    assert!(!storage.is_tracked());
    storage.enable_tracking();
    assert!(storage.is_tracked());
    assert_eq!(storage.get_tracker().len(), 2);
    storage.push(&bytes32(3), 4);
    assert_eq!(storage.get_tracker().len(), 3);
    assert_eq!(storage.get_tracker().get(2).modified, 4);
    storage.delete(0);
    assert_eq!(storage.get_tracker().len(), 2);
    assert_eq!(storage.get_tracker().get(0).modified, 4);
}

#[test]
fn created_row_is_modified_until_the_sync_after_it() {
    let mut tracker = ChangeTracking::new();
    tracker.push(TrackingInfo::new(3));
    assert!(tracker.is_modified(0));
    tracker.on_query_sync(3);
    assert!(tracker.is_modified(0));
    tracker.on_query_sync(4);
    assert!(!tracker.is_modified(0));
    tracker.on_query_sync(5);
    assert!(!tracker.is_modified(0));
}

#[test]
fn flagged_row_is_modified_until_a_later_sync() {
    let mut tracker = ChangeTracking::with_len(2);
    tracker.on_query_sync(6);
    assert!(!tracker.is_modified(0));
    assert!(!tracker.is_modified(1));
    tracker.flag_modified(1, 7);
    assert!(!tracker.is_modified(0));
    assert!(tracker.is_modified(1));
    tracker.on_query_sync(7);
    assert!(tracker.is_modified(1));
    tracker.on_query_sync(8);
    assert!(!tracker.is_modified(1));
    assert_eq!(tracker.last_read(), 8);
    assert_eq!(tracker.last_write(), 7);
}

#[test]
fn tracker_delete_swaps_in_the_last_row() {
    let mut tracker = ChangeTracking::new();
    tracker.push(TrackingInfo::new(1));
    tracker.push(TrackingInfo::new(2));
    tracker.push(TrackingInfo::new(3));
    tracker.delete(0);
    assert_eq!(tracker.len(), 2);
    assert_eq!(tracker.get(0).modified, 3);
    assert_eq!(tracker.get(1).modified, 2);
    assert_eq!(TrackingInfo::default().modified, 0);
}

#[test]
fn tracker_entries_can_be_rewritten() {
    let mut tracker = ChangeTracking::with_len(3);
    tracker.on_query_sync(4);
    tracker.get_mut(1).modified = 9;
    assert_eq!(tracker.get(0).modified, 0);
    assert_eq!(tracker.get(1).modified, 9);
    assert!(tracker.is_modified(1));
    assert!(!tracker.is_modified(2));
    assert_eq!(tracker.last_write(), 0);
}

#[test]
fn column_hands_out_its_tracker_and_its_bytes() {
    let mut storage = column_a(0);
    storage.push(&bytes32(0x0403_0201), 0);
    storage.push(&bytes32(0x0807_0605), 0);
    assert_eq!(storage.as_slice(), &[1u8, 2, 3, 4, 5, 6, 7, 8]);
    storage.enable_tracking();
    storage.get_mut_tracker().on_query_sync(3);
    assert!(!storage.is_modified(0));
    storage.get_mut_tracker().flag_modified(0, 5);
    assert!(storage.is_modified(0));
    assert!(!storage.is_modified(1));
    assert_eq!(storage.get_tracker().last_read(), 3);
    storage.delete(0);
    assert_eq!(storage.as_slice(), &[5u8, 6, 7, 8]);
}
