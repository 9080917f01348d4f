use copc_writer::chunk_store::{AppendStep, ChunkBuffer, ChunkStore};
use copc_writer::keymap::KeyMap;
use copc_writer::text::{push_decimal, same_text};
use copc_writer::{VoxelKey, WriterOptions};
use std::path::PathBuf;

fn key(x: i32) -> VoxelKey {
    VoxelKey { level: 3, x, y: 0, z: -1 }
}

fn store(memory_budget_bytes: u64) -> ChunkStore {
    let options = WriterOptions { memory_budget_bytes, temp_dir: None };
    ChunkStore::new(options, PathBuf::from("spill")).unwrap()
}

fn in_memory(store: &ChunkStore, key: &VoxelKey) -> Vec<u8> {
    match store.get(key) {
        Some(ChunkBuffer::InMemory { bytes, .. }) => bytes.clone(),
        _ => panic!("not in memory"),
    }
}

#[test]
fn numbers_are_written_in_decimal() {
    for v in [0, 7, 10, 42, -1, -30, i32::MAX, i32::MIN, 1_000_000] {
        let mut text = String::from("<");
        push_decimal(&mut text, v);
        assert_eq!(text, format!("<{v}"));
    }
    assert!(same_text("copc", "copc"));
    assert!(!same_text("copc", "Copc"));
}

#[test]
fn a_map_of_keys_keeps_one_value_for_each() {
    let mut map: KeyMap<u8> = KeyMap::new();
    assert!(!map.contains_key(&key(1)));
    map.insert(key(1), 1);
    map.insert(key(2), 2);
    map.insert(key(1), 3);
    assert_eq!(map.get(&key(1)), Some(&3));
    assert_eq!(map.keys().len(), 2);
    assert_eq!(map.remove(&key(1)), Some(3));
    assert_eq!(map.remove(&key(1)), None);
    assert_eq!(map.keys(), vec![key(2)]);
}

#[test]
fn the_directory_is_that_of_the_options_or_the_default() {
    assert_eq!(*store(1).temp_dir(), PathBuf::from("spill"));
    let options = WriterOptions { memory_budget_bytes: 1, temp_dir: Some(PathBuf::from("mine")) };
    let store = ChunkStore::new(options, PathBuf::from("spill")).unwrap();
    assert_eq!(*store.temp_dir(), PathBuf::from("mine"));
}

#[test]
fn files_are_named_by_key() {
    let store = store(1);
    assert_eq!(store.spill_path_for(&key(12)), "node-3-12-0--1.bin");
    assert_ne!(
        store.spill_path_for(&VoxelKey { level: 1, x: 1, y: 11, z: 1 }),
        store.spill_path_for(&VoxelKey { level: 1, x: 11, y: 1, z: 1 }),
    );
}

#[test]
fn records_are_appended_in_memory_while_they_fit() {
    let mut store = store(6);
    assert!(matches!(store.append(key(1), vec![1, 2]), AppendStep::Stored));
    assert!(matches!(store.append(key(1), vec![3]), AppendStep::Stored));
    assert!(matches!(store.append(key(2), vec![4, 5, 6]), AppendStep::Stored));
    assert_eq!(in_memory(&store, &key(1)), vec![1, 2, 3]);
    assert_eq!(store.get(&key(1)).unwrap().point_count(&key(1)), 2);
    assert_eq!(store.get(&key(1)).unwrap().byte_count(&key(1)), 3);
    // the budget is used up exactly
    assert!(store.ensure_budget_for(0).is_none());
    assert!(store.ensure_budget_for(1).is_some());
}

#[test]
fn the_largest_chunk_leaves_memory_first() {
    let mut store = store(6);
    store.append(key(1), vec![1]);
    store.append(key(2), vec![2, 2, 2]);
    store.append(key(3), vec![3, 3]);
    assert_eq!(store.spill_largest_in_memory_chunk(), Some(key(2)));
    let step = store.append(key(1), vec![9, 9]);
    let bytes = match step {
        AppendStep::MakeRoom { victim, bytes } => {
            assert_eq!(victim, key(2));
            bytes
        }
        other => panic!("{other:?}"),
    };
    store.spill_in_memory_chunk(&key(2), true);
    assert!(matches!(store.resume_append(key(1), bytes), AppendStep::Stored));
    assert_eq!(in_memory(&store, &key(1)), vec![1, 9, 9]);
    match store.get(&key(2)) {
        Some(ChunkBuffer::Spilled { path, point_count, byte_count, .. }) => {
            assert_eq!(path, "node-3-2-0--1.bin");
            assert_eq!((*point_count, *byte_count), (1, 3));
        }
        _ => panic!("not spilled"),
    }
    assert_eq!(store.spilled_files(), vec!["node-3-2-0--1.bin".to_string()]);
}

#[test]
fn a_chunk_in_a_file_grows_there() {
    let mut store = store(2);
    store.append(key(1), vec![1, 1]);
    store.spill_in_memory_chunk(&key(1), true);
    match store.append(key(1), vec![7]) {
        AppendStep::AppendToFile { bytes } => store.append_to_spilled(key(1), &bytes),
        other => panic!("{other:?}"),
    }
    let chunk = store.remove(&key(1)).unwrap();
    assert_eq!((chunk.point_count(&key(1)), chunk.byte_count(&key(1))), (2, 3));
    assert!(store.remove(&key(1)).is_none());
}

#[test]
fn a_record_larger_than_the_budget_goes_to_a_new_file() {
    let mut store = store(2);
    match store.append(key(1), vec![1, 2, 3]) {
        AppendStep::NewFile { bytes } => store.write_new_spilled_chunk(key(1), &bytes),
        other => panic!("{other:?}"),
    }
    assert_eq!(store.spill_largest_in_memory_chunk(), None);
    assert_eq!(store.spilled_files().len(), 1);
}

#[test]
fn the_chunk_of_the_record_itself_may_have_to_leave_memory() {
    let mut store = store(3);
    store.append(key(1), vec![1, 1]);
    let bytes = match store.append(key(1), vec![2, 2]) {
        AppendStep::MakeRoom { victim, bytes } => {
            assert_eq!(victim, key(1));
            bytes
        }
        other => panic!("{other:?}"),
    };
    store.spill_in_memory_chunk(&key(1), true);
    assert!(matches!(store.resume_append(key(1), bytes), AppendStep::AppendToFile { .. }));
}

#[test]
fn a_chunk_whose_file_cannot_be_written_is_lost_and_stays_counted() {
    let mut store = store(4);
    store.append(key(1), vec![1, 1, 1]);
    store.spill_in_memory_chunk(&key(1), false);
    assert!(store.get(&key(1)).is_none());
    assert!(store.spilled_files().is_empty());
    assert!(matches!(store.append(key(2), vec![2, 2]), AppendStep::NewFile { .. }));
}

#[test]
fn a_chunk_that_is_handed_out_frees_its_room() {
    let mut store = store(4);
    store.append(key(1), vec![1, 1, 1]);
    assert!(store.remove(&key(1)).is_some());
    assert!(store.ensure_budget_for(4).is_none());
    assert!(matches!(store.append(key(2), vec![2; 4]), AppendStep::Stored));
}

#[test]
fn draining_hands_every_chunk_out_once() {
    let mut store = store(100);
    for x in 0..5 {
        for _ in 0..=x {
            store.append(key(x), vec![x as u8]);
        }
    }
    store.append(key(9), vec![]);
    store.spill_in_memory_chunk(&key(3), true);
    let list = store.drain_to_compress();
    // the chunk without a record is dropped
    let mut counts: Vec<(i32, u32)> = list.iter().map(|(k, c)| (k.x, c.point_count(k))).collect();
    counts.sort();
    assert_eq!(counts, vec![(0, 1), (1, 2), (2, 3), (3, 4), (4, 5)]);
    assert!(store.drain().is_empty());
    assert!(store.get(&key(0)).is_none());
}
