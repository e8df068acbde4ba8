use chrono::Utc;
use wnfs::cid::Cid;
use wnfs::error::FsError;
use wnfs::node::{ChildRef, PublicDirectory, PublicFile, PublicNode};
use wnfs::store::MemoryBlockStore;

#[test]
fn serialized_public_node_can_be_deserialized() {
    let store = &mut MemoryBlockStore::new();
    let mut dir_node: PublicNode = PublicDirectory::new(Utc::now().timestamp()).into();
    let mut file_node: PublicNode =
        PublicFile::new(Utc::now().timestamp(), Cid::default()).into();

    let dir_cid = dir_node.store(store).unwrap();
    let file_cid = file_node.store(store).unwrap();

    let loaded_file_node = PublicNode::load(&file_cid, store).unwrap();
    let loaded_dir_node = PublicNode::load(&dir_cid, store).unwrap();

    assert_eq!(loaded_file_node, file_node);
    assert_eq!(loaded_dir_node, dir_node);
}

#[test]
fn split_last_splits_path_segments_into_tail_and_the_rest() {
    let path_segments = ["a".into(), "b".into(), "c".into()];
    let (rest, last) = wnfs::utils::split_last(&path_segments).unwrap();
    assert_eq!(rest, &["a", "b"]);
    assert_eq!(last, &"c");
}

#[test]
fn split_last_rejects_an_empty_path() {
    let path_segments: [String; 0] = [];
    let r = wnfs::utils::split_last(&path_segments);
    assert_eq!(r.unwrap_err(), FsError::InvalidPath);
}

fn cid_of_byte(b: u8) -> Cid {
    Cid { bytes: vec![b, b, b] }
}

#[test]
fn storing_twice_returns_the_same_cid_without_a_second_write() {
    let store = &mut MemoryBlockStore::new();
    let mut file_node: PublicNode = PublicFile::new(7, cid_of_byte(1)).into();

    assert!(file_node.persisted_as().is_none());
    let first = file_node.store(store).unwrap();
    assert!(file_node.persisted_as().is_some());
    let writes_after_first = store.puts;

    let second = file_node.store(store).unwrap();
    assert_eq!(first, second);
    assert_eq!(store.puts, writes_after_first);
    assert_eq!(writes_after_first, 1);
}

#[test]
fn mutating_through_one_handle_leaves_a_clone_unchanged() {
    let mut a: PublicNode = PublicFile::new(100, cid_of_byte(2)).into();
    let b = a.clone();

    a.upsert_mtime(999);

    let a_file = a.as_file().unwrap();
    let b_file = b.as_file().unwrap();
    assert_eq!(a_file.metadata.modified, 999);
    assert_eq!(b_file.metadata.modified, 100);
    assert_eq!(b_file.metadata.created, 100);
    assert_ne!(a, b);
}

#[test]
fn upsert_mtime_changes_only_the_modification_time() {
    let mut node: PublicNode = PublicFile::new(50, cid_of_byte(3)).into();
    node.upsert_mtime(60);
    let file = node.as_file().unwrap();
    assert_eq!(file.metadata.created, 50);
    assert_eq!(file.metadata.modified, 60);
    assert!(node.persisted_as().is_none());
}

#[test]
fn exactly_one_narrowing_succeeds_on_a_file() {
    let node: PublicNode = PublicFile::new(1, cid_of_byte(4)).into();
    assert!(node.is_file());
    assert!(!node.is_dir());
    assert!(node.as_file().is_ok());
    assert_eq!(node.as_dir().unwrap_err(), FsError::NotADirectory);
}

#[test]
fn exactly_one_narrowing_succeeds_on_a_directory() {
    let mut node: PublicNode = PublicDirectory::new(1).into();
    assert!(node.is_dir());
    assert!(!node.is_file());
    assert!(node.as_dir().is_ok());
    assert_eq!(node.as_file().unwrap_err(), FsError::NotAFile);
    assert!(node.as_dir_mut().is_ok());
}

#[test]
fn update_previous_deduplicates_and_normalizes_order() {
    let node: PublicNode = PublicFile::new(1, cid_of_byte(5)).into();
    let c1 = cid_of_byte(10);
    let c2 = cid_of_byte(20);

    let updated = node.update_previous(vec![c1.clone(), c2.clone(), c1.clone()]);
    let previous = updated.get_previous();
    assert_eq!(previous.len(), 2);
    assert_eq!(previous[0].bytes, c1.bytes);
    assert_eq!(previous[1].bytes, c2.bytes);
    assert!(updated.persisted_as().is_none());

    let reversed = node.update_previous(vec![c2.clone(), c1.clone()]);
    assert_eq!(reversed.get_previous()[0].bytes, c1.bytes);
    assert_eq!(reversed.get_previous()[1].bytes, c2.bytes);
    assert_eq!(reversed, updated);

    assert!(node.get_previous().is_empty());
}

#[test]
fn file_and_directory_nodes_are_never_equal() {
    let file: PublicNode = PublicFile::new(1, cid_of_byte(6)).into();
    let dir: PublicNode = PublicDirectory::new(1).into();
    assert_ne!(file, dir);
}

#[test]
fn loading_an_absent_cid_fails_with_not_found() {
    let store = MemoryBlockStore::new();
    let missing = cid_of_byte(9);
    let r = PublicNode::load(&missing, &store);
    assert_eq!(r.unwrap_err(), FsError::NotFound);
}

#[test]
fn loading_undecodable_bytes_fails_with_decode_error() {
    let mut store = MemoryBlockStore::new();
    let cid = store.put_block(vec![0xff, 0x00, 0x07]);
    let r = PublicNode::load(&cid, &store);
    assert_eq!(r.unwrap_err(), FsError::DecodeError);
}

#[test]
fn file_and_directory_round_trip_through_one_store() {
    let time = 1_700_000_000i64;
    let content = cid_of_byte(0xAB);
    let store = &mut MemoryBlockStore::new();

    let mut file_node: PublicNode = PublicFile::new(time, content.clone()).into();
    let cid_a = file_node.store(store).unwrap();

    let mut dir = PublicDirectory::new(time);
    dir.insert_child(String::from("file"), ChildRef::Ref(cid_a.clone()));
    let mut dir_node: PublicNode = dir.into();
    let cid_b = dir_node.store(store).unwrap();
    assert_ne!(cid_a.bytes, cid_b.bytes);

    let loaded_dir = PublicNode::load(&cid_b, store).unwrap().as_dir().unwrap();
    assert_eq!(loaded_dir.userland.len(), 1);
    assert_eq!(loaded_dir.userland[0].0, "file");
    let child_cid = match &loaded_dir.userland[0].1 {
        ChildRef::Ref(c) => c.clone(),
        ChildRef::Node(_) => panic!("loaded child should be a bare address"),
    };
    assert_eq!(child_cid.bytes, cid_a.bytes);

    let loaded_file = PublicNode::load(&child_cid, store)
        .unwrap()
        .as_file()
        .unwrap();
    assert_eq!(loaded_file.metadata.created, time);
    assert_eq!(loaded_file.metadata.modified, time);
    assert_eq!(loaded_file.userland.bytes, content.bytes);
    assert!(loaded_file.previous.is_empty());
}

#[test]
fn storing_a_directory_persists_its_in_memory_children_first() {
    let store = &mut MemoryBlockStore::new();
    let file = PublicFile::new(42, cid_of_byte(0x11));

    let expect_store = &mut MemoryBlockStore::new();
    let mut file_node: PublicNode = PublicFile::new(42, cid_of_byte(0x11)).into();
    let expected_child_cid = file_node.store(expect_store).unwrap();

    let mut dir = PublicDirectory::new(42);
    dir.insert_child(
        String::from("inner"),
        ChildRef::Node(Box::new(PublicNode::File(file))),
    );
    let mut dir_node: PublicNode = dir.into();
    let dir_cid = dir_node.store(store).unwrap();

    let loaded_dir = PublicNode::load(&dir_cid, store).unwrap().as_dir().unwrap();
    let child_cid = match &loaded_dir.userland[0].1 {
        ChildRef::Ref(c) => c.clone(),
        ChildRef::Node(_) => panic!("loaded child should be a bare address"),
    };
    assert_eq!(child_cid.bytes, expected_child_cid.bytes);

    let loaded_child = PublicNode::load(&child_cid, store).unwrap();
    assert!(loaded_child.is_file());
    assert_eq!(loaded_child.as_file().unwrap().metadata.created, 42);
}

#[test]
fn persisted_as_is_reset_by_mutation() {
    let store = &mut MemoryBlockStore::new();
    let mut node: PublicNode = PublicFile::new(5, cid_of_byte(0x22)).into();
    let cid = node.store(store).unwrap();
    assert_eq!(node.persisted_as().as_ref().unwrap().bytes, cid.bytes);

    let updated = node.update_previous(vec![cid.clone()]);
    assert!(updated.persisted_as().is_none());

    node.upsert_mtime(6);
    assert!(node.persisted_as().is_none());
}

#[test]
fn has_child_sees_exactly_the_recorded_names() {
    let mut dir = PublicDirectory::new(1);
    assert!(!dir.has_child(&String::from("a")));
    dir.insert_child(String::from("a"), ChildRef::Ref(cid_of_byte(1)));
    assert!(dir.has_child(&String::from("a")));
    assert!(!dir.has_child(&String::from("b")));
}

#[test]
fn update_previous_works_on_directories_too() {
    let node: PublicNode = PublicDirectory::new(9).into();
    let c = cid_of_byte(0x33);
    let updated = node.update_previous(vec![c.clone(), c.clone()]);
    assert!(updated.is_dir());
    assert_eq!(updated.get_previous().len(), 1);
    assert_eq!(updated.get_previous()[0].bytes, c.bytes);
}

#[test]
fn metadata_starts_with_equal_timestamps() {
    let m = wnfs::metadata::Metadata::new(123);
    assert_eq!(m.created, 123);
    assert_eq!(m.modified, 123);
}
