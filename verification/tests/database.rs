use merkledb::address::IndexAddress;
use merkledb::changes::{Change, ViewChanges};
use merkledb::db::{Database, Error, Fork, Patch};
use merkledb::index_metadata::{
    check_metadata, is_registered, IndexMetadata, IndexMetadataAddress, IndexMetadataView,
    IndexType,
};
use merkledb::key_set_index::KeySetIndex;
use merkledb::list_index::ListIndex;
use merkledb::refs::{
    check_or_create_metadata, try_create_metadata, ObjectAccess, Ref, RefMut,
};
use merkledb::temporary_db::TemporaryDB;
use merkledb::views::{IndexBuilder, View};

const IDX_NAME: &str = "idx_name";

fn address() -> IndexAddress {
    IndexAddress::with_root(IDX_NAME)
}

fn assert_iter(fork: &Fork, from: u8, assumed: &[(u8, u8)]) {
    let mut values = Vec::new();
    for (k, v) in fork.iter(&address(), &[from]) {
        values.push((k[0], v[0]));
    }
    assert_eq!(values, assumed);
}

fn fork_iter<T: Database>(mut db: T) {
    let mut fork = db.fork();

    fork.put(&address(), vec![10], vec![10]);
    fork.put(&address(), vec![20], vec![20]);
    fork.put(&address(), vec![30], vec![30]);

    assert!(fork.contains(&address(), &[10]));

    db.merge(fork.into_patch()).unwrap();

    let mut fork = db.fork();

    assert!(fork.contains(&address(), &[10]));

    // Stored
    assert_iter(&fork, 0, &[(10, 10), (20, 20), (30, 30)]);
    assert_iter(&fork, 5, &[(10, 10), (20, 20), (30, 30)]);
    assert_iter(&fork, 10, &[(10, 10), (20, 20), (30, 30)]);
    assert_iter(&fork, 11, &[(20, 20), (30, 30)]);
    assert_iter(&fork, 31, &[]);

    // Inserted
    fork.put(&address(), vec![5], vec![5]);
    assert_iter(&fork, 0, &[(5, 5), (10, 10), (20, 20), (30, 30)]);
    fork.put(&address(), vec![25], vec![25]);
    assert_iter(&fork, 0, &[(5, 5), (10, 10), (20, 20), (25, 25), (30, 30)]);
    fork.put(&address(), vec![35], vec![35]);
    assert_iter(
        &fork,
        0,
        &[(5, 5), (10, 10), (20, 20), (25, 25), (30, 30), (35, 35)],
    );

    // Double inserted
    fork.put(&address(), vec![25], vec![23]);
    assert_iter(
        &fork,
        0,
        &[(5, 5), (10, 10), (20, 20), (25, 23), (30, 30), (35, 35)],
    );
    fork.put(&address(), vec![26], vec![26]);
    assert_iter(
        &fork,
        0,
        &[
            (5, 5),
            (10, 10),
            (20, 20),
            (25, 23),
            (26, 26),
            (30, 30),
            (35, 35),
        ],
    );

    // Replaced
    let mut fork = db.fork();

    fork.put(&address(), vec![10], vec![11]);
    assert_iter(&fork, 0, &[(10, 11), (20, 20), (30, 30)]);
    fork.put(&address(), vec![30], vec![31]);
    assert_iter(&fork, 0, &[(10, 11), (20, 20), (30, 31)]);

    // Deleted
    let mut fork = db.fork();

    fork.remove(&address(), vec![20]);
    assert_iter(&fork, 0, &[(10, 10), (30, 30)]);
    fork.remove(&address(), vec![10]);
    assert_iter(&fork, 0, &[(30, 30)]);
    fork.put(&address(), vec![10], vec![11]);
    assert_iter(&fork, 0, &[(10, 11), (30, 30)]);
    fork.remove(&address(), vec![10]);
    assert_iter(&fork, 0, &[(30, 30)]);

    // MissDeleted
    let mut fork = db.fork();

    fork.remove(&address(), vec![5]);
    assert_iter(&fork, 0, &[(10, 10), (20, 20), (30, 30)]);
    fork.remove(&address(), vec![15]);
    assert_iter(&fork, 0, &[(10, 10), (20, 20), (30, 30)]);
    fork.remove(&address(), vec![35]);
    assert_iter(&fork, 0, &[(10, 10), (20, 20), (30, 30)]);
}

fn changelog<T: Database>(db: T) {
    let mut fork = db.fork();

    fork.put(&address(), vec![1], vec![1]);
    fork.put(&address(), vec![2], vec![2]);
    fork.put(&address(), vec![3], vec![3]);

    assert_eq!(fork.get(&address(), &[1]), Some(vec![1]));
    assert_eq!(fork.get(&address(), &[2]), Some(vec![2]));
    assert_eq!(fork.get(&address(), &[3]), Some(vec![3]));

    fork.checkpoint();

    assert_eq!(fork.get(&address(), &[1]), Some(vec![1]));
    assert_eq!(fork.get(&address(), &[2]), Some(vec![2]));
    assert_eq!(fork.get(&address(), &[3]), Some(vec![3]));

    fork.put(&address(), vec![1], vec![10]);
    fork.put(&address(), vec![4], vec![40]);
    fork.remove(&address(), vec![2]);

    assert_eq!(fork.get(&address(), &[1]), Some(vec![10]));
    assert_eq!(fork.get(&address(), &[2]), None);
    assert_eq!(fork.get(&address(), &[3]), Some(vec![3]));
    assert_eq!(fork.get(&address(), &[4]), Some(vec![40]));

    fork.rollback();

    assert_eq!(fork.get(&address(), &[1]), Some(vec![1]));
    assert_eq!(fork.get(&address(), &[2]), Some(vec![2]));
    assert_eq!(fork.get(&address(), &[3]), Some(vec![3]));
    assert_eq!(fork.get(&address(), &[4]), None);

    fork.checkpoint();

    fork.put(&address(), vec![4], vec![40]);
    fork.put(&address(), vec![4], vec![41]);
    fork.remove(&address(), vec![2]);
    fork.put(&address(), vec![2], vec![20]);

    assert_eq!(fork.get(&address(), &[1]), Some(vec![1]));
    assert_eq!(fork.get(&address(), &[2]), Some(vec![20]));
    assert_eq!(fork.get(&address(), &[3]), Some(vec![3]));
    assert_eq!(fork.get(&address(), &[4]), Some(vec![41]));

    fork.rollback();

    assert_eq!(fork.get(&address(), &[1]), Some(vec![1]));
    assert_eq!(fork.get(&address(), &[2]), Some(vec![2]));
    assert_eq!(fork.get(&address(), &[3]), Some(vec![3]));
    assert_eq!(fork.get(&address(), &[4]), None);

    fork.put(&address(), vec![2], vec![20]);

    fork.checkpoint();

    fork.put(&address(), vec![3], vec![30]);

    fork.rollback();

    assert_eq!(fork.get(&address(), &[1]), Some(vec![1]));
    assert_eq!(fork.get(&address(), &[2]), Some(vec![20]));
    assert_eq!(fork.get(&address(), &[3]), Some(vec![3]));
    assert_eq!(fork.get(&address(), &[4]), None);
}

#[test]
fn test_memory_fork_iter() {
    fork_iter(TemporaryDB::new());
}

#[test]
fn test_memory_changelog() {
    changelog(TemporaryDB::new());
}

#[test]
fn fork_then_merge() {
    let mut db = TemporaryDB::new();
    let mut fork = db.fork();
    {
        let mut list: ListIndex<_, u32> = ListIndex::new("wallets", fork.writer());
        list.push(1);
    }
    db.merge(fork.into_patch()).unwrap();
    let snapshot = db.snapshot();
    let list: ListIndex<_, u32> = ListIndex::new("wallets", &snapshot);
    assert_eq!(list.get(0), Some(1));
    assert_eq!(list.len(), 1);

    let mut fork = db.fork();
    {
        let mut list: ListIndex<_, u32> = ListIndex::new("wallets", fork.writer());
        list.push(2);
    }
    db.merge(fork.into_patch()).unwrap();
    let snapshot = db.snapshot();
    let list: ListIndex<_, u32> = ListIndex::new("wallets", &snapshot);
    assert_eq!(list.get(0), Some(1));
    assert_eq!(list.get(1), Some(2));
    assert_eq!(list.get(2), None);
    assert_eq!(list.len(), 2);
    assert!(!list.is_empty());
}

#[test]
fn savepoint_rollback() {
    let db = TemporaryDB::new();
    let mut fork = db.fork();
    let idx = IndexAddress::with_root("idx");
    fork.put(&idx, b"a".to_vec(), b"x".to_vec());
    fork.checkpoint();
    fork.put(&idx, b"a".to_vec(), b"y".to_vec());
    fork.put(&idx, b"b".to_vec(), b"z".to_vec());
    assert_eq!(fork.get(&idx, b"a"), Some(b"y".to_vec()));
    assert_eq!(fork.depth(), 1);
    fork.rollback();
    assert_eq!(fork.depth(), 0);
    assert_eq!(fork.get(&idx, b"a"), Some(b"x".to_vec()));
    assert_eq!(fork.get(&idx, b"b"), None);
}

#[test]
fn rollback_undoes_changes_of_views_that_were_new_and_of_cleared_views() {
    let mut db = TemporaryDB::new();
    let old = IndexAddress::with_root("old");
    let new = IndexAddress::with_root("new");
    let mut fork = db.fork();
    fork.put(&old, vec![1], vec![1]);
    db.merge(fork.into_patch()).unwrap();

    let mut fork = db.fork();
    fork.checkpoint();
    fork.put(&new, vec![7], vec![7]);
    fork.clear(&old);
    assert_eq!(fork.get(&old, &[1]), None);
    assert_eq!(fork.get(&new, &[7]), Some(vec![7]));
    fork.checkpoint();
    fork.put(&old, vec![1], vec![2]);
    fork.commit_checkpoint();
    assert_eq!(fork.depth(), 1);
    assert_eq!(fork.get(&old, &[1]), Some(vec![2]));
    fork.rollback();
    assert_eq!(fork.get(&old, &[1]), Some(vec![1]));
    assert_eq!(fork.get(&new, &[7]), None);
    assert!(!fork.contains(&new, &[7]));
    db.merge(fork.into_patch()).unwrap();
    assert_eq!(db.snapshot().get("old", &[1]), Some(vec![1]));
    assert_eq!(db.snapshot().get("new", &[7]), None);
}

#[test]
fn a_snapshot_does_not_see_a_later_merge() {
    let mut db = TemporaryDB::new();
    let idx = IndexAddress::with_root("idx");
    let mut fork = db.fork();
    fork.put(&idx, vec![1], vec![1]);
    db.merge(fork.into_patch()).unwrap();

    let before = db.snapshot();
    let copy = before.clone();
    let stale_fork = db.fork();
    let mut fork = db.fork();
    fork.put(&idx, vec![1], vec![9]);
    fork.put(&idx, vec![2], vec![2]);
    fork.clear(&IndexAddress::with_root("other"));
    db.merge(fork.into_patch()).unwrap();

    assert_eq!(before.get("idx", &[1]), Some(vec![1]));
    assert_eq!(before.get("idx", &[2]), None);
    assert!(!before.contains("idx", &[2]));
    assert_eq!(copy.get("idx", &[1]), Some(vec![1]));
    assert_eq!(stale_fork.get(&idx, &[1]), Some(vec![1]));
    assert_eq!(stale_fork.get(&idx, &[2]), None);
    let after = db.snapshot();
    assert_eq!(after.get("idx", &[1]), Some(vec![9]));
    assert_eq!(after.get("idx", &[2]), Some(vec![2]));
    assert!(after.contains("idx", &[2]));
    assert_eq!(after.iter("idx", &[2]), vec![(vec![2], vec![2])]);
    assert_eq!(
        before.iter("idx", &[]),
        vec![(vec![1], vec![1])]
    );
}

#[test]
fn clear_wipes_the_view_at_merge_time() {
    let mut db = TemporaryDB::new();
    let plain = IndexAddress::with_root("name");
    let one = IndexAddress::with_root("family").append_bytes(&1u8);
    let two = IndexAddress::with_root("family").append_bytes(&2u8);
    let mut fork = db.fork();
    fork.put(&plain, vec![1], vec![1]);
    fork.put(&one, vec![1], vec![11]);
    fork.put(&one, vec![2], vec![12]);
    fork.put(&two, vec![1], vec![21]);
    db.merge(fork.into_patch()).unwrap();
    assert_eq!(db.snapshot().get("family", &[1, 2]), Some(vec![12]));
    assert_eq!(db.snapshot().get("family", &[2, 1]), Some(vec![21]));

    let mut fork = db.fork();
    fork.clear(&one);
    assert_eq!(fork.get(&one, &[1]), None);
    assert_eq!(fork.iter(&one, &[]), vec![]);
    fork.put(&one, vec![3], vec![13]);
    assert_eq!(fork.iter(&one, &[]), vec![(vec![3], vec![13])]);
    assert_eq!(fork.get(&two, &[1]), Some(vec![21]));
    db.merge(fork.into_patch()).unwrap();

    let snapshot = db.snapshot();
    assert_eq!(snapshot.get("family", &[1, 1]), None);
    assert_eq!(snapshot.get("family", &[1, 2]), None);
    assert_eq!(snapshot.get("family", &[1, 3]), Some(vec![13]));
    assert_eq!(snapshot.get("family", &[2, 1]), Some(vec![21]));
    assert_eq!(snapshot.get("name", &[1]), Some(vec![1]));
    assert_eq!(snapshot.iter_view(&one, &[]), vec![(vec![3], vec![13])]);
    assert_eq!(snapshot.iter_view(&two, &[]), vec![(vec![1], vec![21])]);
}

#[test]
fn views_of_a_family_are_walked_apart() {
    let mut db = TemporaryDB::new();
    let one = IndexAddress::with_root("family").append_bytes(&vec![1u8]);
    let one_two = IndexAddress::with_root("family").append_bytes(&vec![1u8, 2]);
    let two = IndexAddress::with_root("family").append_bytes(&vec![2u8]);
    let mut fork = db.fork();
    fork.put(&one, vec![5], vec![15]);
    fork.put(&one, vec![2, 9], vec![129]);
    fork.put(&two, vec![0], vec![20]);
    db.merge(fork.into_patch()).unwrap();
    let mut fork = db.fork();
    fork.put(&two, vec![1], vec![21]);
    fork.remove(&one, vec![5]);
    assert_eq!(fork.iter(&one, &[]), vec![(vec![2, 9], vec![129])]);
    assert_eq!(fork.iter(&one_two, &[]), vec![(vec![9], vec![129])]);
    assert_eq!(
        fork.iter(&two, &[]),
        vec![(vec![0], vec![20]), (vec![1], vec![21])]
    );
    assert_eq!(fork.iter(&two, &[1]), vec![(vec![1], vec![21])]);
    let view: View<ViewChanges> = View::new(&fork, two.clone());
    assert_eq!(view.first_from(&[]), Some((vec![0], vec![20])));
    assert_eq!(view.first_from(&[0, 0]), Some((vec![1], vec![21])));
    assert_eq!(view.first_from(&[2]), None);
    let view: View<ViewChanges> = View::new(&fork, one.clone());
    assert_eq!(view.first_from(&[]), Some((vec![2, 9], vec![129])));
    assert!(!view.is_emptied());
    assert_eq!(view.address().name(), "family");
}

#[test]
fn views_read_and_write() {
    let mut db = TemporaryDB::new();
    let idx = IndexAddress::with_root("idx");
    let mut fork = db.fork();
    let mut view: View<ViewChanges> = View::new(&fork, idx.clone());
    view.put(&7u32, "seven".to_string());
    view.put(&8u32, "eight".to_string());
    assert_eq!(view.get::<u32, String>(&7), Some("seven".to_string()));
    assert_eq!(view.get::<u32, u64>(&7), None);
    assert!(view.contains(&8u32));
    view.remove(&8u32);
    assert!(!view.contains(&8u32));
    assert_eq!(view.get_bytes(&[0, 0, 0, 7]), Some(b"seven".to_vec()));
    assert!(view.contains_raw_key(&[0, 0, 0, 7]));
    // The fork sees nothing before the view is handed back.
    assert_eq!(fork.get(&idx, &[0, 0, 0, 7]), None);
    fork.insert(&idx, view);
    assert_eq!(fork.get(&idx, &[0, 0, 0, 7]), Some(b"seven".to_vec()));
    db.merge(fork.into_patch()).unwrap();

    let snapshot = db.snapshot();
    let view: View<()> = View::new(&snapshot, idx.clone());
    assert_eq!(view.get::<u32, String>(&7), Some("seven".to_string()));
    assert_eq!(view.get::<u32, String>(&8), None);
    let mut it = view.iter::<(), u32, String>(&());
    assert_eq!(it.next(), Some((7, "seven".to_string())));
    assert_eq!(it.next(), None);
    assert_eq!(it.next(), None);

    let fork = db.fork();
    let mut view: View<ViewChanges> = View::new(&fork, idx.clone());
    view.checkpoint();
    view.clear();
    assert!(view.is_emptied());
    assert_eq!(view.get_bytes(&[0, 0, 0, 7]), None);
    view.put_bytes(vec![1], vec![1]);
    view.remove_bytes(vec![1]);
    assert_eq!(view.iter_bytes(&[]), vec![]);
    view.checkpoint();
    view.put_bytes(vec![2], vec![2]);
    view.commit_checkpoint();
    assert_eq!(view.iter_bytes(&[]), vec![(vec![2], vec![2])]);
    view.rollback();
    assert!(!view.is_emptied());
    assert_eq!(view.iter_bytes(&[]), vec![(vec![0, 0, 0, 7], b"seven".to_vec())]);
    let mut it = view.iter_from::<u8, u32, u32, String>(&0u8, &6u32);
    assert_eq!(it.next(), Some((7, "seven".to_string())));
    let mut it = view.iter_from::<u8, u32, u32, String>(&1u8, &6u32);
    assert_eq!(it.next(), None);
}

#[test]
fn view_changes_record_and_save() {
    let mut changes = ViewChanges::new();
    assert!(!changes.is_empty());
    assert_eq!(changes.len(), 0);
    changes.put(vec![2], vec![20]);
    changes.put(vec![1], vec![10]);
    changes.remove(vec![3]);
    assert_eq!(changes.len(), 3);
    assert_eq!(changes.key_at(0), &vec![1]);
    assert!(matches!(changes.change_at(2), Change::Delete));
    assert!(matches!(changes.get(&[2]), Some(Change::Put(v)) if v == &vec![20]));
    assert!(changes.get(&[4]).is_none());
    assert_eq!(changes.lower_bound(&[2]), 1);
    changes.checkpoint();
    assert_eq!(changes.depth(), 1);
    changes.clear();
    assert!(changes.is_empty());
    assert_eq!(changes.len(), 0);
    changes.rollback();
    assert!(!changes.is_empty());
    assert_eq!(changes.len(), 3);
    let copy = changes.detached();
    assert_eq!(copy.len(), 3);
    assert_eq!(copy.depth(), 0);
    let cloned = changes.change_at(0).clone();
    assert!(matches!(cloned, Change::Put(v) if v == vec![10]));
}

#[test]
fn patch_lists_the_views_of_the_fork() {
    let db = TemporaryDB::new();
    let mut fork = db.fork();
    fork.put(&IndexAddress::with_root("b"), vec![1], vec![1]);
    fork.put(&IndexAddress::with_root("a"), vec![2], vec![2]);
    fork.put(&IndexAddress::with_root("b"), vec![3], vec![3]);
    assert!(fork.changes(&IndexAddress::with_root("c")).is_none());
    assert_eq!(fork.changes(&IndexAddress::with_root("b")).unwrap().len(), 2);
    let patch: Patch = fork.into_patch();
    assert_eq!(patch.len(), 2);
    assert_eq!(patch.address_at(0).name(), "b");
    assert_eq!(patch.address_at(1).name(), "a");
    assert_eq!(patch.changes_at(0).len(), 2);
    assert_eq!(Patch::new().len(), 0);
    assert_eq!(Error::new("no").message(), "no");
}

#[test]
fn index_addresses() {
    let root = IndexAddress::with_root("root");
    assert_eq!(root.name(), "root");
    assert_eq!(root.bytes(), None);
    assert_eq!(IndexAddress::new().name(), "");
    assert_eq!(IndexAddress::new().append_name("x").name(), "x");
    assert_eq!(root.append_name("x").name(), "root.x");
    assert_eq!(root.append_name("x").append_name("y").name(), "root.x.y");
    let member = root.append_bytes(&0x0102u32);
    assert_eq!(member.name(), "root");
    assert_eq!(member.bytes(), Some(&[0, 0, 1, 2][..]));
    assert_eq!(member.append_bytes(&7u8).bytes(), Some(&[0, 0, 1, 2, 7][..]));
    assert_eq!(member.keyed(&[9]), ("root", vec![0, 0, 1, 2, 9]));
    assert_eq!(root.keyed(&[9]), ("root", vec![9]));
    assert_eq!(member.append_name("x").bytes(), Some(&[0, 0, 1, 2][..]));
    assert_eq!(member.clone(), member);
    assert_ne!(member, root);
    assert_ne!(root, IndexAddress::with_root("roof"));
    assert_eq!(member.clone().without_bytes(), root);
    assert_eq!(member.table_key(), b"root");
    assert_eq!(
        IndexMetadataAddress::from(&member).0,
        IndexAddress::with_root("root.__INDEX_METADATA__")
    );
}

#[test]
fn metadata_guard() {
    let mut db = TemporaryDB::new();
    let name = IndexAddress::with_root("index");
    let map = IndexMetadata { index_type: IndexType::ProofMap, has_parent: false };
    let list = IndexMetadata { index_type: IndexType::List, has_parent: false };
    let family_list = IndexMetadata { index_type: IndexType::List, has_parent: true };

    // Nothing is registered yet: every kind may be opened.
    let fork = db.fork();
    assert!(check_metadata(&fork, &name, &map));
    assert!(check_metadata(&fork, &name, &list));
    assert!(!is_registered(&fork, &name, &list));

    let mut fork = db.fork();
    let mut index: ListIndex<_, u32> = ListIndex::new("index", &fork);
    index.push(1);
    fork.insert(&name, index);
    assert!(check_metadata(&fork, &name, &list));
    assert!(is_registered(&fork, &name, &list));
    assert!(!check_metadata(&fork, &name, &map));
    assert!(!check_metadata(&fork, &name, &family_list));
    db.merge(fork.into_patch()).unwrap();

    let snapshot = db.snapshot();
    assert!(check_metadata(&snapshot, &name, &list));
    assert!(!check_metadata(&snapshot, &name, &map));
    assert!(!check_metadata(&snapshot, &name, &family_list));
    assert!(IndexBuilder::new(&snapshot)
        .index_name("index")
        .index_type(IndexType::ProofMap)
        .try_build()
        .is_none());
    assert!(!IndexBuilder::from_view(&snapshot)
        .index_name("index")
        .index_type(IndexType::KeySet)
        .check());
    assert!(IndexBuilder::new(&snapshot)
        .index_name("index")
        .index_type(IndexType::List)
        .try_build()
        .is_some());
    assert!(IndexBuilder::new(&snapshot)
        .index_name("index")
        .family_id(&1u8)
        .index_type(IndexType::List)
        .try_build()
        .is_none());
    assert!(IndexBuilder::new(&snapshot)
        .index_name("other")
        .index_type(IndexType::ProofMap)
        .try_build()
        .is_some());

    let view: IndexMetadataView<()> =
        IndexMetadataView::new(&snapshot, IndexMetadataAddress::from(&name));
    assert!(view.is_consistent());
    assert_eq!(view.index_metadata(), Some(list));

    // The record of a family serves all its members.
    let member = IndexAddress::with_root("family").append_bytes(&1u8);
    let other = IndexAddress::with_root("family").append_bytes(&2u8);
    let mut fork = db.fork();
    let set: KeySetIndex<_, u32> = KeySetIndex::create_from(member.clone(), &fork);
    fork.insert(&member, set);
    let family_set = IndexMetadata { index_type: IndexType::KeySet, has_parent: true };
    assert!(is_registered(&fork, &other, &family_set));
    assert!(!check_metadata(&fork, &other, &family_list));

    // A record of the kind alone makes no sense.
    let mut fork = db.fork();
    fork.put(
        &IndexAddress::with_root("broken.__INDEX_METADATA__"),
        b"index_type".to_vec(),
        vec![2],
    );
    let broken = IndexAddress::with_root("broken");
    assert!(!check_metadata(&fork, &broken, &list));
    let mut view: IndexMetadataView<ViewChanges> =
        IndexMetadataView::new(&fork, IndexMetadataAddress::from(&broken));
    assert!(!view.is_consistent());
    view.set_index_metadata(&map);
    assert!(view.is_consistent());
    assert_eq!(view.index_metadata(), Some(map));
    assert_eq!(view.into_changes().len(), 2);
}

#[test]
fn key_set_index() {
    let mut db = TemporaryDB::new();
    let mut fork = db.fork();
    let mut index: KeySetIndex<_, String> = KeySetIndex::new("test_index_name", &fork);
    const KEY: &str = "key_1";
    assert_eq!(false, index.contains(&KEY.to_owned()));
    index.insert(KEY.to_owned());
    assert_eq!(true, index.contains(&KEY.to_owned()));
    index.remove(&KEY.to_owned());
    assert_eq!(false, index.contains(&KEY.to_owned()));

    index.insert("b".to_owned());
    index.insert("a".to_owned());
    index.insert("c".to_owned());
    let mut it = index.iter();
    assert_eq!(it.next(), Some("a".to_owned()));
    assert_eq!(it.next(), Some("b".to_owned()));
    assert_eq!(it.next(), Some("c".to_owned()));
    assert_eq!(it.next(), None);
    let mut it = index.iter_from(&"b".to_owned());
    assert_eq!(it.next(), Some("b".to_owned()));
    assert_eq!(it.next(), Some("c".to_owned()));
    assert_eq!(it.next(), None);
    fork.insert(&IndexAddress::with_root("test_index_name"), index);
    db.merge(fork.into_patch()).unwrap();

    let fork = db.fork();
    let mut index: KeySetIndex<_, String> = KeySetIndex::new("test_index_name", &fork);
    assert!(index.contains(&"a".to_owned()));
    index.clear();
    assert!(!index.contains(&"a".to_owned()));
    assert_eq!(index.iter().next(), None);
}

#[test]
fn str_key() {
    let db = TemporaryDB::new();
    let fork = db.fork();
    let mut index: KeySetIndex<_, String> = KeySetIndex::new("test_index_name", &fork);

    const KEY: &str = "key_1";

    assert_eq!(false, index.contains(&KEY.to_owned()));

    index.insert(KEY.to_owned());
    assert_eq!(true, index.contains(&KEY.to_owned()));

    index.remove(&KEY.to_owned());
    assert_eq!(false, index.contains(&KEY.to_owned()));
}

#[test]
fn list_index() {
    let db = TemporaryDB::new();
    let fork = db.fork();
    let mut list: ListIndex<_, String> = ListIndex::new("list", &fork);
    assert!(list.is_empty());
    assert_eq!(list.get(0), None);
    list.push("a".to_owned());
    list.push("b".to_owned());
    assert_eq!(list.len(), 2);
    assert_eq!(list.get(0), Some("a".to_owned()));
    assert_eq!(list.get(1), Some("b".to_owned()));
    list.set_len(1);
    assert_eq!(list.len(), 1);
    list.push("c".to_owned());
    assert_eq!(list.get(1), Some("c".to_owned()));
    list.clear();
    assert_eq!(list.len(), 0);
    assert_eq!(list.get(0), None);
}

#[test]
fn refs_get_non_existent_index() {
    let db = TemporaryDB::new();
    let snapshot = &db.snapshot();
    let index: Option<Ref<ListIndex<_, u32>>> =
        snapshot.get_object(IndexAddress::with_root("index"));

    assert!(index.is_none());
}

#[test]
fn refs_basic_object_refs() {
    let mut db = TemporaryDB::new();
    let mut fork = db.fork();
    {
        let mut index: ListIndex<_, u32> = fork.create_object();
        index.push(1);
        fork.insert(&IndexAddress::with_root("index"), index);

        let index: Option<Ref<ListIndex<_, u32>>> =
            fork.get_object(IndexAddress::with_root("index"));
        assert!(index.is_some());
    }
    {
        let mut index: RefMut<ListIndex<_, u32>> =
            fork.get_object_mut(IndexAddress::with_root("index")).unwrap();
        index.get_mut().push(2);
    }

    db.merge(fork.into_patch()).unwrap();

    let snapshot = &db.snapshot();
    let index: Ref<ListIndex<_, u32>> =
        snapshot.get_object(IndexAddress::with_root("index")).unwrap();

    assert_eq!(index.get().get(0), Some(1));
    assert_eq!(index.get().get(1), Some(2));
}

#[test]
fn fork_get_object() {
    let mut db = TemporaryDB::new();
    let mut fork = db.fork();
    {
        let _list: RefMut<ListIndex<_, u32>> =
            fork.get_or_create_object(IndexAddress::with_root("index"));
    }

    db.merge(fork.into_patch()).unwrap();

    let mut fork = db.fork();
    {
        let mut list: RefMut<ListIndex<_, u32>> =
            fork.get_or_create_object(IndexAddress::with_root("index"));
        list.get_mut().push(1);
    }

    db.merge(fork.into_patch()).unwrap();

    let snapshot = &db.snapshot();
    let list: Ref<ListIndex<_, u32>> =
        snapshot.get_object(IndexAddress::with_root("index")).unwrap();

    assert_eq!(list.get().get(0), Some(1));
}

#[test]
fn fork_get_mut() {
    let mut db = TemporaryDB::new();
    let mut fork = db.fork();
    {
        let list: ListIndex<_, u32> = fork.create_object();
        fork.insert(&IndexAddress::with_root("index"), list);
    }

    db.merge(fork.into_patch()).unwrap();

    let mut fork = db.fork();
    {
        let mut list: RefMut<ListIndex<_, u32>> =
            fork.get_object_mut(IndexAddress::with_root("index")).unwrap();
        list.get_mut().push(1);
    }

    db.merge(fork.into_patch()).unwrap();

    let snapshot = &db.snapshot();
    let list: Ref<ListIndex<_, u32>> =
        snapshot.get_object(IndexAddress::with_root("index")).unwrap();

    assert_eq!(list.get().get(0), Some(1));
}

#[test]
fn fork_multiple_insert() {
    let mut db = TemporaryDB::new();
    let mut fork = db.fork();
    {
        let mut index1: KeySetIndex<_, u32> = fork.create_object();
        let mut index2: KeySetIndex<_, u32> = fork.create_object();
        index1.insert(1);
        index2.insert(2);
        fork.insert(&IndexAddress::with_root("index1"), index1);
        fork.insert(&IndexAddress::with_root("index2"), index2);
    }
    db.merge(fork.into_patch()).unwrap();

    let snapshot = &db.snapshot();
    let index1: Ref<KeySetIndex<_, u32>> =
        snapshot.get_object(IndexAddress::with_root("index1")).unwrap();
    let index2: Ref<KeySetIndex<_, u32>> =
        snapshot.get_object(IndexAddress::with_root("index2")).unwrap();

    assert!(index1.get().contains(&1));
    assert!(index2.get().contains(&2));
    assert!(!index1.get().contains(&2));
    // An object of another kind is not found under the name.
    let wrong: Option<Ref<ListIndex<_, u32>>> =
        snapshot.get_object(IndexAddress::with_root("index1"));
    assert!(wrong.is_none());
    let wrong: Option<RefMut<ListIndex<_, u32>>> =
        snapshot.get_object_mut(IndexAddress::with_root("index1"));
    assert!(wrong.is_none());
    let made: RefMut<KeySetIndex<_, u32>> =
        snapshot.get_or_create_object(IndexAddress::with_root("index3"));
    assert!(!made.get().contains(&1));
    assert!(Ref::new(5u8).into_inner() == 5 && *RefMut::new(6u8).get() == 6);
}

#[test]
fn ref_list_length() {
    let mut db = TemporaryDB::new();
    let mut fork = db.fork();
    {
        let mut index: ListIndex<_, u32> = fork.create_object();
        index.push(1);

        let index2: ListIndex<_, u32> = fork.create_object();
        assert_eq!(index2.len(), 0);
        fork.insert(&IndexAddress::with_root("index"), index);
    }

    db.merge(fork.into_patch()).unwrap();

    let snapshot = &db.snapshot();
    let index1: Ref<ListIndex<_, u32>> =
        snapshot.get_object(IndexAddress::with_root("index")).unwrap();

    assert_eq!(index1.get().len(), 1);
}

#[test]
fn metadata_is_created_once_and_guards_the_kind() {
    let mut db = TemporaryDB::new();
    let name = IndexAddress::with_root("guarded");
    let set = IndexMetadata { index_type: IndexType::KeySet, has_parent: false };
    let map = IndexMetadata { index_type: IndexType::ProofMap, has_parent: false };
    let family_set = IndexMetadata { index_type: IndexType::KeySet, has_parent: true };

    let mut fork = db.fork();
    assert!(!is_registered(&fork, &name, &set));
    check_or_create_metadata(&mut fork, &name, &set);
    assert!(is_registered(&fork, &name, &set));
    // The same kind again is in order and changes nothing.
    check_or_create_metadata(&mut fork, &name, &set);
    assert!(is_registered(&fork, &name, &set));
    // Another kind is refused, and the record stays.
    assert!(!try_create_metadata(&mut fork, &name, &map));
    assert!(!try_create_metadata(&mut fork, &name, &family_set));
    assert!(is_registered(&fork, &name, &set));
    assert!(try_create_metadata(&mut fork, &name, &set));
    db.merge(fork.into_patch()).unwrap();

    let snapshot = db.snapshot();
    assert!(is_registered(&snapshot, &name, &set));
    assert!(!check_metadata(&snapshot, &name, &map));

    // One record serves the whole family.
    let mut fork = db.fork();
    let members = IndexAddress::with_root("family");
    let first = members.append_bytes(&7u32);
    assert!(try_create_metadata(&mut fork, &first, &family_set));
    assert!(is_registered(&fork, &members.append_bytes(&8u32), &family_set));
    assert!(!check_metadata(&fork, &members.append_bytes(&8u32), &set));
}

#[test]
fn opening_an_index_on_a_written_fork_registers_its_kind() {
    let mut db = TemporaryDB::new();
    let mut fork = db.fork();
    let name = IndexAddress::with_root("name");
    let member = name.append_bytes(&1u32);
    let family_map = IndexMetadata { index_type: IndexType::ProofMap, has_parent: true };
    let map = IndexMetadata { index_type: IndexType::ProofMap, has_parent: false };
    let list = IndexMetadata { index_type: IndexType::List, has_parent: false };
    assert!(check_metadata(&fork, &name, &map));
    {
        let mut first: merkledb::proof_map_index::ProofMapIndex<_, [u8; 32], u8> =
            merkledb::proof_map_index::ProofMapIndex::new_in_family("name", &1u32, fork.writer());
        first.put(&[1; 32], 1);
    }
    // The kind is registered for the whole family, and the key has reached
    // the fork.
    assert!(is_registered(&fork, &member, &family_map));
    assert!(is_registered(&fork, &name.append_bytes(&2u32), &family_map));
    assert!(!check_metadata(&fork, &name, &map));
    assert!(!check_metadata(&fork, &name, &list));
    {
        let second: merkledb::proof_map_index::ProofMapIndex<_, [u8; 32], u8> =
            merkledb::proof_map_index::ProofMapIndex::new_in_family("name", &2u32, fork.writer());
        assert_eq!(second.get(&[1; 32]), None);
    }
    {
        let first: merkledb::proof_map_index::ProofMapIndex<_, [u8; 32], u8> =
            merkledb::proof_map_index::ProofMapIndex::new_in_family("name", &1u32, &fork);
        assert_eq!(first.get(&[1; 32]), Some(1));
    }
    db.merge(fork.into_patch()).unwrap();
    let snapshot = db.snapshot();
    assert!(is_registered(&snapshot, &member, &family_map));
    let first: merkledb::proof_map_index::ProofMapIndex<_, [u8; 32], u8> =
        merkledb::proof_map_index::ProofMapIndex::new_in_family("name", &1u32, &snapshot);
    assert_eq!(first.get(&[1; 32]), Some(1));
}

#[test]
fn a_view_on_a_written_fork_writes_through() {
    let db = TemporaryDB::new();
    let mut fork = db.fork();
    let address = IndexAddress::with_root("through");
    {
        let mut view = View::new(fork.writer(), address.append_bytes(&3u8));
        view.put(&1u8, 10u8);
        view.put(&2u8, 20u8);
        view.remove(&1u8);
        assert_eq!(view.get::<u8, u8>(&2u8), Some(20));
        assert_eq!(view.get::<u8, u8>(&1u8), None);
    }
    assert_eq!(fork.get(&address.append_bytes(&3u8), &[2]), Some(vec![20]));
    assert_eq!(fork.get(&address.append_bytes(&3u8), &[1]), None);
    {
        let mut view = View::new(fork.writer(), address.append_bytes(&3u8));
        view.clear();
    }
    assert_eq!(fork.get(&address.append_bytes(&3u8), &[2]), None);
}

#[test]
fn a_new_object_lies_under_sixteen_random_bytes() {
    let db = TemporaryDB::new();
    let fork = db.fork();
    let first: ListIndex<_, u32> = fork.create_object();
    let second: ListIndex<_, u32> = fork.create_object();
    let a = first.into_view();
    let b = second.into_view();
    assert_eq!(a.address().name(), "tmp");
    assert_eq!(a.address().bytes().map(|x| x.len()), Some(16));
    assert_ne!(a.address().bytes(), b.address().bytes());
}
