use lattice_core::meta_store::{MetaStore, MetaStoreError};
use lattice_core::proto::storage::MeshInfo;
use lattice_core::table::ByteTable;

#[test]
fn test_add_and_list_stores() {
    let mut meta = MetaStore::open();

    let id1 = *uuid::Uuid::new_v4().as_bytes();
    let id2 = *uuid::Uuid::new_v4().as_bytes();

    meta.add_store(&id1);
    meta.add_store(&id2);

    let stores = meta.list_stores();
    let store_ids: Vec<[u8; 16]> = stores.iter().map(|(id, _)| *id).collect();
    assert_eq!(store_ids.len(), 2);
    assert!(store_ids.contains(&id1));
    assert!(store_ids.contains(&id2));
}

#[test]
fn test_meshes() {
    let mut meta = MetaStore::open();

    // Initially no meshes
    assert!(meta.list_meshes().is_empty());

    let mesh1 = *uuid::Uuid::new_v4().as_bytes();
    let info1 = MeshInfo { joined_at: 1000, is_creator: true };
    meta.add_mesh(&mesh1, &info1);

    let meshes = meta.list_meshes();
    assert_eq!(meshes.len(), 1);
    assert_eq!(meshes[0].0, mesh1);
    assert!(meshes[0].1.is_creator);
}

#[test]
fn a_mesh_is_forgotten() {
    let mut meta = MetaStore::open();
    let id = [4u8; 16];
    let info = MeshInfo { joined_at: 7, is_creator: false };
    meta.add_mesh(&id, &info);
    assert_eq!(meta.get_mesh(&id), Some(info));
    assert_eq!(meta.get_mesh(&[5u8; 16]), None);
    meta.remove_mesh(&id);
    assert_eq!(meta.get_mesh(&id), None);
    assert!(meta.list_meshes().is_empty());
}

#[test]
fn stores_remember_their_mesh_and_time() {
    let mut meta = MetaStore::open();
    meta.add_store_at(&[1u8; 16], &[2u8; 16], 1234);
    let stores = meta.list_stores();
    assert_eq!(stores.len(), 1);
    assert_eq!(stores[0].0, [1u8; 16]);
    assert_eq!(stores[0].1.mesh_id, vec![2u8; 16]);
    assert_eq!(stores[0].1.created_at, 1234);
    meta.add_store_with_mesh(&[3u8; 16], &[2u8; 16]);
    assert!(meta.list_stores()[1].1.created_at > 1_735_689_600_000);
}

#[test]
fn the_name_and_the_root_store_are_kept() {
    let mut meta = MetaStore::open();
    assert_eq!(meta.name(), None);
    assert_eq!(meta.root_store(), None);
    meta.set_name("caf\u{e9}");
    meta.set_root_store(&[9u8; 16]);
    assert_eq!(meta.name(), Some("caf\u{e9}".to_string()));
    assert_eq!(meta.root_store(), Some([9u8; 16]));
    meta.set_name("other");
    assert_eq!(meta.name(), Some("other".to_string()));
    assert_eq!(meta.root_store(), Some([9u8; 16]));
}

#[test]
fn stored_tables_are_read_leniently() {
    let mut stores = ByteTable::new();
    let mut meshes = ByteTable::new();
    let mut meta_table = ByteTable::new();
    // What is no message is passed over; a key that is no identifier is listed as zeros.
    stores.insert(&[1u8; 16], vec![0xFF]);
    meshes.insert(b"short", vec![]);
    meta_table.insert(b"name", vec![b'a', 0xFF]);
    meta_table.insert(b"root_store", vec![1, 2, 3]);
    let meta = MetaStore::from_tables(stores, meshes, meta_table);
    assert!(meta.list_stores().is_empty());
    let listed = meta.list_meshes();
    assert_eq!(listed.len(), 1);
    assert_eq!(listed[0].0, [0u8; 16]);
    assert_eq!(meta.name(), Some("a\u{FFFD}".to_string()));
    assert_eq!(meta.root_store(), None);
    assert_eq!(meta.tables().0.len(), 1);
    assert_eq!(meta.tables().1.len(), 1);
    assert_eq!(meta.tables().2.len(), 2);
}

#[test]
fn errors_have_texts() {
    assert_eq!(MetaStoreError::Database("x".to_string()).to_string(), "Database error: x");
    assert_eq!(MetaStoreError::Table("x".to_string()).to_string(), "Table error: x");
    assert_eq!(MetaStoreError::Transaction("x".to_string()).to_string(), "Transaction error: x");
    assert_eq!(MetaStoreError::Commit("x".to_string()).to_string(), "Commit error: x");
    assert_eq!(MetaStoreError::Storage("x".to_string()).to_string(), "Storage error: x");
}
