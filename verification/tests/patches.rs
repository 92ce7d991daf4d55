use lattice_core::store::backend::{RedbBackend, DATA_TABLE};
use lattice_core::store::interfaces::{OpError, Patch, ReadContext, StateBackend};
use lattice_core::store::kv_patch::KvPatch;

#[test]
fn a_patch_is_applied_and_read_back() {
    let mut backend = RedbBackend::new();
    let mut patch = KvPatch::default();
    patch.put(DATA_TABLE, b"/a".to_vec(), b"1".to_vec());
    patch.put(DATA_TABLE, b"/b".to_vec(), b"2".to_vec());
    patch.put("other", b"/c".to_vec(), b"3".to_vec());
    backend.apply_patch(patch).unwrap();
    assert_eq!(backend.get(b"/a").unwrap(), Some(b"1".to_vec()));
    assert_eq!(backend.get(b"/c").unwrap(), None);
    assert_eq!(backend.table().len(), 2);

    let mut patch = KvPatch::default();
    patch.delete(DATA_TABLE, b"/a".to_vec());
    patch.put(DATA_TABLE, b"/bb".to_vec(), b"4".to_vec());
    backend.apply_patch(patch).unwrap();
    assert_eq!(backend.get(b"/a").unwrap(), None);
    assert_eq!(
        backend.scan(b"/b").unwrap(),
        vec![(b"/b".to_vec(), b"2".to_vec()), (b"/bb".to_vec(), b"4".to_vec())]
    );
    assert_eq!(backend.scan(b"/x").unwrap(), vec![]);
}

#[test]
fn deletions_come_after_puts() {
    let mut backend = RedbBackend::new();
    let mut patch = KvPatch::default();
    patch.delete(DATA_TABLE, b"/a".to_vec());
    patch.put(DATA_TABLE, b"/a".to_vec(), b"1".to_vec());
    backend.apply_patch(patch).unwrap();
    assert_eq!(backend.get(b"/a").unwrap(), None);
}

#[test]
fn patches_are_combined_in_order() {
    let mut one = KvPatch::default();
    one.put("t", b"k".to_vec(), b"1".to_vec());
    let mut two = KvPatch::default();
    two.put("t", b"k".to_vec(), b"2".to_vec());
    two.delete("u", b"x".to_vec());
    one.combine(two);
    let ops = one.ops("t").unwrap();
    assert_eq!(ops.puts, vec![(b"k".to_vec(), b"1".to_vec()), (b"k".to_vec(), b"2".to_vec())]);
    assert_eq!(one.ops("u").unwrap().deletes, vec![b"x".to_vec()]);
    assert!(one.ops("v").is_none());

    // A patch without changes changes nothing.
    one.combine_with(KvPatch::empty_patch());
    assert_eq!(one.ops("t").unwrap().puts.len(), 2);
}

#[test]
fn operation_errors_have_texts() {
    assert_eq!(OpError::Invalid("no".to_string()).to_string(), "Invalid operation: no");
}
