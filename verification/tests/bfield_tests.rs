use bfield::bfield::BField;
use bfield::member::BFieldMember;

fn cascade(sizes: &[usize], k: u8, nu: u8, kappa: u8) -> BField<u32> {
    let mut members = Vec::new();
    for size in sizes {
        members.push(BFieldMember::in_memory(*size, k, nu, kappa).unwrap());
    }
    BField::from_members(members, false)
}

#[test]
fn test_cascade_insert_and_get() {
    let mut bf = cascade(&[1024, 614, 368], 3, 64, 4);
    assert!(bf.insert(b"test", 2, 0));
    assert_eq!(bf.get(b"test"), Some(2));
    assert!(bf.insert(b"test2", 106, 0));
    assert_eq!(bf.get(b"test2"), Some(106));
    assert_eq!(bf.get(b"test3"), None);
}

#[test]
fn test_cascade_insert_refuses_resolved_key() {
    let mut bf = cascade(&[1024, 614, 368], 3, 64, 4);
    assert!(bf.insert(b"test", 2, 0));
    // the key is already resolved by the primary, so a later pass
    // refuses it
    assert!(!bf.insert(b"test", 2, 1));
    assert!(!bf.insert(b"test", 7, 2));
    assert_eq!(bf.get(b"test"), Some(2));
}

#[test]
fn test_cascade_force_insert() {
    let mut bf = cascade(&[1024, 614, 368], 2, 16, 4);
    bf.force_insert(b"test", 2);
    assert_eq!(bf.get(b"test"), Some(2));
    // forcing the same value is a no-op
    bf.force_insert(b"test", 2);
    assert_eq!(bf.get(b"test"), Some(2));
    // forcing a different value masks the primary and the key falls
    // through to the next member
    bf.force_insert(b"test", 3);
    assert_eq!(bf.get(b"test"), Some(3));
}

#[test]
fn test_cascade_params() {
    let mut bf = cascade(&[1024, 614, 368], 3, 64, 4);
    assert_eq!(*bf.params(), None);
    bf.mock_params(99);
    assert_eq!(*bf.params(), Some(99));
}

#[test]
fn test_cascade_build_params_and_info() {
    let bf = cascade(&[1024, 614, 368], 3, 64, 4);
    let (k, nu, kappa, sizes) = bf.build_params();
    assert_eq!((k, nu, kappa), (3, 64, 4));
    assert_eq!(sizes, vec![1024, 614, 368]);
    assert_eq!(
        bf.info(),
        vec![(1024, 3, 64, 4), (614, 3, 64, 4), (368, 3, 64, 4)]
    );
}
