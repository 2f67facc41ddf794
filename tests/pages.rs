use bdb::pages::{PageError, PageStore};

#[test]
fn allocation_extends_then_reuses_freed_pages() {
    let mut ps = PageStore::new();
    assert_eq!(ps.allocate(), 0);
    assert_eq!(ps.allocate(), 1);
    assert_eq!(ps.allocate(), 2);
    assert_eq!(ps.free(1), Ok(()));
    assert_eq!(ps.allocate(), 1);
    assert_eq!(ps.allocate(), 3);
}

#[test]
fn written_pages_read_back() {
    let mut ps = PageStore::new();
    let a = ps.allocate();
    let b = ps.allocate();
    assert_eq!(ps.read(a), Ok(Vec::new()));
    ps.write(a, b"alpha").unwrap();
    ps.write(b, b"beta").unwrap();
    ps.write(a, b"again").unwrap();
    assert_eq!(ps.read(a), Ok(b"again".to_vec()));
    assert_eq!(ps.read(b), Ok(b"beta".to_vec()));
}

#[test]
fn freed_or_unknown_pages_are_corruption() {
    let mut ps = PageStore::new();
    let a = ps.allocate();
    ps.write(a, b"x").unwrap();
    assert_eq!(ps.free(a), Ok(()));
    assert_eq!(ps.read(a), Err(PageError::Corruption));
    assert_eq!(ps.write(a, b"y"), Err(PageError::Corruption));
    assert_eq!(ps.free(a), Err(PageError::Corruption));
    assert_eq!(ps.read(7), Err(PageError::Corruption));
    assert_eq!(ps.write(7, b"z"), Err(PageError::Corruption));
    let again = ps.allocate();
    assert_eq!(again, a);
    assert_eq!(ps.read(again), Ok(Vec::new()));
}
