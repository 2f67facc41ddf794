use bdb::codec::{decode_image, encode_image};
use bdb::order::{compare_keys, KeyOrder};
use bdb::safe::{Bdb, BdbError, List};
use bdb::TCBDB;
use bdb::{BDBOCREAT, BDBOREADER, BDBOTRUNC, BDBOWRITER, BDBTDEFLATE, BDBTLARGE};

fn drain(list: List) -> Vec<Vec<u8>> {
    let mut out = Vec::new();
    let mut it = list.into_iter();
    while let Some(e) = it.next() {
        out.push(e.as_slice().to_vec());
    }
    out
}

fn values(db: &Bdb, key: &[u8]) -> Vec<Vec<u8>> {
    drain(db.get_list(key).unwrap())
}

fn fresh() -> Bdb {
    let mut db = Bdb::new();
    db.open(BDBOWRITER | BDBOCREAT | BDBOTRUNC, None).unwrap();
    db
}

fn bytes(items: &[&str]) -> Vec<Vec<u8>> {
    items.iter().map(|s| s.as_bytes().to_vec()).collect()
}

#[test]
fn it_is_safe() {
    let mut db = Bdb::new();
    db.open(BDBOWRITER | BDBOCREAT | BDBOTRUNC, None).unwrap();
    db.put_dup("key".as_bytes(), "please".as_bytes()).unwrap();
    let mut seen = Vec::new();
    let mut it = db.get_list("key".as_bytes()).unwrap().into_iter();
    while let Some(i) = it.next() {
        println!("{:?}", String::from_utf8(i.as_slice().to_vec()).unwrap());
        seen.push(i.as_slice().to_vec());
    }
    assert_eq!(seen, bytes(&["please"]));
}

#[test]
fn example_scenario() {
    let mut db = fresh();
    db.put_dup(b"a", b"1").unwrap();
    db.put_dup(b"a", b"2").unwrap();
    db.put_dup(b"b", b"x").unwrap();
    assert_eq!(values(&db, b"a"), bytes(&["1", "2"]));
    assert_eq!(values(&db, b"b"), bytes(&["x"]));
    assert_eq!(values(&db, b"c"), Vec::<Vec<u8>>::new());
}

#[test]
fn values_come_back_in_insertion_order() {
    let mut db = fresh();
    let vs: Vec<String> = (0..40).map(|i| format!("v{}", 39 - i)).collect();
    for v in &vs {
        db.put_dup(b"k", v.as_bytes()).unwrap();
    }
    let expect: Vec<Vec<u8>> = vs.iter().map(|v| v.as_bytes().to_vec()).collect();
    assert_eq!(values(&db, b"k"), expect);
}

#[test]
fn other_keys_are_not_affected() {
    let mut db = fresh();
    db.put_dup(b"k1", b"one").unwrap();
    db.put_dup(b"k2", b"two").unwrap();
    db.put_dup(b"k0", b"zero").unwrap();
    db.put_dup(b"k1x", b"longer").unwrap();
    assert_eq!(values(&db, b"k1"), bytes(&["one"]));
}

#[test]
fn absent_key_gives_empty_list() {
    let mut db = fresh();
    assert_eq!(db.get_list(b"nothing").unwrap().len(), 0);
    db.put_dup(b"something", b"v").unwrap();
    assert_eq!(db.get_list(b"nothing").unwrap().len(), 0);
    assert_eq!(db.get_list(b"").unwrap().len(), 0);
}

#[test]
fn empty_key_and_value_are_stored() {
    let mut db = fresh();
    db.put_dup(b"", b"").unwrap();
    db.put_dup(b"", b"z").unwrap();
    assert_eq!(values(&db, b""), bytes(&["", "z"]));
}

#[test]
fn sync_then_reopen_for_reading_keeps_records() {
    let mut db = fresh();
    for i in 0..300u32 {
        let k = format!("key{:03}", (i * 7) % 300);
        db.put_dup(k.as_bytes(), format!("a{}", i).as_bytes()).unwrap();
        db.put_dup(k.as_bytes(), format!("b{}", i).as_bytes()).unwrap();
    }
    let img = db.sync().unwrap();
    let mut again = Bdb::new();
    again.open(BDBOREADER, Some(&img)).unwrap();
    for i in 0..300u32 {
        let k = format!("key{:03}", (i * 7) % 300);
        assert_eq!(values(&again, k.as_bytes()), values(&db, k.as_bytes()));
    }
    assert_eq!(values(&again, b"key000"), bytes(&["a0", "b0"]));
    assert_eq!(again.put_dup(b"x", b"y"), Err(BdbError::Access));
}

#[test]
fn close_returns_image_that_reopens() {
    let mut db = fresh();
    db.put_dup(b"a", b"1").unwrap();
    let img = db.close().unwrap();
    let mut again = Bdb::new();
    again.open(BDBOWRITER, Some(&img)).unwrap();
    again.put_dup(b"a", b"2").unwrap();
    assert_eq!(values(&again, b"a"), bytes(&["1", "2"]));
}

#[test]
fn splits_keep_every_key() {
    let mut t = TCBDB::new(4);
    for i in 0..60u32 {
        let k = format!("{:02}", (i * 37) % 60);
        t.put_dup(k.as_bytes(), b"first");
    }
    for i in 0..60u32 {
        let k = format!("{:02}", i);
        t.put_dup(k.as_bytes(), b"second");
    }
    for i in 0..60u32 {
        let k = format!("{:02}", i);
        assert_eq!(t.get(k.as_bytes()), bytes(&["first", "second"]));
    }
    assert_eq!(t.get(b"60"), Vec::<Vec<u8>>::new());
    let dumped = t.dump();
    assert_eq!(dumped.len(), 120);
    assert_eq!(dumped[0], (b"00".to_vec(), b"first".to_vec()));
    assert_eq!(dumped[1], (b"00".to_vec(), b"second".to_vec()));
    assert_eq!(dumped[119], (b"59".to_vec(), b"second".to_vec()));
}

#[test]
fn load_replays_records() {
    let ps = vec![
        (b"b".to_vec(), b"1".to_vec()),
        (b"a".to_vec(), b"2".to_vec()),
        (b"b".to_vec(), b"3".to_vec()),
    ];
    let t = TCBDB::load(2, &ps);
    assert_eq!(t.get(b"b"), bytes(&["1", "3"]));
    assert_eq!(t.get(b"a"), bytes(&["2"]));
}

#[test]
fn close_twice_then_everything_fails() {
    let mut db = fresh();
    db.put_dup(b"a", b"1").unwrap();
    assert!(db.close().is_some());
    assert!(db.close().is_none());
    assert_eq!(db.put_dup(b"a", b"2"), Err(BdbError::ClosedHandle));
    assert!(matches!(db.get_list(b"a"), Err(BdbError::ClosedHandle)));
    assert_eq!(db.sync(), Err(BdbError::ClosedHandle));
    assert_eq!(db.optimize(), Err(BdbError::ClosedHandle));
    assert_eq!(db.tune(BDBTLARGE), Err(BdbError::ClosedHandle));
    assert_eq!(db.open(BDBOREADER, None), Err(BdbError::ClosedHandle));
}

#[test]
fn unopened_handle_refuses_work() {
    let mut db = Bdb::new();
    assert_eq!(db.put_dup(b"a", b"1"), Err(BdbError::ClosedHandle));
    assert!(matches!(db.get_list(b"a"), Err(BdbError::ClosedHandle)));
    assert!(db.close().is_none());
}

#[test]
fn open_without_create_on_missing_image_fails() {
    let mut db = Bdb::new();
    assert_eq!(db.open(BDBOWRITER, None), Err(BdbError::NotFound));
    assert_eq!(db.open(BDBOREADER | BDBOCREAT, None), Err(BdbError::NotFound));
    assert_eq!(db.open(BDBOWRITER | BDBOCREAT, None), Ok(()));
}

#[test]
fn open_twice_is_refused() {
    let mut db = fresh();
    assert_eq!(db.open(BDBOWRITER | BDBOCREAT, None), Err(BdbError::Access));
}

#[test]
fn reader_cannot_write() {
    let mut w = fresh();
    w.put_dup(b"a", b"1").unwrap();
    let img = w.sync().unwrap();
    let mut r = Bdb::new();
    r.open(BDBOREADER, Some(&img)).unwrap();
    assert_eq!(r.put_dup(b"a", b"2"), Err(BdbError::Access));
    assert_eq!(r.sync(), Err(BdbError::Access));
    assert_eq!(r.optimize(), Err(BdbError::Access));
    assert_eq!(values(&r, b"a"), bytes(&["1"]));
    assert!(r.close().is_none());
}

#[test]
fn malformed_image_is_corruption() {
    let mut db = Bdb::new();
    assert_eq!(db.open(BDBOREADER, Some(&[1, 2, 3])), Err(BdbError::Corruption));
    let mut db = Bdb::new();
    let bad = [5, 0, 0, 0, 0, 0, 0, 0, b'a'];
    assert_eq!(db.open(BDBOWRITER, Some(&bad)), Err(BdbError::Corruption));
}

#[test]
fn truncate_discards_stored_records() {
    let mut w = fresh();
    w.put_dup(b"a", b"1").unwrap();
    let img = w.sync().unwrap();
    let mut db = Bdb::new();
    db.open(BDBOWRITER | BDBOTRUNC, Some(&img)).unwrap();
    assert_eq!(db.get_list(b"a").unwrap().len(), 0);
    let mut r = Bdb::new();
    r.open(BDBOREADER | BDBOTRUNC, Some(&img)).unwrap();
    assert_eq!(values(&r, b"a"), bytes(&["1"]));
}

#[test]
fn tune_only_before_open() {
    let mut db = Bdb::new();
    assert_eq!(db.tune(BDBTLARGE | BDBTDEFLATE), Ok(()));
    db.open(BDBOWRITER | BDBOCREAT, None).unwrap();
    assert_eq!(db.tune(BDBTLARGE), Err(BdbError::Access));
}

#[test]
fn optimize_keeps_store() {
    let mut db = fresh();
    for i in 0..200u32 {
        db.put_dup(format!("{}", i % 150).as_bytes(), format!("{}", i).as_bytes()).unwrap();
    }
    db.optimize().unwrap();
    assert_eq!(values(&db, b"10"), bytes(&["10", "160"]));
    assert_eq!(values(&db, b"149"), bytes(&["149"]));
    assert_eq!(values(&db, b"150"), Vec::<Vec<u8>>::new());
}

#[test]
fn image_bytes_are_exact() {
    let ps = vec![(b"a".to_vec(), b"xy".to_vec())];
    let img = encode_image(&ps);
    assert_eq!(img, vec![1, 0, 0, 0, 0, 0, 0, 0, b'a', 2, 0, 0, 0, 0, 0, 0, 0, b'x', b'y']);
    assert_eq!(decode_image(&img), Some(ps));
    assert_eq!(decode_image(&img[..img.len() - 1]), None);
    assert_eq!(decode_image(&[]), Some(Vec::new()));
    let long = vec![(vec![7u8; 300], vec![9u8; 70000])];
    let img = encode_image(&long);
    assert_eq!(&img[..8], &[44, 1, 0, 0, 0, 0, 0, 0]);
    assert_eq!(decode_image(&img), Some(long));
}

#[test]
fn keys_compare_bytewise() {
    assert_eq!(compare_keys(b"ab", b"b"), KeyOrder::Less);
    assert_eq!(compare_keys(b"a", b"ab"), KeyOrder::Less);
    assert_eq!(compare_keys(b"ab", b"a"), KeyOrder::Greater);
    assert_eq!(compare_keys(b"", b""), KeyOrder::Equal);
    assert_eq!(compare_keys(&[200], &[100, 255]), KeyOrder::Greater);
    assert_eq!(compare_keys(b"same", b"same"), KeyOrder::Equal);
}

#[test]
fn interleaved_values_keep_their_order_per_key() {
    let mut db = fresh();
    for i in 0..500u32 {
        let k = format!("k{}", i % 7);
        db.put_dup(k.as_bytes(), format!("{}", i).as_bytes()).unwrap();
    }
    for r in 0..7u32 {
        let k = format!("k{}", r);
        let expect: Vec<Vec<u8>> =
            (0..500u32).filter(|i| i % 7 == r).map(|i| format!("{}", i).into_bytes()).collect();
        assert_eq!(values(&db, k.as_bytes()), expect);
    }
}

#[test]
fn many_keys_keep_full_lists_after_splits() {
    let mut db = fresh();
    for round in 0..3u32 {
        for i in 0..400u32 {
            let k = format!("{:04}", (i * 263) % 400);
            db.put_dup(k.as_bytes(), format!("r{}", round).as_bytes()).unwrap();
        }
    }
    for i in 0..400u32 {
        let k = format!("{:04}", i);
        assert_eq!(values(&db, k.as_bytes()), bytes(&["r0", "r1", "r2"]));
    }
}
