use dagstore::codec::{create_meta_record, decode_meta_record};
use dagstore::dag::chunk::Chunk;
use dagstore::dag::key::Key;
use dagstore::kv::Store;

fn bv(s: &str) -> Vec<u8> {
    s.as_bytes().to_vec()
}

#[test]
fn meta_record_roundtrip() {
    let refs = vec![bv("r1"), bv("longer-reference")];
    let buf = create_meta_record(&refs, 7).unwrap();
    let (refs2, count2) = decode_meta_record(&buf).unwrap();
    assert_eq!(refs2, refs);
    assert_eq!(count2, 7);

    // absent exactly when there are no references and the count is zero
    assert!(create_meta_record(&Vec::new(), 0).is_none());
    let buf2 = create_meta_record(&Vec::new(), 3).unwrap();
    let (refs3, count3) = decode_meta_record(&buf2).unwrap();
    assert!(refs3.is_empty());
    assert_eq!(count3, 3);
}

#[test]
fn meta_record_rejects_malformed() {
    assert!(decode_meta_record(&vec![1u8]).is_none());
    assert!(decode_meta_record(&vec![0u8, 1, 2]).is_none());
    // a length prefix pointing past the end of the record
    let mut buf = create_meta_record(&vec![bv("r1")], 1).unwrap();
    buf.truncate(buf.len() - 1);
    assert!(decode_meta_record(&buf).is_none());
}

#[test]
fn head_key_format() {
    assert_eq!(Key::Head(bv("main")).encode(), bv("h/main"));
    assert_eq!(Key::Head(bv("")).encode(), bv("h/"));
    // the three key kinds never collide
    let d = Key::ChunkData(bv("z")).encode();
    let m = Key::ChunkMeta(bv("z")).encode();
    let h = Key::Head(bv("z")).encode();
    assert_ne!(d, m);
    assert_ne!(d, h);
    assert_ne!(m, h);
}

#[test]
fn chunk_hash_deterministic() {
    let a = Chunk::new(bv("data"), vec![bv("r1")]);
    let b = Chunk::new(bv("data"), vec![bv("r1")]);
    let c = Chunk::new(bv("data"), vec![bv("r2")]);
    assert_eq!(a.hash(), b.hash());
    assert_ne!(a.hash(), c.hash());
    assert_eq!(a, b);
}

#[test]
fn kv_store_basics() {
    let store = Store::new();
    let mut tx = store.begin();
    tx.put(bv("k"), bv("v"));
    assert_eq!(tx.get(&bv("k")).unwrap(), bv("v"));
    assert!(tx.has(&bv("k")));
    tx.put(bv("k"), bv("w"));
    assert_eq!(tx.get(&bv("k")).unwrap(), bv("w"));
    tx.del(bv("k"));
    assert!(!tx.has(&bv("k")));
    tx.put(bv("k2"), bv("v2"));
    let store = tx.commit();
    assert_eq!(store.get(&bv("k2")).unwrap(), bv("v2"));
    assert!(store.get(&bv("k")).is_none());

    // a rolled back transaction leaves the store as it was
    let mut tx2 = store.begin();
    tx2.put(bv("k3"), bv("v3"));
    tx2.del(bv("k2"));
    let store = tx2.rollback();
    assert_eq!(store.get(&bv("k2")).unwrap(), bv("v2"));
    assert!(store.get(&bv("k3")).is_none());
}
