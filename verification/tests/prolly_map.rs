use dagstore::dag::read::Read;
use dagstore::dag::write::Write;
use dagstore::kv::Store;
use dagstore::prolly::leaf::Leaf;
use dagstore::prolly::map::ProllyMap;
use dagstore::prolly::Entry;

fn bv(s: &str) -> Vec<u8> {
    s.as_bytes().to_vec()
}

fn collect(m: &ProllyMap) -> Vec<(Vec<u8>, Vec<u8>)> {
    let mut out = Vec::new();
    let mut it = m.iter();
    while let Some(e) = it.next() {
        out.push((e.key, e.val));
    }
    out
}

#[test]
fn map_put_get_del() {
    let mut m = ProllyMap::new();
    m.put(bv("b"), bv("2"));
    m.put(bv("a"), bv("1"));
    assert!(m.has(&bv("a")));
    let e = m.get(&bv("a")).unwrap();
    assert_eq!(e.key, bv("a"));
    assert_eq!(e.val, bv("1"));
    m.del(bv("a"));
    assert!(!m.has(&bv("a")));
    assert!(m.get(&bv("a")).is_none());
    assert_eq!(collect(&m), vec![(bv("b"), bv("2"))]);
}

#[test]
fn map_matches_plain_dict() {
    // the same operations applied to a plain sorted dictionary
    let mut m = ProllyMap::new();
    m.put(bv("c"), bv("3"));
    m.put(bv("a"), bv("1"));
    m.put(bv("b"), bv("2"));
    m.del(bv("b"));
    m.put(bv("a"), bv("9"));
    m.del(bv("zz"));
    assert_eq!(collect(&m), vec![(bv("a"), bv("9")), (bv("c"), bv("3"))]);
}

#[test]
fn merge_with_base() {
    let base_entries = vec![
        Entry { key: bv("a"), val: bv("1") },
        Entry { key: bv("b"), val: bv("2") },
        Entry { key: bv("c"), val: bv("3") },
    ];
    let leaf = Leaf::new(&base_entries);
    let mut m = ProllyMap::with_base(Some(leaf));
    m.put(bv("b"), bv("9"));
    m.del(bv("c"));
    m.put(bv("d"), bv("4"));
    assert_eq!(
        collect(&m),
        vec![(bv("a"), bv("1")), (bv("b"), bv("9")), (bv("d"), bv("4"))],
    );
    assert_eq!(m.get(&bv("b")).unwrap().val, bv("9"));
    assert!(!m.has(&bv("c")));
}

#[test]
fn flush_roundtrip() {
    let store = Store::new();
    let mut w = Write::new(store.begin());
    let mut m = ProllyMap::new();
    m.put(bv("k1"), bv("v1"));
    m.put(bv("k0"), bv("v0"));
    m.del(bv("gone"));
    let before = collect(&m);

    let h = m.flush(&mut w).unwrap();
    w.set_head(&bv("main"), Some(&h)).unwrap();
    // the flushed map reads back unchanged
    assert_eq!(collect(&m), before);
    let store = w.commit().unwrap();

    // read the leaf chunk back and build a fresh map over the same base
    let r = Read::of_store(&store);
    let c = r.get_chunk(&h).unwrap().unwrap();
    let leaf = Leaf::from_chunk(c);
    let m2 = ProllyMap::with_base(Some(leaf));
    assert_eq!(collect(&m2), before);
    assert_eq!(before, vec![(bv("k0"), bv("v0")), (bv("k1"), bv("v1"))]);

    // flushing the unchanged map again yields the same chunk hash
    let mut w2 = Write::new(store.begin());
    let mut m2 = m2;
    let h2 = m2.flush(&mut w2).unwrap();
    assert_eq!(h, h2);
}

#[test]
fn leaf_iter_empty_and_order() {
    assert!(Leaf::iter(None).is_empty());
    let entries = vec![
        Entry { key: bv("x"), val: bv("1") },
        Entry { key: bv("y"), val: bv("2") },
    ];
    let leaf = Leaf::new(&entries);
    let back = Leaf::iter(Some(&leaf));
    assert_eq!(back.len(), 2);
    assert_eq!(back[0].key, bv("x"));
    assert_eq!(back[0].val, bv("1"));
    assert_eq!(back[1].key, bv("y"));
    assert_eq!(back[1].val, bv("2"));
}
