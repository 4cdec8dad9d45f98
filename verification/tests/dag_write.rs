use dagstore::codec::decode_meta_record;
use dagstore::dag::chunk::Chunk;
use dagstore::dag::key::Key;
use dagstore::dag::read::Read;
use dagstore::dag::write::Write;
use dagstore::kv::Store;

fn bv(s: &str) -> Vec<u8> {
    s.as_bytes().to_vec()
}

fn ref_count(store: &Store, hash: &str) -> u16 {
    match store.get(&Key::ChunkMeta(bv(hash)).encode()) {
        None => 0,
        Some(buf) => decode_meta_record(&buf).unwrap().1,
    }
}

#[test]
fn put_chunk() {
    fn test(data: Vec<u8>, refs: Vec<Vec<u8>>) {
        let store = Store::new();
        let kvw = store.begin();
        let mut w = Write::new(kvw);

        let c = Chunk::new(data.clone(), refs.clone());
        w.put_chunk(&c).unwrap();

        let kd = Key::ChunkData(c.hash().clone()).encode();
        let km = Key::ChunkMeta(c.hash().clone()).encode();

        // The chunk data should always be there.
        assert_eq!(w.get_raw(&kd).unwrap(), data);

        // The chunk meta should only be there if there were refs.
        if refs.is_empty() {
            assert!(w.get_raw(&km).is_none());
        } else {
            assert_eq!(w.get_raw(&km).unwrap(), c.meta().unwrap());
        }
    }

    test(vec![], vec![]);
    test(vec![0], vec![bv("r1")]);
    test(vec![0, 1], vec![bv("r1"), bv("r2")]);
}

#[test]
fn set_head() {
    fn step(store: Store, name: &str, hash: Option<&str>) -> Store {
        let mut w = Write::new(store.begin());
        let hv = hash.map(bv);
        w.set_head(&bv(name), hv.as_ref()).unwrap();
        let head_key = bv(&format!("h/{}", name));
        match hash {
            Some(h) => assert_eq!(w.get_raw(&head_key).unwrap(), bv(h)),
            None => assert!(w.get_raw(&head_key).is_none()),
        }
        w.commit().unwrap()
    }

    let mut store = Store::new();

    store = step(store, "", Some(""));
    assert_eq!(ref_count(&store, ""), 1);

    store = step(store, "", Some("h1"));
    assert_eq!(ref_count(&store, "h1"), 1);
    assert_eq!(ref_count(&store, ""), 0);

    store = step(store, "n1", Some(""));
    assert_eq!(ref_count(&store, ""), 1);

    store = step(store, "n1", Some("h1"));
    assert_eq!(ref_count(&store, "h1"), 2);
    assert_eq!(ref_count(&store, ""), 0);

    store = step(store, "n1", Some("h1"));
    assert_eq!(ref_count(&store, "h1"), 2);
    assert_eq!(ref_count(&store, ""), 0);

    store = step(store, "n1", None);
    assert_eq!(ref_count(&store, "h1"), 1);
    assert_eq!(ref_count(&store, ""), 0);

    store = step(store, "", None);
    assert_eq!(ref_count(&store, "h1"), 0);
    assert_eq!(ref_count(&store, ""), 0);
    // both meta records are gone, not just zeroed
    assert!(store.get(&Key::ChunkMeta(bv("h1")).encode()).is_none());
    assert!(store.get(&Key::ChunkMeta(bv("")).encode()).is_none());
}

#[test]
fn commit_rollback() {
    fn test(commit: bool, set_head: bool) {
        let store = Store::new();
        let mut w = Write::new(store.begin());
        let c = Chunk::new(vec![0, 1], vec![]);
        w.put_chunk(&c).unwrap();

        let key = Key::ChunkData(c.hash().clone()).encode();

        // The changes should be present inside the tx.
        assert!(w.get_raw(&key).is_some());

        let store = if commit {
            if set_head {
                w.set_head(&bv("test"), Some(&c.hash().clone())).unwrap();
            }
            w.commit().unwrap()
        } else {
            w.rollback()
        };

        // The data should only persist if we set the head and commit.
        assert_eq!(set_head && commit, store.get(&key).is_some());
    }

    test(true, false);
    test(false, false);
    test(true, true);
}

#[test]
fn roundtrip() {
    fn test(name: &str, data: Vec<u8>, refs: Vec<Vec<u8>>) {
        let store = Store::new();
        let c = Chunk::new(data.clone(), refs.clone());
        let mut w = Write::new(store.begin());
        w.put_chunk(&c).unwrap();
        w.set_head(&bv(name), Some(&c.hash().clone())).unwrap();

        // Read the changes inside the tx.
        let c2 = w.read().get_chunk(c.hash()).unwrap().unwrap();
        let h = w.read().get_head(&bv(name)).unwrap();
        assert_eq!(c, c2);
        assert_eq!(h, c.hash().clone());

        let store = w.commit().unwrap();

        // Read the changes outside the tx.
        let r = Read::of_store(&store);
        let c3 = r.get_chunk(c.hash()).unwrap().unwrap();
        let h2 = r.get_head(&bv(name)).unwrap();
        let c_expected = Chunk::new(data, refs);
        assert_eq!(c_expected, c3);
        assert_eq!(h2, c.hash().clone());

        // The committed chunk is pinned by the head: its count is one.
        assert_eq!(decode_meta_record(&store.get(&Key::ChunkMeta(c.hash().clone()).encode()).unwrap()).unwrap().1, 1);
    }

    test("", vec![], vec![]);
    test("n1", vec![0], vec![bv("r1")]);
    test("n2", vec![0, 1], vec![bv("r1"), bv("r2")]);
}

#[test]
fn put_chunk_preserves_refcount() {
    let store = Store::new();
    let c = Chunk::new(vec![1, 2, 3], vec![bv("r1")]);
    let mut w = Write::new(store.begin());
    w.put_chunk(&c).unwrap();
    w.set_head(&bv("main"), Some(&c.hash().clone())).unwrap();
    let store = w.commit().unwrap();

    let mut w2 = Write::new(store.begin());
    assert_eq!(w2.get_ref_count(c.hash()).unwrap(), 1);
    // re-putting an already referenced chunk keeps its live count
    w2.put_chunk(&c).unwrap();
    assert_eq!(w2.get_ref_count(c.hash()).unwrap(), 1);
    let store = w2.commit().unwrap();
    assert_eq!(ref_count(&store, "r1"), 1);
    let r = Read::of_store(&store);
    assert!(r.has_chunk(c.hash()));
}

#[test]
fn cascade_into_references() {
    // a parent chunk referencing a child: pinning the parent pins the child
    let store = Store::new();
    let child = Chunk::new(bv("child-data"), vec![]);
    let parent = Chunk::new(bv("parent-data"), vec![child.hash().clone()]);
    let mut w = Write::new(store.begin());
    w.put_chunk(&child).unwrap();
    w.put_chunk(&parent).unwrap();
    w.set_head(&bv("root"), Some(&parent.hash().clone())).unwrap();
    let store = w.commit().unwrap();

    let r = Read::of_store(&store);
    assert!(r.has_chunk(parent.hash()));
    assert!(r.has_chunk(child.hash()));

    // dropping the head reaps parent and child alike
    let mut w2 = Write::new(store.begin());
    w2.set_head(&bv("root"), None).unwrap();
    let store = w2.commit().unwrap();
    let r2 = Read::of_store(&store);
    assert!(!r2.has_chunk(parent.hash()));
    assert!(!r2.has_chunk(child.hash()));
}

#[test]
fn same_state_same_chunk_keys() {
    // two transactions reaching the same final heads and chunks persist
    // the same chunk-data keys, whatever the order of their operations
    let c = Chunk::new(vec![7, 8], vec![]);
    let keep = Chunk::new(vec![9], vec![]);
    let orphan = Chunk::new(vec![4, 2], vec![]);

    let mut w1 = Write::new(Store::new().begin());
    w1.put_chunk(&c).unwrap();
    w1.put_chunk(&orphan).unwrap();
    w1.put_chunk(&keep).unwrap();
    w1.set_head(&bv("a"), Some(&c.hash().clone())).unwrap();
    w1.set_head(&bv("b"), Some(&keep.hash().clone())).unwrap();
    let s1 = w1.commit().unwrap();

    let mut w2 = Write::new(Store::new().begin());
    w2.set_head(&bv("b"), Some(&keep.hash().clone())).unwrap();
    w2.put_chunk(&keep).unwrap();
    w2.set_head(&bv("a"), Some(&orphan.hash().clone())).unwrap();
    w2.set_head(&bv("a"), Some(&c.hash().clone())).unwrap();
    w2.put_chunk(&c).unwrap();
    let s2 = w2.commit().unwrap();

    for h in [c.hash(), keep.hash(), orphan.hash()] {
        let key = Key::ChunkData(h.clone()).encode();
        assert_eq!(s1.get(&key), s2.get(&key));
    }
    assert!(s1.get(&Key::ChunkData(c.hash().clone()).encode()).is_some());
    assert!(s1.get(&Key::ChunkData(orphan.hash().clone()).encode()).is_none());
}

#[test]
fn corrupt_meta_surfaces() {
    let store = Store::new();
    let mut tx = store.begin();
    // plant an undecodable metadata record by hand
    tx.put(Key::ChunkMeta(bv("x")).encode(), vec![1]);
    tx.put(Key::ChunkData(bv("x")).encode(), vec![9]);
    let w = Write::new(tx);
    assert_eq!(w.get_ref_count(&bv("x")), Err(dagstore::dag::Error::CorruptMetadata));
    assert!(w.read().get_chunk(&bv("x")).is_err());
}
