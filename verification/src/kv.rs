use vstd::prelude::*;
use crate::bytes::{bytes_clone, bytes_eq};

verus! {

/// The map denoted by a log of upserts (`Some`) and deletes (`None`):
/// later records win.
pub open spec fn log_map(s: Seq<(Seq<u8>, Option<Seq<u8>>)>) -> Map<Seq<u8>, Seq<u8>>
    decreases s.len(),
{
    if s.len() == 0 {
        Map::empty()
    } else {
        let m = log_map(s.drop_last());
        match s.last().1 {
            Some(v) => m.insert(s.last().0, v),
            None => m.remove(s.last().0),
        }
    }
}

/// A record log always denotes a map over finitely many keys.
pub proof fn lemma_log_map_finite(s: Seq<(Seq<u8>, Option<Seq<u8>>)>)
    ensures
        log_map(s).dom().finite(),
    decreases s.len(),
{
    if s.len() > 0 {
        lemma_log_map_finite(s.drop_last());
    }
}

/// Looks a key up in a record log, scanning from the newest record.
fn log_get(log: &Vec<(Vec<u8>, Option<Vec<u8>>)>, key: &Vec<u8>) -> (r: Option<Vec<u8>>)
    ensures
        r is Some <==> log_map(log.deep_view()).contains_key(key@),
        r matches Some(v) ==> log_map(log.deep_view())[key@] == v@,
{
    let mut i: usize = log.len();
    proof {
        assert(log.deep_view().take(log.len() as int) =~= log.deep_view());
    }
    while i > 0
        invariant
            0 <= i <= log.len(),
            log_map(log.deep_view()).contains_key(key@) == log_map(
                log.deep_view().take(i as int),
            ).contains_key(key@),
            log_map(log.deep_view()).contains_key(key@) ==> log_map(log.deep_view())[key@]
                == log_map(log.deep_view().take(i as int))[key@],
        decreases i,
    {
        let j = i - 1;
        proof {
            let dv = log.deep_view();
            assert(dv.take(j + 1).drop_last() =~= dv.take(j as int));
            assert(dv.take(j + 1).last() == dv[j as int]);
            assert(dv[j as int] == (log@[j as int].0@, log@[j as int].1.deep_view()));
        }
        if bytes_eq(&log[j].0, key) {
            match &log[j].1 {
                Some(v) => {
                    let r = bytes_clone(v);
                    return Some(r);
                },
                None => {
                    return None;
                },
            }
        }
        i = j;
    }
    proof {
        assert(log.deep_view().take(0) =~= Seq::<(Seq<u8>, Option<Seq<u8>>)>::empty());
    }
    None
}

/// An in-memory key/value store: the committed state of the backend.
/// It is kept as an append-only record log; the map it denotes is `self@`.
pub struct Store {
    log: Vec<(Vec<u8>, Option<Vec<u8>>)>,
}

impl View for Store {
    type V = Map<Seq<u8>, Seq<u8>>;

    closed spec fn view(&self) -> Map<Seq<u8>, Seq<u8>> {
        log_map(self.log.deep_view())
    }
}

impl Store {
    /// The store holds finitely many keys.
    pub proof fn lemma_view_finite(&self)
        ensures
            self@.dom().finite(),
    {
        lemma_log_map_finite(self.log.deep_view());
    }

    /// An empty store.
    pub fn new() -> (r: Store)
        ensures
            r@ == Map::<Seq<u8>, Seq<u8>>::empty(),
    {
        Store { log: Vec::new() }
    }

    /// Snapshot read of a key.
    pub fn get(&self, key: &Vec<u8>) -> (r: Option<Vec<u8>>)
        ensures
            r is Some <==> self@.contains_key(key@),
            r matches Some(v) ==> self@[key@] == v@,
    {
        log_get(&self.log, key)
    }

    /// Whether a key is present.
    pub fn has(&self, key: &Vec<u8>) -> (r: bool)
        ensures
            r == self@.contains_key(key@),
    {
        self.get(key).is_some()
    }

    /// Opens a write transaction that owns the store until it is committed
    /// or rolled back.
    pub fn begin(self) -> (w: WriteTx)
        ensures
            w@ == self@,
            w.base_view() == self@,
            w.wf(),
    {
        let marker = self.log.len();
        let w = WriteTx { log: self.log, base: marker };
        proof {
            assert(w.log.deep_view().take(marker as int) =~= w.log.deep_view());
        }
        w
    }
}

/// A write transaction over a `Store`: uncommitted records are appended
/// past the `base` marker, so rollback is a truncation.
pub struct WriteTx {
    log: Vec<(Vec<u8>, Option<Vec<u8>>)>,
    base: usize,
}

impl View for WriteTx {
    type V = Map<Seq<u8>, Seq<u8>>;

    closed spec fn view(&self) -> Map<Seq<u8>, Seq<u8>> {
        log_map(self.log.deep_view())
    }
}

impl WriteTx {
    pub closed spec fn base_view(&self) -> Map<Seq<u8>, Seq<u8>> {
        log_map(self.log.deep_view().take(self.base as int))
    }

    pub closed spec fn wf(&self) -> bool {
        self.base <= self.log.len()
    }

    /// Upserts a key.
    pub fn put(&mut self, key: Vec<u8>, val: Vec<u8>)
        requires
            old(self).wf(),
        ensures
            final(self).wf(),
            final(self)@ == old(self)@.insert(key@, val@),
            final(self).base_view() == old(self).base_view(),
    {
        let ghost k = key@;
        let ghost v = val@;
        self.log.push((key, Some(val)));
        proof {
            let dv = self.log.deep_view();
            assert(dv.drop_last() =~= old(self).log.deep_view());
            assert(dv.last() == (k, Some(v)));
            assert(dv.take(self.base as int) =~= old(self).log.deep_view().take(
                self.base as int,
            ));
        }
    }

    /// Deletes a key (idempotent).
    pub fn del(&mut self, key: Vec<u8>)
        requires
            old(self).wf(),
        ensures
            final(self).wf(),
            final(self)@ == old(self)@.remove(key@),
            final(self).base_view() == old(self).base_view(),
    {
        let ghost k = key@;
        self.log.push((key, None));
        proof {
            let dv = self.log.deep_view();
            assert(dv.drop_last() =~= old(self).log.deep_view());
            assert(dv.last() == (k, None::<Seq<u8>>));
            assert(dv.take(self.base as int) =~= old(self).log.deep_view().take(
                self.base as int,
            ));
        }
    }

    /// Reads a key, observing the transaction's own uncommitted writes.
    pub fn get(&self, key: &Vec<u8>) -> (r: Option<Vec<u8>>)
        ensures
            r is Some <==> self@.contains_key(key@),
            r matches Some(v) ==> self@[key@] == v@,
    {
        log_get(&self.log, key)
    }

    /// Whether a key is present in the transaction's view.
    pub fn has(&self, key: &Vec<u8>) -> (r: bool)
        ensures
            r == self@.contains_key(key@),
    {
        self.get(key).is_some()
    }

    /// Persists the transaction's writes.
    pub fn commit(self) -> (r: Store)
        ensures
            r@ == self@,
    {
        Store { log: self.log }
    }

    /// Discards the transaction's writes, returning the store as it was
    /// when the transaction began.
    pub fn rollback(self) -> (r: Store)
        requires
            self.wf(),
        ensures
            r@ == self.base_view(),
    {
        let mut log = self.log;
        let ghost pre = log.deep_view();
        log.truncate(self.base);
        proof {
            assert(log.deep_view() =~= pre.take(self.base as int));
        }
        Store { log }
    }
}

} // verus!
