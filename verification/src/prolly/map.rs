use vstd::prelude::*;
use crate::bytes::{
    bytes_clone, bytes_cmp, bytes_eq, lemma_lex_asymmetric, lemma_lex_transitive, lex_lt,
    ByteOrder,
};
use crate::dag;
use crate::dag::chunk::hash_of;
use crate::dag::key::data_key;
use super::leaf::{enc_entries, Leaf};
use super::{entries_view, Entry, Error};

verus! {

/// The dictionary a pending-mutation sequence denotes: later records win;
/// `Some` is an insertion, `None` a tombstone.
pub open spec fn pm_of(s: Seq<(Seq<u8>, Option<Seq<u8>>)>) -> Map<Seq<u8>, Option<Seq<u8>>>
    decreases s.len(),
{
    if s.len() == 0 {
        Map::empty()
    } else {
        pm_of(s.drop_last()).insert(s.last().0, s.last().1)
    }
}

/// Keys strictly increasing in lexicographic order.
pub open spec fn sorted_keys(s: Seq<(Seq<u8>, Option<Seq<u8>>)>) -> bool {
    forall|i: int, j: int| 0 <= i < j < s.len() ==> #[trigger] lex_lt(s[i].0, s[j].0)
}

/// The merged output of a base-entry sequence and a pending-mutation
/// sequence: a pending record for a key overrides every base entry with that
/// key (a tombstone suppresses it); otherwise entries pass through, smaller
/// keys first.
pub open spec fn merge_seq(
    base: Seq<(Seq<u8>, Seq<u8>)>,
    pend: Seq<(Seq<u8>, Option<Seq<u8>>)>,
) -> Seq<(Seq<u8>, Seq<u8>)>
    decreases base.len() + pend.len(),
{
    if pend.len() == 0 {
        base
    } else if base.len() == 0 {
        match pend[0].1 {
            Some(v) => seq![(pend[0].0, v)] + merge_seq(base, pend.drop_first()),
            None => merge_seq(base, pend.drop_first()),
        }
    } else if lex_lt(pend[0].0, base[0].0) {
        match pend[0].1 {
            Some(v) => seq![(pend[0].0, v)] + merge_seq(base, pend.drop_first()),
            None => merge_seq(base, pend.drop_first()),
        }
    } else if lex_lt(base[0].0, pend[0].0) {
        seq![base[0]] + merge_seq(base.drop_first(), pend)
    } else {
        // equal keys: the pending record supersedes the base entry
        match pend[0].1 {
            Some(v) => seq![(pend[0].0, v)] + merge_seq(base.drop_first(), pend.drop_first()),
            None => merge_seq(base.drop_first(), pend.drop_first()),
        }
    }
}

/// The first value recorded for `k` in an entry sequence.
pub open spec fn lookup(es: Seq<(Seq<u8>, Seq<u8>)>, k: Seq<u8>) -> Option<Seq<u8>>
    decreases es.len(),
{
    if es.len() == 0 {
        None
    } else if es[0].0 == k {
        Some(es[0].1)
    } else {
        lookup(es.drop_first(), k)
    }
}

/// Rewriting the value at index `i` of a distinct-key record sequence is an
/// insertion into the dictionary it denotes.
proof fn lemma_pm_update(s: Seq<(Seq<u8>, Option<Seq<u8>>)>, i: int, v: Option<Seq<u8>>)
    requires
        0 <= i < s.len(),
        forall|a: int, b: int| 0 <= a < b < s.len() ==> (#[trigger] s[a]).0 != (#[trigger] s[b]).0,
    ensures
        pm_of(s.update(i, (s[i].0, v))) == pm_of(s).insert(s[i].0, v),
    decreases s.len(),
{
    let t = s.update(i, (s[i].0, v));
    if i == s.len() - 1 {
        assert(t.drop_last() =~= s.drop_last());
        assert(t.last() == (s[i].0, v));
        assert(pm_of(t) =~= pm_of(s).insert(s[i].0, v));
    } else {
        assert(t.drop_last() =~= s.drop_last().update(i, (s[i].0, v)));
        assert(s.drop_last()[i] == s[i]);
        lemma_pm_update(s.drop_last(), i, v);
        assert(t.last() == s.last());
        assert(s[i].0 != s.last().0);
        assert(pm_of(t) =~= pm_of(s).insert(s[i].0, v));
    }
}

/// Inserting a record with a fresh key anywhere in a record sequence is an
/// insertion into the dictionary it denotes.
proof fn lemma_pm_insert(s: Seq<(Seq<u8>, Option<Seq<u8>>)>, i: int, k: Seq<u8>, v: Option<Seq<u8>>)
    requires
        0 <= i <= s.len(),
        forall|j: int| 0 <= j < s.len() ==> (#[trigger] s[j]).0 != k,
    ensures
        pm_of(s.insert(i, (k, v))) == pm_of(s).insert(k, v),
    decreases s.len(),
{
    let t = s.insert(i, (k, v));
    if i == s.len() {
        assert(t =~= s.push((k, v)));
        assert(s.push((k, v)).drop_last() =~= s);
        assert(pm_of(t) =~= pm_of(s).insert(k, v));
    } else {
        assert(t.drop_last() =~= s.drop_last().insert(i, (k, v)));
        lemma_pm_insert(s.drop_last(), i, k, v);
        assert(t.last() == s.last());
        assert(s.last().0 != k);
        assert(pm_of(t) =~= pm_of(s).insert(k, v));
    }
}

/// Every key of the denoted dictionary is the key of some record.
proof fn lemma_pm_keys(s: Seq<(Seq<u8>, Option<Seq<u8>>)>, k: Seq<u8>)
    requires
        pm_of(s).contains_key(k),
    ensures
        exists|j: int| 0 <= j < s.len() && (#[trigger] s[j]).0 == k,
    decreases s.len(),
{
    if s.last().0 == k {
        assert(s[s.len() - 1].0 == k);
    } else {
        lemma_pm_keys(s.drop_last(), k);
        let j = choose|j: int| 0 <= j < s.drop_last().len() && (#[trigger] s.drop_last()[j]).0
            == k;
        assert(s[j].0 == k);
    }
}

/// With distinct keys the dictionary can also be peeled from the front.
proof fn lemma_pm_of_head(s: Seq<(Seq<u8>, Option<Seq<u8>>)>)
    requires
        s.len() > 0,
        forall|a: int, b: int| 0 <= a < b < s.len() ==> (#[trigger] s[a]).0 != (#[trigger] s[b]).0,
    ensures
        pm_of(s) == pm_of(s.drop_first()).insert(s[0].0, s[0].1),
    decreases s.len(),
{
    if s.len() == 1 {
        assert(s.drop_first() =~= s.drop_last());
        assert(pm_of(s) =~= pm_of(s.drop_first()).insert(s[0].0, s[0].1));
    } else {
        let d = s.drop_last();
        assert forall|a: int, b: int| 0 <= a < b < d.len() implies (#[trigger] d[a]).0 != (
        #[trigger] d[b]).0 by {
            assert(d[a] == s[a] && d[b] == s[b]);
        }
        lemma_pm_of_head(d);
        assert(d.drop_first() =~= s.drop_first().drop_last());
        assert(d[0] == s[0]);
        assert(s.drop_first().last() == s.last());
        assert(s[0].0 != s.last().0);
        assert(pm_of(s) =~= pm_of(s.drop_first()).insert(s[0].0, s[0].1));
    }
}

/// The merge of an empty base with a sorted pending sequence yields exactly
/// the live (non-tombstone) bindings of the dictionary the pending sequence
/// denotes, in strictly ascending key order.
proof fn lemma_merge_pending_dict(p: Seq<(Seq<u8>, Option<Seq<u8>>)>)
    requires
        sorted_keys(p),
    ensures
        forall|i: int|
            0 <= i < merge_seq(Seq::<(Seq<u8>, Seq<u8>)>::empty(), p).len() ==> pm_of(
                p,
            ).contains_key((#[trigger] merge_seq(Seq::<(Seq<u8>, Seq<u8>)>::empty(), p)[i]).0)
                && pm_of(p)[merge_seq(Seq::<(Seq<u8>, Seq<u8>)>::empty(), p)[i].0] == Some(
                merge_seq(Seq::<(Seq<u8>, Seq<u8>)>::empty(), p)[i].1,
            ),
        forall|k: Seq<u8>|
            pm_of(p).contains_key(k) && (#[trigger] pm_of(p)[k]) is Some ==> exists|i: int|
                0 <= i < merge_seq(Seq::<(Seq<u8>, Seq<u8>)>::empty(), p).len()
                    && #[trigger] merge_seq(Seq::<(Seq<u8>, Seq<u8>)>::empty(), p)[i] == (
                k,
                pm_of(p)[k]->0,
                ),
        forall|i: int, j: int|
            0 <= i < j < merge_seq(Seq::<(Seq<u8>, Seq<u8>)>::empty(), p).len() ==> lex_lt(
                (#[trigger] merge_seq(Seq::<(Seq<u8>, Seq<u8>)>::empty(), p)[i]).0,
                (#[trigger] merge_seq(Seq::<(Seq<u8>, Seq<u8>)>::empty(), p)[j]).0,
            ),
    decreases p.len(),
{
    let eb = Seq::<(Seq<u8>, Seq<u8>)>::empty();
    let e = merge_seq(eb, p);
    let d = pm_of(p);
    if p.len() == 0 {
        assert(e.len() == 0);
        assert(d =~= Map::<Seq<u8>, Option<Seq<u8>>>::empty());
    } else {
        let p1 = p.drop_first();
        assert forall|a: int, b: int| 0 <= a < b < p1.len() implies #[trigger] lex_lt(
            p1[a].0,
            p1[b].0,
        ) by {
            assert(p1[a] == p[a + 1] && p1[b] == p[b + 1]);
        }
        lemma_merge_pending_dict(p1);
        let e1 = merge_seq(eb, p1);
        let d1 = pm_of(p1);
        assert forall|a: int, b: int| 0 <= a < b < p.len() implies (#[trigger] p[a]).0 != (
        #[trigger] p[b]).0 by {
            lemma_lex_asymmetric(p[a].0, p[b].0);
        }
        lemma_pm_of_head(p);
        assert(!d1.contains_key(p[0].0)) by {
            if d1.contains_key(p[0].0) {
                lemma_pm_keys(p1, p[0].0);
                let j = choose|j: int| 0 <= j < p1.len() && (#[trigger] p1[j]).0 == p[0].0;
                assert(p1[j] == p[j + 1]);
                assert(lex_lt(p[0].0, p[j + 1].0));
                lemma_lex_asymmetric(p[0].0, p[j + 1].0);
            }
        }
        assert forall|i: int| 0 <= i < e1.len() implies d1.contains_key(
            (#[trigger] e1[i]).0,
        ) && e1[i].0 != p[0].0 by {
            assert(d1[e1[i].0] == Some(e1[i].1));
        }
        match p[0].1 {
            Some(v) => {
                assert(e =~= seq![(p[0].0, v)] + e1);
                assert forall|i: int| 0 <= i < e.len() implies d.contains_key(
                    (#[trigger] e[i]).0,
                ) && d[e[i].0] == Some(e[i].1) by {
                    if i == 0 {
                    } else {
                        assert(e[i] == e1[i - 1]);
                    }
                }
                assert forall|k: Seq<u8>|
                    d.contains_key(k) && (#[trigger] d[k]) is Some implies exists|i: int|
                    0 <= i < e.len() && #[trigger] e[i] == (k, d[k]->0) by {
                    if k == p[0].0 {
                        assert(e[0] == (k, d[k]->0));
                    } else {
                        assert(d1.contains_key(k) && d1[k] == d[k]);
                        let i1 = choose|i1: int|
                            0 <= i1 < e1.len() && #[trigger] e1[i1] == (k, d1[k]->0);
                        assert(e[i1 + 1] == (k, d[k]->0));
                    }
                }
                assert forall|i: int, j: int| 0 <= i < j < e.len() implies lex_lt(
                    (#[trigger] e[i]).0,
                    (#[trigger] e[j]).0,
                ) by {
                    if i == 0 {
                        assert(e[j] == e1[j - 1]);
                        assert(d1.contains_key(e1[j - 1].0));
                        lemma_pm_keys(p1, e1[j - 1].0);
                        let jj = choose|jj: int|
                            0 <= jj < p1.len() && (#[trigger] p1[jj]).0 == e1[j - 1].0;
                        assert(p1[jj] == p[jj + 1]);
                        assert(lex_lt(p[0].0, p[jj + 1].0));
                    } else {
                        assert(e[i] == e1[i - 1] && e[j] == e1[j - 1]);
                    }
                }
            },
            None => {
                assert(e =~= e1);
                assert forall|i: int| 0 <= i < e.len() implies d.contains_key(
                    (#[trigger] e[i]).0,
                ) && d[e[i].0] == Some(e[i].1) by {
                    assert(e[i] == e1[i]);
                }
                assert forall|k: Seq<u8>|
                    d.contains_key(k) && (#[trigger] d[k]) is Some implies exists|i: int|
                    0 <= i < e.len() && #[trigger] e[i] == (k, d[k]->0) by {
                    assert(k != p[0].0);
                    assert(d1.contains_key(k) && d1[k] == d[k]);
                    let i1 = choose|i1: int| 0 <= i1 < e1.len() && #[trigger] e1[i1] == (
                    k,
                    d1[k]->0,
                    );
                    assert(e[i1] == (k, d[k]->0));
                }
            },
        }
    }
}

/// A map with no base leaf reads back exactly the dictionary its `put` and
/// `del` calls built: its merged entries are the non-tombstone bindings of
/// the pending map, each exactly once, in strictly ascending key order —
/// just as a plain sorted dictionary with the same operations applied.
pub proof fn lemma_iter_matches_dict(m: ProllyMap)
    requires
        m.wf(),
        !m.has_base(),
    ensures
        forall|i: int|
            0 <= i < m.entries().len() ==> m.pending_map().contains_key(
                (#[trigger] m.entries()[i]).0,
            ) && m.pending_map()[m.entries()[i].0] == Some(m.entries()[i].1),
        forall|k: Seq<u8>|
            m.pending_map().contains_key(k) && (#[trigger] m.pending_map()[k]) is Some ==> exists|
                i: int,
            |
                0 <= i < m.entries().len() && #[trigger] m.entries()[i] == (
                k,
                m.pending_map()[k]->0,
                ),
        forall|i: int, j: int|
            0 <= i < j < m.entries().len() ==> lex_lt(
                (#[trigger] m.entries()[i]).0,
                (#[trigger] m.entries()[j]).0,
            ),
{
    assert(m.base_entries() =~= Seq::<(Seq<u8>, Seq<u8>)>::empty());
    lemma_merge_pending_dict(m.pending_seq());
}

/// Indexing the deep view of a pending vector.
proof fn lemma_pend_dv(v: Vec<(Vec<u8>, Option<Vec<u8>>)>, i: int)
    requires
        0 <= i < v@.len(),
    ensures
        v.deep_view().len() == v@.len(),
        v.deep_view()[i].0 == v@[i].0@,
        v.deep_view()[i].1 == v@[i].1.deep_view(),
        v@[i].1 is Some ==> v.deep_view()[i].1 == Some(v@[i].1->0@),
{
    assert(v.deep_view()[i].0 =~= v@[i].0@);
}

/// An ordered key/value map over byte strings: an optional immutable base
/// leaf plus an in-memory pending map of insertions and tombstones, read as
/// one merged, ordered entry sequence.
pub struct ProllyMap {
    base: Option<Leaf>,
    pending: Vec<(Vec<u8>, Option<Vec<u8>>)>,
}

impl ProllyMap {
    pub closed spec fn pending_seq(&self) -> Seq<(Seq<u8>, Option<Seq<u8>>)> {
        self.pending.deep_view()
    }

    /// The pending mutations as a dictionary: `Some` a put, `None` a delete.
    pub open spec fn pending_map(&self) -> Map<Seq<u8>, Option<Seq<u8>>> {
        pm_of(self.pending_seq())
    }

    /// The entries of the base leaf; empty without one.
    pub closed spec fn base_entries(&self) -> Seq<(Seq<u8>, Seq<u8>)> {
        match self.base {
            Some(l) => l.entries(),
            None => Seq::empty(),
        }
    }

    pub closed spec fn has_base(&self) -> bool {
        self.base is Some
    }

    /// The live entries of the map, in key order where the parts are sorted.
    pub open spec fn entries(&self) -> Seq<(Seq<u8>, Seq<u8>)> {
        merge_seq(self.base_entries(), self.pending_seq())
    }

    pub open spec fn wf(&self) -> bool {
        sorted_keys(self.pending_seq())
    }

    /// An empty map: no base leaf, nothing pending.
    pub fn new() -> (r: ProllyMap)
        ensures
            r.wf(),
            !r.has_base(),
            r.pending_map() == Map::<Seq<u8>, Option<Seq<u8>>>::empty(),
            r.entries() == Seq::<(Seq<u8>, Seq<u8>)>::empty(),
    {
        let r = ProllyMap { base: None, pending: Vec::new() };
        proof {
            assert(r.pending_seq() =~= Seq::<(Seq<u8>, Option<Seq<u8>>)>::empty());
            assert(r.base_entries() =~= Seq::<(Seq<u8>, Seq<u8>)>::empty());
        }
        r
    }

    /// A map over an existing base leaf, with nothing pending.
    pub fn with_base(base: Option<Leaf>) -> (r: ProllyMap)
        ensures
            r.wf(),
            r.pending_map() == Map::<Seq<u8>, Option<Seq<u8>>>::empty(),
            r.base_entries() == (match base {
                Some(l) => l.entries(),
                None => Seq::<(Seq<u8>, Seq<u8>)>::empty(),
            }),
            r.entries() == r.base_entries(),
    {
        let r = ProllyMap { base, pending: Vec::new() };
        proof {
            assert(r.pending_seq() =~= Seq::<(Seq<u8>, Option<Seq<u8>>)>::empty());
        }
        r
    }

    /// The position in the sorted pending sequence where `key` sits or
    /// would be inserted.
    #[verifier::loop_isolation(false)]
    fn slot_of(&self, key: &Vec<u8>) -> (r: usize)
        requires
            self.wf(),
        ensures
            r <= self.pending_seq().len(),
            forall|j: int| 0 <= j < r ==> lex_lt((#[trigger] self.pending_seq()[j]).0, key@),
            r < self.pending_seq().len() ==> !lex_lt(self.pending_seq()[r as int].0, key@),
    {
        let n = self.pending.len();
        proof {
            assert(self.pending_seq().len() == n);
        }
        let mut i: usize = 0;
        while i < n
            invariant
                0 <= i <= n,
                forall|j: int| 0 <= j < i ==> lex_lt((#[trigger] self.pending_seq()[j]).0, key@),
            decreases n - i,
        {
            proof {
                lemma_pend_dv(self.pending, i as int);
            }
            if !matches!(bytes_cmp(&self.pending[i].0, key), ByteOrder::Less) {
                return i;
            }
            i += 1;
        }
        i
    }

    /// Records a pending mutation for `key`, keeping the pending sequence
    /// sorted and denoting one dictionary insertion.
    fn pending_upsert(&mut self, key: Vec<u8>, val: Option<Vec<u8>>)
        requires
            old(self).wf(),
        ensures
            final(self).wf(),
            final(self).pending_map() == old(self).pending_map().insert(key@, val.deep_view()),
            final(self).base_entries() == old(self).base_entries(),
            final(self).has_base() == old(self).has_base(),
    {
        let ghost ps = self.pending_seq();
        let ghost kdv = key@;
        let ghost vdv = val.deep_view();
        proof {
            assert forall|a: int, b: int| 0 <= a < b < ps.len() implies (#[trigger] ps[a]).0 != (
            #[trigger] ps[b]).0 by {
                lemma_lex_asymmetric(ps[a].0, ps[b].0);
            }
        }
        let i = self.slot_of(&key);
        let eq = if i < self.pending.len() {
            proof {
                lemma_pend_dv(self.pending, i as int);
            }
            matches!(bytes_cmp(&self.pending[i].0, &key), ByteOrder::Equal)
        } else {
            false
        };
        if eq {
            self.pending[i] = (key, val);
            proof {
                assert(self.pending_seq() =~= ps.update(i as int, (ps[i as int].0, vdv))) by {
                    assert forall|j: int| 0 <= j < ps.len() implies self.pending_seq()[j]
                        == ps.update(i as int, (ps[i as int].0, vdv))[j] by {
                        lemma_pend_dv(self.pending, j);
                        lemma_pend_dv(old(self).pending, j);
                    }
                }
                lemma_pm_update(ps, i as int, vdv);
                assert(ps[i as int].0 == kdv);
            }
        } else {
            proof {
                assert forall|j: int| 0 <= j < ps.len() implies (#[trigger] ps[j]).0 != kdv by {
                    if j < i {
                        lemma_lex_asymmetric(ps[j].0, kdv);
                    } else if j == i {
                        lemma_lex_asymmetric(kdv, ps[j].0);
                    } else {
                        lemma_lex_transitive(kdv, ps[i as int].0, ps[j].0);
                        lemma_lex_asymmetric(kdv, ps[j].0);
                    }
                }
            }
            self.pending.insert(i, (key, val));
            proof {
                assert(self.pending_seq() =~= ps.insert(i as int, (kdv, vdv))) by {
                    assert forall|j: int| 0 <= j < self.pending_seq().len() implies self
                        .pending_seq()[j] == ps.insert(i as int, (kdv, vdv))[j] by {
                        lemma_pend_dv(self.pending, j);
                        if j < i {
                            lemma_pend_dv(old(self).pending, j);
                        } else if j > i {
                            lemma_pend_dv(old(self).pending, j - 1);
                        }
                    }
                }
                lemma_pm_insert(ps, i as int, kdv, vdv);
                let t = self.pending_seq();
                assert forall|a: int, b: int| 0 <= a < b < t.len() implies #[trigger] lex_lt(
                    t[a].0,
                    t[b].0,
                ) by {
                    if a < i && b == i {
                    } else if a == i && b > i {
                        if i < ps.len() && ps[i as int].0 != kdv {
                            if b - 1 > i {
                                lemma_lex_transitive(kdv, ps[i as int].0, ps[b - 1].0);
                            }
                        }
                    } else if a < i && b > i {
                        if b - 1 == a {
                        } else {
                        }
                    }
                }
            }
        }
    }

    /// Records a pending insertion of `key` with value `val`.
    pub fn put(&mut self, key: Vec<u8>, val: Vec<u8>)
        requires
            old(self).wf(),
        ensures
            final(self).wf(),
            final(self).pending_map() == old(self).pending_map().insert(key@, Some(val@)),
            final(self).base_entries() == old(self).base_entries(),
            final(self).has_base() == old(self).has_base(),
    {
        let ghost kdv = key@;
        let ghost vv = val@;
        let v = Some(val);
        proof {
            assert(v.deep_view() == Some(vv)) by {
                crate::bytes::lemma_vec_views(v->0);
            }
        }
        self.pending_upsert(key, v);
    }

    /// Records a pending deletion (tombstone) for `key`.
    pub fn del(&mut self, key: Vec<u8>)
        requires
            old(self).wf(),
        ensures
            final(self).wf(),
            final(self).pending_map() == old(self).pending_map().insert(
                key@,
                None::<Seq<u8>>,
            ),
            final(self).base_entries() == old(self).base_entries(),
            final(self).has_base() == old(self).has_base(),
    {
        let v: Option<Vec<u8>> = None;
        self.pending_upsert(key, v);
    }

    /// An iterator over the map's live entries: the base leaf's entries
    /// merged with the pending mutations.
    pub fn iter(&self) -> (it: Iter)
        ensures
            it.wf(),
            it.remaining() == self.entries(),
    {
        let base = Leaf::iter(self.base.as_ref());
        let n = self.pending.len();
        let mut pending: Vec<(Vec<u8>, Option<Vec<u8>>)> = Vec::new();
        let mut i: usize = 0;
        proof {
            assert(pending.deep_view() =~= self.pending_seq().take(0));
        }
        while i < n
            invariant
                n == self.pending.len(),
                0 <= i <= n,
                pending.deep_view() == self.pending_seq().take(i as int),
            decreases n - i,
        {
            let ghost pre = pending.deep_view();
            let k = bytes_clone(&self.pending[i].0);
            let v: Option<Vec<u8>> = match &self.pending[i].1 {
                Some(v0) => Some(bytes_clone(v0)),
                None => None,
            };
            proof {
                lemma_pend_dv(self.pending, i as int);
                assert(k@ == self.pending_seq()[i as int].0);
                assert(v.deep_view() == self.pending_seq()[i as int].1) by {
                    if v is Some {
                        crate::bytes::lemma_vec_views(v->0);
                    }
                }
            }
            pending.push((k, v));
            proof {
                assert(pending.deep_view() =~= pre.push(self.pending_seq()[i as int]));
                assert(self.pending_seq().take(i + 1) =~= self.pending_seq().take(
                    i as int,
                ).push(self.pending_seq()[i as int]));
            }
            i += 1;
        }
        proof {
            assert(self.pending_seq().take(n as int) =~= self.pending_seq());
        }
        let it = Iter { base, bi: 0, pending, pi: 0 };
        proof {
            assert(it.rem_base() =~= entries_view(it.base@));
            assert(it.rem_pending() =~= it.pending.deep_view());
        }
        it
    }

    /// The live entry for `key`, found through the merged iterator.
    pub fn get(&self, key: &Vec<u8>) -> (r: Option<Entry>)
        ensures
            r is Some <==> lookup(self.entries(), key@) is Some,
            r matches Some(e) ==> e.key@ == key@ && lookup(self.entries(), key@) == Some(e.val@),
    {
        let mut it = self.iter();
        loop
            invariant
                it.wf(),
                lookup(self.entries(), key@) == lookup(it.remaining(), key@),
            decreases it.remaining().len(),
        {
            let ghost rem = it.remaining();
            match it.next() {
                None => {
                    return None;
                },
                Some(e) => {
                    if bytes_eq(&e.key, key) {
                        proof {
                            assert(rem[0] == e@);
                        }
                        return Some(e);
                    }
                    proof {
                        assert(rem[0] == e@);
                        assert(rem.drop_first() == it.remaining());
                    }
                },
            }
        }
    }

    /// Whether `key` has a live entry.
    pub fn has(&self, key: &Vec<u8>) -> (r: bool)
        ensures
            r == (lookup(self.entries(), key@) is Some),
    {
        self.get(key).is_some()
    }

    /// Writes the map's live entries as a new base leaf through the write
    /// transaction: the new leaf's chunk holds exactly the merged entries,
    /// the pending map empties, and the merged entries are unchanged — so a
    /// map rebuilt over the flushed base reads back the same entries.
    #[verifier::rlimit(50)]
    pub fn flush(&mut self, w: &mut dag::write::Write) -> (r: Result<Vec<u8>, Error>)
        requires
            old(self).wf(),
            old(w).wf(),
        ensures
            final(self).wf(),
            final(w).wf(),
            r is Ok,
            r matches Ok(h) ==> ({
                let data = enc_entries(old(self).entries());
                let hash = hash_of(data, Seq::<Seq<u8>>::empty());
                &&& h@ == hash
                &&& final(self).entries() == old(self).entries()
                &&& final(self).pending_map() == Map::<Seq<u8>, Option<Seq<u8>>>::empty()
                &&& final(w).store() == old(w).store().insert(data_key(hash), data)
                &&& final(w).journal() == old(w).journal()
                &&& final(w).base_store() == old(w).base_store()
                &&& final(w).mutated() == (if old(w).mutated().contains(hash) {
                    old(w).mutated()
                } else {
                    old(w).mutated().push(hash)
                })
            }),
    {
        let ghost es0 = self.entries();
        let mut items: Vec<Entry> = Vec::new();
        let mut it = self.iter();
        proof {
            assert(entries_view(items@) + it.remaining() =~= es0);
        }
        loop
            invariant_except_break
                it.wf(),
                entries_view(items@) + it.remaining() == es0,
            ensures
                entries_view(items@) == es0,
            decreases it.remaining().len(),
        {
            let ghost pre = entries_view(items@);
            let ghost rem = it.remaining();
            match it.next() {
                None => {
                    proof {
                        assert(pre + rem =~= pre);
                    }
                    break ;
                },
                Some(e) => {
                    proof {
                        assert(rem[0] == e@);
                    }
                    items.push(e);
                    proof {
                        assert(entries_view(items@) =~= pre.push(rem[0]));
                        assert(pre.push(rem[0]) + rem.drop_first() =~= pre + rem);
                    }
                },
            }
        }
        let leaf = Leaf::new(&items);
        let res = w.put_chunk(leaf.chunk());
        match res {
            Err(e) => {
                proof {
                    assert(false);
                }
                Err(Error::Storage(e))
            },
            Ok(()) => {
                let h = bytes_clone(leaf.chunk().hash());
                proof {
                    leaf.spec_chunk().lemma_wf_hash();
                }
                self.base = Some(leaf);
                self.pending = Vec::new();
                proof {
                    assert(self.pending_seq() =~= Seq::<(Seq<u8>, Option<Seq<u8>>)>::empty());
                    assert(self.pending_map() =~= Map::<Seq<u8>, Option<Seq<u8>>>::empty());
                    assert(self.base_entries() == es0);
                    assert(self.entries() == es0);
                    assert(h@ == hash_of(enc_entries(es0), Seq::<Seq<u8>>::empty()));
                }
                Ok(h)
            },
        }
    }
}

/// An iterator over the merged live entries: the decoded base entries and a
/// snapshot of the pending mutations, each with a cursor; `next` yields the
/// merge of what remains.
pub struct Iter {
    base: Vec<Entry>,
    bi: usize,
    pending: Vec<(Vec<u8>, Option<Vec<u8>>)>,
    pi: usize,
}

impl Iter {
    pub closed spec fn rem_base(&self) -> Seq<(Seq<u8>, Seq<u8>)> {
        entries_view(self.base@).skip(self.bi as int)
    }

    pub closed spec fn rem_pending(&self) -> Seq<(Seq<u8>, Option<Seq<u8>>)> {
        self.pending.deep_view().skip(self.pi as int)
    }

    pub closed spec fn wf(&self) -> bool {
        self.bi <= self.base@.len() && self.pi <= self.pending@.len()
    }

    /// The live entries the iterator has yet to yield.
    pub open spec fn remaining(&self) -> Seq<(Seq<u8>, Seq<u8>)> {
        merge_seq(self.rem_base(), self.rem_pending())
    }

    /// How many raw records are left to consume on both sides.
    pub open spec fn togo(&self) -> nat {
        self.rem_base().len() + self.rem_pending().len()
    }

    /// Consumes the next base entry; base entries always carry a value.
    fn next_base(&mut self) -> (r: Option<(Vec<u8>, Option<Vec<u8>>)>)
        requires
            old(self).wf(),
        ensures
            final(self).wf(),
            final(self).rem_pending() == old(self).rem_pending(),
            r is None ==> old(self).rem_base().len() == 0 && *final(self) == *old(self),
            r matches Some(p) ==> old(self).rem_base().len() > 0 && (p.1 matches Some(v)
                && (p.0@, v@) == old(self).rem_base()[0]) && final(self).rem_base()
                == old(self).rem_base().drop_first(),
    {
        if self.bi == self.base.len() {
            proof {
                assert(old(self).rem_base().len() == 0);
            }
            return None;
        }
        let k = bytes_clone(&self.base[self.bi].key);
        let v = bytes_clone(&self.base[self.bi].val);
        proof {
            assert(old(self).rem_base()[0] == self.base@[self.bi as int]@);
        }
        self.bi = self.bi + 1;
        proof {
            assert(self.rem_base() =~= old(self).rem_base().drop_first());
            assert(self.rem_pending() =~= old(self).rem_pending());
        }
        Some((k, Some(v)))
    }

    /// Consumes the next pending record, tombstone or not.
    fn next_pending(&mut self) -> (r: Option<(Vec<u8>, Option<Vec<u8>>)>)
        requires
            old(self).wf(),
        ensures
            final(self).wf(),
            final(self).rem_base() == old(self).rem_base(),
            r is None ==> old(self).rem_pending().len() == 0 && *final(self) == *old(self),
            r matches Some(p) ==> old(self).rem_pending().len() > 0 && (p.0@, p.1.deep_view())
                == old(self).rem_pending()[0] && final(self).rem_pending() == old(
                self,
            ).rem_pending().drop_first(),
            r matches Some(p) ==> (match p.1 {
                Some(v) => old(self).rem_pending()[0].1 == Some(v@),
                None => old(self).rem_pending()[0].1 is None,
            }),
    {
        if self.pi == self.pending.len() {
            proof {
                assert(old(self).rem_pending().len() == 0);
            }
            return None;
        }
        proof {
            lemma_pend_dv(self.pending, self.pi as int);
        }
        let k = bytes_clone(&self.pending[self.pi].0);
        let v: Option<Vec<u8>> = match &self.pending[self.pi].1 {
            Some(v0) => Some(bytes_clone(v0)),
            None => None,
        };
        proof {
            assert(v.deep_view() == old(self).rem_pending()[0].1) by {
                if v is Some {
                    crate::bytes::lemma_vec_views(v->0);
                }
            }
            assert(k@ == old(self).rem_pending()[0].0);
        }
        self.pi = self.pi + 1;
        proof {
            assert(self.rem_pending() =~= old(self).rem_pending().drop_first());
            assert(self.rem_base() =~= old(self).rem_base());
        }
        Some((k, v))
    }

    /// Consumes one raw record following the merge order: the smaller key
    /// first; on equal keys both sides are consumed and the pending record
    /// is the one yielded (it supersedes the base entry).
    fn next_internal(&mut self) -> (r: Option<(Vec<u8>, Option<Vec<u8>>)>)
        requires
            old(self).wf(),
        ensures
            final(self).wf(),
            r is None ==> old(self).remaining().len() == 0 && *final(self) == *old(self),
            r is Some ==> final(self).togo() < old(self).togo(),
            r matches Some(p) ==> (match p.1 {
                Some(v) => old(self).remaining() == seq![(p.0@, v@)] + final(self).remaining(),
                None => old(self).remaining() == final(self).remaining(),
            }),
    {
        let ghost rb = self.rem_base();
        let ghost rp = self.rem_pending();
        if self.pi == self.pending.len() {
            proof {
                assert(rp.len() == 0);
                assert(old(self).remaining() == rb);
            }
            let r = self.next_base();
            proof {
                if r is Some {
                    assert(rb =~= seq![rb[0]] + rb.drop_first());
                }
            }
            return r;
        }
        if self.bi == self.base.len() {
            proof {
                assert(rb.len() == 0);
                assert(rp.len() > 0);
            }
            let r = self.next_pending();
            proof {
                assert(self.rem_base() =~= rb);
                if rp[0].1 is Some {
                    assert(old(self).remaining() =~= seq![(rp[0].0, rp[0].1->0)] + merge_seq(
                        rb,
                        rp.drop_first(),
                    ));
                }
            }
            return r;
        }
        proof {
            lemma_pend_dv(self.pending, self.pi as int);
            assert(rp[0] == (self.pending@[self.pi as int].0@, self.pending@[self.pi
                as int].1.deep_view()));
            assert(rb[0] == self.base@[self.bi as int]@);
        }
        let cmp = bytes_cmp(&self.pending[self.pi].0, &self.base[self.bi].key);
        match cmp {
            ByteOrder::Less => {
                let r = self.next_pending();
                proof {
                    assert(lex_lt(rp[0].0, rb[0].0));
                    if rp[0].1 is Some {
                        assert(old(self).remaining() =~= seq![(rp[0].0, rp[0].1->0)] + merge_seq(
                            rb,
                            rp.drop_first(),
                        ));
                    }
                }
                r
            },
            ByteOrder::Greater => {
                let r = self.next_base();
                proof {
                    if r is Some {
                        assert(old(self).remaining() =~= seq![rb[0]] + merge_seq(
                            rb.drop_first(),
                            rp,
                        ));
                    }
                }
                r
            },
            ByteOrder::Equal => {
                let r = self.next_pending();
                let ghost mid = *self;
                let b = self.next_base();
                proof {
                    assert(b is Some);
                    assert(self.rem_pending() == mid.rem_pending());
                    assert(self.rem_base() == rb.drop_first());
                    assert(rp[0].0 == rb[0].0);
                    if rp[0].1 is Some {
                        assert(old(self).remaining() =~= seq![(rp[0].0, rp[0].1->0)] + merge_seq(
                            rb.drop_first(),
                            rp.drop_first(),
                        ));
                    }
                }
                r
            },
        }
    }

    /// Yields the next live entry of the merge, skipping tombstones.
    pub fn next(&mut self) -> (r: Option<Entry>)
        requires
            old(self).wf(),
        ensures
            final(self).wf(),
            old(self).remaining().len() == 0 ==> r is None && final(self).remaining() == old(
                self,
            ).remaining(),
            old(self).remaining().len() > 0 ==> (r matches Some(e)
                && e@ == old(self).remaining()[0]) && final(self).remaining()
                == old(self).remaining().drop_first(),
    {
        loop
            invariant
                self.wf(),
                self.remaining() == old(self).remaining(),
            decreases self.togo(),
        {
            let ghost rem = self.remaining();
            match self.next_internal() {
                None => {
                    return None;
                },
                Some((k, v)) => {
                    match v {
                        Some(v0) => {
                            proof {
                                assert(rem[0] == (k@, v0@));
                                assert(rem.drop_first() == self.remaining());
                            }
                            return Some(Entry { key: k, val: v0 });
                        },
                        None => {},
                    }
                },
            }
        }
    }
}

} // verus!
