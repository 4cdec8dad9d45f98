use vstd::prelude::*;
use crate::bytes::{bytes_clone, bytes_eq};
use crate::codec::{
    create_meta_record, dec_meta, decode_meta_record, enc_meta, lemma_dec_enc_meta, pow256,
};
use crate::kv;
use super::chunk::Chunk;
use super::key::{data_key, data_key_bytes, head_key, head_key_bytes, lemma_keys_injective,
    meta_key, meta_key_bytes};
use super::read::Read;
use super::{count_of, meta_ok, meta_wf, refs_of, Error};

verus! {

/// One `set_head` call as journaled: the head's new value and the value it
/// replaced at the time of the call.
struct HeadChange {
    new: Option<Vec<u8>>,
    prev: Option<Vec<u8>>,
}

/// `s` with every occurrence of `h` removed.
pub open spec fn without(s: Seq<Seq<u8>>, h: Seq<u8>) -> Seq<Seq<u8>>
    decreases s.len(),
{
    if s.len() == 0 {
        s
    } else {
        let rest = without(s.drop_last(), h);
        if s.last() == h {
            rest
        } else {
            rest.push(s.last())
        }
    }
}

/// Deletion of a chunk, acting on the state threaded through the collector:
/// the byte map and the set of chunk hashes mutated in this transaction.
pub open spec fn remove_related(
    s: (Map<Seq<u8>, Seq<u8>>, Seq<Seq<u8>>),
    h: Seq<u8>,
    update_mutated: bool,
) -> (Map<Seq<u8>, Seq<u8>>, Seq<Seq<u8>>) {
    (
        s.0.remove(data_key(h)).remove(meta_key(h)),
        if update_mutated {
            without(s.1, h)
        } else {
            s.1
        },
    )
}

/// The reference count written after a change; the count is stored as a
/// 16-bit value, so the arithmetic wraps at its bounds.
pub open spec fn next_count(c: u16, inc: bool) -> u16 {
    if inc {
        if c == 0xffff {
            0
        } else {
            (c + 1) as u16
        }
    } else {
        if c == 0 {
            0xffff
        } else {
            (c - 1) as u16
        }
    }
}

/// The store after the reference count of `h` is rewritten to `c`: the
/// recorded references are preserved exactly; a record with no references
/// and a zero count is deleted rather than written.
pub open spec fn set_rc(m: Map<Seq<u8>, Seq<u8>>, h: Seq<u8>, c: u16) -> Map<Seq<u8>, Seq<u8>> {
    let rs = refs_of(m, h);
    if rs.len() == 0 && c == 0 {
        m.remove(meta_key(h))
    } else {
        m.insert(meta_key(h), enc_meta(rs, c))
    }
}

/// One reference-count change of `h` by one, cascading into the recorded
/// references exactly when the count crosses the 0/1 boundary — the only
/// transitions that change whether `h`'s children are reachable. `None`
/// means the walk hit an undecodable metadata record (or ran out of fuel;
/// with fuel above `h.len()` a well-formed store never does, because
/// recorded references are strictly shorter than their parent's hash).
pub open spec fn rc_step(
    s: (Map<Seq<u8>, Seq<u8>>, Seq<Seq<u8>>),
    h: Seq<u8>,
    inc: bool,
    fuel: nat,
) -> Option<(Map<Seq<u8>, Seq<u8>>, Seq<Seq<u8>>)>
    decreases fuel, 0nat,
{
    if fuel == 0 {
        None
    } else if !meta_ok(s.0, h) {
        None
    } else {
        let c0 = count_of(s.0, h);
        let after = if (c0 == 0 && inc) || (c0 == 1 && !inc) {
            rc_list(s, refs_of(s.0, h), inc, (fuel - 1) as nat)
        } else {
            Some(s)
        };
        match after {
            None => None,
            Some(s1) => {
                if !inc && c0 == 1 {
                    Some(remove_related(s1, h, true))
                } else if !meta_ok(s1.0, h) {
                    None
                } else {
                    Some((set_rc(s1.0, h, next_count(c0, inc)), s1.1))
                }
            },
        }
    }
}

/// Reference-count changes applied to each hash of a list in order.
pub open spec fn rc_list(
    s: (Map<Seq<u8>, Seq<u8>>, Seq<Seq<u8>>),
    hs: Seq<Seq<u8>>,
    inc: bool,
    fuel: nat,
) -> Option<(Map<Seq<u8>, Seq<u8>>, Seq<Seq<u8>>)>
    decreases fuel, hs.len() + 1,
{
    if hs.len() == 0 {
        Some(s)
    } else {
        match rc_step(s, hs[0], inc, fuel) {
            None => None,
            Some(s1) => rc_list(s1, hs.drop_first(), inc, fuel),
        }
    }
}

/// The new head values recorded in a journal, in order.
pub open spec fn journal_news(j: Seq<(Option<Seq<u8>>, Option<Seq<u8>>)>) -> Seq<Seq<u8>>
    decreases j.len(),
{
    if j.len() == 0 {
        Seq::empty()
    } else {
        match j[0].0 {
            Some(h) => seq![h] + journal_news(j.drop_first()),
            None => journal_news(j.drop_first()),
        }
    }
}

/// The replaced head values recorded in a journal, in order.
pub open spec fn journal_prevs(j: Seq<(Option<Seq<u8>>, Option<Seq<u8>>)>) -> Seq<Seq<u8>>
    decreases j.len(),
{
    if j.len() == 0 {
        Seq::empty()
    } else {
        match j[0].1 {
            Some(h) => seq![h] + journal_prevs(j.drop_first()),
            None => journal_prevs(j.drop_first()),
        }
    }
}

/// Reference-count changes folded over a list of hashes, each walk given
/// fuel just above the hash's own length.
pub open spec fn rc_fold(
    s: (Map<Seq<u8>, Seq<u8>>, Seq<Seq<u8>>),
    hs: Seq<Seq<u8>>,
    inc: bool,
) -> Option<(Map<Seq<u8>, Seq<u8>>, Seq<Seq<u8>>)>
    decreases hs.len(),
{
    if hs.len() == 0 {
        Some(s)
    } else {
        match rc_step(s, hs[0], inc, hs[0].len() + 1) {
            None => None,
            Some(s1) => rc_fold(s1, hs.drop_first(), inc),
        }
    }
}

/// The orphan sweep: every mutated chunk whose reference count ended at
/// zero is deleted together with its metadata record.
pub open spec fn sweep(m: Map<Seq<u8>, Seq<u8>>, hs: Seq<Seq<u8>>) -> Option<Map<Seq<u8>, Seq<u8>>>
    decreases hs.len(),
{
    if hs.len() == 0 {
        Some(m)
    } else if !meta_ok(m, hs[0]) {
        None
    } else {
        let m1 = if count_of(m, hs[0]) == 0 {
            m.remove(data_key(hs[0])).remove(meta_key(hs[0]))
        } else {
            m
        };
        sweep(m1, hs.drop_first())
    }
}

/// The garbage collection that `commit` runs: all increments for new head
/// values, then all decrements for replaced head values (so that a count
/// passing 1 → 0 → 1 is never reaped), then the orphan sweep over the
/// mutated set.
pub open spec fn spec_gc(
    m: Map<Seq<u8>, Seq<u8>>,
    j: Seq<(Option<Seq<u8>>, Option<Seq<u8>>)>,
    muts: Seq<Seq<u8>>,
) -> Option<Map<Seq<u8>, Seq<u8>>> {
    match rc_fold((m, muts), journal_news(j), true) {
        None => None,
        Some(s1) => match rc_fold(s1, journal_prevs(j), false) {
            None => None,
            Some(s2) => sweep(s2.0, s2.1),
        },
    }
}

/// Whether `k` has the shape of a head key.
pub open spec fn is_head_shape(k: Seq<u8>) -> bool {
    k.len() >= 2 && k[0] == 104u8 && k[1] == 47u8
}

/// Head keys preserved, with their values, between two store states.
pub open spec fn heads_same(m1: Map<Seq<u8>, Seq<u8>>, m2: Map<Seq<u8>, Seq<u8>>) -> bool {
    forall|k: Seq<u8>|
        is_head_shape(k) ==> (#[trigger] m2.contains_key(k) == m1.contains_key(k) && (
        m1.contains_key(k) ==> m2[k] == m1[k]))
}

/// A flat store state: every metadata record is decodable and records no
/// references, so no chunk edges exist — the state a store reaches through
/// head changes alone.
pub open spec fn flat(m: Map<Seq<u8>, Seq<u8>>) -> bool {
    forall|h: Seq<u8>| #![trigger meta_key(h)] meta_ok(m, h) && refs_of(m, h).len() == 0
}

/// How many times `h` occurs in a hash list.
pub open spec fn occ(s: Seq<Seq<u8>>, h: Seq<u8>) -> nat
    decreases s.len(),
{
    if s.len() == 0 {
        0
    } else {
        occ(s.drop_first(), h) + (if s[0] == h {
            1nat
        } else {
            0nat
        })
    }
}

/// One reference-count change on a flat store: the named hash's count moves
/// by one, every other count is untouched, and the store stays flat.
proof fn lemma_flat_step(
    s: (Map<Seq<u8>, Seq<u8>>, Seq<Seq<u8>>),
    h: Seq<u8>,
    inc: bool,
    fuel: nat,
)
    requires
        flat(s.0),
        s.1 == Seq::<Seq<u8>>::empty(),
        fuel >= 1,
        inc ==> count_of(s.0, h) < 0xffff,
        !inc ==> count_of(s.0, h) >= 1,
    ensures
        rc_step(s, h, inc, fuel) is Some,
        ({
            let s1 = rc_step(s, h, inc, fuel)->0;
            &&& flat(s1.0)
            &&& s1.1 == Seq::<Seq<u8>>::empty()
            &&& count_of(s1.0, h) == (if inc {
                count_of(s.0, h) + 1
            } else {
                count_of(s.0, h) - 1
            })
            &&& forall|x: Seq<u8>|
                x != h ==> #[trigger] count_of(s1.0, x) == count_of(s.0, x)
            &&& heads_same(s.0, s1.0)
        }),
{
    let c0 = count_of(s.0, h);
    assert(!is_head_shape(data_key(h)) && !is_head_shape(meta_key(h)));
    assert(refs_of(s.0, h).len() == 0);
    assert(rc_list(s, refs_of(s.0, h), inc, (fuel - 1) as nat) == Some(s));
    if !inc && c0 == 1 {
        let s1 = remove_related(s, h, true);
        assert(without(s.1, h) =~= Seq::<Seq<u8>>::empty());
        lemma_nonmeta_remove(s.0, data_key(h));
        lemma_meta_remove(s.0.remove(data_key(h)), h);
        assert(flat(s1.0)) by {
            assert forall|x: Seq<u8>| #![trigger meta_key(x)] meta_ok(s1.0, x) && refs_of(
                s1.0,
                x,
            ).len() == 0 by {
                if x == h {
                } else {
                    assert(refs_of(s1.0, x) == refs_of(s.0.remove(data_key(h)), x));
                    assert(refs_of(s.0.remove(data_key(h)), x) == refs_of(s.0, x));
                }
            }
        }
        assert(rc_step(s, h, inc, fuel) == Some(s1));
    } else {
        let nc = next_count(c0, inc);
        assert(nc != 0);
        let m1 = set_rc(s.0, h, nc);
        assert(m1 == s.0.insert(meta_key(h), enc_meta(Seq::<Seq<u8>>::empty(), nc))) by {
            assert(refs_of(s.0, h) =~= Seq::<Seq<u8>>::empty());
        }
        lemma_dec_enc_meta(Seq::<Seq<u8>>::empty(), nc);
        lemma_meta_insert(s.0, h, enc_meta(Seq::<Seq<u8>>::empty(), nc));
        assert(flat(m1)) by {
            assert forall|x: Seq<u8>| #![trigger meta_key(x)] meta_ok(m1, x) && refs_of(
                m1,
                x,
            ).len() == 0 by {
                if x == h {
                } else {
                }
            }
        }
        assert(rc_step(s, h, inc, fuel) == Some((m1, s.1)));
    }
}

/// Reference-count changes folded over a hash list on a flat store: each
/// hash's count moves by its number of occurrences.
proof fn lemma_flat_fold(s: (Map<Seq<u8>, Seq<u8>>, Seq<Seq<u8>>), hs: Seq<Seq<u8>>, inc: bool)
    requires
        flat(s.0),
        s.1 == Seq::<Seq<u8>>::empty(),
        forall|h: Seq<u8>| inc ==> #[trigger] count_of(s.0, h) + occ(hs, h) <= 0xffff,
        forall|h: Seq<u8>| !inc ==> #[trigger] count_of(s.0, h) >= occ(hs, h),
    ensures
        rc_fold(s, hs, inc) is Some,
        ({
            let s1 = rc_fold(s, hs, inc)->0;
            &&& flat(s1.0)
            &&& s1.1 == Seq::<Seq<u8>>::empty()
            &&& forall|h: Seq<u8>|
                #[trigger] count_of(s1.0, h) == (if inc {
                    count_of(s.0, h) + occ(hs, h)
                } else {
                    count_of(s.0, h) - occ(hs, h)
                })
            &&& heads_same(s.0, s1.0)
        }),
    decreases hs.len(),
{
    if hs.len() == 0 {
        assert forall|h: Seq<u8>| #[trigger] count_of(s.0, h) == (if inc {
            count_of(s.0, h) + occ(hs, h)
        } else {
            count_of(s.0, h) - occ(hs, h)
        }) by {}
    } else {
        let h0 = hs[0];
        assert(occ(hs, h0) >= 1);
        lemma_flat_step(s, h0, inc, h0.len() + 1);
        let s1 = rc_step(s, h0, inc, h0.len() + 1)->0;
        assert forall|h: Seq<u8>| inc implies #[trigger] count_of(s1.0, h) + occ(
            hs.drop_first(),
            h,
        ) <= 0xffff by {
            if h == h0 {
            } else {
            }
        }
        assert forall|h: Seq<u8>| !inc implies #[trigger] count_of(s1.0, h) >= occ(
            hs.drop_first(),
            h,
        ) by {
            if h == h0 {
            } else {
            }
        }
        lemma_flat_fold(s1, hs.drop_first(), inc);
    }
}

/// Law: a commit that changed heads alone moves every hash's reference
/// count by exactly the number of journal records naming it as the new head
/// value, minus the number naming it as the replaced one — with each head
/// counted once per record, repeated sets of the same value cancel and the
/// remaining count is the number of heads pinning the hash. The bounds keep
/// the 16-bit count from wrapping; the mutated set is empty because no
/// chunk was written.
pub proof fn lemma_flat_commit_accounting(
    m: Map<Seq<u8>, Seq<u8>>,
    j: Seq<(Option<Seq<u8>>, Option<Seq<u8>>)>,
)
    requires
        flat(m),
        forall|h: Seq<u8>|
            #[trigger] count_of(m, h) + occ(journal_news(j), h) <= 0xffff,
        forall|h: Seq<u8>|
            #[trigger] count_of(m, h) + occ(journal_news(j), h) >= occ(journal_prevs(j), h),
    ensures
        spec_gc(m, j, Seq::<Seq<u8>>::empty()) is Some,
        ({
            let mf = spec_gc(m, j, Seq::<Seq<u8>>::empty())->0;
            &&& flat(mf)
            &&& forall|h: Seq<u8>|
                #[trigger] count_of(mf, h) == count_of(m, h) + occ(journal_news(j), h) - occ(
                    journal_prevs(j),
                    h,
                )
            &&& heads_same(m, mf)
        }),
{
    let s0 = (m, Seq::<Seq<u8>>::empty());
    lemma_flat_fold(s0, journal_news(j), true);
    let s1 = rc_fold(s0, journal_news(j), true)->0;
    assert forall|h: Seq<u8>| #[trigger] count_of(s1.0, h) >= occ(journal_prevs(j), h) by {}
    lemma_flat_fold(s1, journal_prevs(j), false);
    let s2 = rc_fold(s1, journal_prevs(j), false)->0;
    assert(sweep(s2.0, s2.1) == Some(s2.0));
}

/// The orphan sweep never writes: every key of its result was already
/// present.
proof fn lemma_sweep_no_new_keys(m: Map<Seq<u8>, Seq<u8>>, hs: Seq<Seq<u8>>, k: Seq<u8>)
    requires
        sweep(m, hs) is Some,
        sweep(m, hs)->0.contains_key(k),
    ensures
        m.contains_key(k),
    decreases hs.len(),
{
    if hs.len() > 0 {
        let m1 = if count_of(m, hs[0]) == 0 {
            m.remove(data_key(hs[0])).remove(meta_key(hs[0]))
        } else {
            m
        };
        lemma_sweep_no_new_keys(m1, hs.drop_first(), k);
    }
}

/// The orphan sweep deletes the data of every listed hash whose count is
/// zero when the sweep starts.
proof fn lemma_sweep_removes(m: Map<Seq<u8>, Seq<u8>>, hs: Seq<Seq<u8>>, h: Seq<u8>)
    requires
        sweep(m, hs) is Some,
        hs.contains(h),
        count_of(m, h) == 0,
    ensures
        !sweep(m, hs)->0.contains_key(data_key(h)),
    decreases hs.len(),
{
    let m1 = if count_of(m, hs[0]) == 0 {
        m.remove(data_key(hs[0])).remove(meta_key(hs[0]))
    } else {
        m
    };
    if hs[0] == h {
        assert(!m1.contains_key(data_key(h)));
        if sweep(m1, hs.drop_first())->0.contains_key(data_key(h)) {
            lemma_sweep_no_new_keys(m1, hs.drop_first(), data_key(h));
        }
    } else {
        assert(count_of(m1, h) == 0) by {
            lemma_keys_injective(hs[0], h);
            assert(meta_key(h) != meta_key(hs[0]) && meta_key(h) != data_key(hs[0]));
        }
        let i = choose|i: int| 0 <= i < hs.len() && hs[i] == h;
        assert(hs.drop_first()[i - 1] == h);
        assert(hs.drop_first().contains(h));
        lemma_sweep_removes(m1, hs.drop_first(), h);
    }
}

/// Law: a chunk written in the transaction but never made reachable is
/// gone after commit. With no head changes journaled, every hash in the
/// mutated set whose reference count is zero has its data swept.
pub proof fn lemma_orphan_swept(m: Map<Seq<u8>, Seq<u8>>, muts: Seq<Seq<u8>>, h: Seq<u8>)
    requires
        spec_gc(m, Seq::<(Option<Seq<u8>>, Option<Seq<u8>>)>::empty(), muts) is Some,
        muts.contains(h),
        count_of(m, h) == 0,
    ensures
        !spec_gc(m, Seq::<(Option<Seq<u8>>, Option<Seq<u8>>)>::empty(), muts)->0.contains_key(
            data_key(h),
        ),
{
    let j = Seq::<(Option<Seq<u8>>, Option<Seq<u8>>)>::empty();
    assert(journal_news(j).len() == 0);
    assert(journal_prevs(j).len() == 0);
    assert(rc_fold((m, muts), journal_news(j), true) == Some((m, muts)));
    assert(rc_fold((m, muts), journal_prevs(j), false) == Some((m, muts)));
    lemma_sweep_removes(m, muts, h);
}

/// The set of head keys currently pointing at `h`.
pub open spec fn heads_at(m: Map<Seq<u8>, Seq<u8>>, h: Seq<u8>) -> Set<Seq<u8>> {
    m.dom().intersect(Set::new(|k: Seq<u8>| is_head_shape(k) && m[k] == h))
}

/// The store's byte map after a sequence of head operations: each op names
/// a head and points it at a hash, or clears it.
pub open spec fn run_heads(
    m: Map<Seq<u8>, Seq<u8>>,
    ops: Seq<(Seq<u8>, Option<Seq<u8>>)>,
) -> Map<Seq<u8>, Seq<u8>>
    decreases ops.len(),
{
    if ops.len() == 0 {
        m
    } else {
        let m1 = match ops[0].1 {
            Some(t) => m.insert(head_key(ops[0].0), t),
            None => m.remove(head_key(ops[0].0)),
        };
        run_heads(m1, ops.drop_first())
    }
}

/// The journal a sequence of head operations leaves behind: one record per
/// op, holding the new value and the value the head had at that moment.
pub open spec fn run_journal(
    m: Map<Seq<u8>, Seq<u8>>,
    ops: Seq<(Seq<u8>, Option<Seq<u8>>)>,
) -> Seq<(Option<Seq<u8>>, Option<Seq<u8>>)>
    decreases ops.len(),
{
    if ops.len() == 0 {
        Seq::empty()
    } else {
        let prev = if m.contains_key(head_key(ops[0].0)) {
            Some(m[head_key(ops[0].0)])
        } else {
            None
        };
        let m1 = match ops[0].1 {
            Some(t) => m.insert(head_key(ops[0].0), t),
            None => m.remove(head_key(ops[0].0)),
        };
        seq![(ops[0].1, prev)] + run_journal(m1, ops.drop_first())
    }
}

/// Head operations do not touch metadata records.
proof fn lemma_run_heads_meta(m: Map<Seq<u8>, Seq<u8>>, ops: Seq<(Seq<u8>, Option<Seq<u8>>)>)
    ensures
        forall|h: Seq<u8>| #[trigger] count_of(run_heads(m, ops), h) == count_of(m, h),
        flat(m) ==> flat(run_heads(m, ops)),
    decreases ops.len(),
{
    if ops.len() > 0 {
        let hk = head_key(ops[0].0);
        assert(!is_meta_shape(hk));
        let m1 = match ops[0].1 {
            Some(t) => m.insert(hk, t),
            None => m.remove(hk),
        };
        match ops[0].1 {
            Some(t) => {
                lemma_nonmeta_insert(m, hk, t);
            },
            None => {
                lemma_nonmeta_remove(m, hk);
            },
        }
        assert(flat(m) ==> flat(m1)) by {
            if flat(m) {
                assert forall|x: Seq<u8>| #![trigger meta_key(x)] meta_ok(m1, x) && refs_of(
                    m1,
                    x,
                ).len() == 0 by {
                    assert(refs_of(m1, x) == refs_of(m, x));
                    assert(meta_ok(m1, x) == meta_ok(m, x));
                }
            }
        }
        lemma_run_heads_meta(m1, ops.drop_first());
        assert forall|h: Seq<u8>| #[trigger] count_of(run_heads(m, ops), h) == count_of(
            m,
            h,
        ) by {
            assert(run_heads(m, ops) == run_heads(m1, ops.drop_first()));
            assert(count_of(run_heads(m1, ops.drop_first()), h) == count_of(m1, h));
            assert(count_of(m1, h) == count_of(m, h));
        }
    }
}

/// The balance a head-operation sequence strikes: for each hash, the
/// occurrences as a new head value, against the occurrences as a replaced
/// value plus the change in the number of heads pointing at it.
proof fn lemma_run_balance(
    m: Map<Seq<u8>, Seq<u8>>,
    ops: Seq<(Seq<u8>, Option<Seq<u8>>)>,
    h: Seq<u8>,
)
    requires
        m.dom().finite(),
    ensures
        run_heads(m, ops).dom().finite(),
        heads_at(m, h).finite(),
        heads_at(run_heads(m, ops), h).finite(),
        occ(journal_news(run_journal(m, ops)), h) + heads_at(m, h).len() == occ(
            journal_prevs(run_journal(m, ops)),
            h,
        ) + heads_at(run_heads(m, ops), h).len(),
    decreases ops.len(),
{
    assert(heads_at(m, h).finite());
    if ops.len() == 0 {
        assert(journal_news(run_journal(m, ops)).len() == 0);
        assert(journal_prevs(run_journal(m, ops)).len() == 0);
    } else {
        let hk = head_key(ops[0].0);
        assert(is_head_shape(hk));
        let prev = if m.contains_key(hk) {
            Some(m[hk])
        } else {
            None
        };
        let m1 = match ops[0].1 {
            Some(t) => m.insert(hk, t),
            None => m.remove(hk),
        };
        assert(m1.dom().finite());
        lemma_run_balance(m1, ops.drop_first(), h);
        let j = run_journal(m, ops);
        let jrest = run_journal(m1, ops.drop_first());
        assert(j == seq![(ops[0].1, prev)] + jrest);
        assert(j[0] == (ops[0].1, prev));
        assert(j.drop_first() =~= jrest);
        assert(journal_news(j) == (match ops[0].1 {
            Some(t) => seq![t] + journal_news(jrest),
            None => journal_news(jrest),
        }));
        assert(journal_prevs(j) == (match prev {
            Some(g) => seq![g] + journal_prevs(jrest),
            None => journal_prevs(jrest),
        }));
        match ops[0].1 {
            Some(t) => {
                assert((seq![t] + journal_news(jrest)).drop_first() =~= journal_news(jrest));
                assert(occ(journal_news(j), h) == occ(journal_news(jrest), h) + (if t == h {
                    1nat
                } else {
                    0nat
                }));
                if t == h {
                    if prev == Some(h) {
                        assert(heads_at(m1, h) =~= heads_at(m, h));
                    } else {
                        assert(heads_at(m1, h) =~= heads_at(m, h).insert(hk));
                        assert(!heads_at(m, h).contains(hk));
                    }
                } else {
                    if prev == Some(h) {
                        assert(heads_at(m1, h) =~= heads_at(m, h).remove(hk));
                        assert(heads_at(m, h).contains(hk));
                    } else {
                        assert(heads_at(m1, h) =~= heads_at(m, h));
                    }
                }
            },
            None => {
                if prev == Some(h) {
                    assert(heads_at(m1, h) =~= heads_at(m, h).remove(hk));
                    assert(heads_at(m, h).contains(hk));
                } else {
                    assert(heads_at(m1, h) =~= heads_at(m, h));
                }
            },
        }
        match prev {
            Some(g) => {
                assert((seq![g] + journal_prevs(jrest)).drop_first() =~= journal_prevs(jrest));
                assert(occ(journal_prevs(j), h) == occ(journal_prevs(jrest), h) + (if g == h {
                    1nat
                } else {
                    0nat
                }));
            },
            None => {},
        }
    }
}

/// Law: starting from a store whose metadata is flat and whose every
/// reference count equals the number of heads pointing at the hash, any
/// sequence of head operations followed by a commit leaves every reference
/// count equal to the number of heads then pointing at the hash — at least
/// one for every hash a named head currently points at. The bound keeps the
/// 16-bit count from wrapping; no chunks are written, so the mutated set is
/// empty and no chunk edges exist.
pub proof fn lemma_heads_only_commit(
    m: Map<Seq<u8>, Seq<u8>>,
    ops: Seq<(Seq<u8>, Option<Seq<u8>>)>,
)
    requires
        flat(m),
        m.dom().finite(),
        forall|h: Seq<u8>| #[trigger] count_of(m, h) == heads_at(m, h).len(),
        forall|h: Seq<u8>|
            #[trigger] count_of(m, h) + occ(journal_news(run_journal(m, ops)), h) <= 0xffff,
    ensures
        spec_gc(run_heads(m, ops), run_journal(m, ops), Seq::<Seq<u8>>::empty()) is Some,
        ({
            let mh = run_heads(m, ops);
            let mf = spec_gc(mh, run_journal(m, ops), Seq::<Seq<u8>>::empty())->0;
            &&& forall|h: Seq<u8>| #[trigger] count_of(mf, h) == heads_at(mf, h).len()
            &&& forall|n: Seq<u8>|
                #[trigger] mf.contains_key(head_key(n)) ==> count_of(mf, mf[head_key(n)]) >= 1
            &&& heads_same(mh, mf)
            &&& flat(mf)
        }),
{
    let mh = run_heads(m, ops);
    let j = run_journal(m, ops);
    lemma_run_heads_meta(m, ops);
    assert forall|h: Seq<u8>|
        #[trigger] count_of(mh, h) + occ(journal_news(j), h) >= occ(journal_prevs(j), h)
            && count_of(mh, h) + occ(journal_news(j), h) <= 0xffff by {
        lemma_run_balance(m, ops, h);
    }
    lemma_flat_commit_accounting(mh, j);
    let mf = spec_gc(mh, j, Seq::<Seq<u8>>::empty())->0;
    assert forall|h: Seq<u8>| #[trigger] count_of(mf, h) == heads_at(mf, h).len() by {
        lemma_run_balance(m, ops, h);
        assert(count_of(mf, h) == heads_at(mh, h).len());
        assert(heads_at(mf, h) =~= heads_at(mh, h)) by {
            assert forall|k: Seq<u8>|
                heads_at(mf, h).contains(k) == heads_at(mh, h).contains(k) by {
                if is_head_shape(k) {
                    assert(mf.contains_key(k) == mh.contains_key(k));
                }
            }
        }
    }
    assert forall|n: Seq<u8>| #[trigger] mf.contains_key(head_key(n)) implies count_of(
        mf,
        mf[head_key(n)],
    ) >= 1 by {
        let h = mf[head_key(n)];
        lemma_run_balance(m, ops, h);
        assert(heads_at(mf, h) =~= heads_at(mh, h)) by {
            assert forall|k: Seq<u8>|
                heads_at(mf, h).contains(k) == heads_at(mh, h).contains(k) by {
                if is_head_shape(k) {
                    assert(mf.contains_key(k) == mh.contains_key(k));
                }
            }
        }
        assert(is_head_shape(head_key(n)));
        assert(heads_at(mf, h).contains(head_key(n)));
        assert(heads_at(mf, h).len() >= 1);
    }
}

/// Whether `k` has the shape of a chunk-metadata key.
pub open spec fn is_meta_shape(k: Seq<u8>) -> bool {
    k.len() >= 2 && k[0] == 109u8 && k[1] == 47u8
}

/// Updating a key that is not a metadata key leaves every hash's recorded
/// references and count unchanged, and preserves store well-formedness.
pub proof fn lemma_nonmeta_insert(m: Map<Seq<u8>, Seq<u8>>, k: Seq<u8>, v: Seq<u8>)
    requires
        !is_meta_shape(k),
    ensures
        forall|h: Seq<u8>| #[trigger] refs_of(m.insert(k, v), h) == refs_of(m, h),
        forall|h: Seq<u8>| #[trigger] count_of(m.insert(k, v), h) == count_of(m, h),
        forall|h: Seq<u8>| #[trigger] meta_ok(m.insert(k, v), h) == meta_ok(m, h),
        meta_wf(m) ==> meta_wf(m.insert(k, v)),
{
    assert forall|h: Seq<u8>| meta_key(h) != k by {
        assert(meta_key(h)[0] == 109u8 && meta_key(h)[1] == 47u8 && meta_key(h).len() >= 2);
    }
    if meta_wf(m) {
        assert forall|h: Seq<u8>, i: int|
            0 <= i < refs_of(m.insert(k, v), h).len() implies (#[trigger] refs_of(
            m.insert(k, v),
            h,
        )[i]).len() < h.len() by {
            assert(refs_of(m.insert(k, v), h) == refs_of(m, h));
            assert(refs_of(m, h)[i].len() < h.len());
        }
    }
}

/// Removing a key that is not a metadata key leaves every hash's recorded
/// references and count unchanged, and preserves store well-formedness.
pub proof fn lemma_nonmeta_remove(m: Map<Seq<u8>, Seq<u8>>, k: Seq<u8>)
    requires
        !is_meta_shape(k),
    ensures
        forall|h: Seq<u8>| #[trigger] refs_of(m.remove(k), h) == refs_of(m, h),
        forall|h: Seq<u8>| #[trigger] count_of(m.remove(k), h) == count_of(m, h),
        forall|h: Seq<u8>| #[trigger] meta_ok(m.remove(k), h) == meta_ok(m, h),
        meta_wf(m) ==> meta_wf(m.remove(k)),
{
    assert forall|h: Seq<u8>| meta_key(h) != k by {
        assert(meta_key(h)[0] == 109u8 && meta_key(h)[1] == 47u8 && meta_key(h).len() >= 2);
    }
    if meta_wf(m) {
        assert forall|h: Seq<u8>, i: int|
            0 <= i < refs_of(m.remove(k), h).len() implies (#[trigger] refs_of(m.remove(k), h)[i]).len()
            < h.len() by {
            assert(refs_of(m.remove(k), h) == refs_of(m, h));
            assert(refs_of(m, h)[i].len() < h.len());
        }
    }
}

/// Writing a decodable metadata record under `h` whose references are all
/// shorter than `h` preserves store well-formedness, and other hashes keep
/// their records.
pub proof fn lemma_meta_insert(m: Map<Seq<u8>, Seq<u8>>, h: Seq<u8>, v: Seq<u8>)
    requires
        meta_wf(m),
        dec_meta(v) is Some,
        forall|i: int|
            0 <= i < dec_meta(v).unwrap().0.len() ==> (#[trigger] dec_meta(v).unwrap().0[i]).len()
                < h.len(),
    ensures
        meta_wf(m.insert(meta_key(h), v)),
        refs_of(m.insert(meta_key(h), v), h) == dec_meta(v).unwrap().0,
        count_of(m.insert(meta_key(h), v), h) == dec_meta(v).unwrap().1,
        meta_ok(m.insert(meta_key(h), v), h),
        forall|x: Seq<u8>|
            x != h ==> #[trigger] refs_of(m.insert(meta_key(h), v), x) == refs_of(m, x)
                && count_of(m.insert(meta_key(h), v), x) == count_of(m, x) && meta_ok(
                m.insert(meta_key(h), v),
                x,
            ) == meta_ok(m, x),
{
    let m1 = m.insert(meta_key(h), v);
    assert forall|x: Seq<u8>| x != h implies #[trigger] refs_of(m1, x) == refs_of(m, x) && count_of(
        m1,
        x,
    ) == count_of(m, x) && meta_ok(m1, x) == meta_ok(m, x) by {
        lemma_keys_injective(x, h);
    }
    assert forall|x: Seq<u8>, i: int|
        0 <= i < refs_of(m1, x).len() implies (#[trigger] refs_of(m1, x)[i]).len() < x.len() by {
        if x == h {
        } else {
            assert(refs_of(m1, x) == refs_of(m, x));
            assert(refs_of(m, x)[i].len() < x.len());
        }
    }
}

/// Removing the metadata record of `h` preserves store well-formedness and
/// leaves other hashes' records unchanged.
pub proof fn lemma_meta_remove(m: Map<Seq<u8>, Seq<u8>>, h: Seq<u8>)
    requires
        meta_wf(m),
    ensures
        meta_wf(m.remove(meta_key(h))),
        refs_of(m.remove(meta_key(h)), h) == Seq::<Seq<u8>>::empty(),
        count_of(m.remove(meta_key(h)), h) == 0,
        meta_ok(m.remove(meta_key(h)), h),
        forall|x: Seq<u8>|
            x != h ==> #[trigger] refs_of(m.remove(meta_key(h)), x) == refs_of(m, x) && count_of(
                m.remove(meta_key(h)),
                x,
            ) == count_of(m, x) && meta_ok(m.remove(meta_key(h)), x) == meta_ok(m, x),
{
    let m1 = m.remove(meta_key(h));
    assert forall|x: Seq<u8>| x != h implies #[trigger] refs_of(m1, x) == refs_of(m, x) && count_of(
        m1,
        x,
    ) == count_of(m, x) && meta_ok(m1, x) == meta_ok(m, x) by {
        lemma_keys_injective(x, h);
    }
    assert forall|x: Seq<u8>, i: int|
        0 <= i < refs_of(m1, x).len() implies (#[trigger] refs_of(m1, x)[i]).len() < x.len() by {
        if x == h {
        } else {
            assert(refs_of(m1, x) == refs_of(m, x));
            assert(refs_of(m, x)[i].len() < x.len());
        }
    }
}

/// A write transaction over the DAG store: owns the underlying key/value
/// transaction, the journal of head changes, and the set of chunk hashes
/// written by `put_chunk`. `commit` runs garbage collection and persists;
/// `rollback` discards everything.
pub struct Write {
    kvw: kv::WriteTx,
    changed_heads: Vec<HeadChange>,
    mutated_chunks: Vec<Vec<u8>>,
}

impl Write {
    /// The byte map as this transaction currently sees it.
    pub closed spec fn store(&self) -> Map<Seq<u8>, Seq<u8>> {
        self.kvw@
    }

    /// The byte map as it was when the transaction began.
    pub closed spec fn base_store(&self) -> Map<Seq<u8>, Seq<u8>> {
        self.kvw.base_view()
    }

    /// The journal of `(new, replaced)` head values, one entry per
    /// `set_head` call, in call order.
    pub closed spec fn journal(&self) -> Seq<(Option<Seq<u8>>, Option<Seq<u8>>)> {
        Seq::new(
            self.changed_heads@.len(),
            |i: int| (self.changed_heads@[i].new.deep_view(), self.changed_heads@[i].prev.deep_view()),
        )
    }

    /// The hashes written by `put_chunk` in this transaction.
    pub closed spec fn mutated(&self) -> Seq<Seq<u8>> {
        self.mutated_chunks.deep_view()
    }

    pub closed spec fn wf(&self) -> bool {
        self.kvw.wf() && meta_wf(self.store())
    }

    /// Takes exclusive ownership of a key/value write transaction.
    pub fn new(kvw: kv::WriteTx) -> (w: Write)
        requires
            kvw.wf(),
            meta_wf(kvw@),
        ensures
            w.wf(),
            w.store() == kvw@,
            w.base_store() == kvw.base_view(),
            w.journal() == Seq::<(Option<Seq<u8>>, Option<Seq<u8>>)>::empty(),
            w.mutated() == Seq::<Seq<u8>>::empty(),
    {
        let w = Write { kvw, changed_heads: Vec::new(), mutated_chunks: Vec::new() };
        proof {
            assert(w.journal() =~= Seq::<(Option<Seq<u8>>, Option<Seq<u8>>)>::empty());
            assert(w.mutated() =~= Seq::<Seq<u8>>::empty());
        }
        w
    }

    /// A transaction-local read view, observing uncommitted writes.
    pub fn read(&self) -> (r: Read<'_>)
        ensures
            r.store() == self.store(),
    {
        Read::new(&self.kvw)
    }

    /// Raw read of a byte key in the transaction's view, exposing the
    /// persisted key space (`h/<name>` for heads) for inspection.
    pub fn get_raw(&self, key: &Vec<u8>) -> (r: Option<Vec<u8>>)
        ensures
            r is Some <==> self.store().contains_key(key@),
            r matches Some(v) ==> self.store()[key@] == v@,
    {
        self.kvw.get(key)
    }

    /// The reference count currently recorded for `hash`; zero when no
    /// metadata record exists. Fails only on an undecodable record.
    pub fn get_ref_count(&self, hash: &Vec<u8>) -> (r: Result<u16, Error>)
        ensures
            r is Ok <==> meta_ok(self.store(), hash@),
            r matches Ok(c) ==> c == count_of(self.store(), hash@),
            r matches Err(e) ==> e == Error::CorruptMetadata,
    {
        match self.kvw.get(&meta_key_bytes(hash)) {
            None => Ok(0),
            Some(buf) => match decode_meta_record(&buf) {
                None => Err(Error::CorruptMetadata),
                Some(p) => Ok(p.1),
            },
        }
    }

    /// Rewrites the reference count recorded for `hash`, preserving its
    /// recorded references exactly; a record that would encode no references
    /// and a zero count is deleted instead. Fails only on an undecodable
    /// existing record, leaving the store unchanged.
    fn set_ref_count(&mut self, hash: &Vec<u8>, count: u16) -> (r: Result<(), Error>)
        requires
            old(self).wf(),
        ensures
            final(self).wf(),
            final(self).journal() == old(self).journal(),
            final(self).mutated() == old(self).mutated(),
            final(self).base_store() == old(self).base_store(),
            r is Ok <==> meta_ok(old(self).store(), hash@),
            r is Ok ==> final(self).store() == set_rc(old(self).store(), hash@, count),
            r is Err ==> final(self).store() == old(self).store() && r == Err::<(), Error>(
                Error::CorruptMetadata,
            ),
    {
        let mk = meta_key_bytes(hash);
        let existing = self.kvw.get(&mk);
        match existing {
            Some(buf) => {
                match decode_meta_record(&buf) {
                    None => Err(Error::CorruptMetadata),
                    Some(p) => {
                        let refs = p.0;
                        proof {
                            assert(refs.deep_view() == refs_of(old(self).store(), hash@));
                        }
                        match create_meta_record(&refs, count) {
                            None => {
                                self.kvw.del(mk);
                                proof {
                                    lemma_meta_remove(old(self).store(), hash@);
                                }
                                Ok(())
                            },
                            Some(buf2) => {
                                proof {
                                    let rdv = refs.deep_view();
                                    assert(usize::MAX < pow256(8)) by {
                                        reveal_with_fuel(pow256, 9);
                                    }
                                    assert forall|i: int|
                                        0 <= i < rdv.len() implies (#[trigger] rdv[i]).len()
                                        < pow256(8) by {
                                        crate::bytes::lemma_deep_view_index(refs, i);
                                    }
                                    lemma_dec_enc_meta(rdv, count);
                                    assert(forall|i: int|
                                        0 <= i < rdv.len() ==> (#[trigger] rdv[i]).len()
                                            < hash@.len()) by {
                                        assert(forall|i: int|
                                            0 <= i < rdv.len() ==> (#[trigger] refs_of(
                                                old(self).store(),
                                                hash@,
                                            )[i]).len() < hash@.len());
                                    }
                                    lemma_meta_insert(old(self).store(), hash@, buf2@);
                                }
                                self.kvw.put(mk, buf2);
                                Ok(())
                            },
                        }
                    },
                }
            },
            None => {
                let empty_refs: Vec<Vec<u8>> = Vec::new();
                proof {
                    assert(empty_refs.deep_view() =~= Seq::<Seq<u8>>::empty());
                    assert(refs_of(old(self).store(), hash@) =~= Seq::<Seq<u8>>::empty());
                }
                match create_meta_record(&empty_refs, count) {
                    None => {
                        proof {
                            assert(old(self).store().remove(meta_key(hash@)) =~= old(
                                self,
                            ).store());
                        }
                        Ok(())
                    },
                    Some(buf2) => {
                        proof {
                            lemma_dec_enc_meta(empty_refs.deep_view(), count);
                            lemma_meta_insert(old(self).store(), hash@, buf2@);
                        }
                        self.kvw.put(mk, buf2);
                        Ok(())
                    },
                }
            },
        }
    }

    /// Deletes both the data and the metadata record of `hash`; when
    /// `update_mutated` is set, also drops `hash` from the mutated set so the
    /// orphan sweep does not re-examine a chunk already deleted.
    fn remove_all_related_keys(&mut self, hash: &Vec<u8>, update_mutated: bool)
        requires
            old(self).wf(),
        ensures
            final(self).wf(),
            final(self).journal() == old(self).journal(),
            final(self).base_store() == old(self).base_store(),
            (final(self).store(), final(self).mutated()) == remove_related(
                (old(self).store(), old(self).mutated()),
                hash@,
                update_mutated,
            ),
    {
        let dk = data_key_bytes(hash);
        let mk = meta_key_bytes(hash);
        self.kvw.del(dk);
        self.kvw.del(mk);
        proof {
            lemma_nonmeta_remove(old(self).store(), data_key(hash@));
            lemma_meta_remove(old(self).store().remove(data_key(hash@)), hash@);
        }
        if update_mutated {
            let ghost muts = self.mutated();
            let n = self.mutated_chunks.len();
            let mut kept: Vec<Vec<u8>> = Vec::new();
            let mut i: usize = 0;
            proof {
                assert(kept.deep_view() =~= without(muts.take(0), hash@));
            }
            while i < n
                invariant
                    n == self.mutated_chunks.len(),
                    muts == self.mutated(),
                    0 <= i <= n,
                    kept.deep_view() == without(muts.take(i as int), hash@),
                decreases n - i,
            {
                let ghost kept0 = kept.deep_view();
                proof {
                    crate::bytes::lemma_deep_view_index(self.mutated_chunks, i as int);
                }
                let hit = bytes_eq(&self.mutated_chunks[i], hash);
                if !hit {
                    let cl = bytes_clone(&self.mutated_chunks[i]);
                    proof {
                        crate::bytes::lemma_vec_views(cl);
                    }
                    kept.push(cl);
                }
                proof {
                    assert(muts.take(i + 1).drop_last() =~= muts.take(i as int));
                    assert(muts.take(i + 1).last() == muts[i as int]);
                    assert(hit == (muts[i as int] == hash@));
                    if !hit {
                        assert(kept.deep_view() =~= kept0.push(muts[i as int]));
                    }
                }
                i += 1;
            }
            proof {
                assert(muts.take(n as int) =~= muts);
            }
            self.mutated_chunks = kept;
        }
    }

    /// Writes a chunk: its data always, and — when it has references — its
    /// metadata record. Re-putting a chunk that is already referenced keeps
    /// the live reference count: the record is re-encoded with the current
    /// count, never reset. The hash joins the transaction's mutated set.
    pub fn put_chunk(&mut self, c: &Chunk) -> (r: Result<(), Error>)
        requires
            old(self).wf(),
            c.wf(),
        ensures
            final(self).wf(),
            final(self).journal() == old(self).journal(),
            final(self).base_store() == old(self).base_store(),
            r is Ok <==> (c.spec_refs().len() == 0 || meta_ok(old(self).store(), c.spec_hash())),
            r is Ok ==> final(self).store() == (if c.spec_refs().len() == 0 {
                old(self).store().insert(data_key(c.spec_hash()), c.spec_data())
            } else {
                old(self).store().insert(data_key(c.spec_hash()), c.spec_data()).insert(
                    meta_key(c.spec_hash()),
                    enc_meta(c.spec_refs(), count_of(old(self).store(), c.spec_hash())),
                )
            }),
            r is Ok ==> final(self).mutated() == (if old(self).mutated().contains(c.spec_hash()) {
                old(self).mutated()
            } else {
                old(self).mutated().push(c.spec_hash())
            }),
            forall|x: Seq<u8>|
                #[trigger] count_of(final(self).store(), x) == count_of(old(self).store(), x),
            r is Err ==> final(self).store() == old(self).store().insert(
                data_key(c.spec_hash()),
                c.spec_data(),
            ) && final(self).mutated() == old(self).mutated() && r == Err::<(), Error>(
                Error::CorruptMetadata,
            ),
    {
        let dk = data_key_bytes(c.hash());
        self.kvw.put(dk, bytes_clone(c.data()));
        proof {
            lemma_nonmeta_insert(old(self).store(), data_key(c.spec_hash()), c.spec_data());
        }
        match c.meta() {
            None => {},
            Some(buf) => {
                // put_chunk must not change the chunk's live reference count:
                // re-encode the record with the count already in the store.
                let c0 = match self.get_ref_count(c.hash()) {
                    Err(e) => {
                        return Err(e);
                    },
                    Ok(c0) => c0,
                };
                let ghost m1 = self.store();
                let written: Vec<u8>;
                if c0 != 0 {
                    match create_meta_record(c.refs(), c0) {
                        None => {
                            proof {
                                assert(false);
                            }
                            return Err(Error::CorruptMetadata);
                        },
                        Some(buf2) => {
                            written = buf2;
                        },
                    }
                } else {
                    written = buf;
                }
                proof {
                    assert(written@ == enc_meta(c.spec_refs(), c0));
                    let rdv = c.spec_refs();
                    assert(usize::MAX < pow256(8)) by {
                        reveal_with_fuel(pow256, 9);
                    }
                    c.lemma_ref_shorter_than_hash();
                    assert(forall|i: int|
                        0 <= i < rdv.len() ==> (#[trigger] rdv[i]).len() < pow256(8));
                    lemma_dec_enc_meta(rdv, c0);
                    lemma_meta_insert(m1, c.spec_hash(), written@);
                }
                let mk = meta_key_bytes(c.hash());
                self.kvw.put(mk, written);
                proof {
                    assert forall|x: Seq<u8>|
                        #[trigger] count_of(self.store(), x) == count_of(
                            old(self).store(),
                            x,
                        ) by {
                        if x == c.spec_hash() {
                            assert(count_of(self.store(), x) == c0);
                        } else {
                            assert(count_of(self.store(), x) == count_of(m1, x));
                        }
                    }
                }
            },
        }
        // record the hash in the mutated set, once
        let ghost muts = self.mutated();
        let n = self.mutated_chunks.len();
        let mut found = false;
        let mut i: usize = 0;
        while i < n
            invariant
                n == self.mutated_chunks.len(),
                muts == self.mutated(),
                0 <= i <= n,
                found == exists|j: int| 0 <= j < i && #[trigger] muts[j] == c.spec_hash(),
            decreases n - i,
        {
            proof {
                crate::bytes::lemma_deep_view_index(self.mutated_chunks, i as int);
            }
            if bytes_eq(&self.mutated_chunks[i], c.hash()) {
                proof {
                    assert(muts[i as int] == c.spec_hash());
                }
                found = true;
            }
            i += 1;
        }
        proof {
            assert(muts.len() == n);
        }
        if !found {
            proof {
                assert(!muts.contains(c.spec_hash()));
            }
            let ghost pre = self.mutated();
            let cl = bytes_clone(c.hash());
            proof {
                crate::bytes::lemma_vec_views(cl);
            }
            self.mutated_chunks.push(cl);
            proof {
                assert(self.mutated() =~= pre.push(c.spec_hash()));
            }
        } else {
            proof {
                assert(muts.contains(c.spec_hash()));
            }
        }
        Ok(())
    }

    /// Points the head `name` at `hash` (or deletes it for `None`), and
    /// journals the change together with the value the head had before.
    pub fn set_head(&mut self, name: &Vec<u8>, hash: Option<&Vec<u8>>) -> (r: Result<(), Error>)
        requires
            old(self).wf(),
        ensures
            final(self).wf(),
            r is Ok,
            final(self).mutated() == old(self).mutated(),
            final(self).base_store() == old(self).base_store(),
            final(self).store() == (match hash {
                Some(h) => old(self).store().insert(head_key(name@), h@),
                None => old(self).store().remove(head_key(name@)),
            }),
            final(self).journal() == old(self).journal().push(
                (
                    match hash {
                        Some(h) => Some(h@),
                        None => None,
                    },
                    if old(self).store().contains_key(head_key(name@)) {
                        Some(old(self).store()[head_key(name@)])
                    } else {
                        None
                    },
                ),
            ),
    {
        let prev = self.read().get_head(name);
        let hk = head_key_bytes(name);
        match hash {
            None => self.kvw.del(hk),
            Some(h) => self.kvw.put(hk, bytes_clone(h)),
        }
        proof {
            if hash is Some {
                lemma_nonmeta_insert(
                    old(self).store(),
                    head_key(name@),
                    match hash {
                        Some(h) => h@,
                        None => Seq::empty(),
                    },
                );
            } else {
                lemma_nonmeta_remove(old(self).store(), head_key(name@));
            }
        }
        let newv: Option<Vec<u8>> = match hash {
            Some(h) => {
                let cl = bytes_clone(h);
                proof {
                    crate::bytes::lemma_vec_views(cl);
                }
                Some(cl)
            },
            None => None,
        };
        let ghost newdv = newv.deep_view();
        let ghost prevdv = prev.deep_view();
        proof {
            assert(newdv == (match hash {
                Some(h) => Some(h@),
                None => None::<Seq<u8>>,
            }));
            if prev is Some {
                crate::bytes::lemma_vec_views(prev->Some_0);
            }
            assert(prevdv == (if old(self).store().contains_key(head_key(name@)) {
                Some(old(self).store()[head_key(name@)])
            } else {
                None
            }));
        }
        let ghost jpre = self.journal();
        self.changed_heads.push(HeadChange { new: newv, prev });
        proof {
            assert(self.journal() =~= jpre.push((newdv, prevdv)));
        }
        Ok(())
    }

    /// Changes the reference count of `hash` by one. When the count crosses
    /// the 0/1 boundary the change cascades into the chunk's recorded
    /// references, since only then does the chunk's own reachability change;
    /// a count that reaches zero deletes the chunk and its record. The whole
    /// walk equals the one step of `rc_step` on the transaction state.
    #[verifier::loop_isolation(false)]
    fn change_ref_count(&mut self, hash: &Vec<u8>, inc: bool) -> (r: Result<(), Error>)
        requires
            old(self).wf(),
        ensures
            final(self).wf(),
            final(self).journal() == old(self).journal(),
            final(self).base_store() == old(self).base_store(),
            r is Ok ==> forall|fuel: nat|
                #![trigger rc_step((old(self).store(), old(self).mutated()), hash@, inc, fuel)]
                fuel > hash@.len() ==> rc_step(
                    (old(self).store(), old(self).mutated()),
                    hash@,
                    inc,
                    fuel,
                ) == Some((final(self).store(), final(self).mutated())),
            r is Err ==> (forall|fuel: nat|
                #![trigger rc_step((old(self).store(), old(self).mutated()), hash@, inc, fuel)]
                fuel > hash@.len() ==> rc_step(
                    (old(self).store(), old(self).mutated()),
                    hash@,
                    inc,
                    fuel,
                ) is None) && r == Err::<(), Error>(Error::CorruptMetadata),
        decreases hash@.len(),
    {
        let ghost s0 = (old(self).store(), old(self).mutated());
        let c0 = match self.get_ref_count(hash) {
            Err(e) => {
                return Err(e);
            },
            Ok(c) => c,
        };
        let boundary = (c0 == 0 && inc) || (c0 == 1 && !inc);
        if boundary {
            // the chunk becomes reachable or unreachable: cascade
            let mk = meta_key_bytes(hash);
            let buf_opt = self.kvw.get(&mk);
            match buf_opt {
                None => {
                    proof {
                        assert(refs_of(s0.0, hash@) =~= Seq::<Seq<u8>>::empty());
                        assert(forall|fuel: nat|
                            rc_list(s0, refs_of(s0.0, hash@), inc, fuel) == Some(s0));
                    }
                },
                Some(buf) => {
                    let refs = match decode_meta_record(&buf) {
                        None => {
                            proof {
                                assert(false);
                            }
                            return Err(Error::CorruptMetadata);
                        },
                        Some(p) => p.0,
                    };
                    let ghost rdv = refs.deep_view();
                    proof {
                        assert(rdv == refs_of(s0.0, hash@));
                        assert forall|j: int| 0 <= j < rdv.len() implies (#[trigger] rdv[j]).len()
                            < hash@.len() by {
                            assert(refs_of(s0.0, hash@)[j].len() < hash@.len());
                        }
                        assert(rdv.skip(0) =~= rdv);
                    }
                    let n = refs.len();
                    let mut i: usize = 0;
                    while i < n
                        invariant
                            n == refs.len(),
                            rdv == refs.deep_view(),
                            0 <= i <= n,
                            self.wf(),
                            self.journal() == old(self).journal(),
                            self.base_store() == old(self).base_store(),
                            forall|j: int|
                                0 <= j < rdv.len() ==> (#[trigger] rdv[j]).len() < hash@.len(),
                            forall|fuel: nat|
                                #![trigger rc_list(s0, rdv, inc, fuel)]
                                fuel >= hash@.len() ==> rc_list(s0, rdv, inc, fuel) == rc_list(
                                    (self.store(), self.mutated()),
                                    rdv.skip(i as int),
                                    inc,
                                    fuel,
                                ),
                        decreases n - i,
                    {
                        let ghost s_mid = (self.store(), self.mutated());
                        proof {
                            crate::bytes::lemma_deep_view_index(refs, i as int);
                        }
                        let res = self.change_ref_count(&refs[i], inc);
                        match res {
                            Err(e) => {
                                proof {
                                    assert forall|fuel: nat| fuel > hash@.len() implies rc_step(
                                        s0,
                                        hash@,
                                        inc,
                                        fuel,
                                    ) is None by {
                                        let f1 = (fuel - 1) as nat;
                                        assert(f1 >= hash@.len());
                                        assert(rc_step(s_mid, rdv[i as int], inc, f1) is None);
                                        assert(rdv.skip(i as int)[0] == rdv[i as int]);
                                        assert(rc_list(s_mid, rdv.skip(i as int), inc, f1)
                                            is None);
                                        assert(rc_list(s0, rdv, inc, f1) is None);
                                    }
                                }
                                return Err(e);
                            },
                            Ok(()) => {
                                proof {
                                    assert forall|fuel: nat| fuel >= hash@.len() implies rc_list(
                                        s0,
                                        rdv,
                                        inc,
                                        fuel,
                                    ) == rc_list(
                                        (self.store(), self.mutated()),
                                        rdv.skip(i + 1),
                                        inc,
                                        fuel,
                                    ) by {
                                        assert(rc_step(s_mid, rdv[i as int], inc, fuel) == Some(
                                            (self.store(), self.mutated()),
                                        ));
                                        assert(rdv.skip(i as int)[0] == rdv[i as int]);
                                        assert(rdv.skip(i as int).drop_first() =~= rdv.skip(
                                            i + 1,
                                        ));
                                    }
                                }
                            },
                        }
                        i += 1;
                    }
                    proof {
                        assert(rdv.skip(n as int) =~= Seq::<Seq<u8>>::empty());
                        assert forall|fuel: nat| fuel >= hash@.len() implies rc_list(
                            s0,
                            refs_of(s0.0, hash@),
                            inc,
                            fuel,
                        ) == Some((self.store(), self.mutated())) by {
                            assert(rc_list(s0, rdv, inc, fuel) == rc_list(
                                (self.store(), self.mutated()),
                                rdv.skip(n as int),
                                inc,
                                fuel,
                            ));
                        }
                    }
                },
            }
        }
        // apply the change to this hash's own count
        let ghost s1 = (self.store(), self.mutated());
        if !inc && c0 == 1 {
            self.remove_all_related_keys(hash, true);
            proof {
                assert forall|fuel: nat| fuel > hash@.len() implies rc_step(s0, hash@, inc, fuel)
                    == Some((self.store(), self.mutated())) by {
                    let f1 = (fuel - 1) as nat;
                    if boundary {
                        assert(f1 >= hash@.len());
                        assert(rc_list(s0, refs_of(s0.0, hash@), inc, f1) == Some(s1));
                    }
                    assert((self.store(), self.mutated()) == remove_related(s1, hash@, true));
                }
            }
            Ok(())
        } else {
            let nc: u16 = if inc {
                if c0 == 0xffffu16 {
                    0
                } else {
                    c0 + 1
                }
            } else {
                if c0 == 0 {
                    0xffffu16
                } else {
                    c0 - 1
                }
            };
            proof {
                assert(nc == next_count(c0, inc));
            }
            match self.set_ref_count(hash, nc) {
                Err(e) => {
                    proof {
                        assert(!meta_ok(s1.0, hash@));
                        assert forall|fuel: nat| fuel > hash@.len() implies rc_step(
                            s0,
                            hash@,
                            inc,
                            fuel,
                        ) is None by {
                            let f1 = (fuel - 1) as nat;
                            if boundary {
                                assert(f1 >= hash@.len());
                                assert(rc_list(s0, refs_of(s0.0, hash@), inc, f1) == Some(s1));
                            }
                        }
                    }
                    Err(e)
                },
                Ok(()) => {
                    proof {
                        assert forall|fuel: nat| fuel > hash@.len() implies rc_step(
                            s0,
                            hash@,
                            inc,
                            fuel,
                        ) == Some((self.store(), self.mutated())) by {
                            let f1 = (fuel - 1) as nat;
                            if boundary {
                                assert(f1 >= hash@.len());
                                assert(rc_list(s0, refs_of(s0.0, hash@), inc, f1) == Some(s1));
                            }
                            assert(self.store() == set_rc(s1.0, hash@, nc));
                        }
                    }
                    Ok(())
                },
            }
        }
    }

    /// The collection pass run by `commit`: replays the head-change journal
    /// (all increments, then all decrements), then sweeps the mutated set
    /// for chunks left unreachable.
    #[verifier::loop_isolation(false)]
    fn collect_garbage(&mut self) -> (r: Result<(), Error>)
        requires
            old(self).wf(),
        ensures
            final(self).wf(),
            final(self).base_store() == old(self).base_store(),
            r is Ok ==> spec_gc(old(self).store(), old(self).journal(), old(self).mutated())
                == Some(final(self).store()),
            r is Err ==> spec_gc(old(self).store(), old(self).journal(), old(self).mutated())
                is None && r == Err::<(), Error>(Error::CorruptMetadata),
    {
        let ghost jv = old(self).journal();
        let ghost s0 = (old(self).store(), old(self).mutated());
        // all increments strictly before all decrements, so that a chunk
        // whose count passes 1 -> 0 -> 1 is never reaped
        let n = self.changed_heads.len();
        let mut i: usize = 0;
        proof {
            assert(jv.skip(0) =~= jv);
        }
        while i < n
            invariant
                0 <= i <= n,
                self.wf(),
                self.journal() == jv,
                n == jv.len(),
                self.base_store() == old(self).base_store(),
                rc_fold(s0, journal_news(jv), true) == rc_fold(
                    (self.store(), self.mutated()),
                    journal_news(jv.skip(i as int)),
                    true,
                ),
            decreases n - i,
        {
            proof {
                assert(jv.skip(i as int)[0] == jv[i as int]);
                assert(jv.skip(i as int).drop_first() =~= jv.skip(i + 1));
                assert(jv[i as int].0 == self.changed_heads@[i as int].new.deep_view());
            }
            let h_opt: Option<Vec<u8>> = match &self.changed_heads[i].new {
                Some(h) => {
                    let cl = bytes_clone(h);
                    proof {
                        crate::bytes::lemma_vec_views(cl);
                    }
                    Some(cl)
                },
                None => None,
            };
            match h_opt {
                None => {},
                Some(h) => {
                    let ghost s_mid = (self.store(), self.mutated());
                    proof {
                        assert(jv[i as int].0 == Some(h@));
                        assert(journal_news(jv.skip(i as int)) == seq![h@] + journal_news(
                            jv.skip(i + 1),
                        ));
                    }
                    match self.change_ref_count(&h, true) {
                        Err(e) => {
                            proof {
                                let hs = journal_news(jv.skip(i as int));
                                assert(hs[0] == h@);
                                assert(rc_step(s_mid, h@, true, h@.len() + 1) is None);
                                assert(rc_fold(s_mid, hs, true) is None);
                            }
                            return Err(e);
                        },
                        Ok(()) => {
                            proof {
                                let hs = journal_news(jv.skip(i as int));
                                assert(hs[0] == h@);
                                assert(hs.drop_first() =~= journal_news(jv.skip(i + 1)));
                                assert(rc_step(s_mid, h@, true, h@.len() + 1) == Some(
                                    (self.store(), self.mutated()),
                                ));
                            }
                        },
                    }
                },
            }
            i += 1;
        }
        proof {
            assert(jv.skip(n as int) =~= Seq::<(Option<Seq<u8>>, Option<Seq<u8>>)>::empty());
        }
        let ghost s_a = (self.store(), self.mutated());
        // decrements for every replaced head value
        let mut i2: usize = 0;
        while i2 < n
            invariant
                0 <= i2 <= n,
                self.wf(),
                self.journal() == jv,
                n == jv.len(),
                self.base_store() == old(self).base_store(),
                rc_fold(s_a, journal_prevs(jv), false) == rc_fold(
                    (self.store(), self.mutated()),
                    journal_prevs(jv.skip(i2 as int)),
                    false,
                ),
                rc_fold(s0, journal_news(jv), true) == Some(s_a),
            decreases n - i2,
        {
            proof {
                assert(jv.skip(i2 as int)[0] == jv[i2 as int]);
                assert(jv.skip(i2 as int).drop_first() =~= jv.skip(i2 + 1));
                assert(jv[i2 as int].1 == self.changed_heads@[i2 as int].prev.deep_view());
            }
            let h_opt: Option<Vec<u8>> = match &self.changed_heads[i2].prev {
                Some(h) => {
                    let cl = bytes_clone(h);
                    proof {
                        crate::bytes::lemma_vec_views(cl);
                    }
                    Some(cl)
                },
                None => None,
            };
            match h_opt {
                None => {},
                Some(h) => {
                    let ghost s_mid = (self.store(), self.mutated());
                    proof {
                        assert(jv[i2 as int].1 == Some(h@));
                        assert(journal_prevs(jv.skip(i2 as int)) == seq![h@] + journal_prevs(
                            jv.skip(i2 + 1),
                        ));
                    }
                    match self.change_ref_count(&h, false) {
                        Err(e) => {
                            proof {
                                let hs = journal_prevs(jv.skip(i2 as int));
                                assert(hs[0] == h@);
                                assert(rc_step(s_mid, h@, false, h@.len() + 1) is None);
                                assert(rc_fold(s_mid, hs, false) is None);
                            }
                            return Err(e);
                        },
                        Ok(()) => {
                            proof {
                                let hs = journal_prevs(jv.skip(i2 as int));
                                assert(hs[0] == h@);
                                assert(hs.drop_first() =~= journal_prevs(jv.skip(i2 + 1)));
                                assert(rc_step(s_mid, h@, false, h@.len() + 1) == Some(
                                    (self.store(), self.mutated()),
                                ));
                            }
                        },
                    }
                },
            }
            i2 += 1;
        }
        proof {
            assert(jv.skip(n as int) =~= Seq::<(Option<Seq<u8>>, Option<Seq<u8>>)>::empty());
        }
        let ghost s2 = (self.store(), self.mutated());
        // sweep the mutated set for chunks that ended up unreachable
        let m = self.mutated_chunks.len();
        let mut k: usize = 0;
        proof {
            assert(s2.1.skip(0) =~= s2.1);
        }
        while k < m
            invariant
                0 <= k <= m,
                self.wf(),
                self.base_store() == old(self).base_store(),
                self.mutated() == s2.1,
                m == self.mutated_chunks.len(),
                rc_fold(s0, journal_news(jv), true) == Some(s_a),
                rc_fold(s_a, journal_prevs(jv), false) == Some(s2),
                sweep(s2.0, s2.1) == (match sweep(self.store(), s2.1.skip(k as int)) {
                    None => None::<Map<Seq<u8>, Seq<u8>>>,
                    Some(mm) => Some(mm),
                }),
            decreases m - k,
        {
            proof {
                crate::bytes::lemma_deep_view_index(self.mutated_chunks, k as int);
                assert(s2.1.skip(k as int)[0] == s2.1[k as int]);
                assert(s2.1.skip(k as int).drop_first() =~= s2.1.skip(k + 1));
            }
            let h = bytes_clone(&self.mutated_chunks[k]);
            proof {
                crate::bytes::lemma_vec_views(h);
                assert(h@ == s2.1[k as int]);
            }
            match self.get_ref_count(&h) {
                Err(e) => {
                    proof {
                        assert(sweep(self.store(), s2.1.skip(k as int)) is None);
                    }
                    return Err(e);
                },
                Ok(c) => {
                    if c == 0 {
                        let ghost m_mid = self.store();
                        self.remove_all_related_keys(&h, false);
                        proof {
                            assert(self.store() == m_mid.remove(data_key(h@)).remove(
                                meta_key(h@),
                            ));
                            assert(sweep(m_mid, s2.1.skip(k as int)) == sweep(
                                self.store(),
                                s2.1.skip(k + 1),
                            ));
                        }
                    } else {
                        proof {
                            assert(sweep(self.store(), s2.1.skip(k as int)) == sweep(
                                self.store(),
                                s2.1.skip(k + 1),
                            ));
                        }
                    }
                },
            }
            k += 1;
        }
        proof {
            assert(s2.1.skip(m as int) =~= Seq::<Seq<u8>>::empty());
            assert(sweep(self.store(), s2.1.skip(m as int)) == Some(self.store()));
        }
        Ok(())
    }

    /// Runs garbage collection over the journaled head changes and the
    /// mutated set, then persists the transaction. The committed store is
    /// exactly the collection result `spec_gc` of the transaction's state.
    pub fn commit(self) -> (r: Result<kv::Store, Error>)
        requires
            self.wf(),
        ensures
            r matches Ok(s) ==> spec_gc(self.store(), self.journal(), self.mutated()) == Some(s@)
                && meta_wf(s@),
            r is Err ==> spec_gc(self.store(), self.journal(), self.mutated()) is None && r
                == Err::<kv::Store, Error>(Error::CorruptMetadata),
    {
        let mut w = self;
        match w.collect_garbage() {
            Err(e) => Err(e),
            Ok(()) => Ok(w.kvw.commit()),
        }
    }

    /// Discards the transaction: the store is returned as it was when the
    /// transaction began.
    pub fn rollback(self) -> (s: kv::Store)
        requires
            self.wf(),
        ensures
            s@ == self.base_store(),
    {
        self.kvw.rollback()
    }
}

} // verus!
