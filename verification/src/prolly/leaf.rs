use vstd::prelude::*;
use crate::bytes::{bytes_extend, lemma_vec_views};
use crate::codec::{
    be_to_nat, bytes_slice, lemma_be_roundtrip, lemma_nat_to_be_len, nat_to_be, pow256, push_be,
    read_be,
};
use crate::dag::chunk::Chunk;
use super::{entries_view, Entry};

verus! {

/// One leaf entry, encoded as two length-prefixed byte strings: the key,
/// then the value.
pub open spec fn enc_entry(e: (Seq<u8>, Seq<u8>)) -> Seq<u8> {
    nat_to_be(e.0.len(), 8) + e.0 + nat_to_be(e.1.len(), 8) + e.1
}

/// A leaf's data bytes: the concatenation of its encoded entries, in order.
pub open spec fn enc_entries(es: Seq<(Seq<u8>, Seq<u8>)>) -> Seq<u8>
    decreases es.len(),
{
    if es.len() == 0 {
        Seq::empty()
    } else {
        enc_entry(es[0]) + enc_entries(es.drop_first())
    }
}

pub proof fn lemma_enc_entries_push(es: Seq<(Seq<u8>, Seq<u8>)>, x: (Seq<u8>, Seq<u8>))
    ensures
        enc_entries(es.push(x)) == enc_entries(es) + enc_entry(x),
    decreases es.len(),
{
    if es.len() == 0 {
        assert(es.push(x)[0] == x);
        assert(es.push(x).drop_first() =~= es);
        assert(enc_entries(es.push(x)) =~= enc_entries(es) + enc_entry(x));
    } else {
        assert(es.push(x).drop_first() =~= es.drop_first().push(x));
        lemma_enc_entries_push(es.drop_first(), x);
        assert(es.push(x)[0] == es[0]);
        assert(enc_entries(es.push(x)) =~= enc_entries(es) + enc_entry(x));
    }
}

/// Decodes a leaf's data bytes into entries. The decoder is tolerant: a
/// malformed or truncated tail yields no further entries rather than an
/// error.
pub open spec fn dec_entries(v: Seq<u8>) -> Seq<(Seq<u8>, Seq<u8>)>
    decreases v.len(),
{
    if v.len() < 8 {
        Seq::empty()
    } else {
        let kn = be_to_nat(v.take(8)) as int;
        if v.len() - 8 < kn {
            Seq::empty()
        } else {
            let key = v.subrange(8, 8 + kn);
            let rest = v.skip(8 + kn);
            if rest.len() < 8 {
                Seq::empty()
            } else {
                let vn = be_to_nat(rest.take(8)) as int;
                if rest.len() - 8 < vn {
                    Seq::empty()
                } else {
                    seq![(key, rest.subrange(8, 8 + vn))] + dec_entries(rest.skip(8 + vn))
                }
            }
        }
    }
}

/// Decoding inverts encoding of a leaf's entries.
pub proof fn lemma_dec_enc_entries(es: Seq<(Seq<u8>, Seq<u8>)>)
    requires
        forall|i: int|
            0 <= i < es.len() ==> (#[trigger] es[i]).0.len() < pow256(8) && es[i].1.len() < pow256(
                8,
            ),
    ensures
        dec_entries(enc_entries(es)) == es,
    decreases es.len(),
{
    if es.len() == 0 {
        assert(dec_entries(enc_entries(es)) =~= es);
    } else {
        let k = es[0].0;
        let val = es[0].1;
        let tail = enc_entries(es.drop_first());
        let e = enc_entries(es);
        lemma_nat_to_be_len(k.len(), 8);
        lemma_nat_to_be_len(val.len(), 8);
        lemma_be_roundtrip(k.len(), 8);
        lemma_be_roundtrip(val.len(), 8);
        assert(e =~= nat_to_be(k.len(), 8) + k + nat_to_be(val.len(), 8) + val + tail);
        assert(e.len() == 16 + k.len() + val.len() + tail.len());
        assert(e.take(8) =~= nat_to_be(k.len(), 8));
        let kn = be_to_nat(e.take(8)) as int;
        assert(kn == k.len());
        assert(e.subrange(8, 8 + kn) =~= k);
        let rest = e.skip(8 + kn);
        assert(rest =~= nat_to_be(val.len(), 8) + val + tail);
        assert(rest.take(8) =~= nat_to_be(val.len(), 8));
        let vn = be_to_nat(rest.take(8)) as int;
        assert(vn == val.len());
        assert(rest.subrange(8, 8 + vn) =~= val);
        assert(rest.skip(8 + vn) =~= tail);
        lemma_dec_enc_entries(es.drop_first());
        assert(seq![(k, val)] + es.drop_first() =~= es);
    }
}

/// A leaf node of the map: an immutable ordered sequence of key/value
/// entries, encoded as the data bytes of one chunk with no references.
#[derive(Debug)]
pub struct Leaf {
    chunk: Chunk,
}

impl Leaf {
    pub closed spec fn spec_chunk(&self) -> Chunk {
        self.chunk
    }

    /// The entries this leaf's chunk holds.
    pub open spec fn entries(&self) -> Seq<(Seq<u8>, Seq<u8>)> {
        dec_entries(self.spec_chunk().spec_data())
    }

    /// The chunk the leaf wraps.
    pub fn chunk(&self) -> (r: &Chunk)
        ensures
            *r == self.spec_chunk(),
    {
        &self.chunk
    }

    /// Builds a leaf whose chunk encodes the entries in input order, with
    /// no references.
    pub fn new(entries: &Vec<Entry>) -> (l: Leaf)
        ensures
            l.spec_chunk().wf(),
            l.spec_chunk().spec_refs() == Seq::<Seq<u8>>::empty(),
            l.spec_chunk().spec_data() == enc_entries(entries_view(entries@)),
            l.entries() == entries_view(entries@),
    {
        let ghost ev = entries_view(entries@);
        let mut data: Vec<u8> = Vec::new();
        let n = entries.len();
        let mut i: usize = 0;
        proof {
            assert(data@ =~= enc_entries(ev.take(0)));
        }
        while i < n
            invariant
                n == entries.len(),
                ev == entries_view(entries@),
                0 <= i <= n,
                data@ == enc_entries(ev.take(i as int)),
            decreases n - i,
        {
            push_be(&mut data, entries[i].key.len() as u64, 8);
            bytes_extend(&mut data, &entries[i].key);
            push_be(&mut data, entries[i].val.len() as u64, 8);
            bytes_extend(&mut data, &entries[i].val);
            proof {
                assert(ev.take(i + 1) =~= ev.take(i as int).push(ev[i as int]));
                lemma_enc_entries_push(ev.take(i as int), ev[i as int]);
                assert(ev[i as int] == entries@[i as int]@);
                assert(data@ =~= enc_entries(ev.take(i + 1)));
            }
            i += 1;
        }
        proof {
            assert(ev.take(n as int) =~= ev);
        }
        let refs: Vec<Vec<u8>> = Vec::new();
        proof {
            assert(refs.deep_view() =~= Seq::<Seq<u8>>::empty());
        }
        let chunk = Chunk::new(data, refs);
        proof {
            assert forall|i2: int| 0 <= i2 < ev.len() implies (#[trigger] ev[i2]).0.len() < pow256(
                8,
            ) && ev[i2].1.len() < pow256(8) by {
                assert(usize::MAX < pow256(8)) by {
                    reveal_with_fuel(pow256, 9);
                }
                lemma_vec_views(entries@[i2].key);
                lemma_vec_views(entries@[i2].val);
            }
            lemma_dec_enc_entries(ev);
        }
        Leaf { chunk }
    }

    /// Rewraps a chunk read back from the store as a leaf.
    pub fn from_chunk(chunk: Chunk) -> (l: Leaf)
        ensures
            l.spec_chunk() == chunk,
    {
        Leaf { chunk }
    }

    /// Law: a leaf whose chunk data is the encoding of some entries holds
    /// exactly those entries — so a leaf read back after a flush, rebuilt
    /// from its persisted chunk, yields the flushed entries unchanged.
    pub proof fn lemma_read_back(l: Leaf, es: Seq<(Seq<u8>, Seq<u8>)>)
        requires
            l.spec_chunk().spec_data() == enc_entries(es),
            forall|i: int|
                0 <= i < es.len() ==> (#[trigger] es[i]).0.len() < pow256(8)
                    && es[i].1.len() < pow256(8),
        ensures
            l.entries() == es,
    {
        lemma_dec_enc_entries(es);
    }

    /// Decodes the entries of a leaf; an absent leaf has none. A malformed
    /// tail of the data is skipped rather than reported.
    #[verifier::loop_isolation(false)]
    pub fn iter(s: Option<&Leaf>) -> (r: Vec<Entry>)
        ensures
            entries_view(r@) == (match s {
                Some(l) => l.entries(),
                None => Seq::<(Seq<u8>, Seq<u8>)>::empty(),
            }),
    {
        let l = match s {
            None => {
                let r: Vec<Entry> = Vec::new();
                proof {
                    assert(entries_view(r@) =~= Seq::<(Seq<u8>, Seq<u8>)>::empty());
                }
                return r;
            },
            Some(l) => l,
        };
        let data = l.chunk.data();
        let ghost dv = data@;
        let mut acc: Vec<Entry> = Vec::new();
        let mut pos: usize = 0;
        proof {
            assert(dv.skip(0) =~= dv);
            assert(entries_view(acc@) =~= Seq::<(Seq<u8>, Seq<u8>)>::empty());
        }
        loop
            invariant
                0 <= pos <= data@.len(),
                dv == data@,
                data@ == l.spec_chunk().spec_data(),
                dec_entries(dv) == entries_view(acc@) + dec_entries(dv.skip(pos as int)),
            decreases data@.len() - pos,
        {
            let rem = data.len() - pos;
            proof {
                assert(dv.skip(pos as int).len() == rem);
            }
            if rem < 8 {
                proof {
                    assert(dec_entries(dv) =~= entries_view(acc@));
                }
                return acc;
            }
            let kn64 = read_be(data, pos, 8);
            proof {
                assert(dv.skip(pos as int).take(8) =~= dv.subrange(pos as int, pos + 8));
            }
            if kn64 > (rem - 8) as u64 {
                proof {
                    assert(dec_entries(dv) =~= entries_view(acc@));
                }
                return acc;
            }
            let kn = kn64 as usize;
            let key = bytes_slice(data, pos + 8, pos + 8 + kn);
            let pos2 = pos + 8 + kn;
            let rem2 = data.len() - pos2;
            proof {
                assert(dv.skip(pos as int).subrange(8, 8 + kn) =~= dv.subrange(
                    pos + 8,
                    pos2 as int,
                ));
                assert(dv.skip(pos as int).skip(8 + kn) =~= dv.skip(pos2 as int));
                assert(dv.skip(pos2 as int).len() == rem2);
            }
            if rem2 < 8 {
                proof {
                    assert(dec_entries(dv) =~= entries_view(acc@));
                }
                return acc;
            }
            let vn64 = read_be(data, pos2, 8);
            proof {
                assert(dv.skip(pos2 as int).take(8) =~= dv.subrange(pos2 as int, pos2 + 8));
            }
            if vn64 > (rem2 - 8) as u64 {
                proof {
                    assert(dec_entries(dv) =~= entries_view(acc@));
                }
                return acc;
            }
            let vn = vn64 as usize;
            let val = bytes_slice(data, pos2 + 8, pos2 + 8 + vn);
            proof {
                assert(dv.skip(pos2 as int).subrange(8, 8 + vn) =~= dv.subrange(
                    pos2 + 8,
                    pos2 + 8 + vn,
                ));
                assert(dv.skip(pos2 as int).skip(8 + vn) =~= dv.skip(pos2 + 8 + vn));
            }
            let ghost acc0 = entries_view(acc@);
            let ghost pair = (key@, val@);
            acc.push(Entry { key, val });
            proof {
                assert(entries_view(acc@) =~= acc0.push(pair));
                assert(forall|rest: Seq<(Seq<u8>, Seq<u8>)>|
                    acc0 + (seq![pair] + rest) =~= acc0.push(pair) + rest);
            }
            pos = pos2 + 8 + vn;
        }
    }
}

} // verus!
