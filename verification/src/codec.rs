use vstd::prelude::*;
use crate::bytes::bytes_extend;

verus! {

/// 256 raised to the power `n`: the number of values of an `n`-byte field.
pub open spec fn pow256(n: nat) -> nat
    decreases n,
{
    if n == 0 {
        1
    } else {
        256 * pow256((n - 1) as nat)
    }
}

/// Big-endian encoding of `x` into exactly `n` bytes (higher bytes first).
pub open spec fn nat_to_be(x: nat, n: nat) -> Seq<u8>
    decreases n,
{
    if n == 0 {
        Seq::empty()
    } else {
        nat_to_be(x / 256, (n - 1) as nat).push((x % 256) as u8)
    }
}

/// The number read back from a big-endian byte string.
pub open spec fn be_to_nat(v: Seq<u8>) -> nat
    decreases v.len(),
{
    if v.len() == 0 {
        0
    } else {
        (be_to_nat(v.drop_last()) * 256 + v.last()) as nat
    }
}

pub proof fn lemma_nat_to_be_len(x: nat, n: nat)
    ensures
        nat_to_be(x, n).len() == n,
    decreases n,
{
    if n > 0 {
        lemma_nat_to_be_len(x / 256, (n - 1) as nat);
    }
}

pub proof fn lemma_be_to_nat_bound(v: Seq<u8>)
    ensures
        be_to_nat(v) < pow256(v.len()),
    decreases v.len(),
{
    if v.len() > 0 {
        lemma_be_to_nat_bound(v.drop_last());
        assert(be_to_nat(v.drop_last()) <= pow256((v.len() - 1) as nat) - 1);
        assert(be_to_nat(v.drop_last()) * 256 <= (pow256((v.len() - 1) as nat) - 1) * 256)
            by (nonlinear_arith)
            requires
                be_to_nat(v.drop_last()) <= pow256((v.len() - 1) as nat) - 1,
        ;
    }
}

/// Reading back an `n`-byte big-endian encoding returns the encoded number.
pub proof fn lemma_be_roundtrip(x: nat, n: nat)
    requires
        x < pow256(n),
    ensures
        be_to_nat(nat_to_be(x, n)) == x,
    decreases n,
{
    if n == 0 {
    } else {
        lemma_nat_to_be_len(x / 256, (n - 1) as nat);
        assert(nat_to_be(x, n).drop_last() =~= nat_to_be(x / 256, (n - 1) as nat));
        assert(x / 256 < pow256((n - 1) as nat)) by (nonlinear_arith)
            requires
                x < 256 * pow256((n - 1) as nat),
        ;
        lemma_be_roundtrip(x / 256, (n - 1) as nat);
        assert((x / 256) * 256 + x % 256 == x) by (nonlinear_arith);
    }
}

/// Appends the `n`-byte big-endian encoding of `x` to `out`.
pub fn push_be(out: &mut Vec<u8>, x: u64, n: u64)
    requires
        n <= 8,
    ensures
        final(out)@ == old(out)@ + nat_to_be(x as nat, n as nat),
    decreases n,
{
    if n == 0 {
        assert(final(out)@ =~= old(out)@ + nat_to_be(x as nat, 0));
        return;
    }
    push_be(out, x / 256, n - 1);
    out.push((x % 256) as u8);
    assert(out@ =~= old(out)@ + nat_to_be(x as nat, n as nat));
}

/// Reads `n` bytes starting at `pos` as a big-endian number.
pub fn read_be(v: &Vec<u8>, pos: usize, n: usize) -> (r: u64)
    requires
        n <= 8,
        pos + n <= v.len(),
    ensures
        r as nat == be_to_nat(v@.subrange(pos as int, pos + n)),
{
    let mut r: u64 = 0;
    let mut i: usize = 0;
    while i < n
        invariant
            n <= 8,
            pos + n <= v.len(),
            0 <= i <= n,
            r as nat == be_to_nat(v@.subrange(pos as int, pos + i)),
            (r as nat) < pow256(i as nat),
        decreases n - i,
    {
        proof {
            assert(pow256(i as nat) * 256 == pow256((i + 1) as nat)) by {
                assert(pow256((i + 1) as nat) == 256 * pow256(i as nat));
            }
            assert((r as nat) * 256 + 256 <= pow256((i + 1) as nat)) by (nonlinear_arith)
                requires
                    (r as nat) < pow256(i as nat),
                    pow256(i as nat) * 256 == pow256((i + 1) as nat),
            ;
            assert(pow256(8) == 0x10000000000000000) by {
                reveal_with_fuel(pow256, 9);
            }
            assert(pow256((i + 1) as nat) <= pow256(8)) by {
                lemma_pow256_increases((i + 1) as nat, 8);
            }
        }
        r = r * 256 + (v[pos + i] as u64);
        proof {
            let s1 = v@.subrange(pos as int, pos + i + 1);
            assert(s1.drop_last() =~= v@.subrange(pos as int, pos + i));
            assert(s1.last() == v@[pos + i]);
        }
        i += 1;
    }
    r
}

pub proof fn lemma_pow256_increases(a: nat, b: nat)
    requires
        a <= b,
    ensures
        pow256(a) <= pow256(b),
    decreases b,
{
    if a < b && b > 0 {
        lemma_pow256_increases(a, (b - 1) as nat);
        assert(pow256(b) == 256 * pow256((b - 1) as nat));
    }
}

/// A single reference, encoded as an 8-byte big-endian length followed by the bytes.
pub open spec fn enc_ref(r: Seq<u8>) -> Seq<u8> {
    nat_to_be(r.len(), 8) + r
}

/// A reference list, encoded as the concatenation of its encoded elements.
pub open spec fn enc_refs(rs: Seq<Seq<u8>>) -> Seq<u8>
    decreases rs.len(),
{
    if rs.len() == 0 {
        Seq::empty()
    } else {
        enc_ref(rs[0]) + enc_refs(rs.drop_first())
    }
}

pub proof fn lemma_enc_refs_push(rs: Seq<Seq<u8>>, x: Seq<u8>)
    ensures
        enc_refs(rs.push(x)) == enc_refs(rs) + enc_ref(x),
    decreases rs.len(),
{
    if rs.len() == 0 {
        assert(rs.push(x)[0] == x);
        assert(rs.push(x).drop_first() =~= rs);
        assert(enc_refs(rs.push(x)) =~= enc_refs(rs) + enc_ref(x));
    } else {
        assert(rs.push(x).drop_first() =~= rs.drop_first().push(x));
        lemma_enc_refs_push(rs.drop_first(), x);
        assert(rs.push(x)[0] == rs[0]);
        assert(enc_refs(rs.push(x)) =~= enc_refs(rs) + enc_ref(x));
    }
}

/// Every element of an encoded reference list is strictly shorter than the encoding.
pub proof fn lemma_enc_refs_element_bound(rs: Seq<Seq<u8>>, i: int)
    requires
        0 <= i < rs.len(),
    ensures
        rs[i].len() + 8 <= enc_refs(rs).len(),
    decreases rs.len(),
{
    lemma_nat_to_be_len(rs[0].len(), 8);
    if i == 0 {
    } else {
        lemma_enc_refs_element_bound(rs.drop_first(), i - 1);
    }
}

/// Decodes a reference list; `None` when the bytes are not a valid encoding.
pub open spec fn dec_refs(v: Seq<u8>) -> Option<Seq<Seq<u8>>>
    decreases v.len(),
{
    if v.len() == 0 {
        Some(Seq::empty())
    } else if v.len() < 8 {
        None
    } else {
        let n = be_to_nat(v.take(8)) as int;
        if v.len() - 8 < n {
            None
        } else {
            match dec_refs(v.skip(8 + n)) {
                None => None,
                Some(rest) => Some(seq![v.subrange(8, 8 + n)] + rest),
            }
        }
    }
}

/// Decoding inverts encoding of a reference list.
pub proof fn lemma_dec_enc_refs(rs: Seq<Seq<u8>>)
    requires
        forall|i: int| 0 <= i < rs.len() ==> (#[trigger] rs[i]).len() < pow256(8),
    ensures
        dec_refs(enc_refs(rs)) == Some(rs),
    decreases rs.len(),
{
    if rs.len() == 0 {
        assert(dec_refs(enc_refs(rs)) =~= Some(Seq::<Seq<u8>>::empty()));
        assert(Seq::<Seq<u8>>::empty() =~= rs);
    } else {
        let r0 = rs[0];
        let e = enc_refs(rs);
        let tail = enc_refs(rs.drop_first());
        lemma_nat_to_be_len(r0.len(), 8);
        lemma_be_roundtrip(r0.len(), 8);
        assert(e =~= nat_to_be(r0.len(), 8) + r0 + tail);
        assert(e.len() == 8 + r0.len() + tail.len());
        assert(e.take(8) =~= nat_to_be(r0.len(), 8));
        let n = be_to_nat(e.take(8)) as int;
        assert(n == r0.len());
        assert(e.subrange(8, 8 + n) =~= r0);
        assert(e.skip(8 + n) =~= tail);
        assert(forall|i: int|
            0 <= i < rs.drop_first().len() ==> (#[trigger] rs.drop_first()[i]).len() < pow256(8));
        lemma_dec_enc_refs(rs.drop_first());
        assert(seq![r0] + rs.drop_first() =~= rs);
    }
}

/// The persisted chunk-metadata record: a 2-byte big-endian reference count
/// followed by the encoded reference list.
pub open spec fn enc_meta(rs: Seq<Seq<u8>>, count: u16) -> Seq<u8> {
    nat_to_be(count as nat, 2) + enc_refs(rs)
}

/// Decodes a metadata record; `None` when the bytes are not a valid encoding.
pub open spec fn dec_meta(v: Seq<u8>) -> Option<(Seq<Seq<u8>>, u16)> {
    if v.len() < 2 {
        None
    } else {
        match dec_refs(v.skip(2)) {
            None => None,
            Some(rs) => Some((rs, be_to_nat(v.take(2)) as u16)),
        }
    }
}

/// Decoding inverts encoding of a metadata record.
pub proof fn lemma_dec_enc_meta(rs: Seq<Seq<u8>>, count: u16)
    requires
        forall|i: int| 0 <= i < rs.len() ==> (#[trigger] rs[i]).len() < pow256(8),
    ensures
        dec_meta(enc_meta(rs, count)) == Some((rs, count)),
{
    let e = enc_meta(rs, count);
    lemma_nat_to_be_len(count as nat, 2);
    assert(pow256(2) == 65536) by {
        reveal_with_fuel(pow256, 3);
    }
    lemma_be_roundtrip(count as nat, 2);
    assert(e.take(2) =~= nat_to_be(count as nat, 2));
    assert(e.skip(2) =~= enc_refs(rs));
    lemma_dec_enc_refs(rs);
}

/// Builds the persisted metadata record for `(refs, count)`; `None` signals
/// that the record should be absent (no references and a zero count).
pub fn create_meta_record(refs: &Vec<Vec<u8>>, count: u16) -> (r: Option<Vec<u8>>)
    ensures
        r is Some <==> refs@.len() > 0 || count != 0,
        r matches Some(v) ==> v@ == enc_meta(refs.deep_view(), count),
{
    if refs.len() == 0 && count == 0 {
        return None;
    }
    let mut out: Vec<u8> = Vec::new();
    push_be(&mut out, count as u64, 2);
    push_refs(&mut out, refs);
    Some(out)
}

/// Appends the encoded reference list to `out`.
pub fn push_refs(out: &mut Vec<u8>, refs: &Vec<Vec<u8>>)
    ensures
        final(out)@ == old(out)@ + enc_refs(refs.deep_view()),
{
    let n = refs.len();
    let mut i: usize = 0;
    proof {
        assert(out@ =~= old(out)@ + enc_refs(refs.deep_view().take(0)));
    }
    while i < n
        invariant
            n == refs.len(),
            0 <= i <= n,
            out@ == old(out)@ + enc_refs(refs.deep_view().take(i as int)),
        decreases n - i,
    {
        push_be(out, refs[i].len() as u64, 8);
        bytes_extend(out, &refs[i]);
        proof {
            let dv = refs.deep_view();
            assert(dv.take(i + 1) =~= dv.take(i as int).push(dv[i as int]));
            lemma_enc_refs_push(dv.take(i as int), dv[i as int]);
            assert(dv[i as int] == refs@[i as int].deep_view());
            assert(refs@[i as int].deep_view() =~= refs@[i as int]@);
            assert(out@ =~= old(out)@ + enc_refs(dv.take(i + 1)));
        }
        i += 1;
    }
    proof {
        assert(refs.deep_view().take(n as int) =~= refs.deep_view());
    }
}

/// Extracts the bytes of `v` from `start` (inclusive) to `end` (exclusive).
pub fn bytes_slice(v: &Vec<u8>, start: usize, end: usize) -> (r: Vec<u8>)
    requires
        start <= end <= v.len(),
    ensures
        r@ == v@.subrange(start as int, end as int),
{
    let mut r: Vec<u8> = Vec::new();
    let mut i: usize = start;
    while i < end
        invariant
            start <= i <= end <= v.len(),
            r@ == v@.subrange(start as int, i as int),
        decreases end - i,
    {
        r.push(v[i]);
        assert(r@ =~= v@.subrange(start as int, i + 1));
        i += 1;
    }
    r
}

/// Decodes a metadata record from raw bytes.
pub fn decode_meta_record(v: &Vec<u8>) -> (r: Option<(Vec<Vec<u8>>, u16)>)
    ensures
        r is Some <==> dec_meta(v@) is Some,
        r matches Some(p) ==> dec_meta(v@) matches Some(q) && p.0.deep_view() == q.0 && p.1 == q.1,
{
    if v.len() < 2 {
        return None;
    }
    proof {
        assert(pow256(2) == 65536) by {
            reveal_with_fuel(pow256, 3);
        }
        lemma_be_to_nat_bound(v@.subrange(0, 2));
    }
    let count = read_be(v, 0, 2) as u16;
    proof {
        assert(v@.subrange(0, 2) =~= v@.take(2));
    }
    let mut acc: Vec<Vec<u8>> = Vec::new();
    let mut pos: usize = 2;
    loop
        invariant
            2 <= pos <= v.len(),
            count as nat == be_to_nat(v@.take(2)),
            dec_refs(v@.skip(2)) == (match dec_refs(v@.skip(pos as int)) {
                None => None::<Seq<Seq<u8>>>,
                Some(rest) => Some(acc.deep_view() + rest),
            }),
        decreases v.len() - pos,
    {
        if pos == v.len() {
            proof {
                assert(v@.skip(pos as int).len() == 0);
                assert(dec_refs(v@.skip(pos as int)) == Some(Seq::<Seq<u8>>::empty()));
                assert(acc.deep_view() + Seq::<Seq<u8>>::empty() =~= acc.deep_view());
            }
            return Some((acc, count));
        }
        let rem = v.len() - pos;
        proof {
            assert(v@.skip(pos as int).len() == rem);
        }
        if rem < 8 {
            return None;
        }
        let n64 = read_be(v, pos, 8);
        proof {
            assert(v@.skip(pos as int).take(8) =~= v@.subrange(pos as int, pos + 8));
        }
        if n64 > (rem - 8) as u64 {
            return None;
        }
        let n = n64 as usize;
        let item = bytes_slice(v, pos + 8, pos + 8 + n);
        proof {
            assert(v@.skip(pos as int).subrange(8, 8 + n) =~= v@.subrange(pos + 8, pos + 8 + n));
            assert(v@.skip(pos as int).skip(8 + n) =~= v@.skip(pos + 8 + n));
        }
        let ghost old_acc_dv = acc.deep_view();
        acc.push(item);
        proof {
            assert(acc.deep_view() =~= old_acc_dv.push(item@)) by {
                assert(acc@.len() == old_acc_dv.len() + 1);
                assert(forall|j: int| 0 <= j < old_acc_dv.len() ==> acc.deep_view()[j] == old_acc_dv[j]);
                assert(acc.deep_view()[old_acc_dv.len() as int] == item@);
            }
            assert(forall|rest: Seq<Seq<u8>>|
                old_acc_dv + (seq![item@] + rest) =~= (old_acc_dv.push(item@)) + rest);
        }
        pos = pos + 8 + n;
    }
}

} // verus!
