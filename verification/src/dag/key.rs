use vstd::prelude::*;
use crate::bytes::bytes_extend;

verus! {

/// Byte key under which a chunk's data bytes are stored: `c/<hash>`.
pub open spec fn data_key(h: Seq<u8>) -> Seq<u8> {
    seq![99u8, 47u8] + h
}

/// Byte key under which a chunk's metadata record is stored: `m/<hash>`.
pub open spec fn meta_key(h: Seq<u8>) -> Seq<u8> {
    seq![109u8, 47u8] + h
}

/// Byte key under which a head's current hash is stored: `h/<name>`.
pub open spec fn head_key(n: Seq<u8>) -> Seq<u8> {
    seq![104u8, 47u8] + n
}

/// The three key kinds use distinct prefixes and are injective in their
/// payload, so no two logical keys collide.
pub proof fn lemma_keys_injective(a: Seq<u8>, b: Seq<u8>)
    ensures
        data_key(a) != meta_key(b),
        data_key(a) != head_key(b),
        head_key(a) != meta_key(b),
        data_key(a) == data_key(b) ==> a == b,
        meta_key(a) == meta_key(b) ==> a == b,
        head_key(a) == head_key(b) ==> a == b,
{
    assert(data_key(a)[0] == 99u8);
    assert(meta_key(b)[0] == 109u8);
    assert(head_key(b)[0] == 104u8);
    assert(head_key(a)[0] == 104u8);
    assert(data_key(a).skip(2) =~= a);
    assert(data_key(b).skip(2) =~= b);
    assert(meta_key(a).skip(2) =~= a);
    assert(meta_key(b).skip(2) =~= b);
    assert(head_key(a).skip(2) =~= a);
    assert(head_key(b).skip(2) =~= b);
}

/// Builds the byte key of a chunk's data.
pub fn data_key_bytes(h: &Vec<u8>) -> (r: Vec<u8>)
    ensures
        r@ == data_key(h@),
{
    let mut out: Vec<u8> = Vec::new();
    out.push(99u8);
    out.push(47u8);
    bytes_extend(&mut out, h);
    assert(out@ =~= data_key(h@));
    out
}

/// Builds the byte key of a chunk's metadata record.
pub fn meta_key_bytes(h: &Vec<u8>) -> (r: Vec<u8>)
    ensures
        r@ == meta_key(h@),
{
    let mut out: Vec<u8> = Vec::new();
    out.push(109u8);
    out.push(47u8);
    bytes_extend(&mut out, h);
    assert(out@ =~= meta_key(h@));
    out
}

/// Builds the byte key of a head.
pub fn head_key_bytes(n: &Vec<u8>) -> (r: Vec<u8>)
    ensures
        r@ == head_key(n@),
{
    let mut out: Vec<u8> = Vec::new();
    out.push(104u8);
    out.push(47u8);
    bytes_extend(&mut out, n);
    assert(out@ =~= head_key(n@));
    out
}

/// A logical key of the persisted key space.
#[derive(Debug)]
pub enum Key {
    ChunkData(Vec<u8>),
    ChunkMeta(Vec<u8>),
    Head(Vec<u8>),
}

impl Key {
    /// The byte key this logical key is stored under.
    pub open spec fn spec_encode(&self) -> Seq<u8> {
        match self {
            Key::ChunkData(h) => data_key(h@),
            Key::ChunkMeta(h) => meta_key(h@),
            Key::Head(n) => head_key(n@),
        }
    }

    /// Encodes the logical key to its byte form.
    pub fn encode(&self) -> (r: Vec<u8>)
        ensures
            r@ == self.spec_encode(),
    {
        let mut out: Vec<u8> = Vec::new();
        match self {
            Key::ChunkData(h) => {
                out.push(99u8);
                out.push(47u8);
                bytes_extend(&mut out, h);
                assert(out@ =~= data_key(h@));
            },
            Key::ChunkMeta(h) => {
                out.push(109u8);
                out.push(47u8);
                bytes_extend(&mut out, h);
                assert(out@ =~= meta_key(h@));
            },
            Key::Head(n) => {
                out.push(104u8);
                out.push(47u8);
                bytes_extend(&mut out, n);
                assert(out@ =~= head_key(n@));
            },
        }
        out
    }
}

} // verus!
