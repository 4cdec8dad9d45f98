use vstd::prelude::*;
use crate::bytes::{bytes_clone, bytes_eq, bytes_extend};
use crate::codec::{
    create_meta_record, enc_meta, enc_refs, lemma_enc_refs_element_bound, lemma_nat_to_be_len,
    nat_to_be, push_be, push_refs,
};

verus! {

/// The content hash of a chunk: a stable, injective function of the data
/// bytes and the ordered reference list. Two chunks with the same data and
/// references always have the same hash.
pub open spec fn hash_of(data: Seq<u8>, refs: Seq<Seq<u8>>) -> Seq<u8> {
    nat_to_be(data.len(), 8) + data + enc_refs(refs)
}

/// An immutable unit of storage: opaque data bytes, an ordered list of
/// referenced chunk hashes, and the content hash of the two.
#[derive(Debug)]
pub struct Chunk {
    data: Vec<u8>,
    refs: Vec<Vec<u8>>,
    hash: Vec<u8>,
}

impl Chunk {
    /// The stored hash is the content hash of the data and references.
    pub closed spec fn wf(&self) -> bool {
        self.hash@ == hash_of(self.data@, self.refs.deep_view())
    }

    pub closed spec fn spec_data(&self) -> Seq<u8> {
        self.data@
    }

    pub closed spec fn spec_refs(&self) -> Seq<Seq<u8>> {
        self.refs.deep_view()
    }

    pub closed spec fn spec_hash(&self) -> Seq<u8> {
        self.hash@
    }

    /// Builds a chunk from its data and references, computing its hash.
    pub fn new(data: Vec<u8>, refs: Vec<Vec<u8>>) -> (c: Chunk)
        ensures
            c.wf(),
            c.spec_data() == data@,
            c.spec_refs() == refs.deep_view(),
    {
        let mut hash: Vec<u8> = Vec::new();
        push_be(&mut hash, data.len() as u64, 8);
        bytes_extend(&mut hash, &data);
        push_refs(&mut hash, &refs);
        proof {
            assert(hash@ =~= hash_of(data@, refs.deep_view()));
        }
        Chunk { data, refs, hash }
    }

    pub fn data(&self) -> (r: &Vec<u8>)
        ensures
            r@ == self.spec_data(),
    {
        &self.data
    }

    pub fn refs(&self) -> (r: &Vec<Vec<u8>>)
        ensures
            r.deep_view() == self.spec_refs(),
    {
        &self.refs
    }

    pub fn hash(&self) -> (r: &Vec<u8>)
        ensures
            r@ == self.spec_hash(),
    {
        &self.hash
    }

    /// The chunk's native metadata record, encoding `(refs, count = 0)`;
    /// absent when the chunk has no references.
    pub fn meta(&self) -> (r: Option<Vec<u8>>)
        ensures
            r is Some <==> self.spec_refs().len() > 0,
            r matches Some(v) ==> v@ == enc_meta(self.spec_refs(), 0),
    {
        create_meta_record(&self.refs, 0)
    }

    /// A well-formed chunk's hash is the content hash of its parts.
    pub proof fn lemma_wf_hash(&self)
        requires
            self.wf(),
        ensures
            self.spec_hash() == hash_of(self.spec_data(), self.spec_refs()),
    {
    }

    /// Every reference of a well-formed chunk is strictly shorter than the
    /// chunk's own hash: reference chains strictly shorten, so the reference
    /// graph of well-formed chunks can have no cycle.
    pub proof fn lemma_ref_shorter_than_hash(&self)
        requires
            self.wf(),
        ensures
            forall|i: int|
                0 <= i < self.spec_refs().len() ==> (#[trigger] self.spec_refs()[i]).len()
                    < self.spec_hash().len(),
            self.spec_hash().len() <= usize::MAX,
    {
        assert(self.hash.len() == self.hash@.len());
        lemma_nat_to_be_len(self.data@.len(), 8);
        assert forall|i: int| 0 <= i < self.spec_refs().len() implies (
        #[trigger] self.spec_refs()[i]).len() < self.spec_hash().len() by {
            lemma_enc_refs_element_bound(self.spec_refs(), i);
        }
    }
}

/// Chunks are compared by hash: two well-formed chunks are equal exactly
/// when their data and references are equal.
impl PartialEq for Chunk {
    fn eq(&self, other: &Chunk) -> (r: bool) {
        bytes_eq(&self.hash, &other.hash)
    }
}

impl vstd::std_specs::cmp::PartialEqSpecImpl for Chunk {
    open spec fn obeys_eq_spec() -> bool {
        true
    }

    open spec fn eq_spec(&self, other: &Chunk) -> bool {
        self.spec_hash() == other.spec_hash()
    }
}

/// Rebuilds a chunk from persisted parts. Used by the read view; the hash is
/// the one the parts were stored under.
pub(crate) fn chunk_from_parts(hash: Vec<u8>, data: Vec<u8>, refs: Vec<Vec<u8>>) -> (c: Chunk)
    ensures
        c.spec_hash() == hash@,
        c.spec_data() == data@,
        c.spec_refs() == refs.deep_view(),
{
    Chunk { data, refs, hash }
}

} // verus!
