use vstd::prelude::*;
use crate::bytes::bytes_clone;
use crate::codec::decode_meta_record;
use crate::kv;
use super::chunk::{chunk_from_parts, Chunk};
use super::key::{data_key, data_key_bytes, head_key, head_key_bytes, meta_key_bytes};
use super::{meta_ok, refs_of, Error};

verus! {

/// What a read view reads from: a live write transaction (observing its
/// uncommitted writes) or a committed store.
pub enum Source<'a> {
    Tx(&'a kv::WriteTx),
    Committed(&'a kv::Store),
}

/// A read view over the DAG store: resolves heads and reconstructs chunks.
pub struct Read<'a> {
    kv: Source<'a>,
}

impl<'a> Read<'a> {
    /// The byte map this view reads.
    pub closed spec fn store(&self) -> Map<Seq<u8>, Seq<u8>> {
        match self.kv {
            Source::Tx(t) => t@,
            Source::Committed(s) => s@,
        }
    }

    /// A read view over a live write transaction.
    pub fn new(tx: &'a kv::WriteTx) -> (r: Read<'a>)
        ensures
            r.store() == tx@,
    {
        Read { kv: Source::Tx(tx) }
    }

    /// A read view over a committed store.
    pub fn of_store(s: &'a kv::Store) -> (r: Read<'a>)
        ensures
            r.store() == s@,
    {
        Read { kv: Source::Committed(s) }
    }

    fn kv_get(&self, key: &Vec<u8>) -> (r: Option<Vec<u8>>)
        ensures
            r is Some <==> self.store().contains_key(key@),
            r matches Some(v) ==> self.store()[key@] == v@,
    {
        match &self.kv {
            Source::Tx(t) => t.get(key),
            Source::Committed(s) => s.get(key),
        }
    }

    /// Whether a chunk's data is present under `hash`.
    pub fn has_chunk(&self, hash: &Vec<u8>) -> (r: bool)
        ensures
            r == self.store().contains_key(data_key(hash@)),
    {
        self.kv_get(&data_key_bytes(hash)).is_some()
    }

    /// The hash a head currently points at, if the head exists.
    pub fn get_head(&self, name: &Vec<u8>) -> (r: Option<Vec<u8>>)
        ensures
            r is Some <==> self.store().contains_key(head_key(name@)),
            r matches Some(v) ==> self.store()[head_key(name@)] == v@,
    {
        self.kv_get(&head_key_bytes(name))
    }

    /// Reconstructs the chunk stored under `hash` from its data bytes and
    /// its metadata record; the references are empty when no record exists.
    pub fn get_chunk(&self, hash: &Vec<u8>) -> (r: Result<Option<Chunk>, Error>)
        ensures
            r is Err <==> self.store().contains_key(data_key(hash@)) && !meta_ok(
                self.store(),
                hash@,
            ),
            r matches Ok(o) ==> (o is Some <==> self.store().contains_key(data_key(hash@))),
            r matches Ok(Some(c)) ==> c.spec_hash() == hash@
                && c.spec_data() == self.store()[data_key(hash@)]
                && c.spec_refs() == refs_of(self.store(), hash@),
    {
        let data = match self.kv_get(&data_key_bytes(hash)) {
            None => {
                return Ok(None);
            },
            Some(d) => d,
        };
        match self.kv_get(&meta_key_bytes(hash)) {
            None => {
                let refs: Vec<Vec<u8>> = Vec::new();
                proof {
                    assert(refs.deep_view() =~= Seq::<Seq<u8>>::empty());
                }
                Ok(Some(chunk_from_parts(bytes_clone(hash), data, refs)))
            },
            Some(buf) => {
                match decode_meta_record(&buf) {
                    None => Err(Error::CorruptMetadata),
                    Some(p) => Ok(Some(chunk_from_parts(bytes_clone(hash), data, p.0))),
                }
            },
        }
    }
}

} // verus!
