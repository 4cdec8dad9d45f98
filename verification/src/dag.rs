use vstd::prelude::*;
use crate::codec::dec_meta;
use crate::dag::key::meta_key;

pub mod chunk;
pub mod key;
pub mod read;
pub mod write;

verus! {

/// Error of the DAG store. The in-memory backend itself cannot fail, so the
/// only failure left is a persisted metadata record that does not decode.
#[derive(Clone, Copy, Debug, PartialEq, Eq, Structural)]
pub enum Error {
    /// A persisted chunk-metadata record did not decode.
    CorruptMetadata,
}

/// Whether reading the metadata of `h` in store state `m` cannot fail:
/// either no record is present, or the present record decodes.
pub open spec fn meta_ok(m: Map<Seq<u8>, Seq<u8>>, h: Seq<u8>) -> bool {
    m.contains_key(meta_key(h)) ==> dec_meta(m[meta_key(h)]) is Some
}

/// The references recorded for `h` in store state `m`; empty when no
/// metadata record is present or it does not decode.
pub open spec fn refs_of(m: Map<Seq<u8>, Seq<u8>>, h: Seq<u8>) -> Seq<Seq<u8>> {
    if m.contains_key(meta_key(h)) {
        match dec_meta(m[meta_key(h)]) {
            Some(p) => p.0,
            None => Seq::empty(),
        }
    } else {
        Seq::empty()
    }
}

/// The reference count recorded for `h` in store state `m`; zero when no
/// metadata record is present or it does not decode.
pub open spec fn count_of(m: Map<Seq<u8>, Seq<u8>>, h: Seq<u8>) -> u16 {
    if m.contains_key(meta_key(h)) {
        match dec_meta(m[meta_key(h)]) {
            Some(p) => p.1,
            None => 0,
        }
    } else {
        0
    }
}

/// Store well-formedness: every recorded reference is strictly shorter than
/// the hash it is recorded under. Hashes embed their chunk's references, so
/// every store written through this module satisfies it; it bounds the depth
/// of reference chains and rules out cycles.
pub open spec fn meta_wf(m: Map<Seq<u8>, Seq<u8>>) -> bool {
    forall|h: Seq<u8>, i: int|
        0 <= i < refs_of(m, h).len() ==> (#[trigger] refs_of(m, h)[i]).len() < h.len()
}

} // verus!
