use vstd::prelude::*;
use crate::dag;

pub mod leaf;
pub mod map;

verus! {

/// Error of the prolly map: a storage failure of the DAG layer.
#[derive(Clone, Copy, Debug, PartialEq, Eq, Structural)]
pub enum Error {
    Storage(dag::Error),
}

/// One live key/value pair of the map.
#[derive(Debug)]
pub struct Entry {
    pub key: Vec<u8>,
    pub val: Vec<u8>,
}

impl View for Entry {
    type V = (Seq<u8>, Seq<u8>);

    open spec fn view(&self) -> (Seq<u8>, Seq<u8>) {
        (self.key@, self.val@)
    }
}

/// The key/value pairs a sequence of entries denotes, in order.
pub open spec fn entries_view(es: Seq<Entry>) -> Seq<(Seq<u8>, Seq<u8>)> {
    Seq::new(es.len(), |i: int| es[i]@)
}

} // verus!
