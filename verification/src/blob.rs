//! The blob object: an opaque byte sequence whose codec is the identity.

use vstd::prelude::*;

verus! {

/// File contents, stored as they are.
pub struct Blob {
    pub blobdata: Vec<u8>,
}

impl View for Blob {
    type V = Seq<u8>;

    open spec fn view(&self) -> Seq<u8> {
        self.blobdata@
    }
}

impl Blob {
    /// A blob holding a copy of `data`.
    pub fn new(data: &Vec<u8>) -> (r: Blob)
        ensures
            r@ == data@,
    {
        Blob { blobdata: crate::bytes::bytes_range(data, 0, data.len()) }
    }

    /// The identity decode.
    pub fn deserialize(data: &Vec<u8>) -> (r: Blob)
        ensures
            r@ == data@,
    {
        Blob::new(data)
    }

    /// The identity encode.
    pub fn serialize(&self) -> (r: Vec<u8>)
        ensures
            r@ == self@,
    {
        crate::bytes::bytes_range(&self.blobdata, 0, self.blobdata.len())
    }
}

} // verus!
