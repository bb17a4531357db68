//! The payload of one data element.

use vstd::prelude::*;
use bytes::Bytes;
use crate::buf::{bytes_as_slice, bytes_seq};

verus! {

/// The raw bytes of a data element, without its length prefix.
#[derive(Debug)]
pub struct Field {
    data: Bytes,
}

impl Clone for Field {
    /// Another field with the same payload.
    fn clone(&self) -> (f: Self)
        ensures
            f@ == self@,
    {
        Field { data: self.data.clone() }
    }
}

impl View for Field {
    type V = Seq<u8>;

    closed spec fn view(&self) -> Seq<u8> {
        bytes_seq(self.data)
    }
}

impl Field {
    /// The field whose payload is `data`.
    pub fn from_bytes(data: Bytes) -> (f: Self)
        ensures
            f@ == bytes_seq(data),
    {
        Field { data }
    }

    /// The number of bytes of the payload.
    pub fn len(&self) -> (n: usize)
        ensures
            n == self@.len(),
    {
        self.data.len()
    }

    /// Whether the payload has no bytes.
    pub fn is_empty(&self) -> (b: bool)
        ensures
            b == (self@.len() == 0),
    {
        self.data.len() == 0
    }

    /// The payload.
    pub fn as_slice(&self) -> (s: &[u8])
        ensures
            s@ == self@,
    {
        bytes_as_slice(&self.data)
    }
}

} // verus!
