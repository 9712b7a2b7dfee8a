//! Entries represent the data that will be stored directly in the data file.
//!
//! A serialized entry is the concatenation, big-endian throughout, of
//! `timestamp` (8 bytes, signed), `key_size` (4 bytes), `value_size`
//! (4 bytes), the key bytes and the value bytes.

use vstd::prelude::*;

use crate::bytes::{push_i64_be, push_u32_be, spec_i64_be, spec_u32_be};

verus! {

/// Number of bytes in a serialized record header.
pub const HEADER_SIZE: usize = 16;

/// One log record before serialization.
pub struct Entry {
    pub timestamp: i64,
    pub key_size: u32,
    pub value_size: u32,
    pub key: Vec<u8>,
    pub value: Vec<u8>,
}

/// The bytes of a record with the given header fields, key and value.
pub open spec fn spec_record(timestamp: i64, key: Seq<u8>, value: Seq<u8>) -> Seq<u8> {
    spec_i64_be(timestamp) + spec_u32_be(key.len() as u32) + spec_u32_be(value.len() as u32) + key
        + value
}

impl Entry {
    /// The header fields agree with the lengths of the key and the value.
    pub open spec fn wf(self) -> bool {
        self.key_size == self.key@.len() && self.value_size == self.value@.len()
    }

    /// Serialize the entry: header, then key bytes, then value bytes.
    pub fn serialize(&self) -> (buf: Vec<u8>)
        requires
            self.wf(),
        ensures
            buf@ == spec_record(self.timestamp, self.key@, self.value@),
            buf@.len() == HEADER_SIZE + self.key@.len() + self.value@.len(),
    {
        let mut buf = Vec::new();
        push_i64_be(&mut buf, self.timestamp);
        push_u32_be(&mut buf, self.key_size);
        push_u32_be(&mut buf, self.value_size);
        buf.extend_from_slice(self.key.as_slice());
        buf.extend_from_slice(self.value.as_slice());
        proof {
            assert(buf@ =~= spec_record(self.timestamp, self.key@, self.value@));
        }
        buf
    }
}

} // verus!
