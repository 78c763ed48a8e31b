//! The frame header: a namespace byte and a big-endian `u16` id.
use vstd::prelude::*;

use crate::framer::bytes_io::{get_u16, get_u8, put_u16, put_u8, remaining};

verus! {

/// Size of the header, excluding the length.
pub const HEADER_SIZE: u64 = 3;

/// A frame header.
#[derive(Copy, Clone, Eq, Ord, PartialEq, PartialOrd, Debug)]
pub struct Header {
    pub namespace: u8,
    pub id: u16,
}

/// Why a header could not be read.
#[derive(Debug, Copy, Clone, PartialEq, Eq)]
#[non_exhaustive]
pub enum HeaderDecodingError {
    NotEnoughData,
    InvalidHeaderKind(u8),
}

/// The bytes of a header.
pub open spec fn header_bytes(namespace: u8, id: u16) -> Seq<u8> {
    seq![namespace, (id / 256) as u8, (id % 256) as u8]
}

impl Header {
    /// Write the header to the end of `dest`.
    pub fn encode(&self, dest: &mut Vec<u8>)
        ensures
            final(dest)@ == old(dest)@ + header_bytes(self.namespace, self.id),
    {
        put_u8(dest, self.namespace);
        put_u16(dest, self.id);
        proof {
            assert(dest@ =~= old(dest)@ + header_bytes(self.namespace, self.id));
        }
    }

    /// Read a header from the front of `source`, advancing it past the header.
    pub fn decode(source: &mut &[u8]) -> (r: Result<Header, HeaderDecodingError>)
        ensures
            old(source)@.len() < 3 ==> r == Err::<Header, HeaderDecodingError>(
                HeaderDecodingError::NotEnoughData,
            ) && final(source)@ == old(source)@,
            old(source)@.len() >= 3 ==> (r matches Ok(h) && h.namespace == old(source)@[0] && h.id
                == old(source)@[1] * 256 + old(source)@[2] && final(source)@ == old(
                source,
            )@.subrange(3, old(source)@.len() as int)),
    {
        if (remaining(*source) as u64) < HEADER_SIZE {
            return Err(HeaderDecodingError::NotEnoughData);
        }
        let ghost s0 = source@;
        let namespace = get_u8(source);
        let id = get_u16(source);
        proof {
            assert(source@ =~= s0.subrange(3, s0.len() as int));
        }
        Ok(Header { id, namespace })
    }
}

/// A header reads back as what was written.
pub proof fn law_header_roundtrip(namespace: u8, id: u16)
    ensures
        header_bytes(namespace, id)[0] == namespace,
        header_bytes(namespace, id)[1] * 256 + header_bytes(namespace, id)[2] == id,
{
}

} // verus!
