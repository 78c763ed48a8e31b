//! Messages: an identifier and a payload.
use std::borrow::Cow;
use vstd::prelude::*;

verus! {

/// The namespace and id of a message.
#[derive(Copy, Clone, Debug, Eq, Ord, PartialEq, PartialOrd)]
pub struct MessageIdentifier {
    pub namespace: u8,
    pub id: u16,
}

/// A message, borrowing or owning its payload.
#[derive(Debug, Eq, Ord, PartialEq, PartialOrd)]
pub struct Message<'a> {
    pub identifier: MessageIdentifier,
    pub data: Cow<'a, [u8]>,
}

/// The bytes of a payload.
pub fn payload_bytes<'b, 'a>(data: &'b Cow<'a, [u8]>) -> (r: &'b [u8])
    ensures
        r@ == data@,
{
    match data {
        Cow::Borrowed(b) => b,
        Cow::Owned(o) => o.as_slice(),
    }
}

impl<'a> Clone for Message<'a> {
    fn clone(&self) -> (m: Message<'a>)
        ensures
            m.identifier == self.identifier,
            m.data@ == self.data@,
    {
        let data = match &self.data {
            Cow::Borrowed(b) => Cow::Borrowed(*b),
            Cow::Owned(o) => Cow::Owned(vstd::slice::slice_to_vec(o.as_slice())),
        };
        Message { identifier: self.identifier, data }
    }
}

impl<'a> Message<'a> {
    pub fn new(identifier: MessageIdentifier, data: Cow<'a, [u8]>) -> (m: Message<'a>)
        ensures
            m.identifier == identifier,
            m.data@ == data@,
    {
        Message { identifier, data }
    }

    /// Extend the lifetime of this message to 'static by cloning the data.
    pub fn clone_static(&self) -> (m: Message<'static>)
        ensures
            m.identifier == self.identifier,
            m.data@ == self.data@,
            m.data is Owned,
    {
        let bytes = vstd::slice::slice_to_vec(payload_bytes(&self.data));
        Message { identifier: self.identifier, data: Cow::Owned(bytes) }
    }

    /// The length of the payload.
    pub fn len(&self) -> (n: u64)
        ensures
            n == self.data@.len(),
    {
        payload_bytes(&self.data).len() as u64
    }
}

} // verus!
