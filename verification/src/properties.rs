//! A property box as the encoder writes it.
use vstd::prelude::*;
use crate::context::ContextError;

verus! {

/// A property box to write: its fourcc, the uuid of a `uuid` box, its body,
/// whether the body is written as it is (raw), and the failure met while
/// composing the body.
#[derive(Debug)]
pub struct Property {
    pub kind: u32,
    pub uuid: Option<[u8; 16]>,
    pub data: Vec<u8>,
    pub raw: bool,
    pub write_error: Option<ContextError>,
}

/// Whether `p` is the plain property of fourcc `kind` with body `data`: no
/// uuid, not raw, no failure.
pub open spec fn plain_property(p: Property, kind: u32, data: Seq<u8>) -> bool {
    &&& p.kind == kind
    &&& p.uuid is None
    &&& p.data@ == data
    &&& !p.raw
    &&& p.write_error is None
}

impl Property {
    /// The plain property of fourcc `kind` with body `data`.
    pub fn new(kind: u32, data: Vec<u8>) -> (r: Property)
        ensures
            plain_property(r, kind, data@),
    {
        Property { kind, uuid: None, data, raw: false, write_error: None }
    }
}

} // verus!
