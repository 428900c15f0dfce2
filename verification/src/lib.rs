//! A strongly-typed value model for a content-addressable data format,
//! paired with a canonical binary codec that serializes each value to bytes
//! and reconstructs it losslessly.
//!
//! The model is a closed union of value kinds (boolean, text, bytes, integer,
//! float); the codec fixes exactly one byte representation per value, so that
//! encoding is deterministic and decoding recovers both the payload and the
//! logical kind of the original value.

use vstd::prelude::*;

pub mod codec;
pub mod node;

use crate::codec::spec_decode;
use crate::codec::spec_encode;
use crate::codec::RawShape;
use crate::codec::SpecOutcome;
use crate::node::DecodeError;
use crate::node::EncodeError;
use crate::node::Node;
use crate::node::Number;

verus! {

/// Serializes a value to its canonical byte representation.
///
/// Every value of the closed union is encodable, so the result is always
/// `Ok`; the error arm exists so that a failure of the codec, were one ever
/// introduced by a new variant, would reach the caller rather than be
/// swallowed.
pub fn marshal(n: &Node) -> (r: Result<Vec<u8>, EncodeError>)
    ensures
        r matches Ok(b) && b@ == spec_encode(n@),
{
    n.marshal_cbor()
}

/// Parses one canonical wire item and constructs the matching value.
///
/// The result is exactly what the decoding relation assigns to the input:
/// a value whose encoding is the input itself, or `UnsupportedKind` for a
/// well-formed item outside the value model, or `Malformed` for anything
/// else. No kind is ever coerced into another.
pub fn unmarshal(bytes: &Vec<u8>) -> (r: Result<Node, DecodeError>)
    ensures
        match r {
            Ok(n) => spec_decode(bytes@) == SpecOutcome::Value(n@),
            Err(DecodeError::UnsupportedKind(k)) => spec_decode(bytes@)
                == SpecOutcome::Unsupported(k),
            Err(DecodeError::Malformed) => spec_decode(bytes@) == SpecOutcome::Malformed,
        },
{
    match codec::decode(bytes) {
        Ok(RawShape::Bool(b)) => Ok(Node::Bool(b)),
        Ok(RawShape::Text(t)) => Ok(Node::Str(t)),
        Ok(RawShape::ByteString(v)) => Ok(Node::Bytes(v)),
        Ok(RawShape::Integer(i)) => Ok(Node::Number(Number::Int(i))),
        Ok(RawShape::Float(bits)) => Ok(Node::Number(Number::Float(bits))),
        Ok(RawShape::Other(k)) => Err(DecodeError::UnsupportedKind(k)),
        Err(e) => Err(e),
    }
}

} // verus!
