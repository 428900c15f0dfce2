//! The value variant set: the closed union of representable value kinds,
//! their in-memory shapes, equality, and the explicit narrowing operations.

use vstd::prelude::*;

verus! {

/// The two numeric shapes of the value model. The tag is part of the value:
/// an integer and a float never compare equal and never share a wire form,
/// even when they denote the same magnitude.
///
/// A float is carried as the raw bit pattern of its 64-bit IEEE-754
/// representation, so that encoding and decoding preserve it bit for bit.
#[derive(Clone, Copy, PartialEq, Eq, Structural, Debug)]
pub enum Number {
    Int(i64),
    Float(u64),
}

/// A value of the data model: exactly one variant at all times, immutable
/// once constructed. Extending the model means adding a variant here; every
/// match over `Node` is exhaustive, so each new variant must be handled at
/// every dispatch site before the crate builds again.
#[derive(Clone, Debug)]
pub enum Node {
    /// A logical truth value.
    Bool(bool),
    /// Text, carried as its UTF-8 byte encoding. Decoding accepts only
    /// valid UTF-8 here, and the codec laws range over values whose text is
    /// valid; a `Str` built directly from other bytes lies outside them.
    Str(Vec<u8>),
    /// An opaque byte sequence, no encoding assumed.
    Bytes(Vec<u8>),
    /// An integer or a float; see [`Number`].
    Number(Number),
}

/// The mathematical model of a [`Node`]: the same union with sequence
/// payloads in place of vectors. All contracts of the crate speak of values
/// of this type.
pub enum NodeView {
    Bool(bool),
    Str(Seq<u8>),
    Bytes(Seq<u8>),
    Number(Number),
}

impl View for Node {
    type V = NodeView;

    open spec fn view(&self) -> NodeView {
        match self {
            Node::Bool(b) => NodeView::Bool(*b),
            Node::Str(s) => NodeView::Str(s@),
            Node::Bytes(s) => NodeView::Bytes(s@),
            Node::Number(m) => NodeView::Number(*m),
        }
    }
}

impl NodeView {
    /// A well-formed value of the model: payloads small enough that a
    /// 64-bit wire length field can carry them (every `Node` satisfies
    /// that; the bound matters only for the model, where sequences have no
    /// intrinsic size limit), and text that is valid UTF-8. The codec laws
    /// range over well-formed values, and decoding yields only such values.
    pub open spec fn wf(self) -> bool {
        match self {
            NodeView::Str(s) => s.len() <= u64::MAX && crate::codec::is_utf8(s),
            NodeView::Bytes(s) => s.len() <= u64::MAX,
            _ => true,
        }
    }
}

/// Classification of a well-formed wire item whose kind lies outside the
/// value model. Carried by [`DecodeError::UnsupportedKind`] so that a caller
/// can report what was rejected and why.
#[derive(Clone, Copy, PartialEq, Eq, Structural, Debug)]
pub enum RawKind {
    /// A list of items.
    Array,
    /// A collection of key/value pairs.
    Mapping,
    /// A semantic tag wrapping another item.
    Tag,
    /// The null primitive.
    Null,
    /// The undefined primitive.
    Undefined,
    /// Any other simple value.
    Simple,
}

/// Why a byte sequence failed to decode. Both conditions are ordinary,
/// recoverable results: bad input never terminates the process.
#[derive(Clone, Copy, PartialEq, Eq, Structural, Debug)]
pub enum DecodeError {
    /// The bytes are not exactly one well-formed wire item: truncated
    /// input, trailing bytes, an invalid or non-minimal length form, a
    /// float width other than 64 bits, an integer beyond the 64-bit signed
    /// range, text that is not valid UTF-8, or an item of an unsupported
    /// kind whose announced contents are missing or ill-formed.
    Malformed,
    /// The bytes are a well-formed wire item, but of a kind the value model
    /// does not include.
    UnsupportedKind(RawKind),
}

/// The codec could not produce bytes for a value. No variant of the closed
/// union can trigger this; it is surfaced, never swallowed, so that an
/// encoding gap introduced by a future variant would reach the caller.
#[derive(Clone, Copy, PartialEq, Eq, Structural, Debug)]
pub enum EncodeError {
    Internal,
}

/// Compares two byte vectors by contents.
fn bytes_eq(a: &Vec<u8>, b: &Vec<u8>) -> (r: bool)
    ensures
        r == (a@ == b@),
{
    if a.len() != b.len() {
        return false;
    }
    let mut i: usize = 0;
    while i < a.len()
        invariant
            i <= a.len(),
            a@.len() == b@.len(),
            forall|j: int| 0 <= j < i ==> a@[j] == b@[j],
        decreases a.len() - i,
    {
        if a[i] != b[i] {
            return false;
        }
        i += 1;
    }
    proof {
        assert(a@ =~= b@);
    }
    true
}

impl PartialEq for Node {
    /// Structural value equality: same variant tag and equal payload.
    fn eq(&self, other: &Node) -> (r: bool) {
        match (self, other) {
            (Node::Bool(a), Node::Bool(b)) => *a == *b,
            (Node::Str(a), Node::Str(b)) => bytes_eq(a, b),
            (Node::Bytes(a), Node::Bytes(b)) => bytes_eq(a, b),
            (Node::Number(a), Node::Number(b)) => *a == *b,
            _ => false,
        }
    }
}

impl vstd::std_specs::cmp::PartialEqSpecImpl for Node {
    open spec fn obeys_eq_spec() -> bool {
        true
    }

    open spec fn eq_spec(&self, other: &Node) -> bool {
        self@ == other@
    }
}

impl Node {
    /// Serializes this value to its canonical byte representation; the
    /// method form of [`crate::marshal`]. Every variant of the closed union
    /// has an encode rule, so the result is always `Ok`.
    pub fn marshal_cbor(&self) -> (r: Result<Vec<u8>, EncodeError>)
        ensures
            r matches Ok(b) && b@ == crate::codec::spec_encode(self@),
    {
        Ok(crate::codec::encode(self))
    }

    /// Narrows to the boolean variant; `None` whenever the node holds any
    /// other variant, never a reinterpreted value.
    pub fn as_bool(&self) -> (r: Option<bool>)
        ensures
            match r {
                Some(b) => self@ == NodeView::Bool(b),
                None => !(self@ is Bool),
            },
    {
        match self {
            Node::Bool(b) => Some(*b),
            _ => None,
        }
    }

    /// Narrows to the text variant; `None` whenever the node holds any other
    /// variant.
    pub fn as_str(&self) -> (r: Option<&Vec<u8>>)
        ensures
            match r {
                Some(s) => self@ == NodeView::Str(s@),
                None => !(self@ is Str),
            },
    {
        match self {
            Node::Str(s) => Some(s),
            _ => None,
        }
    }

    /// Narrows to the byte-string variant; `None` whenever the node holds
    /// any other variant.
    pub fn as_bytes(&self) -> (r: Option<&Vec<u8>>)
        ensures
            match r {
                Some(s) => self@ == NodeView::Bytes(s@),
                None => !(self@ is Bytes),
            },
    {
        match self {
            Node::Bytes(s) => Some(s),
            _ => None,
        }
    }

    /// Narrows to the numeric variant; `None` whenever the node holds any
    /// other variant.
    pub fn as_number(&self) -> (r: Option<&Number>)
        ensures
            match r {
                Some(m) => self@ == NodeView::Number(*m),
                None => !(self@ is Number),
            },
    {
        match self {
            Node::Number(m) => Some(m),
            _ => None,
        }
    }
}

impl Number {
    /// Narrows to the integer shape; `None` on a float, whatever its value.
    pub fn as_int(&self) -> (r: Option<i64>)
        ensures
            match r {
                Some(i) => *self == Number::Int(i),
                None => !(*self is Int),
            },
    {
        match self {
            Number::Int(i) => Some(*i),
            _ => None,
        }
    }

    /// Narrows to the float shape, as the bit pattern of the 64-bit IEEE-754
    /// value; `None` on an integer, whatever its value.
    pub fn as_float_bits(&self) -> (r: Option<u64>)
        ensures
            match r {
                Some(bits) => *self == Number::Float(bits),
                None => !(*self is Float),
            },
    {
        match self {
            Number::Float(bits) => Some(*bits),
            _ => None,
        }
    }
}

/// The variant name carried by [`type_of`].
pub open spec fn spec_type_name(v: NodeView) -> Seq<char> {
    match v {
        NodeView::Bool(_) => "Bool"@,
        NodeView::Str(_) => "Str"@,
        NodeView::Bytes(_) => "Bytes"@,
        NodeView::Number(_) => "Number"@,
    }
}

/// Names the variant a node holds, for diagnostics.
pub fn type_of(n: &Node) -> (r: &'static str)
    ensures
        r@ == spec_type_name(n@),
{
    match n {
        Node::Bool(_) => "Bool",
        Node::Str(_) => "Str",
        Node::Bytes(_) => "Bytes",
        Node::Number(_) => "Number",
    }
}

} // verus!
