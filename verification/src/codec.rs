//! The canonical codec: a deterministic, bit-exact mapping between a value
//! of the model and a byte sequence.
//!
//! The wire grammar is a canonical binary profile of a CBOR-style format.
//! The first byte of an item carries a major kind in its upper three bits
//! and additional information in its lower five. Integers and payload
//! lengths use the shortest of five width forms (immediate, 1, 2, 4 or 8
//! extra bytes, big-endian); floats are always the full 64-bit form; no
//! indefinite-length form is accepted; text must be valid UTF-8. Under
//! these rules each value has exactly one byte representation, which
//! [`spec_encode`] defines, and each byte sequence has exactly one reading,
//! which [`spec_decode`] defines. Kinds outside the value model are still
//! parsed in full, so that only one well-formed item is ever reported as
//! merely unsupported.

use vstd::prelude::*;

use crate::node::DecodeError;
use crate::node::Node;
use crate::node::NodeView;
use crate::node::Number;
use crate::node::RawKind;

verus! {

/// The two bytes of a big-endian 16-bit value.
pub open spec fn spec_be2(v: u64) -> Seq<u8> {
    seq![((v >> 8) & 0xFF) as u8, (v & 0xFF) as u8]
}

/// The four bytes of a big-endian 32-bit value.
pub open spec fn spec_be4(v: u64) -> Seq<u8> {
    seq![
        ((v >> 24) & 0xFF) as u8,
        ((v >> 16) & 0xFF) as u8,
        ((v >> 8) & 0xFF) as u8,
        (v & 0xFF) as u8,
    ]
}

/// The eight bytes of a big-endian 64-bit value.
pub open spec fn spec_be8(v: u64) -> Seq<u8> {
    seq![
        ((v >> 56) & 0xFF) as u8,
        ((v >> 48) & 0xFF) as u8,
        ((v >> 40) & 0xFF) as u8,
        ((v >> 32) & 0xFF) as u8,
        ((v >> 24) & 0xFF) as u8,
        ((v >> 16) & 0xFF) as u8,
        ((v >> 8) & 0xFF) as u8,
        (v & 0xFF) as u8,
    ]
}

/// The value of two big-endian bytes.
pub open spec fn from_be2(b0: u8, b1: u8) -> u64 {
    ((b0 as u64) << 8) | (b1 as u64)
}

/// The value of four big-endian bytes.
pub open spec fn from_be4(b0: u8, b1: u8, b2: u8, b3: u8) -> u64 {
    ((b0 as u64) << 24) | ((b1 as u64) << 16) | ((b2 as u64) << 8) | (b3 as u64)
}

/// The value of eight big-endian bytes.
pub open spec fn from_be8(
    b0: u8,
    b1: u8,
    b2: u8,
    b3: u8,
    b4: u8,
    b5: u8,
    b6: u8,
    b7: u8,
) -> u64 {
    ((b0 as u64) << 56) | ((b1 as u64) << 48) | ((b2 as u64) << 40) | ((b3 as u64) << 32) | (
    (b4 as u64) << 24) | ((b5 as u64) << 16) | ((b6 as u64) << 8) | (b7 as u64)
}

/// The canonical head of an item of the given major kind: the major in the
/// upper three bits of the first byte, and the value in the minimal width
/// form the grammar allows for it.
pub open spec fn spec_header(major: u8, v: u64) -> Seq<u8> {
    if v < 24 {
        seq![(major << 5) | (v as u8)]
    } else if v <= 0xFF {
        seq![(major << 5) | 24u8, v as u8]
    } else if v <= 0xFFFF {
        seq![(major << 5) | 25u8] + spec_be2(v)
    } else if v <= 0xFFFF_FFFF {
        seq![(major << 5) | 26u8] + spec_be4(v)
    } else {
        seq![(major << 5) | 27u8] + spec_be8(v)
    }
}

/// The canonical byte representation of a value: one fixed byte sequence
/// per value, so encoding is deterministic by construction.
///
/// Booleans are the two one-byte simple forms; text and byte strings are a
/// length head followed by the payload; a non-negative integer is a head of
/// major kind 0 carrying its value, a negative integer a head of major kind
/// 1 carrying one less than its magnitude; a float is the 64-bit float form
/// carrying its bit pattern.
pub open spec fn spec_encode(v: NodeView) -> Seq<u8> {
    match v {
        NodeView::Bool(b) => seq![if b { 0xF5u8 } else { 0xF4u8 }],
        NodeView::Str(s) => spec_header(3u8, s.len() as u64) + s,
        NodeView::Bytes(s) => spec_header(2u8, s.len() as u64) + s,
        NodeView::Number(Number::Int(i)) => if i >= 0 {
            spec_header(0u8, i as u64)
        } else {
            spec_header(1u8, (-1 - i) as u64)
        },
        NodeView::Number(Number::Float(bits)) => seq![0xFBu8] + spec_be8(bits),
    }
}

/// What the decoding relation assigns to a byte sequence: exactly one of a
/// value of the model, a well-formed item of an unsupported kind, or a
/// malformed rejection.
pub enum SpecOutcome {
    Value(NodeView),
    Unsupported(RawKind),
    Malformed,
}

/// Reads the head of an item of major kind 0 to 3: the carried value and
/// the head's length. `None` when the head is truncated, uses a reserved or
/// indefinite length form, or is not the minimal width form for its value.
pub open spec fn spec_parse_header(b: Seq<u8>) -> Option<(u64, int)>
    recommends
        b.len() >= 1,
{
    let ai = b[0] & 0x1F;
    if ai < 24 {
        Some(((ai as u64), 1int))
    } else if ai == 24 {
        if b.len() >= 2 && b[1] >= 24 {
            Some(((b[1] as u64), 2int))
        } else {
            None
        }
    } else if ai == 25 {
        if b.len() >= 3 && from_be2(b[1], b[2]) > 0xFF {
            Some((from_be2(b[1], b[2]), 3int))
        } else {
            None
        }
    } else if ai == 26 {
        if b.len() >= 5 && from_be4(b[1], b[2], b[3], b[4]) > 0xFFFF {
            Some((from_be4(b[1], b[2], b[3], b[4]), 5int))
        } else {
            None
        }
    } else if ai == 27 {
        if b.len() >= 9 && from_be8(b[1], b[2], b[3], b[4], b[5], b[6], b[7], b[8])
            > 0xFFFF_FFFF {
            Some((from_be8(b[1], b[2], b[3], b[4], b[5], b[6], b[7], b[8]), 9int))
        } else {
            None
        }
    } else {
        None
    }
}

/// Whether a byte continues a multi-byte UTF-8 sequence.
pub open spec fn is_utf8_cont(b: u8) -> bool {
    0x80 <= b <= 0xBF
}

/// Whether a byte sequence is well-formed UTF-8: the shortest-form ranges
/// of the encoding, with overlong forms, surrogate code points and values
/// beyond the last code point all excluded.
pub open spec fn is_utf8(s: Seq<u8>) -> bool
    decreases s.len(),
{
    if s.len() == 0 {
        true
    } else {
        let b0 = s[0];
        if b0 < 0x80 {
            is_utf8(s.skip(1))
        } else if 0xC2 <= b0 <= 0xDF {
            s.len() >= 2 && is_utf8_cont(s[1]) && is_utf8(s.skip(2))
        } else if b0 == 0xE0 {
            s.len() >= 3 && 0xA0 <= s[1] <= 0xBF && is_utf8_cont(s[2]) && is_utf8(s.skip(3))
        } else if 0xE1 <= b0 <= 0xEC {
            s.len() >= 3 && is_utf8_cont(s[1]) && is_utf8_cont(s[2]) && is_utf8(s.skip(3))
        } else if b0 == 0xED {
            s.len() >= 3 && 0x80 <= s[1] <= 0x9F && is_utf8_cont(s[2]) && is_utf8(s.skip(3))
        } else if 0xEE <= b0 <= 0xEF {
            s.len() >= 3 && is_utf8_cont(s[1]) && is_utf8_cont(s[2]) && is_utf8(s.skip(3))
        } else if b0 == 0xF0 {
            s.len() >= 4 && 0x90 <= s[1] <= 0xBF && is_utf8_cont(s[2]) && is_utf8_cont(s[3])
                && is_utf8(s.skip(4))
        } else if 0xF1 <= b0 <= 0xF3 {
            s.len() >= 4 && is_utf8_cont(s[1]) && is_utf8_cont(s[2]) && is_utf8_cont(s[3])
                && is_utf8(s.skip(4))
        } else if b0 == 0xF4 {
            s.len() >= 4 && 0x80 <= s[1] <= 0x8F && is_utf8_cont(s[2]) && is_utf8_cont(s[3])
                && is_utf8(s.skip(4))
        } else {
            false
        }
    }
}

/// The byte length of one well-formed wire item at the start of the
/// sequence, children included, or `None` where no well-formed item starts
/// there. This is the structural grammar of the whole wire format, kinds
/// outside the value model included, so that the decoder can tell a
/// well-formed item it merely does not support from ill-formed bytes.
pub open spec fn spec_item_size(s: Seq<u8>) -> Option<int>
    decreases s.len(), 0int,
{
    if s.len() == 0 {
        None
    } else {
        let major = s[0] >> 5;
        if major == 7 {
            let h = s[0];
            if h == 0xF8 {
                // the two-byte simple form; its value byte must be one the
                // one-byte form cannot carry
                if s.len() >= 2 && s[1] >= 32 {
                    Some(2)
                } else {
                    None
                }
            } else if (h & 0x1F) < 24 {
                Some(1)
            } else if h == 0xFB {
                if s.len() >= 9 {
                    Some(9)
                } else {
                    None
                }
            } else {
                None
            }
        } else {
            match spec_parse_header(s) {
                None => None,
                Some((v, hl)) => {
                    if !(1 <= hl && hl <= s.len()) {
                        // never taken: a parsed head lies within the
                        // sequence; stated so the recursion is visibly
                        // bounded
                        None
                    } else if major == 0 || major == 1 {
                        if v <= 0x7FFF_FFFF_FFFF_FFFF {
                            Some(hl)
                        } else {
                            None
                        }
                    } else if major == 2 {
                        if s.len() >= hl + v {
                            Some(hl + v)
                        } else {
                            None
                        }
                    } else if major == 3 {
                        if s.len() >= hl + v && is_utf8(s.subrange(hl, hl + v)) {
                            Some(hl + v)
                        } else {
                            None
                        }
                    } else if major == 4 {
                        match spec_items_size(s.skip(hl), v as nat) {
                            None => None,
                            Some(r) => Some(hl + r),
                        }
                    } else if major == 5 {
                        match spec_items_size(s.skip(hl), 2 * (v as nat)) {
                            None => None,
                            Some(r) => Some(hl + r),
                        }
                    } else {
                        match spec_items_size(s.skip(hl), 1nat) {
                            None => None,
                            Some(r) => Some(hl + r),
                        }
                    }
                },
            }
        }
    }
}

/// The byte length of `count` consecutive well-formed wire items at the
/// start of the sequence, or `None` where any of them is missing or
/// ill-formed.
pub open spec fn spec_items_size(s: Seq<u8>, count: nat) -> Option<int>
    decreases s.len(), count,
{
    if count == 0 {
        Some(0)
    } else {
        match spec_item_size(s) {
            None => None,
            Some(sz) => {
                if 1 <= sz && sz <= s.len() {
                    match spec_items_size(s.skip(sz), (count - 1) as nat) {
                        None => None,
                        Some(r) => Some(sz + r),
                    }
                } else {
                    // never taken: an item's size lies within the sequence;
                    // stated so the recursion is visibly bounded
                    None
                }
            },
        }
    }
}

/// An item's size, where there is one, covers at least one byte and never
/// more than the sequence holds.
proof fn lemma_item_size_bound(s: Seq<u8>)
    ensures
        spec_item_size(s) matches Some(k) ==> 1 <= k <= s.len(),
    decreases s.len(), 0int,
{
    if s.len() != 0 && (s[0] >> 5) != 7 {
        let major = s[0] >> 5;
        match spec_parse_header(s) {
            None => {},
            Some((v, hl)) => {
                if 1 <= hl && hl <= s.len() {
                    if major == 4 {
                        lemma_items_size_bound(s.skip(hl), v as nat);
                    } else if major == 5 {
                        lemma_items_size_bound(s.skip(hl), 2 * (v as nat));
                    } else if !(major == 0 || major == 1 || major == 2 || major == 3) {
                        // the remaining head kind wraps one item
                        lemma_items_size_bound(s.skip(hl), 1nat);
                    }
                    assert(s.skip(hl).len() == s.len() - hl);
                }
            },
        }
    }
}

/// `count` items, where they are there, cover at least `count` bytes and
/// never more than the sequence holds.
proof fn lemma_items_size_bound(s: Seq<u8>, count: nat)
    ensures
        spec_items_size(s, count) matches Some(k) ==> count <= k <= s.len(),
    decreases s.len(), count,
{
    if count != 0 {
        lemma_item_size_bound(s);
        match spec_item_size(s) {
            None => {},
            Some(sz) => {
                if 1 <= sz && sz <= s.len() {
                    lemma_items_size_bound(s.skip(sz), (count - 1) as nat);
                }
            },
        }
    }
}

/// The reading of an item of major kind 7: the two boolean forms, the
/// 64-bit float form, the unsupported simple kinds — each well-formed and
/// alone in the input — and nothing else.
pub open spec fn spec_decode_simple(b: Seq<u8>) -> SpecOutcome
    recommends
        b.len() >= 1,
{
    let h = b[0];
    if h == 0xF4 {
        if b.len() == 1 {
            SpecOutcome::Value(NodeView::Bool(false))
        } else {
            SpecOutcome::Malformed
        }
    } else if h == 0xF5 {
        if b.len() == 1 {
            SpecOutcome::Value(NodeView::Bool(true))
        } else {
            SpecOutcome::Malformed
        }
    } else if h == 0xF6 {
        if b.len() == 1 {
            SpecOutcome::Unsupported(RawKind::Null)
        } else {
            SpecOutcome::Malformed
        }
    } else if h == 0xF7 {
        if b.len() == 1 {
            SpecOutcome::Unsupported(RawKind::Undefined)
        } else {
            SpecOutcome::Malformed
        }
    } else if (h & 0x1F) < 20 {
        if b.len() == 1 {
            SpecOutcome::Unsupported(RawKind::Simple)
        } else {
            SpecOutcome::Malformed
        }
    } else if h == 0xF8 {
        if b.len() == 2 && b[1] >= 32 {
            SpecOutcome::Unsupported(RawKind::Simple)
        } else {
            SpecOutcome::Malformed
        }
    } else if h == 0xFB {
        if b.len() == 9 {
            SpecOutcome::Value(
                NodeView::Number(
                    Number::Float(from_be8(b[1], b[2], b[3], b[4], b[5], b[6], b[7], b[8])),
                ),
            )
        } else {
            SpecOutcome::Malformed
        }
    } else {
        SpecOutcome::Malformed
    }
}

/// The reading of an item of major kind 0 to 3: a head, then either nothing
/// (integers, whose value must fit a 64-bit signed integer) or exactly as
/// many payload bytes as the head announces (strings).
pub open spec fn spec_decode_with_header(b: Seq<u8>, major: u8) -> SpecOutcome
    recommends
        b.len() >= 1,
        major < 4,
{
    match spec_parse_header(b) {
        None => SpecOutcome::Malformed,
        Some((v, hl)) => {
            if major == 0 {
                if b.len() == hl && v <= 0x7FFF_FFFF_FFFF_FFFF {
                    SpecOutcome::Value(NodeView::Number(Number::Int(v as i64)))
                } else {
                    SpecOutcome::Malformed
                }
            } else if major == 1 {
                if b.len() == hl && v <= 0x7FFF_FFFF_FFFF_FFFF {
                    SpecOutcome::Value(NodeView::Number(Number::Int((-1 - v) as i64)))
                } else {
                    SpecOutcome::Malformed
                }
            } else if major == 2 {
                if b.len() == hl + v {
                    SpecOutcome::Value(NodeView::Bytes(b.subrange(hl, b.len() as int)))
                } else {
                    SpecOutcome::Malformed
                }
            } else {
                if b.len() == hl + v && is_utf8(b.subrange(hl, b.len() as int)) {
                    SpecOutcome::Value(NodeView::Str(b.subrange(hl, b.len() as int)))
                } else {
                    SpecOutcome::Malformed
                }
            }
        },
    }
}

/// The reading of a byte sequence as exactly one canonical wire item.
/// Total: every byte sequence is assigned exactly one outcome, so a decoder
/// holding this relation can neither crash nor guess. A kind outside the
/// value model is reported as unsupported only when the input is exactly
/// one well-formed item of that kind; ill-formed bytes are malformed,
/// whatever their first byte announces.
pub open spec fn spec_decode(b: Seq<u8>) -> SpecOutcome {
    if b.len() == 0 {
        SpecOutcome::Malformed
    } else {
        let major = b[0] >> 5;
        if major == 4 {
            if spec_item_size(b) == Some(b.len() as int) {
                SpecOutcome::Unsupported(RawKind::Array)
            } else {
                SpecOutcome::Malformed
            }
        } else if major == 5 {
            if spec_item_size(b) == Some(b.len() as int) {
                SpecOutcome::Unsupported(RawKind::Mapping)
            } else {
                SpecOutcome::Malformed
            }
        } else if major == 6 {
            if spec_item_size(b) == Some(b.len() as int) {
                SpecOutcome::Unsupported(RawKind::Tag)
            } else {
                SpecOutcome::Malformed
            }
        } else if major == 7 {
            spec_decode_simple(b)
        } else {
            spec_decode_with_header(b, major)
        }
    }
}

/// A canonical head followed by anything parses back to the value it was
/// built from, and the head's bytes are exactly the prefix before the rest.
proof fn lemma_header_parses(major: u8, v: u64, t: Seq<u8>)
    requires
        major < 4,
    ensures
        ({
            let h = spec_header(major, v);
            let b = h + t;
            &&& 1 <= h.len() <= 9
            &&& b.len() == h.len() + t.len()
            &&& b[0] >> 5 == major
            &&& spec_parse_header(b) == Some((v, h.len() as int))
            &&& b.subrange(h.len() as int, b.len() as int) == t
        }),
{
    let h = spec_header(major, v);
    let b = h + t;
    if v < 24 {
        assert(b[0] == (major << 5) | (v as u8));
        assert(((major << 5) | (v as u8)) >> 5 == major && (((major << 5) | (v as u8)) & 0x1F)
            < 24 && ((((major << 5) | (v as u8)) & 0x1F) as u64) == v) by (bit_vector)
            requires
                major < 4,
                v < 24,
        ;
    } else if v <= 0xFF {
        assert(b[0] == (major << 5) | 24u8);
        assert(b[1] == (v as u8));
        assert(((major << 5) | 24u8) >> 5 == major && (((major << 5) | 24u8) & 0x1F) == 24)
            by (bit_vector)
            requires
                major < 4,
        ;
        assert((v as u8) >= 24 && ((v as u8) as u64) == v) by (bit_vector)
            requires
                24 <= v <= 0xFF,
        ;
    } else if v <= 0xFFFF {
        assert(b[0] == (major << 5) | 25u8);
        assert(b[1] == spec_be2(v)[0] && b[2] == spec_be2(v)[1]);
        assert(((major << 5) | 25u8) >> 5 == major && (((major << 5) | 25u8) & 0x1F) == 25)
            by (bit_vector)
            requires
                major < 4,
        ;
        assert(from_be2(((v >> 8) & 0xFF) as u8, (v & 0xFF) as u8) == v && from_be2(
            ((v >> 8) & 0xFF) as u8,
            (v & 0xFF) as u8,
        ) > 0xFF) by (bit_vector)
            requires
                0xFF < v <= 0xFFFF,
        ;
    } else if v <= 0xFFFF_FFFF {
        assert(b[0] == (major << 5) | 26u8);
        assert(b[1] == spec_be4(v)[0] && b[2] == spec_be4(v)[1] && b[3] == spec_be4(v)[2] && b[4]
            == spec_be4(v)[3]);
        assert(((major << 5) | 26u8) >> 5 == major && (((major << 5) | 26u8) & 0x1F) == 26)
            by (bit_vector)
            requires
                major < 4,
        ;
        assert(from_be4(
            ((v >> 24) & 0xFF) as u8,
            ((v >> 16) & 0xFF) as u8,
            ((v >> 8) & 0xFF) as u8,
            (v & 0xFF) as u8,
        ) == v && from_be4(
            ((v >> 24) & 0xFF) as u8,
            ((v >> 16) & 0xFF) as u8,
            ((v >> 8) & 0xFF) as u8,
            (v & 0xFF) as u8,
        ) > 0xFFFF) by (bit_vector)
            requires
                0xFFFF < v <= 0xFFFF_FFFF,
        ;
    } else {
        assert(b[0] == (major << 5) | 27u8);
        assert(b[1] == spec_be8(v)[0] && b[2] == spec_be8(v)[1] && b[3] == spec_be8(v)[2] && b[4]
            == spec_be8(v)[3] && b[5] == spec_be8(v)[4] && b[6] == spec_be8(v)[5] && b[7]
            == spec_be8(v)[6] && b[8] == spec_be8(v)[7]);
        assert(((major << 5) | 27u8) >> 5 == major && (((major << 5) | 27u8) & 0x1F) == 27)
            by (bit_vector)
            requires
                major < 4,
        ;
        lemma_from_be8_of_spec_be8(v);
        assert(v > 0xFFFF_FFFF);
    }
    assert(b.subrange(h.len() as int, b.len() as int) =~= t);
}

/// Splitting a 64-bit value into its eight big-endian bytes and reassembling
/// them gives the value back.
proof fn lemma_from_be8_of_spec_be8(v: u64)
    ensures
        from_be8(
            ((v >> 56) & 0xFF) as u8,
            ((v >> 48) & 0xFF) as u8,
            ((v >> 40) & 0xFF) as u8,
            ((v >> 32) & 0xFF) as u8,
            ((v >> 24) & 0xFF) as u8,
            ((v >> 16) & 0xFF) as u8,
            ((v >> 8) & 0xFF) as u8,
            (v & 0xFF) as u8,
        ) == v,
{
    assert(from_be8(
        ((v >> 56) & 0xFF) as u8,
        ((v >> 48) & 0xFF) as u8,
        ((v >> 40) & 0xFF) as u8,
        ((v >> 32) & 0xFF) as u8,
        ((v >> 24) & 0xFF) as u8,
        ((v >> 16) & 0xFF) as u8,
        ((v >> 8) & 0xFF) as u8,
        (v & 0xFF) as u8,
    ) == v) by (bit_vector);
}

/// Round-trip law: decoding the canonical encoding of any value of the
/// model yields exactly that value — equal payload and the same variant
/// tag, an integer never coming back as a float nor the reverse.
pub proof fn lemma_round_trip(v: NodeView)
    requires
        v.wf(),
    ensures
        spec_decode(spec_encode(v)) == SpecOutcome::Value(v),
{
    match v {
        NodeView::Bool(b) => {
            assert(0xF4u8 >> 5 == 7 && 0xF5u8 >> 5 == 7) by (bit_vector);
        },
        NodeView::Str(s) => {
            lemma_header_parses(3u8, s.len() as u64, s);
        },
        NodeView::Bytes(s) => {
            lemma_header_parses(2u8, s.len() as u64, s);
        },
        NodeView::Number(Number::Int(i)) => {
            if i >= 0 {
                lemma_header_parses(0u8, i as u64, Seq::<u8>::empty());
                assert(spec_header(0u8, i as u64) + Seq::<u8>::empty() =~= spec_header(
                    0u8,
                    i as u64,
                ));
            } else {
                lemma_header_parses(1u8, (-1 - i) as u64, Seq::<u8>::empty());
                assert(spec_header(1u8, (-1 - i) as u64) + Seq::<u8>::empty() =~= spec_header(
                    1u8,
                    (-1 - i) as u64,
                ));
            }
        },
        NodeView::Number(Number::Float(bits)) => {
            let b = seq![0xFBu8] + spec_be8(bits);
            assert(b[0] == 0xFBu8);
            assert(0xFBu8 >> 5 == 7 && (0xFBu8 & 0x1F) == 27) by (bit_vector);
            assert(b[1] == spec_be8(bits)[0] && b[2] == spec_be8(bits)[1] && b[3] == spec_be8(
                bits,
            )[2] && b[4] == spec_be8(bits)[3] && b[5] == spec_be8(bits)[4] && b[6] == spec_be8(
                bits,
            )[5] && b[7] == spec_be8(bits)[6] && b[8] == spec_be8(bits)[7]);
            lemma_from_be8_of_spec_be8(bits);
        },
    }
}

/// A head the parser accepts is the canonical head of the value it carries:
/// its bytes are exactly what [`spec_header`] emits for that value.
proof fn lemma_parse_header_canonical(b: Seq<u8>, major: u8, v: u64, hl: int)
    requires
        b.len() >= 1,
        major < 4,
        b[0] >> 5 == major,
        spec_parse_header(b) == Some((v, hl)),
    ensures
        1 <= hl <= 9,
        hl <= b.len(),
        spec_header(major, v) == b.subrange(0, hl),
{
    let b0 = b[0];
    let ai = b0 & 0x1F;
    if ai < 24 {
        assert((((b0 >> 5) << 5) | (((b0 & 0x1F) as u64) as u8)) == b0 && ((b0 & 0x1F) as u64)
            < 24) by (bit_vector)
            requires
                (b0 & 0x1F) < 24,
        ;
        assert(spec_header(major, v) =~= b.subrange(0, 1));
    } else if ai == 24 {
        let x1 = b[1];
        assert((((b0 >> 5) << 5) | 24u8) == b0) by (bit_vector)
            requires
                (b0 & 0x1F) == 24,
        ;
        assert(24 <= (x1 as u64) <= 0xFF && ((x1 as u64) as u8) == x1) by (bit_vector)
            requires
                x1 >= 24,
        ;
        assert(spec_header(major, v) =~= b.subrange(0, 2));
    } else if ai == 25 {
        let x1 = b[1];
        let x2 = b[2];
        assert((((b0 >> 5) << 5) | 25u8) == b0) by (bit_vector)
            requires
                (b0 & 0x1F) == 25,
        ;
        assert(from_be2(x1, x2) <= 0xFFFF && ((from_be2(x1, x2) >> 8) & 0xFF) as u8 == x1 && (
        from_be2(x1, x2) & 0xFF) as u8 == x2) by (bit_vector);
        assert(spec_header(major, v) =~= b.subrange(0, 3));
    } else if ai == 26 {
        let x1 = b[1];
        let x2 = b[2];
        let x3 = b[3];
        let x4 = b[4];
        assert((((b0 >> 5) << 5) | 26u8) == b0) by (bit_vector)
            requires
                (b0 & 0x1F) == 26,
        ;
        assert(from_be4(x1, x2, x3, x4) <= 0xFFFF_FFFF && ((from_be4(x1, x2, x3, x4) >> 24)
            & 0xFF) as u8 == x1 && ((from_be4(x1, x2, x3, x4) >> 16) & 0xFF) as u8 == x2 && ((
        from_be4(x1, x2, x3, x4) >> 8) & 0xFF) as u8 == x3 && (from_be4(x1, x2, x3, x4)
            & 0xFF) as u8 == x4) by (bit_vector);
        assert(spec_header(major, v) =~= b.subrange(0, 5));
    } else {
        let x1 = b[1];
        let x2 = b[2];
        let x3 = b[3];
        let x4 = b[4];
        let x5 = b[5];
        let x6 = b[6];
        let x7 = b[7];
        let x8 = b[8];
        assert((((b0 >> 5) << 5) | 27u8) == b0) by (bit_vector)
            requires
                (b0 & 0x1F) == 27,
        ;
        lemma_spec_be8_of_from_be8(x1, x2, x3, x4, x5, x6, x7, x8);
        assert(spec_header(major, v) =~= b.subrange(0, 9));
    }
}

/// Reassembling eight big-endian bytes and splitting the value again gives
/// the same eight bytes back.
proof fn lemma_spec_be8_of_from_be8(
    x1: u8,
    x2: u8,
    x3: u8,
    x4: u8,
    x5: u8,
    x6: u8,
    x7: u8,
    x8: u8,
)
    ensures
        spec_be8(from_be8(x1, x2, x3, x4, x5, x6, x7, x8)) == seq![x1, x2, x3, x4, x5, x6, x7, x8],
{
    let v = from_be8(x1, x2, x3, x4, x5, x6, x7, x8);
    assert(((from_be8(x1, x2, x3, x4, x5, x6, x7, x8) >> 56) & 0xFF) as u8 == x1 && ((from_be8(
        x1,
        x2,
        x3,
        x4,
        x5,
        x6,
        x7,
        x8,
    ) >> 48) & 0xFF) as u8 == x2 && ((from_be8(x1, x2, x3, x4, x5, x6, x7, x8) >> 40) & 0xFF) as u8
        == x3 && ((from_be8(x1, x2, x3, x4, x5, x6, x7, x8) >> 32) & 0xFF) as u8 == x4 && ((
    from_be8(x1, x2, x3, x4, x5, x6, x7, x8) >> 24) & 0xFF) as u8 == x5 && ((from_be8(
        x1,
        x2,
        x3,
        x4,
        x5,
        x6,
        x7,
        x8,
    ) >> 16) & 0xFF) as u8 == x6 && ((from_be8(x1, x2, x3, x4, x5, x6, x7, x8) >> 8) & 0xFF) as u8
        == x7 && (from_be8(x1, x2, x3, x4, x5, x6, x7, x8) & 0xFF) as u8 == x8) by (bit_vector);
    assert(spec_be8(v) =~= seq![x1, x2, x3, x4, x5, x6, x7, x8]);
}

/// Canonicity: a byte sequence that decodes to a value is exactly that
/// value's canonical encoding. Together with the round-trip law this makes
/// decoding and encoding inverse bijections between the values of the model
/// and the byte sequences the decoder accepts: each value has exactly one
/// byte representation and each accepted byte sequence one reading.
pub proof fn lemma_decode_canonical(b: Seq<u8>, v: NodeView)
    requires
        spec_decode(b) == SpecOutcome::Value(v),
    ensures
        v.wf(),
        spec_encode(v) == b,
{
    let b0 = b[0];
    let major = b0 >> 5;
    assert(b0 >> 5 <= 7) by (bit_vector);
    if major == 7 {
        if b0 == 0xF4 || b0 == 0xF5 {
            assert(spec_encode(v) =~= b);
        } else {
            // of the remaining simple forms only the 64-bit float yields a value
            let x1 = b[1];
            let x2 = b[2];
            let x3 = b[3];
            let x4 = b[4];
            let x5 = b[5];
            let x6 = b[6];
            let x7 = b[7];
            let x8 = b[8];
            lemma_spec_be8_of_from_be8(x1, x2, x3, x4, x5, x6, x7, x8);
            assert(spec_encode(v) =~= b);
        }
    } else {
        match spec_parse_header(b) {
            None => {
                assert(false);
            },
            Some((pv, hl)) => {
                lemma_parse_header_canonical(b, major, pv, hl);
                if major == 0 {
                    assert((pv as i64) as u64 == pv) by (bit_vector)
                        requires
                            pv <= 0x7FFF_FFFF_FFFF_FFFF,
                    ;
                    assert(b.subrange(0, b.len() as int) =~= b);
                } else if major == 1 {
                    assert(-1 - ((-1 - pv) as i64) == pv) by (bit_vector)
                        requires
                            pv <= 0x7FFF_FFFF_FFFF_FFFF,
                    ;
                    assert(b.subrange(0, b.len() as int) =~= b);
                } else {
                    let s = b.subrange(hl, b.len() as int);
                    assert(s.len() as u64 == pv);
                    assert(b.subrange(0, hl) + b.subrange(hl, b.len() as int) =~= b);
                }
            },
        }
    }
}

/// No two values share a byte representation: distinct values, in
/// particular distinct variant tags over equal payloads, never collide.
pub proof fn lemma_encode_injective(a: NodeView, b: NodeView)
    requires
        a.wf(),
        b.wf(),
        spec_encode(a) == spec_encode(b),
    ensures
        a == b,
{
    lemma_round_trip(a);
    lemma_round_trip(b);
}

/// Determinism: the encoding is a function of the value alone, so two
/// encodings of equal values are byte-identical.
pub proof fn lemma_encode_deterministic(a: NodeView, b: NodeView)
    requires
        a == b,
    ensures
        spec_encode(a) == spec_encode(b),
{
}

/// The raw decoded shape: what the wire bytes semantically contain, before
/// the dispatch facade picks the domain variant. It exists only transiently
/// during decode and is not part of the public surface.
#[derive(Clone, Debug)]
pub(crate) enum RawShape {
    Bool(bool),
    Text(Vec<u8>),
    ByteString(Vec<u8>),
    Integer(i64),
    Float(u64),
    Other(RawKind),
}

impl RawShape {
    /// The outcome a shape stands for; [`decode`]'s contract is stated
    /// through it.
    pub(crate) open spec fn outcome(&self) -> SpecOutcome {
        match self {
            RawShape::Bool(b) => SpecOutcome::Value(NodeView::Bool(*b)),
            RawShape::Text(t) => SpecOutcome::Value(NodeView::Str(t@)),
            RawShape::ByteString(v) => SpecOutcome::Value(NodeView::Bytes(v@)),
            RawShape::Integer(i) => SpecOutcome::Value(NodeView::Number(Number::Int(*i))),
            RawShape::Float(bits) => SpecOutcome::Value(NodeView::Number(Number::Float(*bits))),
            RawShape::Other(k) => SpecOutcome::Unsupported(*k),
        }
    }
}

/// Appends the canonical head for the given major kind and value.
fn push_header(out: &mut Vec<u8>, major: u8, v: u64)
    ensures
        final(out)@ == old(out)@ + spec_header(major, v),
{
    if v < 24 {
        out.push((major << 5) | (v as u8));
    } else if v <= 0xFF {
        out.push((major << 5) | 24u8);
        out.push(v as u8);
    } else if v <= 0xFFFF {
        out.push((major << 5) | 25u8);
        out.push(((v >> 8) & 0xFF) as u8);
        out.push((v & 0xFF) as u8);
    } else if v <= 0xFFFF_FFFF {
        out.push((major << 5) | 26u8);
        out.push(((v >> 24) & 0xFF) as u8);
        out.push(((v >> 16) & 0xFF) as u8);
        out.push(((v >> 8) & 0xFF) as u8);
        out.push((v & 0xFF) as u8);
    } else {
        out.push((major << 5) | 27u8);
        push_be8(out, v);
    }
    proof {
        assert(out@ =~= old(out)@ + spec_header(major, v));
    }
}

/// Appends the eight big-endian bytes of a 64-bit value.
fn push_be8(out: &mut Vec<u8>, v: u64)
    ensures
        final(out)@ == old(out)@ + spec_be8(v),
{
    out.push(((v >> 56) & 0xFF) as u8);
    out.push(((v >> 48) & 0xFF) as u8);
    out.push(((v >> 40) & 0xFF) as u8);
    out.push(((v >> 32) & 0xFF) as u8);
    out.push(((v >> 24) & 0xFF) as u8);
    out.push(((v >> 16) & 0xFF) as u8);
    out.push(((v >> 8) & 0xFF) as u8);
    out.push((v & 0xFF) as u8);
    proof {
        assert(out@ =~= old(out)@ + spec_be8(v));
    }
}

/// Appends a copy of the payload bytes.
fn push_bytes(out: &mut Vec<u8>, data: &Vec<u8>)
    ensures
        final(out)@ == old(out)@ + data@,
{
    proof {
        assert(out@ =~= old(out)@ + data@.subrange(0, 0));
    }
    let mut i: usize = 0;
    while i < data.len()
        invariant
            i <= data.len(),
            out@ == old(out)@ + data@.subrange(0, i as int),
        decreases data.len() - i,
    {
        out.push(data[i]);
        proof {
            assert((old(out)@ + data@.subrange(0, i as int)).push(data@[i as int]) =~= old(out)@
                + data@.subrange(0, i as int + 1));
        }
        i += 1;
    }
    proof {
        assert(data@.subrange(0, data@.len() as int) =~= data@);
    }
}

/// Emits the canonical byte representation of a value, dispatching on its
/// variant tag; the one encode rule per variant.
pub(crate) fn encode(n: &Node) -> (r: Vec<u8>)
    ensures
        r@ == spec_encode(n@),
{
    let mut out: Vec<u8> = Vec::new();
    match n {
        Node::Bool(b) => {
            if *b {
                out.push(0xF5u8);
            } else {
                out.push(0xF4u8);
            }
            proof {
                assert(out@ =~= spec_encode(n@));
            }
        },
        Node::Str(s) => {
            push_header(&mut out, 3u8, s.len() as u64);
            push_bytes(&mut out, s);
            proof {
                assert(out@ =~= spec_encode(n@));
            }
        },
        Node::Bytes(s) => {
            push_header(&mut out, 2u8, s.len() as u64);
            push_bytes(&mut out, s);
            proof {
                assert(out@ =~= spec_encode(n@));
            }
        },
        Node::Number(m) => {
            match m {
                Number::Int(i) => {
                    if *i >= 0 {
                        push_header(&mut out, 0u8, *i as u64);
                    } else {
                        let mag: i64 = -1 - *i;
                        push_header(&mut out, 1u8, mag as u64);
                    }
                    proof {
                        assert(out@ =~= spec_encode(n@));
                    }
                },
                Number::Float(bits) => {
                    out.push(0xFBu8);
                    push_be8(&mut out, *bits);
                    proof {
                        assert(out@ =~= spec_encode(n@));
                    }
                },
            }
        },
    }
    out
}

/// Reads the head of the item starting at `pos`.
fn parse_header(bytes: &Vec<u8>, pos: usize) -> (r: Option<(u64, usize)>)
    requires
        pos < bytes@.len(),
    ensures
        match r {
            Some((v, hl)) => spec_parse_header(bytes@.skip(pos as int)) == Some((v, hl as int))
                && 1 <= hl && pos + hl <= bytes@.len(),
            None => spec_parse_header(bytes@.skip(pos as int)) == None::<(u64, int)>,
        },
{
    proof {
        assert(forall|j: int|
            0 <= j < bytes@.len() - pos ==> bytes@.skip(pos as int)[j] == bytes@[pos + j]);
    }
    let n = bytes.len();
    let ai = bytes[pos] & 0x1F;
    if ai < 24 {
        Some((ai as u64, 1))
    } else if ai == 24 {
        if n - pos >= 2 && bytes[pos + 1] >= 24 {
            Some((bytes[pos + 1] as u64, 2))
        } else {
            None
        }
    } else if ai == 25 {
        if n - pos >= 3 {
            let v: u64 = ((bytes[pos + 1] as u64) << 8) | (bytes[pos + 2] as u64);
            if v > 0xFF {
                Some((v, 3))
            } else {
                None
            }
        } else {
            None
        }
    } else if ai == 26 {
        if n - pos >= 5 {
            let v: u64 = ((bytes[pos + 1] as u64) << 24) | ((bytes[pos + 2] as u64) << 16) | ((
            bytes[pos + 3] as u64) << 8) | (bytes[pos + 4] as u64);
            if v > 0xFFFF {
                Some((v, 5))
            } else {
                None
            }
        } else {
            None
        }
    } else if ai == 27 {
        if n - pos >= 9 {
            let v: u64 = ((bytes[pos + 1] as u64) << 56) | ((bytes[pos + 2] as u64) << 48) | ((
            bytes[pos + 3] as u64) << 40) | ((bytes[pos + 4] as u64) << 32) | ((bytes[pos + 5]
                as u64) << 24) | ((bytes[pos + 6] as u64) << 16) | ((bytes[pos + 7] as u64) << 8)
                | (bytes[pos + 8] as u64);
            if v > 0xFFFF_FFFF {
                Some((v, 9))
            } else {
                None
            }
        } else {
            None
        }
    } else {
        None
    }
}

/// Checks the bytes in `[start, end)` for UTF-8 well-formedness.
fn is_utf8_range(bytes: &Vec<u8>, start: usize, end: usize) -> (r: bool)
    requires
        start <= end,
        end <= bytes@.len(),
    ensures
        r == is_utf8(bytes@.subrange(start as int, end as int)),
{
    let mut pos: usize = start;
    while pos < end
        invariant
            start <= pos <= end,
            end <= bytes@.len(),
            is_utf8(bytes@.subrange(start as int, end as int)) == is_utf8(
                bytes@.subrange(pos as int, end as int),
            ),
        decreases end - pos,
    {
        let b0 = bytes[pos];
        let remaining = end - pos;
        let step: usize;
        if b0 < 0x80 {
            step = 1;
        } else if 0xC2 <= b0 && b0 <= 0xDF {
            if remaining < 2 || !(0x80 <= bytes[pos + 1] && bytes[pos + 1] <= 0xBF) {
                return false;
            }
            step = 2;
        } else if b0 == 0xE0 {
            if remaining < 3 || !(0xA0 <= bytes[pos + 1] && bytes[pos + 1] <= 0xBF) || !(0x80
                <= bytes[pos + 2] && bytes[pos + 2] <= 0xBF) {
                return false;
            }
            step = 3;
        } else if 0xE1 <= b0 && b0 <= 0xEC {
            if remaining < 3 || !(0x80 <= bytes[pos + 1] && bytes[pos + 1] <= 0xBF) || !(0x80
                <= bytes[pos + 2] && bytes[pos + 2] <= 0xBF) {
                return false;
            }
            step = 3;
        } else if b0 == 0xED {
            if remaining < 3 || !(0x80 <= bytes[pos + 1] && bytes[pos + 1] <= 0x9F) || !(0x80
                <= bytes[pos + 2] && bytes[pos + 2] <= 0xBF) {
                return false;
            }
            step = 3;
        } else if 0xEE <= b0 && b0 <= 0xEF {
            if remaining < 3 || !(0x80 <= bytes[pos + 1] && bytes[pos + 1] <= 0xBF) || !(0x80
                <= bytes[pos + 2] && bytes[pos + 2] <= 0xBF) {
                return false;
            }
            step = 3;
        } else if b0 == 0xF0 {
            if remaining < 4 || !(0x90 <= bytes[pos + 1] && bytes[pos + 1] <= 0xBF) || !(0x80
                <= bytes[pos + 2] && bytes[pos + 2] <= 0xBF) || !(0x80 <= bytes[pos + 3]
                && bytes[pos + 3] <= 0xBF) {
                return false;
            }
            step = 4;
        } else if 0xF1 <= b0 && b0 <= 0xF3 {
            if remaining < 4 || !(0x80 <= bytes[pos + 1] && bytes[pos + 1] <= 0xBF) || !(0x80
                <= bytes[pos + 2] && bytes[pos + 2] <= 0xBF) || !(0x80 <= bytes[pos + 3]
                && bytes[pos + 3] <= 0xBF) {
                return false;
            }
            step = 4;
        } else if b0 == 0xF4 {
            if remaining < 4 || !(0x80 <= bytes[pos + 1] && bytes[pos + 1] <= 0x8F) || !(0x80
                <= bytes[pos + 2] && bytes[pos + 2] <= 0xBF) || !(0x80 <= bytes[pos + 3]
                && bytes[pos + 3] <= 0xBF) {
                return false;
            }
            step = 4;
        } else {
            return false;
        }
        proof {
            assert(bytes@.subrange(pos as int, end as int).skip(step as int) =~= bytes@.subrange(
                pos as int + step as int,
                end as int,
            ));
        }
        pos = pos + step;
    }
    proof {
        assert(bytes@.subrange(pos as int, end as int) =~= Seq::<u8>::empty());
    }
    true
}

/// Measures one well-formed wire item starting at `pos`: its end position,
/// or `None` where no well-formed item starts there.
fn skip_item(bytes: &Vec<u8>, pos: usize) -> (r: Option<usize>)
    requires
        pos <= bytes@.len(),
    ensures
        match r {
            Some(end) => pos < end && end <= bytes@.len() && spec_item_size(
                bytes@.skip(pos as int),
            ) == Some(end - pos),
            None => spec_item_size(bytes@.skip(pos as int)) == None::<int>,
        },
    decreases bytes@.len() - pos, 0int,
{
    let n = bytes.len();
    if pos >= n {
        return None;
    }
    let h = bytes[pos];
    let major = h >> 5;
    proof {
        assert(h >> 5 <= 7) by (bit_vector);
    }
    if major == 7 {
        if h == 0xF8 {
            if n - pos >= 2 && bytes[pos + 1] >= 32 {
                return Some(pos + 2);
            }
            return None;
        }
        if (h & 0x1F) < 24 {
            return Some(pos + 1);
        }
        if h == 0xFB {
            if n - pos >= 9 {
                return Some(pos + 9);
            }
            return None;
        }
        return None;
    }
    let (v, hl) = match parse_header(bytes, pos) {
        None => {
            return None;
        },
        Some(p) => p,
    };
    if major == 0 || major == 1 {
        if v <= 0x7FFF_FFFF_FFFF_FFFF {
            return Some(pos + hl);
        }
        return None;
    }
    let avail: usize = n - pos - hl;
    if major == 2 || major == 3 {
        if (avail as u64) < v {
            return None;
        }
        let len: usize = v as usize;
        proof {
            assert(bytes@.skip(pos as int).subrange(hl as int, hl as int + v as int) =~= bytes@
                .subrange((pos + hl) as int, (pos + hl + len) as int));
        }
        if major == 3 && !is_utf8_range(bytes, pos + hl, pos + hl + len) {
            return None;
        }
        return Some(pos + hl + len);
    }
    // major kind 4, 5 or 6: the announced items follow the head
    proof {
        assert(bytes@.skip(pos as int).skip(hl as int) =~= bytes@.skip((pos + hl) as int));
    }
    let count: u64 = if major == 4 {
        v
    } else if major == 6 {
        1
    } else {
        // a map holds a key and a value per announced entry; each item is
        // at least one byte, so an announcement beyond half the remaining
        // bytes cannot be met
        if v > (avail / 2) as u64 {
            proof {
                lemma_items_size_bound(bytes@.skip((pos + hl) as int), 2 * (v as nat));
            }
            return None;
        }
        2 * v
    };
    match skip_items(bytes, pos + hl, count) {
        None => None,
        Some(end) => Some(end),
    }
}

/// Measures `count` consecutive well-formed wire items starting at `start`:
/// the position after the last, or `None` where any is missing or
/// ill-formed.
fn skip_items(bytes: &Vec<u8>, start: usize, count: u64) -> (r: Option<usize>)
    requires
        start <= bytes@.len(),
    ensures
        match r {
            Some(end) => start <= end && end <= bytes@.len() && spec_items_size(
                bytes@.skip(start as int),
                count as nat,
            ) == Some(end - start),
            None => spec_items_size(bytes@.skip(start as int), count as nat) == None::<int>,
        },
    decreases bytes@.len() - start, 1int,
{
    let mut pos: usize = start;
    let mut rem: u64 = count;
    while rem > 0
        invariant
            start <= pos <= bytes@.len(),
            spec_items_size(bytes@.skip(start as int), count as nat) == (
            match spec_items_size(bytes@.skip(pos as int), rem as nat) {
                None => None::<int>,
                Some(k) => Some(pos - start + k),
            }),
        decreases rem,
    {
        let end = match skip_item(bytes, pos) {
            None => {
                return None;
            },
            Some(e) => e,
        };
        proof {
            assert(bytes@.skip(pos as int).skip((end - pos) as int) =~= bytes@.skip(end as int));
        }
        pos = end;
        rem = rem - 1;
    }
    Some(pos)
}

/// Parses exactly one wire item and classifies it by major kind into a raw
/// shape. Malformed input is a reported error, never a crash; one
/// well-formed item of a kind outside the value model comes back
/// classified, so the caller can name what it rejects.
pub(crate) fn decode(bytes: &Vec<u8>) -> (r: Result<RawShape, DecodeError>)
    ensures
        match r {
            Ok(shape) => spec_decode(bytes@) == shape.outcome(),
            Err(e) => e == DecodeError::Malformed && spec_decode(bytes@)
                == SpecOutcome::Malformed,
        },
{
    if bytes.len() == 0 {
        return Err(DecodeError::Malformed);
    }
    let h = bytes[0];
    let major = h >> 5;
    proof {
        assert(h >> 5 <= 7) by (bit_vector);
    }
    if major == 4 || major == 5 || major == 6 {
        proof {
            assert(bytes@.skip(0) =~= bytes@);
        }
        let whole = match skip_item(bytes, 0) {
            None => false,
            Some(end) => end == bytes.len(),
        };
        if !whole {
            return Err(DecodeError::Malformed);
        }
        if major == 4 {
            return Ok(RawShape::Other(RawKind::Array));
        }
        if major == 5 {
            return Ok(RawShape::Other(RawKind::Mapping));
        }
        return Ok(RawShape::Other(RawKind::Tag));
    }
    if major == 7 {
        if h == 0xF4 {
            return if bytes.len() == 1 {
                Ok(RawShape::Bool(false))
            } else {
                Err(DecodeError::Malformed)
            };
        }
        if h == 0xF5 {
            return if bytes.len() == 1 {
                Ok(RawShape::Bool(true))
            } else {
                Err(DecodeError::Malformed)
            };
        }
        if h == 0xF6 {
            return if bytes.len() == 1 {
                Ok(RawShape::Other(RawKind::Null))
            } else {
                Err(DecodeError::Malformed)
            };
        }
        if h == 0xF7 {
            return if bytes.len() == 1 {
                Ok(RawShape::Other(RawKind::Undefined))
            } else {
                Err(DecodeError::Malformed)
            };
        }
        if (h & 0x1F) < 20 {
            return if bytes.len() == 1 {
                Ok(RawShape::Other(RawKind::Simple))
            } else {
                Err(DecodeError::Malformed)
            };
        }
        if h == 0xF8 {
            return if bytes.len() == 2 && bytes[1] >= 32 {
                Ok(RawShape::Other(RawKind::Simple))
            } else {
                Err(DecodeError::Malformed)
            };
        }
        if h == 0xFB {
            if bytes.len() == 9 {
                let bits: u64 = ((bytes[1] as u64) << 56) | ((bytes[2] as u64) << 48) | ((
                bytes[3] as u64) << 40) | ((bytes[4] as u64) << 32) | ((bytes[5] as u64) << 24)
                    | ((bytes[6] as u64) << 16) | ((bytes[7] as u64) << 8) | (bytes[8] as u64);
                return Ok(RawShape::Float(bits));
            }
            return Err(DecodeError::Malformed);
        }
        return Err(DecodeError::Malformed);
    }
    proof {
        assert(bytes@.skip(0) =~= bytes@);
    }
    let (v, hl) = match parse_header(bytes, 0) {
        None => {
            return Err(DecodeError::Malformed);
        },
        Some(p) => p,
    };
    if major == 0 || major == 1 {
        if bytes.len() != hl || v > 0x7FFF_FFFF_FFFF_FFFF {
            return Err(DecodeError::Malformed);
        }
        if major == 0 {
            return Ok(RawShape::Integer(v as i64));
        }
        let neg: i64 = -1 - (v as i64);
        return Ok(RawShape::Integer(neg));
    }
    // major kind 2 or 3: the payload must be exactly what the head announces
    if (bytes.len() as u64) - (hl as u64) != v {
        return Err(DecodeError::Malformed);
    }
    if major == 3 && !is_utf8_range(bytes, hl, bytes.len()) {
        return Err(DecodeError::Malformed);
    }
    let mut payload: Vec<u8> = Vec::new();
    proof {
        assert(payload@ =~= bytes@.subrange(hl as int, hl as int));
    }
    let mut i: usize = hl;
    while i < bytes.len()
        invariant
            hl <= i,
            i <= bytes@.len(),
            payload@ == bytes@.subrange(hl as int, i as int),
        decreases bytes@.len() - i,
    {
        payload.push(bytes[i]);
        proof {
            assert(bytes@.subrange(hl as int, i as int).push(bytes@[i as int]) =~= bytes@
                .subrange(hl as int, i as int + 1));
        }
        i += 1;
    }
    if major == 2 {
        Ok(RawShape::ByteString(payload))
    } else {
        Ok(RawShape::Text(payload))
    }
}

} // verus!
