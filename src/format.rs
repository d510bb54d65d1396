//! The binary log format: each record is a self-delimiting sequence of bytes,
//! and a log is records laid end to end with no outer framing.
//!
//! Integers use a variable-length encoding: a value up to 250 is one byte;
//! larger values are a marker byte (251, 252, 253) followed by the value as a
//! little-endian integer of 2, 4 or 8 bytes. An optional value is a tag byte
//! (0 absent, 1 present) followed by the value. Text is its UTF-8 byte length
//! followed by its UTF-8 bytes. A record is `x`, `y`, `id`, `path` in order.
use vstd::prelude::*;
use vstd::utf8::*;

verus! {

/// What a record holds, as plain mathematical values.
pub struct RecordModel {
    pub x: Option<u64>,
    pub y: u64,
    pub id: Seq<char>,
    pub path: Seq<char>,
}

/// `n` little-endian bytes of `v` (higher bytes dropped).
pub open spec fn le_bytes(v: nat, n: nat) -> Seq<u8>
    decreases n,
{
    if n == 0 {
        seq![]
    } else {
        seq![(v % 256) as u8] + le_bytes(v / 256, (n - 1) as nat)
    }
}

/// The value of bytes read as a little-endian integer.
pub open spec fn le_value(b: Seq<u8>) -> nat
    decreases b.len(),
{
    if b.len() == 0 {
        0
    } else {
        b[0] as nat + 256 * le_value(b.drop_first())
    }
}

pub open spec fn varint_bytes(v: u64) -> Seq<u8> {
    if v <= 250 {
        seq![v as u8]
    } else if v <= 0xffff {
        seq![251u8] + le_bytes(v as nat, 2)
    } else if v <= 0xffff_ffff {
        seq![252u8] + le_bytes(v as nat, 4)
    } else {
        seq![253u8] + le_bytes(v as nat, 8)
    }
}

pub open spec fn option_bytes(x: Option<u64>) -> Seq<u8> {
    match x {
        None => seq![0u8],
        Some(v) => seq![1u8] + varint_bytes(v),
    }
}

pub open spec fn text_bytes(s: Seq<char>) -> Seq<u8> {
    varint_bytes(encode_utf8(s).len() as u64) + encode_utf8(s)
}

/// The encoding of one record.
pub open spec fn record_bytes(m: RecordModel) -> Seq<u8> {
    option_bytes(m.x) + varint_bytes(m.y) + text_bytes(m.id) + text_bytes(m.path)
}

/// The encoding of a log holding the given records in order.
pub open spec fn log_bytes(ms: Seq<RecordModel>) -> Seq<u8>
    decreases ms.len(),
{
    if ms.len() == 0 {
        seq![]
    } else {
        record_bytes(ms[0]) + log_bytes(ms.drop_first())
    }
}

/// A record whose texts have lengths that the encoding can state.
pub open spec fn encodable(m: RecordModel) -> bool {
    encode_utf8(m.id).len() <= u64::MAX && encode_utf8(m.path).len() <= u64::MAX
}

/// Reads one integer from the front of `b`: its value and the bytes it took.
pub open spec fn parse_varint(b: Seq<u8>) -> Option<(u64, nat)> {
    if b.len() == 0 {
        None
    } else if b[0] <= 250 {
        Some((b[0] as u64, 1))
    } else if b[0] == 251 {
        if b.len() >= 3 { Some((le_value(b.subrange(1, 3)) as u64, 3)) } else { None }
    } else if b[0] == 252 {
        if b.len() >= 5 { Some((le_value(b.subrange(1, 5)) as u64, 5)) } else { None }
    } else if b[0] == 253 {
        if b.len() >= 9 { Some((le_value(b.subrange(1, 9)) as u64, 9)) } else { None }
    } else {
        None
    }
}

pub open spec fn parse_option(b: Seq<u8>) -> Option<(Option<u64>, nat)> {
    if b.len() == 0 {
        None
    } else if b[0] == 0 {
        Some((None, 1))
    } else if b[0] == 1 {
        match parse_varint(b.drop_first()) {
            Some((v, n)) => Some((Some(v), n + 1)),
            None => None,
        }
    } else {
        None
    }
}

pub open spec fn parse_text(b: Seq<u8>) -> Option<(Seq<char>, nat)> {
    match parse_varint(b) {
        Some((l, n)) => if (n + l) as int <= b.len() && valid_utf8(b.subrange(n as int, (n + l) as int)) {
            Some((decode_utf8(b.subrange(n as int, (n + l) as int)), (n + l) as nat))
        } else {
            None
        },
        None => None,
    }
}

/// Reads one record from the front of `b`: the record and the bytes it took.
#[verifier::opaque]
pub open spec fn parse_record(b: Seq<u8>) -> Option<(RecordModel, nat)> {
    match parse_option(b) {
        None => None,
        Some((x, n1)) => match parse_varint(b.skip(n1 as int)) {
            None => None,
            Some((y, n2)) => match parse_text(b.skip((n1 + n2) as int)) {
                None => None,
                Some((id, n3)) => match parse_text(b.skip((n1 + n2 + n3) as int)) {
                    None => None,
                    Some((path, n4)) => Some(
                        (RecordModel { x, y, id, path }, n1 + n2 + n3 + n4),
                    ),
                },
            },
        },
    }
}

/// Replays a log: the records read from its front, one after the other, and
/// whether reading ended cleanly (no bytes left) rather than on bytes that do
/// not hold a complete record.
pub open spec fn decode_log(b: Seq<u8>) -> (Seq<RecordModel>, bool)
    decreases b.len(),
{
    match parse_record(b) {
        Some((m, n)) => if 0 < n <= b.len() {
            let rest = decode_log(b.skip(n as int));
            (seq![m] + rest.0, rest.1)
        } else {
            (seq![], false)
        },
        None => (seq![], b.len() == 0),
    }
}

} // verus!
