//! What the log format guarantees: every record reads back as written, a log
//! replays into exactly its records, and an unfinished last record is never
//! mistaken for a complete one.
use vstd::prelude::*;
use vstd::utf8::*;
use crate::codec::{lemma_decode_step, lemma_parse_record_size};
use crate::format::{
    decode_log, encodable, le_bytes, le_value, log_bytes, option_bytes, parse_option,
    parse_record, parse_text, parse_varint, record_bytes, text_bytes, varint_bytes, RecordModel,
};

verus! {

pub open spec fn pow256(n: nat) -> nat
    decreases n,
{
    if n == 0 {
        1
    } else {
        256 * pow256((n - 1) as nat)
    }
}

proof fn lemma_le_round_trip(v: nat, n: nat)
    requires
        v < pow256(n),
    ensures
        le_bytes(v, n).len() == n,
        le_value(le_bytes(v, n)) == v,
    decreases n,
{
    if n > 0 {
        let p = pow256((n - 1) as nat);
        assert(v / 256 < p) by (nonlinear_arith)
            requires
                v < 256 * p,
        ;
        lemma_le_round_trip(v / 256, (n - 1) as nat);
        let b = le_bytes(v, n);
        assert(b.drop_first() =~= le_bytes(v / 256, (n - 1) as nat));
        assert(v == v % 256 + 256 * (v / 256)) by (nonlinear_arith);
    }
}

proof fn lemma_varint_round_trip(v: u64, rest: Seq<u8>)
    ensures
        parse_varint(varint_bytes(v) + rest) == Some((v, varint_bytes(v).len())),
{
    let b = varint_bytes(v) + rest;
    reveal_with_fuel(pow256, 9);
    if v <= 250 {
    } else if v <= 0xffff {
        lemma_le_round_trip(v as nat, 2);
        assert(b.subrange(1, 3) =~= le_bytes(v as nat, 2));
    } else if v <= 0xffff_ffff {
        lemma_le_round_trip(v as nat, 4);
        assert(b.subrange(1, 5) =~= le_bytes(v as nat, 4));
    } else {
        lemma_le_round_trip(v as nat, 8);
        assert(b.subrange(1, 9) =~= le_bytes(v as nat, 8));
    }
}

proof fn lemma_text_round_trip(s: Seq<char>, rest: Seq<u8>)
    requires
        encode_utf8(s).len() <= u64::MAX,
    ensures
        parse_text(text_bytes(s) + rest) == Some((s, text_bytes(s).len())),
{
    let e = encode_utf8(s);
    let l = e.len() as u64;
    let b = text_bytes(s) + rest;
    assert(b =~= varint_bytes(l) + (e + rest));
    lemma_varint_round_trip(l, e + rest);
    let n = varint_bytes(l).len();
    assert(b.subrange(n as int, (n + l) as int) =~= e);
    encode_utf8_valid_utf8(s);
    encode_utf8_decode_utf8(s);
}

proof fn lemma_option_round_trip(x: Option<u64>, rest: Seq<u8>)
    ensures
        parse_option(option_bytes(x) + rest) == Some((x, option_bytes(x).len())),
{
    let b = option_bytes(x) + rest;
    if let Some(v) = x {
        assert(b.drop_first() =~= varint_bytes(v) + rest);
        lemma_varint_round_trip(v, rest);
    }
}

/// Reading the encoding of a record, whatever follows it, gives back that
/// record and the length of its encoding.
pub proof fn lemma_round_trip(m: RecordModel, rest: Seq<u8>)
    requires
        encodable(m),
    ensures
        parse_record(record_bytes(m) + rest) == Some((m, record_bytes(m).len())),
{
    reveal(parse_record);
    let o = option_bytes(m.x);
    let y = varint_bytes(m.y);
    let i = text_bytes(m.id);
    let p = text_bytes(m.path);
    let b = record_bytes(m) + rest;
    assert(b =~= o + (y + i + p + rest));
    lemma_option_round_trip(m.x, y + i + p + rest);
    assert(b.skip(o.len() as int) =~= y + (i + p + rest));
    lemma_varint_round_trip(m.y, i + p + rest);
    assert(b.skip((o.len() + y.len()) as int) =~= i + (p + rest));
    lemma_text_round_trip(m.id, p + rest);
    assert(b.skip((o.len() + y.len() + i.len()) as int) =~= p + rest);
    lemma_text_round_trip(m.path, rest);
}

proof fn lemma_varint_extend(b: Seq<u8>, c: Seq<u8>)
    ensures
        parse_varint(b) matches Some((v, n)) ==> parse_varint(b + c) == parse_varint(b),
{
    if let Some((v, n)) = parse_varint(b) {
        assert((b + c).subrange(1, n as int) =~= b.subrange(1, n as int));
    }
}

proof fn lemma_text_extend(b: Seq<u8>, c: Seq<u8>)
    ensures
        parse_text(b) matches Some((s, n)) ==> parse_text(b + c) == parse_text(b),
{
    lemma_varint_extend(b, c);
    if let Some((l, n)) = parse_varint(b) {
        if n + l <= b.len() {
            assert((b + c).subrange(n as int, (n + l) as int) =~= b.subrange(
                n as int,
                (n + l) as int,
            ));
        }
    }
}

/// A record read from the front of some bytes is read the same way whatever
/// follows them.
proof fn lemma_record_extend(b: Seq<u8>, c: Seq<u8>)
    ensures
        parse_record(b) matches Some((m, n)) ==> parse_record(b + c) == parse_record(b),
{
    reveal(parse_record);
    if let Some((x, n1)) = parse_option(b) {
        assert((b + c).drop_first() =~= b.drop_first() + c);
        lemma_varint_extend(b.drop_first(), c);
        assert(n1 <= b.len()) by {
            lemma_parse_record_size(b);
        }
        assert((b + c).skip(n1 as int) =~= b.skip(n1 as int) + c);
        lemma_varint_extend(b.skip(n1 as int), c);
        if let Some((y, n2)) = parse_varint(b.skip(n1 as int)) {
            let k2 = (n1 + n2) as int;
            assert((b + c).skip(k2) =~= b.skip(k2) + c);
            lemma_text_extend(b.skip(k2), c);
            if let Some((id, n3)) = parse_text(b.skip(k2)) {
                let k3 = (n1 + n2 + n3) as int;
                assert((b + c).skip(k3) =~= b.skip(k3) + c);
                lemma_text_extend(b.skip(k3), c);
            }
        }
    }
}

/// No proper prefix of a record's encoding holds a complete record.
pub proof fn lemma_partial_record(m: RecordModel, cut: nat)
    requires
        encodable(m),
        cut < record_bytes(m).len(),
    ensures
        parse_record(record_bytes(m).take(cut as int)) is None,
{
    let e = record_bytes(m);
    let p = e.take(cut as int);
    if let Some((v, n)) = parse_record(p) {
        lemma_parse_record_size(p);
        lemma_record_extend(p, e.skip(cut as int));
        assert(p + e.skip(cut as int) =~= e);
        lemma_round_trip(m, Seq::empty());
        assert(e + Seq::<u8>::empty() =~= e);
    }
}

/// Replaying records laid end to end before some tail gives those records,
/// then what the tail alone gives.
pub proof fn lemma_replay_prefix(ms: Seq<RecordModel>, tail: Seq<u8>)
    requires
        forall|i: int| 0 <= i < ms.len() ==> encodable(#[trigger] ms[i]),
    ensures
        decode_log(log_bytes(ms) + tail) == (ms + decode_log(tail).0, decode_log(tail).1),
    decreases ms.len(),
{
    if ms.len() == 0 {
        assert(log_bytes(ms) + tail =~= tail);
        assert(ms + decode_log(tail).0 =~= decode_log(tail).0);
    } else {
        let rest = ms.drop_first();
        let b = log_bytes(ms) + tail;
        let after = log_bytes(rest) + tail;
        assert(b =~= record_bytes(ms[0]) + after);
        assert(encodable(ms[0]));
        lemma_round_trip(ms[0], after);
        lemma_decode_step(b);
        let n = record_bytes(ms[0]).len();
        assert(b.skip(n as int) =~= after);
        lemma_replay_prefix(rest, tail);
        assert(seq![ms[0]] + (rest + decode_log(tail).0) =~= ms + decode_log(tail).0);
    }
}

/// A log written as the encodings of some records, one after the other,
/// replays into exactly those records, in order, and ends cleanly.
pub proof fn lemma_log_round_trip(ms: Seq<RecordModel>)
    requires
        forall|i: int| 0 <= i < ms.len() ==> encodable(#[trigger] ms[i]),
    ensures
        decode_log(log_bytes(ms)) == (ms, true),
{
    let empty = Seq::<u8>::empty();
    lemma_replay_prefix(ms, empty);
    assert(log_bytes(ms) + empty =~= log_bytes(ms));
    lemma_decode_step(empty);
    reveal(parse_record);
    assert(ms + Seq::<RecordModel>::empty() =~= ms);
}

/// A log whose last record was cut short replays into exactly the complete
/// records before it, and reports that it did not end cleanly.
pub proof fn lemma_truncated_tail(ms: Seq<RecordModel>, m: RecordModel, cut: nat)
    requires
        forall|i: int| 0 <= i < ms.len() ==> encodable(#[trigger] ms[i]),
        encodable(m),
        0 < cut < record_bytes(m).len(),
    ensures
        decode_log(log_bytes(ms) + record_bytes(m).take(cut as int)) == (ms, false),
{
    let p = record_bytes(m).take(cut as int);
    lemma_replay_prefix(ms, p);
    lemma_partial_record(m, cut);
    lemma_decode_step(p);
    assert(ms + Seq::<RecordModel>::empty() =~= ms);
}

} // verus!
