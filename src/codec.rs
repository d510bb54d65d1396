//! Encoding records into the log format and replaying a log into records.
use vstd::prelude::*;
use bincode::Options;
use crate::format::{decode_log, parse_option, parse_record, parse_text, parse_varint, record_bytes, RecordModel};
use crate::record::Record;

verus! {

/// Relies on `bincode::Options::serialize` with `bincode::options()`: fields
/// in order, integers in its variable-length encoding, an option as a tag byte
/// and its value, text as its length and its UTF-8 bytes. With no size limit
/// and a `Vec` to write into, serializing these field types does not fail.
#[verifier::external_body]
fn serialize_fields(r: &Record) -> (out: Vec<u8>)
    ensures
        out@ == record_bytes(r@),
{
    bincode::options().serialize(&(r.x, r.y, r.id.as_str(), r.path.as_str())).unwrap_or_default()
}

/// Relies on `bincode::Options::deserialize_from` with `bincode::options()`
/// limited to the bytes at hand: it reads one record from `bytes[pos..]` by
/// the format that `serialize_fields` writes, and fails where those bytes do
/// not start with a complete one. The second part of the result is the number
/// of bytes left after the record.
#[verifier::external_body]
fn deserialize_fields(bytes: &[u8], pos: usize) -> (out: Option<(Record, usize)>)
    requires
        pos <= bytes@.len(),
    ensures
        match parse_record(bytes@.skip(pos as int)) {
            Some((m, n)) => out matches Some((r, left)) && r@ == m && left + n == bytes@.len() - pos,
            None => out is None,
        },
{
    let mut rest: &[u8] = &bytes[pos..];
    let opts = bincode::options().with_limit(rest.len() as u64);
    match opts.deserialize_from::<_, (Option<u64>, u64, String, String)>(&mut rest) {
        Ok((x, y, id, path)) => Some((Record { x, y, id, path }, rest.len())),
        Err(_) => None,
    }
}

impl Record {
    /// The bytes of this record in the log format.
    pub fn encode(&self) -> (out: Vec<u8>)
        ensures
            out@ == record_bytes(self@),
    {
        serialize_fields(self)
    }
}

/// What replaying a log gave: the complete records read from its front, in
/// order, and whether it ended cleanly (every byte used) rather than on bytes
/// that do not hold a complete record.
pub struct Replay {
    pub records: Vec<Record>,
    pub clean: bool,
}

pub open spec fn models(rs: Seq<Record>) -> Seq<RecordModel> {
    rs.map_values(|r: Record| r@)
}

proof fn lemma_parse_varint_size(b: Seq<u8>)
    ensures
        parse_varint(b) matches Some((v, n)) ==> 1 <= n <= b.len(),
{
}

pub(crate) proof fn lemma_parse_record_size(b: Seq<u8>)
    ensures
        parse_record(b) matches Some((m, n)) ==> 0 < n <= b.len(),
{
    reveal(parse_record);
    if let Some((x, n1)) = parse_option(b) {
        lemma_parse_varint_size(b.drop_first());
        lemma_parse_varint_size(b.skip(n1 as int));
        if let Some((y, n2)) = parse_varint(b.skip(n1 as int)) {
            let b3 = b.skip((n1 + n2) as int);
            lemma_parse_varint_size(b3);
            if let Some((id, n3)) = parse_text(b3) {
                lemma_parse_varint_size(b.skip((n1 + n2 + n3) as int));
            }
        }
    }
}

pub(crate) proof fn lemma_decode_step(b: Seq<u8>)
    ensures
        match parse_record(b) {
            Some((m, n)) => 0 < n <= b.len() && decode_log(b) == (seq![m] + decode_log(
                b.skip(n as int),
            ).0, decode_log(b.skip(n as int)).1),
            None => decode_log(b) == (Seq::<RecordModel>::empty(), b.len() == 0),
        },
{
    lemma_parse_record_size(b);
}

/// Replays a log held in memory. Reading stops at the first bytes that do
/// not start a complete record: at the end of the log that is a clean end,
/// before it a damaged or unfinished tail.
pub fn replay(bytes: &[u8]) -> (out: Replay)
    ensures
        models(out.records@) == decode_log(bytes@).0,
        out.clean == decode_log(bytes@).1,
{
    let mut records: Vec<Record> = Vec::new();
    let mut pos: usize = 0;
    proof {
        assert(bytes@.skip(0) =~= bytes@);
        assert(models(records@) + decode_log(bytes@).0 =~= decode_log(bytes@).0);
    }
    loop
        invariant
            pos <= bytes@.len(),
            decode_log(bytes@).0 == models(records@) + decode_log(bytes@.skip(pos as int)).0,
            decode_log(bytes@).1 == decode_log(bytes@.skip(pos as int)).1,
        decreases bytes@.len() - pos,
    {
        let ghost rest = bytes@.skip(pos as int);
        proof {
            lemma_decode_step(rest);
        }
        match deserialize_fields(bytes, pos) {
            Some((r, left)) => {
                let n: usize = bytes.len() - pos - left;
                proof {
                    let tail = decode_log(rest.skip(n as int));
                    assert(rest.skip(n as int) =~= bytes@.skip((pos + n) as int));
                    assert(models(records@.push(r)) =~= models(records@).push(r@));
                    assert(models(records@) + (seq![r@] + tail.0) =~= models(records@).push(r@)
                        + tail.0);
                }
                records.push(r);
                pos = pos + n;
            },
            None => {
                proof {
                    assert(models(records@) + decode_log(rest).0 =~= models(records@));
                }
                return Replay { records, clean: pos == bytes.len() };
            },
        }
    }
}

} // verus!
