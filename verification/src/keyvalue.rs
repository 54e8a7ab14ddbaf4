//! The record codec.
//!
//! A record is a key and a value, both text. On the wire a record is
//! `[key length][key bytes][value length][value bytes]`, each length one
//! byte and each field the UTF-8 bytes of its text; a stream is any number
//! of records laid end to end.

use vstd::prelude::*;
use vstd::slice::*;
use vstd::string::*;
use vstd::utf8::*;

verus! {

/// The largest number of bytes one field of a record can hold.
pub const MAX_FIELD_LEN: usize = 255;

/// A key with its value.
#[derive(Debug, PartialEq, Eq)]
pub struct KeyValue {
    pub key: String,
    pub value: String,
}

/// Why a byte stream is not a sequence of records.
#[derive(Debug, Clone, Copy, PartialEq, Eq, Structural)]
pub enum CodecError {
    /// A length byte is missing, or a field declares more bytes than remain.
    Truncated,
    /// The bytes of a field are not UTF-8 text.
    InvalidText,
    /// A field is longer than a one-byte length can say, so the record cannot
    /// be written.
    TooLong,
}

/// A record in specifications: the key's text and the value's text.
pub type Record = (Seq<char>, Seq<char>);

impl View for KeyValue {
    type V = Record;

    open spec fn view(&self) -> Record {
        (self.key@, self.value@)
    }
}

/// The bytes of one field's text.
pub open spec fn field_bytes(text: Seq<char>) -> Seq<u8> {
    encode_utf8(text)
}

/// Whether a field's text fits behind a one-byte length.
pub open spec fn field_fits(text: Seq<char>) -> bool {
    field_bytes(text).len() <= MAX_FIELD_LEN
}

/// Whether both fields of a record fit.
pub open spec fn record_fits(r: Record) -> bool {
    field_fits(r.0) && field_fits(r.1)
}

/// One field on the wire: its length in one byte, then its bytes. Only a
/// field that fits has such a form.
pub open spec fn encode_field(text: Seq<char>) -> Seq<u8>
    recommends
        field_fits(text),
{
    seq![field_bytes(text).len() as u8] + field_bytes(text)
}

/// One record on the wire: the key's field, then the value's.
pub open spec fn encode_record(r: Record) -> Seq<u8> {
    encode_field(r.0) + encode_field(r.1)
}

/// A sequence of records on the wire, in order.
pub open spec fn encode_records(rs: Seq<Record>) -> Seq<u8>
    decreases rs.len(),
{
    if rs.len() == 0 {
        Seq::empty()
    } else {
        encode_record(rs[0]) + encode_records(rs.drop_first())
    }
}

/// Decoding one field from the front of `bytes`: its text and the number of
/// bytes it takes up.
pub open spec fn decode_field(bytes: Seq<u8>) -> Result<(Seq<char>, int), CodecError> {
    if bytes.len() == 0 || bytes.len() < 1 + bytes[0] as int {
        Err(CodecError::Truncated)
    } else {
        let body = bytes.subrange(1, 1 + bytes[0] as int);
        if valid_utf8(body) {
            Ok((decode_utf8(body), 1 + bytes[0] as int))
        } else {
            Err(CodecError::InvalidText)
        }
    }
}

/// Decoding one record from the front of `bytes`: the record and the number
/// of bytes it takes up.
pub open spec fn decode_record(bytes: Seq<u8>) -> Result<(Record, int), CodecError> {
    match decode_field(bytes) {
        Err(e) => Err(e),
        Ok((key, n)) => match decode_field(bytes.skip(n)) {
            Err(e) => Err(e),
            Ok((value, m)) => Ok(((key, value), n + m)),
        },
    }
}

/// Decoding a whole stream: every record in order, or the first fault.
pub open spec fn decode_records(bytes: Seq<u8>) -> Result<Seq<Record>, CodecError>
    decreases bytes.len(),
{
    if bytes.len() == 0 {
        Ok(Seq::empty())
    } else {
        match decode_record(bytes) {
            Err(e) => Err(e),
            Ok((r, n)) => match decode_records(bytes.skip(n)) {
                Err(e) => Err(e),
                Ok(rest) => Ok(seq![r] + rest),
            },
        }
    }
}

/// The records of a stream up to its first fault: what a log that was cut
/// off in the middle of a write still holds.
pub open spec fn decode_prefix(bytes: Seq<u8>) -> Seq<Record>
    decreases bytes.len(),
{
    if bytes.len() == 0 {
        Seq::empty()
    } else {
        match decode_record(bytes) {
            Err(_) => Seq::empty(),
            Ok((r, n)) => seq![r] + decode_prefix(bytes.skip(n)),
        }
    }
}

/// Whether every record of a sequence fits.
pub open spec fn records_fit(rs: Seq<Record>) -> bool {
    forall|i: int| 0 <= i < rs.len() ==> record_fits(#[trigger] rs[i])
}

/// A field that fits is read back from the front of any stream that starts
/// with its encoding.
pub proof fn lemma_decode_encoded_field(text: Seq<char>, rest: Seq<u8>)
    requires
        field_fits(text),
    ensures
        decode_field(encode_field(text) + rest) == Ok::<(Seq<char>, int), CodecError>(
            (text, encode_field(text).len() as int),
        ),
        encode_field(text).len() == 1 + field_bytes(text).len(),
{
    broadcast use {encode_utf8_valid_utf8, encode_utf8_decode_utf8};

    let bytes = encode_field(text) + rest;
    let n = field_bytes(text).len() as int;
    assert(bytes[0] == n);
    assert(bytes.subrange(1, 1 + n) == field_bytes(text));
}

/// A record that fits is read back from the front of any stream that starts
/// with its encoding.
pub proof fn lemma_decode_encoded_record(r: Record, rest: Seq<u8>)
    requires
        record_fits(r),
    ensures
        decode_record(encode_record(r) + rest) == Ok::<(Record, int), CodecError>(
            (r, encode_record(r).len() as int),
        ),
        encode_record(r).len() >= 2,
{
    let bytes = encode_record(r) + rest;
    let n = encode_field(r.0).len() as int;
    lemma_decode_encoded_field(r.0, encode_field(r.1) + rest);
    assert(bytes == encode_field(r.0) + (encode_field(r.1) + rest));
    assert(bytes.skip(n) == encode_field(r.1) + rest);
    lemma_decode_encoded_field(r.1, rest);
}

/// Reading a field does not depend on what follows it.
proof fn lemma_decode_field_extend(a: Seq<u8>, b: Seq<u8>)
    requires
        decode_field(a) is Ok,
    ensures
        decode_field(a + b) == decode_field(a),
{
    let n = 1 + a[0] as int;
    assert((a + b)[0] == a[0]);
    assert((a + b).subrange(1, n) == a.subrange(1, n));
}

/// Reading a record does not depend on what follows it.
proof fn lemma_decode_record_extend(a: Seq<u8>, b: Seq<u8>)
    requires
        decode_record(a) is Ok,
    ensures
        decode_record(a + b) == decode_record(a),
        2 <= decode_record(a).unwrap().1 <= a.len(),
{
    lemma_decode_field_extend(a, b);
    let n = decode_field(a).unwrap().1;
    assert((a + b).skip(n) == a.skip(n) + b);
    lemma_decode_field_extend(a.skip(n), b);
}

/// The bytes that a record takes up decode to that record alone.
proof fn lemma_decode_record_alone(s: Seq<u8>)
    requires
        decode_record(s) is Ok,
    ensures
        decode_records(s.take(decode_record(s).unwrap().1)) == Ok::<Seq<Record>, CodecError>(
            seq![decode_record(s).unwrap().0],
        ),
{
    reveal_with_fuel(decode_records, 2);
    let (r, n) = decode_record(s).unwrap();
    let k = decode_field(s).unwrap().1;
    let t = s.take(n);
    assert(t[0] == s[0]);
    assert(t.subrange(1, k) == s.subrange(1, k));
    assert(t.skip(k) == s.skip(k).take(n - k));
    assert(t.skip(k)[0] == s.skip(k)[0]);
    assert(t.skip(k).subrange(1, n - k) == s.skip(k).subrange(1, n - k));
    assert(t.skip(n) == Seq::<u8>::empty());
    assert(seq![r] + Seq::<Record>::empty() == seq![r]);
}

/// A well-formed stream followed by more bytes decodes to its own records
/// followed by what the other bytes decode to.
pub proof fn lemma_decode_concat(a: Seq<u8>, b: Seq<u8>)
    requires
        decode_records(a) is Ok,
    ensures
        decode_records(a + b) == match decode_records(b) {
            Ok(rest) => Ok::<Seq<Record>, CodecError>(decode_records(a).unwrap() + rest),
            Err(e) => Err(e),
        },
        decode_prefix(a + b) == decode_records(a).unwrap() + decode_prefix(b),
    decreases a.len(),
{
    if a.len() == 0 {
        assert(a + b == b);
        assert(Seq::<Record>::empty() + decode_prefix(b) == decode_prefix(b));
        if let Ok(rest) = decode_records(b) {
            assert(Seq::<Record>::empty() + rest == rest);
        }
    } else {
        lemma_decode_record_extend(a, b);
        let (r, n) = decode_record(a).unwrap();
        let tail = decode_records(a.skip(n)).unwrap();
        assert((a + b).skip(n) == a.skip(n) + b);
        lemma_decode_concat(a.skip(n), b);
        assert(seq![r] + (tail + decode_prefix(b)) == (seq![r] + tail) + decode_prefix(b));
        if let Ok(rest) = decode_records(b) {
            assert(seq![r] + (tail + rest) == (seq![r] + tail) + rest);
        }
    }
}

/// A record that fits decodes to itself, alone.
pub proof fn lemma_round_trip(r: Record)
    requires
        record_fits(r),
    ensures
        decode_records(encode_record(r)) == Ok::<Seq<Record>, CodecError>(seq![r]),
{
    reveal_with_fuel(decode_records, 2);
    let bytes = encode_record(r);
    assert(bytes + Seq::<u8>::empty() == bytes);
    lemma_decode_encoded_record(r, Seq::empty());
    assert(bytes.skip(bytes.len() as int) == Seq::<u8>::empty());
    assert(seq![r] + Seq::<Record>::empty() == seq![r]);
}

/// Encoding records one after another and decoding the whole gives the same
/// records back, as many and in the same order.
pub proof fn lemma_stream_round_trip(rs: Seq<Record>)
    requires
        records_fit(rs),
    ensures
        decode_records(encode_records(rs)) == Ok::<Seq<Record>, CodecError>(rs),
        decode_prefix(encode_records(rs)) == rs,
    decreases rs.len(),
{
    if rs.len() == 0 {
        assert(rs == Seq::<Record>::empty());
    } else {
        let head = encode_record(rs[0]);
        let tail = encode_records(rs.drop_first());
        lemma_round_trip(rs[0]);
        assert(records_fit(rs.drop_first())) by {
            assert forall|i: int| 0 <= i < rs.drop_first().len() implies record_fits(
                #[trigger] rs.drop_first()[i],
            ) by {
                assert(rs.drop_first()[i] == rs[i + 1]);
            }
        }
        lemma_stream_round_trip(rs.drop_first());
        lemma_decode_concat(head, tail);
        assert(seq![rs[0]] + rs.drop_first() == rs);
    }
}

/// A stream that decodes is the encoding of its records, and each of them fits.
pub proof fn lemma_decode_then_encode(bytes: Seq<u8>)
    requires
        decode_records(bytes) is Ok,
    ensures
        encode_records(decode_records(bytes).unwrap()) == bytes,
        records_fit(decode_records(bytes).unwrap()),
    decreases bytes.len(),
{
    broadcast use decode_utf8_encode_utf8;

    let rs = decode_records(bytes).unwrap();
    if bytes.len() == 0 {
        assert(bytes == Seq::<u8>::empty());
    } else {
        let (r, n) = decode_record(bytes).unwrap();
        let k = decode_field(bytes).unwrap().1;
        let rest = bytes.skip(k);
        lemma_decode_record_extend(bytes, Seq::empty());
        lemma_decode_then_encode(bytes.skip(n));
        let key_body = bytes.subrange(1, k);
        let value_body = rest.subrange(1, n - k);
        assert(field_bytes(r.0) == key_body);
        assert(field_bytes(r.1) == value_body);
        assert(encode_field(r.0) == bytes.subrange(0, k));
        assert(encode_field(r.1) == rest.subrange(0, n - k));
        assert(encode_record(r) == bytes.subrange(0, n));
        assert(rs.drop_first() == decode_records(bytes.skip(n)).unwrap());
        assert(bytes.subrange(0, n) + bytes.skip(n) == bytes);
        assert forall|i: int| 0 <= i < rs.len() implies record_fits(#[trigger] rs[i]) by {
            if i > 0 {
                assert(rs[i] == rs.drop_first()[i - 1]);
            }
        }
    }
}

/// The encoding of a sequence with one more record at its end.
pub proof fn lemma_encode_push(rs: Seq<Record>, r: Record)
    ensures
        encode_records(rs.push(r)) == encode_records(rs) + encode_record(r),
    decreases rs.len(),
{
    if rs.len() == 0 {
        reveal_with_fuel(encode_records, 2);
        assert(rs.push(r).drop_first() == Seq::<Record>::empty());
        assert(encode_records(rs.push(r)) == encode_record(r) + Seq::<u8>::empty());
    } else {
        lemma_encode_push(rs.drop_first(), r);
        assert(rs.push(r).drop_first() == rs.drop_first().push(r));
        assert(encode_record(rs[0]) + (encode_records(rs.drop_first()) + encode_record(r)) == (
        encode_record(rs[0]) + encode_records(rs.drop_first())) + encode_record(r));
    }
}

/// The encoding of one sequence of records followed by another.
pub proof fn lemma_encode_concat(a: Seq<Record>, b: Seq<Record>)
    ensures
        encode_records(a + b) == encode_records(a) + encode_records(b),
    decreases b.len(),
{
    if b.len() == 0 {
        assert(a + b == a);
        assert(encode_records(a) + Seq::<u8>::empty() == encode_records(a));
    } else {
        lemma_encode_concat(a, b.drop_last());
        lemma_encode_push(a + b.drop_last(), b.last());
        lemma_encode_push(b.drop_last(), b.last());
        assert((a + b.drop_last()).push(b.last()) == a + b);
        assert(b.drop_last().push(b.last()) == b);
        assert((encode_records(a) + encode_records(b.drop_last())) + encode_record(b.last())
            == encode_records(a) + (encode_records(b.drop_last()) + encode_record(b.last())));
    }
}

/// The offset of record `i` in the encoding of `records`.
pub open spec fn record_offset(records: Seq<Record>, i: int) -> nat {
    encode_records(records.take(i)).len()
}

/// In the encoding of a sequence of records, each record's own encoding
/// stands at its offset.
pub proof fn lemma_encoded_record_at(records: Seq<Record>, i: int)
    requires
        0 <= i < records.len(),
    ensures
        record_offset(records, i) + encode_record(records[i]).len() <= encode_records(records).len(),
        encode_records(records).subrange(
            record_offset(records, i) as int,
            (record_offset(records, i) + encode_record(records[i]).len()) as int,
        ) == encode_record(records[i]),
{
    let front = records.take(i);
    let back = records.skip(i + 1);
    lemma_encode_push(front, records[i]);
    lemma_encode_concat(front.push(records[i]), back);
    assert(front.push(records[i]) + back == records);
    let whole = (encode_records(front) + encode_record(records[i])) + encode_records(back);
    assert(whole.subrange(
        encode_records(front).len() as int,
        (encode_records(front).len() + encode_record(records[i]).len()) as int,
    ) == encode_record(records[i]));
}

/// The records that a vector of `(key, value)` pairs stands for.
pub open spec fn pairs_view(pairs: Seq<(String, String)>) -> Seq<Record> {
    pairs.map_values(|p: (String, String)| (p.0@, p.1@))
}

/// The records that a vector of `KeyValue` stands for.
pub open spec fn records_view(kvs: Seq<KeyValue>) -> Seq<Record> {
    kvs.map_values(|kv: KeyValue| kv@)
}

/// `String::from_utf8`: the text is returned exactly when the bytes are
/// well-formed UTF-8, and it is the text that those bytes encode.
#[verifier::external_body]
fn string_from_utf8(bytes: Vec<u8>) -> (r: Option<String>)
    ensures
        r is Some <==> valid_utf8(bytes@),
        r matches Some(s) ==> s@ == decode_utf8(bytes@),
{
    match String::from_utf8(bytes) {
        Ok(text) => Some(text),
        Err(_) => None,
    }
}

/// Reads the field that starts at `pos`, and says where the next one starts.
fn read_field(bytes: &Vec<u8>, pos: usize) -> (r: Result<(String, usize), CodecError>)
    requires
        pos <= bytes.len(),
    ensures
        match decode_field(bytes@.skip(pos as int)) {
            Ok((text, n)) => r matches Ok((s, next)) && s@ == text && next == pos + n && pos < next
                <= bytes.len(),
            Err(e) => r matches Err(f) && f == e,
        },
{
    let len: usize = bytes.len();
    if pos >= len {
        return Err(CodecError::Truncated);
    }
    let n: usize = bytes[pos] as usize;
    if len - pos - 1 < n {
        return Err(CodecError::Truncated);
    }
    let body = slice_to_vec(slice_subrange(bytes.as_slice(), pos + 1, pos + 1 + n));
    assert(body@ == bytes@.skip(pos as int).subrange(1, 1 + n as int));
    match string_from_utf8(body) {
        Some(s) => Ok((s, pos + 1 + n)),
        None => Err(CodecError::InvalidText),
    }
}

/// Reads the record that starts at `pos`, and says where the next one starts.
fn read_record(bytes: &Vec<u8>, pos: usize) -> (r: Result<((String, String), usize), CodecError>)
    requires
        pos <= bytes.len(),
    ensures
        match decode_record(bytes@.skip(pos as int)) {
            Ok((rec, n)) => r matches Ok((p, next)) && (p.0@, p.1@) == rec && next == pos + n && pos
                < next <= bytes.len(),
            Err(e) => r matches Err(f) && f == e,
        },
{
    let (key, mid) = match read_field(bytes, pos) {
        Ok(field) => field,
        Err(e) => { return Err(e); },
    };
    assert(bytes@.skip(pos as int).skip(mid - pos) == bytes@.skip(mid as int));
    match read_field(bytes, mid) {
        Ok((value, next)) => Ok(((key, value), next)),
        Err(e) => Err(e),
    }
}

/// Decodes a stream from the front. Returns the records before the first
/// fault, the number of bytes that they take up, and the fault if there is
/// one.
pub fn decode_stream(bytes: &Vec<u8>) -> (r: (Vec<(String, String)>, usize, Option<CodecError>))
    ensures
        pairs_view(r.0@) == decode_prefix(bytes@),
        r.1 <= bytes.len(),
        decode_records(bytes@.take(r.1 as int)) == Ok::<Seq<Record>, CodecError>(pairs_view(r.0@)),
        r.1 == encode_records(decode_prefix(bytes@)).len(),
        match decode_records(bytes@) {
            Ok(rs) => r.2 is None && pairs_view(r.0@) == rs && r.1 == bytes.len(),
            Err(e) => r.2 == Some(e),
        },
{
    let mut out: Vec<(String, String)> = Vec::new();
    let mut pos: usize = 0;
    assert(bytes@.skip(0) == bytes@);
    assert(bytes@.take(0) == Seq::<u8>::empty());
    assert(pairs_view(out@) == Seq::<Record>::empty());
    while pos < bytes.len()
        invariant
            pos <= bytes.len(),
            decode_records(bytes@.take(pos as int)) == Ok::<Seq<Record>, CodecError>(
                pairs_view(out@),
            ),
            decode_prefix(bytes@) == pairs_view(out@) + decode_prefix(bytes@.skip(pos as int)),
            decode_records(bytes@) == match decode_records(bytes@.skip(pos as int)) {
                Ok(rest) => Ok::<Seq<Record>, CodecError>(pairs_view(out@) + rest),
                Err(e) => Err(e),
            },
        decreases bytes.len() - pos,
    {
        let ghost before = pairs_view(out@);
        let ghost tail = bytes@.skip(pos as int);
        match read_record(bytes, pos) {
            Err(e) => {
                proof {
                    lemma_decode_then_encode(bytes@.take(pos as int));
                    assert(decode_prefix(tail) == Seq::<Record>::empty());
                    assert(before + Seq::<Record>::empty() == before);
                }
                return (out, pos, Some(e));
            },
            Ok((pair, next)) => {
                proof {
                    let rec = (pair.0@, pair.1@);
                    assert(tail.skip(next - pos) == bytes@.skip(next as int));
                    lemma_decode_record_alone(tail);
                    lemma_decode_concat(bytes@.take(pos as int), tail.take(next - pos));
                    assert(bytes@.take(pos as int) + tail.take(next - pos) == bytes@.take(
                        next as int,
                    ));
                    assert(pairs_view(out@.push(pair)) == before.push(rec));
                    assert(before + seq![rec] == before.push(rec));
                    assert forall|rest: Seq<Record>| before + (seq![rec] + rest) == before.push(rec)
                        + rest by {
                        assert(before + (seq![rec] + rest) =~= before.push(rec) + rest);
                    }
                }
                out.push(pair);
                pos = next;
            },
        }
    }
    assert(bytes@.skip(pos as int).len() == 0);
    assert(bytes@.take(pos as int) == bytes@);
    proof {
        lemma_decode_then_encode(bytes@);
        assert(pairs_view(out@) + Seq::<Record>::empty() == pairs_view(out@));
    }
    (out, pos, None)
}

/// Appends one field to `out`.
fn push_field(out: &mut Vec<u8>, text: &String)
    requires
        field_fits(text@),
    ensures
        final(out)@ == old(out)@ + encode_field(text@),
{
    let bytes = text.as_str().as_bytes();
    let n: usize = bytes.len();
    out.push(n as u8);
    out.extend_from_slice(bytes);
}

impl KeyValue {
    /// A record from a `(key, value)` pair.
    pub fn new(pair: (String, String)) -> (kv: Self)
        ensures
            kv.key == pair.0,
            kv.value == pair.1,
    {
        Self { key: pair.0, value: pair.1 }
    }

    /// Whether both fields fit behind a one-byte length.
    pub fn fits(&self) -> (b: bool)
        ensures
            b == record_fits(self@),
    {
        self.key.as_str().as_bytes().len() <= MAX_FIELD_LEN
            && self.value.as_str().as_bytes().len() <= MAX_FIELD_LEN
    }

    /// The record's bytes on the wire, which read back as the record. A
    /// record with a field of more than 255 bytes has no such bytes and is
    /// not to be passed: `fits` says whether a record can be.
    pub fn serialize(&self) -> (bytes: Vec<u8>)
        requires
            record_fits(self@),
        ensures
            bytes@ == encode_record(self@),
            decode_records(bytes@) == Ok::<Seq<Record>, CodecError>(seq![self@]),
    {
        proof {
            lemma_round_trip(self@);
        }
        let mut bytes: Vec<u8> = Vec::new();
        push_field(&mut bytes, &self.key);
        push_field(&mut bytes, &self.value);
        bytes
    }

    /// The record's bytes on the wire, as `serialize` gives them.
    pub fn write_to_bytes(&self) -> (bytes: Vec<u8>)
        requires
            record_fits(self@),
        ensures
            bytes@ == encode_record(self@),
            decode_records(bytes@) == Ok::<Seq<Record>, CodecError>(seq![self@]),
    {
        self.serialize()
    }

    /// Decodes a stream of records. Fails on the first fault: a field that is
    /// cut short, or one whose bytes are not text.
    pub fn deserialize(bytes: Vec<u8>) -> (r: Result<Vec<(String, String)>, CodecError>)
        ensures
            match decode_records(bytes@) {
                Ok(rs) => r matches Ok(pairs) && pairs_view(pairs@) == rs,
                Err(e) => r matches Err(f) && f == e,
            },
    {
        let (pairs, _, fault) = decode_stream(&bytes);
        match fault {
            None => Ok(pairs),
            Some(e) => Err(e),
        }
    }

    /// Decodes the records of a stream up to its first fault. A stream that
    /// ends in the middle of a record yields the records before it.
    pub fn read_from_bytes(bytes: Vec<u8>) -> (kvs: Vec<Self>)
        ensures
            records_view(kvs@) == decode_prefix(bytes@),
    {
        let (pairs, _, _) = decode_stream(&bytes);
        let ghost all = pairs@;
        let mut kvs: Vec<Self> = Vec::new();
        for pair in it: pairs
            invariant
                it.seq() == all,
                records_view(kvs@) == pairs_view(all.take(it.index() as int)),
        {
            proof {
                let i = it.index() as int;
                assert(all.take(i + 1) == all.take(i).push(all[i]));
                assert(pairs_view(all.take(i).push(all[i])) == pairs_view(all.take(i)).push(
                    (all[i].0@, all[i].1@),
                ));
            }
            let ghost prev = records_view(kvs@);
            let kv = Self::new(pair);
            kvs.push(kv);
            assert(records_view(kvs@) == prev.push(kv@));
        }
        assert(all.take(all.len() as int) == all);
        kvs
    }
}

} // verus!
