//! The command layer: what a request does to the engine, and the bytes of
//! the reply.

use crate::cli::GlobalState;
use crate::keyvalue::{encode_record, encode_records, record_fits, KeyValue, Record};
use crate::memtable::{
    index_after_flush, index_sound, is_sorted_listing, lookup, Lookup, MemTableError,
};
use crate::sorted_map::same_key;
use resp::{Decoder, Value};
use std::io::BufReader;
use vstd::prelude::*;
use vstd::slice::*;
use vstd::string::*;
use vstd::utf8::*;

verus! {

/// A request as it comes off the wire.
#[derive(Debug, PartialEq, Eq)]
pub enum Frame {
    /// The bytes are no value of the wire protocol.
    Invalid,
    /// A value that is no array.
    Other,
    /// An array. Each element is the text of a bulk string, or nothing where
    /// the element is of another kind.
    Array(Vec<Option<String>>),
}

/// A `Frame` in specifications.
pub enum FrameView {
    Invalid,
    Other,
    Array(Seq<Option<Seq<char>>>),
}

/// The text of an array element in specifications.
pub open spec fn element_view(e: Option<String>) -> Option<Seq<char>> {
    match e {
        Some(s) => Some(s@),
        None => None,
    }
}

impl View for Frame {
    type V = FrameView;

    open spec fn view(&self) -> FrameView {
        match self {
            Frame::Invalid => FrameView::Invalid,
            Frame::Other => FrameView::Other,
            Frame::Array(items) => FrameView::Array(items@.map_values(|e| element_view(e))),
        }
    }
}

/// A request that the engine understands.
#[derive(Debug, PartialEq, Eq)]
pub enum Command {
    /// Read the value of a key.
    Read(String),
    /// Write a value for a key.
    Write(String, String),
    /// The probe that a client sends when it connects.
    Probe,
}

/// What a frame asks for.
pub enum Request {
    /// Read the value of a key.
    Read(Seq<char>),
    /// Write a value for a key.
    Write(Seq<char>, Seq<char>),
    /// The probe that a client sends when it connects.
    Probe,
    /// No command: bytes that are too many or are no value of the wire
    /// protocol, a value that is no array, an array whose first element is no
    /// command name, a read that names no key, or a write that lacks its key
    /// or its value.
    Unknown,
}

/// The most bytes that a command may have. A write of the longest key and
/// the longest value that fit takes less.
pub const MAX_COMMAND_LEN: usize = 1024;

/// Whether the array holds a bulk string at position `i`.
pub open spec fn bulk_at(items: Seq<Option<Seq<char>>>, i: int) -> bool {
    i < items.len() && items[i] is Some
}

/// What a frame asks for. Command names are taken in upper case or in lower
/// case; elements after those that a command needs are ignored.
pub open spec fn request_of(frame: FrameView) -> Request {
    match frame {
        FrameView::Invalid => Request::Unknown,
        FrameView::Other => Request::Unknown,
        FrameView::Array(items) => {
            if !bulk_at(items, 0) {
                Request::Unknown
            } else {
                let name = items[0]->0;
                if name == "get"@ || name == "GET"@ {
                    if bulk_at(items, 1) {
                        Request::Read(items[1]->0)
                    } else {
                        Request::Unknown
                    }
                } else if name == "set"@ || name == "SET"@ {
                    if bulk_at(items, 1) && bulk_at(items, 2) {
                        Request::Write(items[1]->0, items[2]->0)
                    } else {
                        Request::Unknown
                    }
                } else if name == "COMMAND"@ || name == "command"@ {
                    Request::Probe
                } else {
                    Request::Unknown
                }
            }
        },
    }
}

/// The frame that the first value of the wire protocol in `bytes` gives.
pub uninterp spec fn resp_frame(bytes: Seq<u8>) -> FrameView;

/// What the bytes of a command ask for: nothing that the engine knows where
/// they are more than `MAX_COMMAND_LEN`, and else what their frame asks for.
pub open spec fn request_for(bytes: Seq<u8>) -> Request {
    if bytes.len() > MAX_COMMAND_LEN {
        Request::Unknown
    } else {
        request_of(resp_frame(bytes))
    }
}

/// `resp::Decoder::decode` on a reader over `cmd`: the first value that the
/// bytes hold, as a frame. The frame depends on the bytes alone. The decoder
/// calls itself for each element of an array, so the depth of its calls
/// grows with the bytes: the bound on their number keeps it to a few
/// hundred. For an array header the decoder reserves room for as many
/// values as the header announces, up to 512 Mi of them, and for a bulk
/// string as many bytes, up to 512 MiB, before it reads on; a machine that
/// cannot give that much ends the process, which this contract leaves aside.
#[verifier::external_body]
fn decode_frame(cmd: &[u8]) -> (frame: Frame)
    requires
        cmd@.len() <= MAX_COMMAND_LEN,
    ensures
        frame@ == resp_frame(cmd@),
{
    match Decoder::new(BufReader::new(cmd)).decode() {
        Ok(Value::Array(items)) => Frame::Array(
            items.into_iter().map(|v| match v {
                Value::Bulk(text) => Some(text),
                _ => None,
            }).collect(),
        ),
        Ok(_) => Frame::Other,
        Err(_) => Frame::Invalid,
    }
}

/// Reads a frame as a command.
pub fn parse_command(frame: Frame) -> (r: Result<Command, MemTableError>)
    ensures
        match request_of(frame@) {
            Request::Read(key) => r matches Ok(Command::Read(k)) && k@ == key,
            Request::Write(key, value) => r matches Ok(Command::Write(k, v)) && k@ == key && v@ == value,
            Request::Probe => r matches Ok(Command::Probe),
            Request::Unknown => r matches Err(e) && e is ProtocolError,
        },
{
    let mut items = match frame {
        Frame::Invalid => { return Err(MemTableError::ProtocolError); },
        Frame::Other => { return Err(MemTableError::ProtocolError); },
        Frame::Array(items) => items,
    };
    let ghost texts = items@.map_values(|e| element_view(e));
    if items.len() == 0 {
        return Err(MemTableError::ProtocolError);
    }
    let value = if items.len() > 2 {
        items.remove(2)
    } else {
        None
    };
    let key = if items.len() > 1 {
        items.remove(1)
    } else {
        None
    };
    let name = match items.remove(0) {
        Some(name) => name,
        None => { return Err(MemTableError::ProtocolError); },
    };
    assert(element_view(value) == if texts.len() > 2 { texts[2] } else { None });
    assert(element_view(key) == if texts.len() > 1 { texts[1] } else { None });
    assert(texts[0] == Some(name@));
    if same_key(name.as_str(), "get") || same_key(name.as_str(), "GET") {
        match key {
            Some(key) => Ok(Command::Read(key)),
            None => Err(MemTableError::ProtocolError),
        }
    } else if same_key(name.as_str(), "set") || same_key(name.as_str(), "SET") {
        match (key, value) {
            (Some(key), Some(value)) => Ok(Command::Write(key, value)),
            _ => Err(MemTableError::ProtocolError),
        }
    } else if same_key(name.as_str(), "COMMAND") || same_key(name.as_str(), "command") {
        Ok(Command::Probe)
    } else {
        Err(MemTableError::ProtocolError)
    }
}

/// The reply that carries a value: a simple string.
pub open spec fn value_reply(value: Seq<char>) -> Seq<u8> {
    seq![43u8] + encode_utf8(value) + seq![13u8, 10u8]
}

/// The reply that acknowledges a request: `+OK`.
pub open spec fn ok_reply() -> Seq<u8> {
    seq![43u8, 79u8, 75u8, 13u8, 10u8]
}

/// The line that reports a failure. A key without a value, a failure of the
/// store, and a request that was not understood each have their own.
pub open spec fn error_line(e: MemTableError) -> Seq<char> {
    match e {
        MemTableError::NoValueFound => "-No value found\r\n"@,
        MemTableError::OtherError(_) => "-The store failed\r\n"@,
        MemTableError::SetError => "-The record does not fit\r\n"@,
        _ => "-There was an error\r\n"@,
    }
}

/// Whether `post` and `r` are what the write of `value` for `key` makes of
/// `pre`: a record that does not fit is refused; else the write goes to the
/// log and the table, and the table is flushed when it then holds more
/// entries than the threshold allows and the store can take a segment.
pub open spec fn write_outcome(
    pre: GlobalState,
    key: Seq<char>,
    value: Seq<char>,
    post: GlobalState,
    r: Result<Vec<u8>, MemTableError>,
) -> bool {
    let table = pre.memtable@.insert(key, value);
    let name = pre.memtable.sstable_dir().next_name();
    if !record_fits((key, value)) {
        r matches Err(e) && e is SetError && post == pre
    } else {
        &&& r matches Ok(bytes) && bytes@ == ok_reply()
        &&& post.sstable_threshold == pre.sstable_threshold
        &&& if table.len() > pre.sstable_threshold && pre.memtable.sstable_dir().next_id()
            < u64::MAX {
            &&& post.memtable@ == Map::<Seq<char>, Seq<char>>::empty()
            &&& post.memtable.wal().bytes() == Seq::<u8>::empty()
            &&& post.memtable.sstable_dir().levels() == pre.memtable.sstable_dir().levels().insert(
                name,
                0,
            )
            &&& post.memtable.sstable_dir().next_id() == pre.memtable.sstable_dir().next_id() + 1
            &&& exists|records: Seq<Record>|
                {
                    &&& is_sorted_listing(records, table)
                    &&& post.memtable.files() == pre.memtable.files().insert(
                        name,
                        #[trigger] encode_records(records),
                    )
                    &&& post.indexes@ == index_after_flush(pre.indexes@, name, records)
                }
        } else {
            &&& post.memtable@ == table
            &&& post.memtable.wal().bytes() == pre.memtable.wal().bytes() + encode_record(
                (key, value),
            )
            &&& post.memtable.sstable_dir() == pre.memtable.sstable_dir()
            &&& post.indexes == pre.indexes
        }
        &&& index_sound(pre.indexes@, pre.memtable.files()) ==> index_sound(
            post.indexes@,
            post.memtable.files(),
        )
        &&& lookup(post.memtable@, post.indexes@, post.memtable.files(), key) == Lookup::Found(
            value,
        )
        &&& forall|k: Seq<char>|
            k != key && !(#[trigger] lookup(pre.memtable@, pre.indexes@, pre.memtable.files(), k)
                is Fault) ==> lookup(post.memtable@, post.indexes@, post.memtable.files(), k)
                == lookup(pre.memtable@, pre.indexes@, pre.memtable.files(), k)
    }
}

/// Whether `post` and `r` are what carrying out `request` makes of `pre`.
/// Only a write changes the state.
pub open spec fn executes(
    pre: GlobalState,
    request: Request,
    post: GlobalState,
    r: Result<Vec<u8>, MemTableError>,
) -> bool {
    match request {
        Request::Read(key) => post == pre && match lookup(
            pre.memtable@,
            pre.indexes@,
            pre.memtable.files(),
            key,
        ) {
            Lookup::Found(value) => r matches Ok(bytes) && bytes@ == value_reply(value),
            Lookup::NotFound => r matches Err(e) && e is NoValueFound,
            Lookup::Fault => r matches Err(e) && e is OtherError,
        },
        Request::Write(key, value) => write_outcome(pre, key, value, post, r),
        Request::Probe => post == pre && (r matches Ok(bytes) && bytes@ == ok_reply()),
        Request::Unknown => post == pre && (r matches Err(e) && e is ProtocolError),
    }
}

/// The bytes that answer a request: the reply where it was carried out,
/// and else the line that reports the failure.
pub open spec fn reply_bytes(r: Result<Vec<u8>, MemTableError>) -> Seq<u8> {
    match r {
        Ok(reply) => reply@,
        Err(e) => encode_utf8(error_line(e)),
    }
}

/// The reply that carries `value`.
fn reply_with(value: &String) -> (bytes: Vec<u8>)
    ensures
        bytes@ == value_reply(value@),
{
    let mut bytes: Vec<u8> = Vec::new();
    bytes.push(43u8);
    bytes.extend_from_slice(value.as_str().as_bytes());
    bytes.push(13u8);
    bytes.push(10u8);
    assert(bytes@ == value_reply(value@));
    bytes
}

/// The reply `+OK`.
fn reply_ok() -> (bytes: Vec<u8>)
    ensures
        bytes@ == ok_reply(),
{
    let mut bytes: Vec<u8> = Vec::new();
    bytes.push(43u8);
    bytes.push(79u8);
    bytes.push(75u8);
    bytes.push(13u8);
    bytes.push(10u8);
    assert(bytes@ == ok_reply());
    bytes
}

/// Reads the value of `key` and gives the reply that carries it.
fn read(state: &mut GlobalState, key: String) -> (r: Result<Vec<u8>, MemTableError>)
    ensures
        executes(*old(state), Request::Read(key@), *final(state), r),
{
    match state.memtable.get(key, &mut state.indexes) {
        Ok(value) => Ok(reply_with(&value)),
        Err(e) => Err(e),
    }
}

/// Writes `value` for `key`, flushes the table when it has grown over the
/// threshold, and gives the reply that acknowledges the write.
fn write(state: &mut GlobalState, key: String, value: String) -> (r: Result<
    Vec<u8>,
    MemTableError,
>)
    ensures
        write_outcome(*old(state), key@, value@, *final(state), r),
{
    let ghost pre = *state;
    let ghost table = pre.memtable@.insert(key@, value@);
    match state.memtable.set(key, value) {
        Err(e) => { return Err(e); },
        Ok(_) => {},
    }
    let ghost mid = *state;
    assert(lookup(mid.memtable@, mid.indexes@, mid.memtable.files(), key@) == Lookup::Found(
        value@,
    ));
    assert forall|k: Seq<char>| k != key@ implies #[trigger] lookup(
        mid.memtable@,
        mid.indexes@,
        mid.memtable.files(),
        k,
    ) == lookup(pre.memtable@, pre.indexes@, pre.memtable.files(), k) by {}
    if state.memtable.size() > state.sstable_threshold {
        let ghost records = state.memtable.records();
        let flushed = state.memtable.flush_to_sstable(&mut state.indexes);
        proof {
            if flushed is Ok {
                let name = pre.memtable.sstable_dir().next_name();
                assert(is_sorted_listing(records, table));
                assert(state.memtable.files() == pre.memtable.files().insert(
                    name,
                    encode_records(records),
                ));
                assert(state.indexes@ == index_after_flush(pre.indexes@, name, records));
                assert(!(lookup(mid.memtable@, mid.indexes@, mid.memtable.files(), key@) is Fault));
                assert forall|k: Seq<char>|
                    k != key@ && !(#[trigger] lookup(
                        pre.memtable@,
                        pre.indexes@,
                        pre.memtable.files(),
                        k,
                    ) is Fault) implies lookup(
                    state.memtable@,
                    state.indexes@,
                    state.memtable.files(),
                    k,
                ) == lookup(pre.memtable@, pre.indexes@, pre.memtable.files(), k) by {
                    assert(!(lookup(mid.memtable@, mid.indexes@, mid.memtable.files(), k) is Fault));
                }
            }
        }
    }
    Ok(reply_ok())
}

/// Carries out the request of a frame, and gives the bytes of the reply.
pub fn execute(state: &mut GlobalState, frame: Frame) -> (r: Result<Vec<u8>, MemTableError>)
    ensures
        executes(*old(state), request_of(frame@), *final(state), r),
{
    match parse_command(frame) {
        Ok(Command::Read(key)) => read(state, key),
        Ok(Command::Write(key, value)) => write(state, key, value),
        Ok(Command::Probe) => Ok(reply_ok()),
        Err(e) => Err(e),
    }
}

/// Carries out the request that `cmd` holds, and gives the bytes of the
/// reply. A request that is not understood changes nothing.
pub fn process_cmd(state: &mut GlobalState, cmd: &[u8]) -> (r: Result<Vec<u8>, MemTableError>)
    ensures
        executes(*old(state), request_for(cmd@), *final(state), r),
{
    if cmd.len() > MAX_COMMAND_LEN {
        return Err(MemTableError::ProtocolError);
    }
    let frame = decode_frame(cmd);
    execute(state, frame)
}

/// The bytes that carrying out `cmd` appends to the log: the record of a
/// write whose record fits. Gives nothing for every other command, which
/// appends nothing. The keeper of the log file appends these bytes before
/// the command is carried out, and does not have it carried out where the
/// file refuses them.
pub fn pending_write(cmd: &[u8]) -> (r: Option<Vec<u8>>)
    ensures
        match request_for(cmd@) {
            Request::Write(key, value) => if record_fits((key, value)) {
                r matches Some(bytes) && bytes@ == encode_record((key, value))
            } else {
                r is None
            },
            _ => r is None,
        },
{
    if cmd.len() > MAX_COMMAND_LEN {
        return None;
    }
    match parse_command(decode_frame(cmd)) {
        Ok(Command::Write(key, value)) => {
            let kv = KeyValue::new((key, value));
            if kv.fits() {
                Some(kv.write_to_bytes())
            } else {
                None
            }
        },
        _ => None,
    }
}

/// The bytes that report the failure `e` to the client.
pub fn error_reply(e: &MemTableError) -> (bytes: Vec<u8>)
    ensures
        bytes@ == encode_utf8(error_line(*e)),
{
    let line = match e {
        MemTableError::NoValueFound => "-No value found\r\n",
        MemTableError::OtherError(_) => "-The store failed\r\n",
        MemTableError::SetError => "-The record does not fit\r\n",
        _ => "-There was an error\r\n",
    };
    slice_to_vec(line.as_bytes())
}

/// Answers one request: the reply of `process_cmd`, or the line that
/// reports its failure.
pub fn reply_to(state: &mut GlobalState, cmd: &[u8]) -> (bytes: Vec<u8>)
    ensures
        exists|r: Result<Vec<u8>, MemTableError>|
            #[trigger] executes(*old(state), request_for(cmd@), *final(state), r)
                && bytes@ == reply_bytes(r),
{
    let r = process_cmd(state, cmd);
    match &r {
        Ok(reply) => reply.clone(),
        Err(e) => error_reply(e),
    }
}

} // verus!
