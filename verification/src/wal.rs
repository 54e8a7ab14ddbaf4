//! The write-ahead log: the records of every write since the last flush, in
//! the order in which they were written.
//!
//! A `Wal` holds the bytes of the log file. A write counts as durable once
//! the keeper of the file has written those bytes; the reply to the client
//! is to be sent after that.

use crate::keyvalue::{
    decode_prefix, decode_records, decode_stream, encode_record, lemma_decode_concat,
    lemma_decode_then_encode, lemma_round_trip, record_fits, records_fit, records_view, CodecError,
    KeyValue, Record,
};
use vstd::prelude::*;

verus! {

/// The contents of the log: a well-formed stream of records.
pub struct Wal {
    log: Vec<u8>,
}

impl Wal {
    #[verifier::type_invariant]
    spec fn inv(&self) -> bool {
        decode_records(self.log@) is Ok
    }

    /// The bytes of the log.
    pub closed spec fn bytes(&self) -> Seq<u8> {
        self.log@
    }

    /// The records of the log, in the order in which they were appended.
    pub open spec fn records(&self) -> Seq<Record> {
        decode_prefix(self.bytes())
    }

    /// Whether the bytes of the log are a stream of records, each of which
    /// fits. Every log is.
    pub open spec fn well_formed(&self) -> bool {
        &&& decode_records(self.bytes()) == Ok::<Seq<Record>, CodecError>(self.records())
        &&& records_fit(self.records())
    }

    /// An empty log.
    pub fn new() -> (wal: Self)
        ensures
            wal.bytes() == Seq::<u8>::empty(),
            wal.records() == Seq::<Record>::empty(),
            wal.well_formed(),
    {
        Self { log: Vec::new() }
    }

    /// The log that the bytes of a log file hold: its records up to the
    /// first fault. What follows the last whole record is cut off.
    pub fn from_bytes(bytes: Vec<u8>) -> (wal: Self)
        ensures
            wal.records() == decode_prefix(bytes@),
            wal.bytes().is_prefix_of(bytes@),
            decode_records(bytes@) is Ok ==> wal.bytes() == bytes@,
            wal.well_formed(),
    {
        let (_, end, _) = decode_stream(&bytes);
        let mut log = bytes;
        log.truncate(end);
        proof {
            lemma_decode_concat(log@, Seq::empty());
            assert(log@ + Seq::<u8>::empty() == log@);
            lemma_decode_then_encode(log@);
        }
        Self { log }
    }

    /// Does nothing when it runs; it tells the verifier that the log is
    /// well-formed.
    pub fn check(&self)
        ensures
            self.well_formed(),
    {
        proof {
            use_type_invariant(self);
            lemma_decode_concat(self.log@, Seq::empty());
            assert(self.log@ + Seq::<u8>::empty() == self.log@);
            lemma_decode_then_encode(self.log@);
        }
    }

    /// Appends a record to the log. A record that does not fit is refused,
    /// and the log stays as it was.
    pub fn append(&mut self, key_value: KeyValue) -> (r: Result<(), CodecError>)
        ensures
            final(self).well_formed(),
            match r {
                Ok(_) => record_fits(key_value@) && final(self).bytes() == old(self).bytes()
                    + encode_record(key_value@) && final(self).records() == old(self).records().push(
                    key_value@,
                ),
                Err(e) => !record_fits(key_value@) && e == CodecError::TooLong && *final(self) == *old(
                    self,
                ),
            },
    {
        self.check();
        if !key_value.fits() {
            return Err(CodecError::TooLong);
        }
        let mut bytes = key_value.write_to_bytes();
        let mut log: Vec<u8> = Vec::new();
        std::mem::swap(&mut self.log, &mut log);
        proof {
            lemma_round_trip(key_value@);
            lemma_decode_concat(log@, bytes@);
            lemma_decode_concat(log@ + bytes@, Seq::empty());
            assert((log@ + bytes@) + Seq::<u8>::empty() == log@ + bytes@);
            lemma_decode_then_encode(log@ + bytes@);
            assert(decode_prefix(log@) + seq![key_value@] == decode_prefix(log@).push(key_value@));
        }
        log.append(&mut bytes);
        self.log = log;
        Ok(())
    }

    /// The records of the log, in the order in which they were appended.
    pub fn read(&self) -> (kvs: Vec<KeyValue>)
        ensures
            records_view(kvs@) == self.records(),
    {
        KeyValue::read_from_bytes(self.log.clone())
    }

    /// Empties the log.
    pub fn clear_wal(&mut self)
        ensures
            final(self).bytes() == Seq::<u8>::empty(),
            final(self).records() == Seq::<Record>::empty(),
            final(self).well_formed(),
    {
        self.log = Vec::new();
    }

    /// The bytes of the log, as they stand in the log file.
    pub fn as_bytes(&self) -> (bytes: &Vec<u8>)
        ensures
            bytes@ == self.bytes(),
    {
        &self.log
    }
}

} // verus!
