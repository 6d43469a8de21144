//! The write-ahead log: its records, their bytes, and reading them back.
//!
//! The log is a plain run of records, oldest first, with nothing between
//! them and nothing after the last:
//!
//! | record | bytes                                              |
//! |--------|----------------------------------------------------|
//! | put    | `LOG_TAG_PUT`, the key (8), the value (256)        |
//! | delete | `LOG_TAG_DELETE`, the key (8)                      |
//!
//! The end of the bytes at a record boundary ends the log. Anything else
//! (an unknown tag, a record cut short) makes the whole log unreadable.

use vstd::prelude::*;
use vstd::slice::slice_subrange;
use std::sync::Arc;
use super::{Key, Value, KEY_SIZE, VALUE_SIZE};

verus! {

/// First byte of a put record.
pub const LOG_TAG_PUT: u8 = 1;

/// First byte of a delete record.
pub const LOG_TAG_DELETE: u8 = 2;

/// Length of a put record: tag, key, value.
pub const PUT_RECORD_SIZE: usize = 265;

/// Length of a delete record: tag, key.
pub const DELETE_RECORD_SIZE: usize = 9;

/// One record of the log: a mutation that was made durable.
#[derive(Debug)]
pub enum DiskLogMessage {
    Put(Key, Arc<Value>),
    Delete(Key),
}

/// What a record says, as plain bytes: the model of a `DiskLogMessage`.
pub enum LogRecord {
    Put { key: Seq<u8>, value: Seq<u8> },
    Delete { key: Seq<u8> },
}

/// Why a log could not be read.
#[derive(Copy, Clone, Debug, PartialEq, Eq, Structural)]
pub enum LogError {
    /// A record starts with a byte that is no record tag.
    UnknownTag,
    /// The bytes end in the middle of a record.
    Truncated,
}

impl View for DiskLogMessage {
    type V = LogRecord;

    open spec fn view(&self) -> LogRecord {
        match *self {
            DiskLogMessage::Put(key, value) => LogRecord::Put { key: key.data@, value: value.data@ },
            DiskLogMessage::Delete(key) => LogRecord::Delete { key: key.data@ },
        }
    }
}

impl LogRecord {
    /// Whether the key and value have the widths the engine stores.
    pub open spec fn wf(self) -> bool {
        match self {
            LogRecord::Put { key, value } => key.len() == KEY_SIZE && value.len() == VALUE_SIZE,
            LogRecord::Delete { key } => key.len() == KEY_SIZE,
        }
    }

    /// The record's bytes in the log.
    pub open spec fn bytes(self) -> Seq<u8> {
        match self {
            LogRecord::Put { key, value } => seq![LOG_TAG_PUT] + key + value,
            LogRecord::Delete { key } => seq![LOG_TAG_DELETE] + key,
        }
    }
}

/// The bytes of a whole log: its records' bytes, one after another.
pub open spec fn log_bytes(records: Seq<LogRecord>) -> Seq<u8>
    decreases records.len(),
{
    if records.len() == 0 {
        Seq::empty()
    } else {
        records[0].bytes() + log_bytes(records.drop_first())
    }
}

/// The record at the head of `bytes` and its length, or why there is none.
pub open spec fn parse_record(bytes: Seq<u8>) -> Result<(LogRecord, int), LogError>
    recommends
        bytes.len() > 0,
{
    if bytes[0] == LOG_TAG_PUT {
        if bytes.len() >= PUT_RECORD_SIZE {
            Ok(
                (
                    LogRecord::Put {
                        key: bytes.subrange(1, 9),
                        value: bytes.subrange(9, PUT_RECORD_SIZE as int),
                    },
                    PUT_RECORD_SIZE as int,
                ),
            )
        } else {
            Err(LogError::Truncated)
        }
    } else if bytes[0] == LOG_TAG_DELETE {
        if bytes.len() >= DELETE_RECORD_SIZE {
            Ok((LogRecord::Delete { key: bytes.subrange(1, 9) }, DELETE_RECORD_SIZE as int))
        } else {
            Err(LogError::Truncated)
        }
    } else {
        Err(LogError::UnknownTag)
    }
}

/// The records of a log, oldest first, or the first thing wrong with it.
pub open spec fn parse_log(bytes: Seq<u8>) -> Result<Seq<LogRecord>, LogError>
    decreases bytes.len(),
{
    if bytes.len() == 0 {
        Ok(Seq::empty())
    } else {
        match parse_record(bytes) {
            Err(e) => Err(e),
            Ok((record, len)) => match parse_log(bytes.skip(len)) {
                Err(e) => Err(e),
                Ok(rest) => Ok(seq![record] + rest),
            },
        }
    }
}

/// A record stands at the head of its own bytes, whatever follows them.
pub proof fn lemma_parse_record_of_bytes(record: LogRecord, rest: Seq<u8>)
    requires
        record.wf(),
    ensures
        parse_record(record.bytes() + rest) == Ok::<(LogRecord, int), LogError>(
            (record, record.bytes().len() as int),
        ),
        (record.bytes() + rest).skip(record.bytes().len() as int) == rest,
        record.bytes().len() > 0,
{
    let all = record.bytes() + rest;
    match record {
        LogRecord::Put { key, value } => {
            assert(all.subrange(1, 9) =~= key);
            assert(all.subrange(9, PUT_RECORD_SIZE as int) =~= value);
        },
        LogRecord::Delete { key } => {
            assert(all.subrange(1, 9) =~= key);
        },
    }
    assert(all.skip(record.bytes().len() as int) =~= rest);
}

/// Reading back what was written gives the records that were written.
pub proof fn lemma_parse_log_of_bytes(records: Seq<LogRecord>)
    requires
        forall|i: int| 0 <= i < records.len() ==> (#[trigger] records[i]).wf(),
    ensures
        parse_log(log_bytes(records)) == Ok::<Seq<LogRecord>, LogError>(records),
    decreases records.len(),
{
    if records.len() == 0 {
        assert(records =~= Seq::<LogRecord>::empty());
    } else {
        let head = records[0];
        let tail = records.drop_first();
        let bytes = log_bytes(records);
        lemma_parse_record_of_bytes(head, log_bytes(tail));
        lemma_parse_log_of_bytes(tail);
        assert(parse_log(bytes.skip(head.bytes().len() as int)) == Ok::<Seq<LogRecord>, LogError>(
            tail,
        ));
        assert(seq![head] + tail =~= records);
    }
}

/// A log followed by one more record is the log of the records with that
/// one appended.
pub proof fn lemma_log_bytes_push(records: Seq<LogRecord>, record: LogRecord)
    ensures
        log_bytes(records.push(record)) == log_bytes(records) + record.bytes(),
    decreases records.len(),
{
    if records.len() == 0 {
        let empty = Seq::<LogRecord>::empty();
        assert(records.push(record).drop_first() =~= empty);
        assert(log_bytes(empty) =~= Seq::<u8>::empty());
        assert(log_bytes(records.push(record)) =~= record.bytes());
    } else {
        lemma_log_bytes_push(records.drop_first(), record);
        assert(records.push(record).drop_first() =~= records.drop_first().push(record));
        assert(log_bytes(records.push(record)) =~= log_bytes(records) + record.bytes());
    }
}

/// Two logs written one after the other are the log of all their records.
pub proof fn lemma_log_bytes_concat(earlier: Seq<LogRecord>, later: Seq<LogRecord>)
    ensures
        log_bytes(earlier + later) == log_bytes(earlier) + log_bytes(later),
    decreases later.len(),
{
    if later.len() == 0 {
        assert(earlier + later =~= earlier);
        assert(log_bytes(earlier) + log_bytes(later) =~= log_bytes(earlier));
    } else {
        let front = later.drop_last();
        lemma_log_bytes_concat(earlier, front);
        lemma_log_bytes_push(earlier + front, later.last());
        lemma_log_bytes_push(front, later.last());
        assert((earlier + front).push(later.last()) =~= earlier + later);
        assert(front.push(later.last()) =~= later);
        assert(log_bytes(earlier + later) =~= log_bytes(earlier) + log_bytes(later));
    }
}

impl DiskLogMessage {
    /// The record's bytes, as they are appended to the log.
    pub fn serialize(&self) -> (res: Vec<u8>)
        ensures
            res@ == self@.bytes(),
            self@.wf(),
    {
        match self {
            DiskLogMessage::Put(key, value) => {
                let mut out: Vec<u8> = Vec::new();
                out.push(LOG_TAG_PUT);
                let mut k = key.serialize();
                let mut v = value.serialize();
                out.append(&mut k);
                out.append(&mut v);
                assert(out@ =~= self@.bytes());
                out
            },
            DiskLogMessage::Delete(key) => {
                let mut out: Vec<u8> = Vec::new();
                out.push(LOG_TAG_DELETE);
                let mut k = key.serialize();
                out.append(&mut k);
                assert(out@ =~= self@.bytes());
                out
            },
        }
    }
}

/// Reads the records of a log, one by one, out of its bytes.
pub struct DiskLogReader {
    content: Vec<u8>,
    pos: usize,
}

impl DiskLogReader {
    /// The bytes that have not been read yet.
    pub closed spec fn remaining(&self) -> Seq<u8> {
        self.content@.skip(self.pos as int)
    }

    /// The reader's position lies within its bytes.
    #[verifier::type_invariant]
    spec fn position_in_bounds(self) -> bool {
        self.pos <= self.content@.len()
    }

    /// A reader at the start of `content`.
    pub fn new(content: Vec<u8>) -> (res: DiskLogReader)
        ensures
            res.remaining() == content@,
    {
        let res = DiskLogReader { content, pos: 0 };
        assert(res.content@.skip(0) =~= res.content@);
        res
    }

    /// Reads the next record. `Ok(None)` when the log ended at a record
    /// boundary; an error, and no progress, when what follows is no record.
    pub fn next_log(&mut self) -> (res: Result<Option<DiskLogMessage>, LogError>)
        ensures
            old(self).remaining().len() == 0 ==> res == Ok::<Option<DiskLogMessage>, LogError>(None)
                && final(self).remaining() == old(self).remaining(),
            old(self).remaining().len() > 0 ==> (match parse_record(old(self).remaining()) {
                Ok((record, len)) => {
                    &&& res matches Ok(Some(msg))
                    &&& msg@ == record
                    &&& final(self).remaining() == old(self).remaining().skip(len)
                },
                Err(e) => res == Err::<Option<DiskLogMessage>, LogError>(e) && final(self).remaining()
                    == old(self).remaining(),
            }),
    {
        proof {
            use_type_invariant(&*self);
        }
        let len = self.content.len();
        if self.pos == len {
            return Ok(None);
        }
        let ghost rest = self.remaining();
        let start = self.pos;
        let tag = self.content[start];
        assert(rest[0] == tag);
        if tag == LOG_TAG_PUT {
            if len - start < PUT_RECORD_SIZE {
                return Err(LogError::Truncated);
            }
            let key = Key::from_slice(slice_subrange(self.content.as_slice(), start + 1, start + 9));
            let value = Value::from_slice(
                slice_subrange(self.content.as_slice(), start + 9, start + PUT_RECORD_SIZE),
            );
            self.pos = start + PUT_RECORD_SIZE;
            proof {
                assert(key.data@ =~= rest.subrange(1, 9));
                assert(value.data@ =~= rest.subrange(9, PUT_RECORD_SIZE as int));
                assert(self.remaining() =~= rest.skip(PUT_RECORD_SIZE as int));
            }
            Ok(Some(DiskLogMessage::Put(key, Arc::new(value))))
        } else if tag == LOG_TAG_DELETE {
            if len - start < DELETE_RECORD_SIZE {
                return Err(LogError::Truncated);
            }
            let key = Key::from_slice(slice_subrange(self.content.as_slice(), start + 1, start + 9));
            self.pos = start + DELETE_RECORD_SIZE;
            proof {
                assert(key.data@ =~= rest.subrange(1, 9));
                assert(self.remaining() =~= rest.skip(DELETE_RECORD_SIZE as int));
            }
            Ok(Some(DiskLogMessage::Delete(key)))
        } else {
            Err(LogError::UnknownTag)
        }
    }
}

} // verus!
