//! Storage engine: fixed-width keys and values, and the sorted index over them.
//!
//! A key is eight bytes and a value 256 bytes. Keys are ordered byte by byte;
//! the index holds each key as the `u64` that its bytes spell in big-endian
//! order, which sorts the same way.

use vstd::prelude::*;
use vstd::std_specs::cmp::OrdSpec;
use vstd::std_specs::iter::IteratorSpec;
use std::collections::BTreeMap;
use std::sync::Arc;

pub mod disklog;
pub mod keycode;
pub mod model;

use disklog::{
    lemma_log_bytes_concat,
    lemma_parse_log_of_bytes,
    log_bytes,
    parse_log,
    parse_record,
    DiskLogMessage,
    DiskLogReader,
    LogError,
    LogRecord,
};
use keycode::{
    decode_bytes,
    encode_bytes,
    lemma_encode_preserves_order,
    lemma_encode_then_decode,
    lex_lt,
    spec_decode_raw,
    spec_encode_raw,
};
use model::{
    applied,
    is_scan_of,
    lemma_applied_answers_as_replayed,
    lemma_replay_concat,
    lemma_replay_push,
    lemma_scan_goes_by_answers,
    lookup,
    replay,
    same_answers,
};

verus! {

/// Width of a key in bytes.
pub const KEY_SIZE: usize = 8;

/// Width of a value in bytes.
pub const VALUE_SIZE: usize = 256;

/// A key of the storage engine: eight opaque bytes.
#[derive(Copy, Clone, Debug)]
pub struct Key {
    pub data: [u8; KEY_SIZE],
}

/// A value of the storage engine: 256 opaque bytes.
#[derive(Copy, Clone, Debug)]
pub struct Value {
    pub data: [u8; VALUE_SIZE],
}

impl PartialEq for Key {
    /// Two keys are equal when all their bytes are.
    fn eq(&self, other: &Self) -> (res: bool) {
        let mut i: usize = 0;
        while i < KEY_SIZE
            invariant
                i <= KEY_SIZE,
                forall|j: int| 0 <= j < i ==> self.data@[j] == other.data@[j],
            decreases KEY_SIZE - i,
        {
            if self.data[i] != other.data[i] {
                return false;
            }
            i += 1;
        }
        assert(self.data@ =~= other.data@);
        true
    }
}

impl vstd::std_specs::cmp::PartialEqSpecImpl for Key {
    open spec fn obeys_eq_spec() -> bool {
        true
    }

    open spec fn eq_spec(&self, other: &Self) -> bool {
        self.data@ == other.data@
    }
}

impl Eq for Key {

}

impl PartialEq for Value {
    /// Two values are equal when all their bytes are.
    fn eq(&self, other: &Self) -> (res: bool) {
        let mut i: usize = 0;
        while i < VALUE_SIZE
            invariant
                i <= VALUE_SIZE,
                forall|j: int| 0 <= j < i ==> self.data@[j] == other.data@[j],
            decreases VALUE_SIZE - i,
        {
            if self.data[i] != other.data[i] {
                return false;
            }
            i += 1;
        }
        assert(self.data@ =~= other.data@);
        true
    }
}

impl vstd::std_specs::cmp::PartialEqSpecImpl for Value {
    open spec fn obeys_eq_spec() -> bool {
        true
    }

    open spec fn eq_spec(&self, other: &Self) -> bool {
        self.data@ == other.data@
    }
}

impl Eq for Value {

}

/// Keys are their bytes: two with the same bytes are the same.
pub proof fn lemma_key_is_its_bytes(a: Key, b: Key)
    ensures
        a.data@ == b.data@ <==> a == b,
{
    if a.data@ == b.data@ {
        assert(a.data =~= b.data);
    }
}

/// Values are their bytes: two with the same bytes are the same.
pub proof fn lemma_value_is_its_bytes(a: Value, b: Value)
    ensures
        a.data@ == b.data@ <==> a == b,
{
    if a.data@ == b.data@ {
        assert(a.data =~= b.data);
    }
}

/// The encoding of keys keeps their order and loses nothing: one key sorts
/// before another byte by byte exactly when its code is the smaller, two
/// keys have one code only when they are one key, and decoding a key's code
/// gives the key's bytes back.
pub proof fn lemma_key_encoding(a: Key, b: Key)
    ensures
        lex_lt(a.data@, b.data@) <==> a.spec_encode() < b.spec_encode(),
        a.spec_encode() == b.spec_encode() <==> a == b,
        spec_decode_raw(a.spec_encode()) == a.data@,
{
    lemma_encode_preserves_order(a.data@, b.data@);
    lemma_encode_then_decode(a.data@);
    lemma_encode_then_decode(b.data@);
    lemma_key_is_its_bytes(a, b);
}

impl Key {
    /// The integer under which the index files this key.
    pub open spec fn spec_encode(self) -> u64 {
        spec_encode_raw(self.data@)
    }

    /// Builds a key from a slice of exactly `KEY_SIZE` bytes.
    pub fn from_slice(slice: &[u8]) -> (res: Key)
        requires
            slice@.len() == KEY_SIZE,
        ensures
            res.data@ == slice@,
    {
        let mut ret = [0u8; KEY_SIZE];
        let mut i: usize = 0;
        while i < KEY_SIZE
            invariant
                i <= KEY_SIZE,
                slice@.len() == KEY_SIZE,
                forall|j: int| 0 <= j < i ==> ret@[j] == slice@[j],
            decreases KEY_SIZE - i,
        {
            ret[i] = slice[i];
            i += 1;
        }
        assert(ret@ =~= slice@);
        Key { data: ret }
    }

    /// Builds a key from a slice, or gives `None` when the slice is not
    /// `KEY_SIZE` bytes long.
    pub fn from_slice_checked(slice: &[u8]) -> (res: Option<Key>)
        ensures
            res is Some <==> slice@.len() == KEY_SIZE,
            res matches Some(k) ==> k.data@ == slice@,
    {
        if slice.len() != KEY_SIZE {
            None
        } else {
            Some(Key::from_slice(slice))
        }
    }

    /// The key's bytes, as they go on the wire and into the log.
    pub fn serialize(&self) -> (res: Vec<u8>)
        ensures
            res@ == self.data@,
    {
        let mut out: Vec<u8> = Vec::new();
        let mut i: usize = 0;
        while i < KEY_SIZE
            invariant
                i <= KEY_SIZE,
                out@.len() == i,
                forall|j: int| 0 <= j < i ==> out@[j] == self.data@[j],
            decreases KEY_SIZE - i,
        {
            out.push(self.data[i]);
            i += 1;
        }
        assert(out@ =~= self.data@);
        out
    }

    /// Encodes the key as the `u64` that its bytes spell in big-endian order.
    pub fn encode(&self) -> (res: u64)
        ensures
            res == self.spec_encode(),
    {
        Key::encode_raw(&self.data)
    }

    /// Encodes eight raw bytes as the `u64` that they spell in big-endian order.
    pub fn encode_raw(raw: &[u8; KEY_SIZE]) -> (res: u64)
        ensures
            res == spec_encode_raw(raw@),
    {
        encode_bytes(raw)
    }

    /// Gives back the key that encodes to `encoded`.
    pub fn decode(encoded: u64) -> (res: Key)
        ensures
            res.data@ == spec_decode_raw(encoded),
            res.spec_encode() == encoded,
    {
        Key { data: decode_bytes(encoded) }
    }
}

impl Value {
    /// Builds a value from a slice of exactly `VALUE_SIZE` bytes.
    pub fn from_slice(slice: &[u8]) -> (res: Value)
        requires
            slice@.len() == VALUE_SIZE,
        ensures
            res.data@ == slice@,
    {
        let mut ret = [0u8; VALUE_SIZE];
        let mut i: usize = 0;
        while i < VALUE_SIZE
            invariant
                i <= VALUE_SIZE,
                slice@.len() == VALUE_SIZE,
                forall|j: int| 0 <= j < i ==> ret@[j] == slice@[j],
            decreases VALUE_SIZE - i,
        {
            ret[i] = slice[i];
            i += 1;
        }
        assert(ret@ =~= slice@);
        Value { data: ret }
    }

    /// Builds a value from a slice, or gives `None` when the slice is not
    /// `VALUE_SIZE` bytes long.
    pub fn from_slice_checked(slice: &[u8]) -> (res: Option<Value>)
        ensures
            res is Some <==> slice@.len() == VALUE_SIZE,
            res matches Some(v) ==> v.data@ == slice@,
    {
        if slice.len() != VALUE_SIZE {
            None
        } else {
            Some(Value::from_slice(slice))
        }
    }

    /// The value's bytes, as they go on the wire and into the log.
    pub fn serialize(&self) -> (res: Vec<u8>)
        ensures
            res@ == self.data@,
    {
        let mut out: Vec<u8> = Vec::new();
        let mut i: usize = 0;
        while i < VALUE_SIZE
            invariant
                i <= VALUE_SIZE,
                out@.len() == i,
                forall|j: int| 0 <= j < i ==> out@[j] == self.data@[j],
            decreases VALUE_SIZE - i,
        {
            out.push(self.data[i]);
            i += 1;
        }
        assert(out@ =~= self.data@);
        out
    }
}

/// The bytes of a stored value, where there is one.
pub open spec fn value_bytes(value: Option<Arc<Value>>) -> Option<Seq<u8>> {
    match value {
        Some(v) => Some(v.data@),
        None => None,
    }
}

/// The model of a sorted map of stored values: each entry by its bytes.
pub open spec fn index_view(entries: Map<u64, Option<Arc<Value>>>) -> Map<u64, Option<Seq<u8>>> {
    Map::new(|code: u64| entries.contains_key(code), |code: u64| value_bytes(entries[code]))
}

/// The model of a scan's result: each pair as the key's bytes and the
/// value's bytes.
pub open spec fn pairs_view(pairs: Seq<(Key, Arc<Value>)>) -> Seq<(Seq<u8>, Seq<u8>)> {
    Seq::new(pairs.len(), |i: int| (pairs[i].0.data@, pairs[i].1.data@))
}

/// A key-value storage engine: a sorted index in memory, rebuilt at start
/// from the log that every change is appended to before it is made.
///
/// The engine does no I/O. Whoever owns the log file appends the record
/// that `put_record` or `delete_record` names and hands the outcome to `put`
/// or `delete`, which change the index only after a successful append.
pub struct KVStorage {
    mem_storage: BTreeMap<u64, Option<Arc<Value>>>,
    initial: Ghost<Map<u64, Option<Seq<u8>>>>,
    log: Ghost<Seq<LogRecord>>,
}

impl KVStorage {
    /// The index: for each key's code, the value's bytes or a tombstone.
    pub closed spec fn index(&self) -> Map<u64, Option<Seq<u8>>> {
        index_view(self.mem_storage@)
    }

    /// The index that the engine was started with.
    pub closed spec fn initial(&self) -> Map<u64, Option<Seq<u8>>> {
        self.initial@
    }

    /// The records that were appended to the log since the engine started,
    /// oldest first.
    pub closed spec fn log(&self) -> Seq<LogRecord> {
        self.log@
    }

    /// The engine's invariant: replaying the log on the index it started
    /// with gives an index that answers every lookup as the live one does.
    pub open spec fn wf(&self) -> bool {
        &&& same_answers(self.index(), replay(self.initial(), self.log()))
        &&& forall|i: int| 0 <= i < self.log().len() ==> (#[trigger] self.log()[i]).wf()
    }

    /// An empty engine, for a log that is empty.
    pub fn new() -> (res: KVStorage)
        ensures
            res.index() == Map::<u64, Option<Seq<u8>>>::empty(),
            res.initial() == res.index(),
            res.log() == Seq::<LogRecord>::empty(),
            res.wf(),
    {
        let res = KVStorage {
            mem_storage: BTreeMap::new(),
            initial: Ghost(Map::empty()),
            log: Ghost(Seq::empty()),
        };
        assert(res.index() =~= Map::<u64, Option<Seq<u8>>>::empty());
        res
    }

    /// Rebuilds the index from the bytes of a log: each put sets its entry,
    /// each delete removes its entry. Fails on the first thing that is no
    /// record.
    pub fn read_log_file(content: Vec<u8>) -> (res: Result<
        BTreeMap<u64, Option<Arc<Value>>>,
        LogError,
    >)
        ensures
            (match parse_log(content@) {
                Ok(records) => res matches Ok(entries) && index_view(entries@) == replay(
                    Map::empty(),
                    records,
                ),
                Err(e) => res matches Err(err) && err == e,
            }),
    {
        let mut ret: BTreeMap<u64, Option<Arc<Value>>> = BTreeMap::new();
        let mut log_reader = DiskLogReader::new(content);
        let ghost mut done: Seq<LogRecord> = Seq::empty();
        assert(index_view(ret@) =~= Map::<u64, Option<Seq<u8>>>::empty());
        loop
            invariant
                index_view(ret@) == replay(Map::empty(), done),
                parse_log(content@) == (match parse_log(log_reader.remaining()) {
                    Ok(rest) => Ok::<Seq<LogRecord>, LogError>(done + rest),
                    Err(e) => Err::<Seq<LogRecord>, LogError>(e),
                }),
            decreases log_reader.remaining().len(),
        {
            let ghost before = log_reader.remaining();
            let ghost index_before = index_view(ret@);
            match log_reader.next_log() {
                Err(e) => {
                    return Err(e);
                },
                Ok(None) => {
                    assert(done + Seq::<LogRecord>::empty() =~= done);
                    return Ok(ret);
                },
                Ok(Some(log_msg)) => {
                    proof {
                        let (record, len) = parse_record(before)->Ok_0;
                        let rest = parse_log(before.skip(len));
                        if rest is Ok {
                            assert(done + (seq![record] + rest->Ok_0) =~= done.push(record)
                                + rest->Ok_0);
                        }
                        lemma_replay_push(Map::empty(), done, record);
                        done = done.push(record);
                    }
                    match log_msg {
                        DiskLogMessage::Put(key, value) => {
                            ret.insert(key.encode(), Some(value));
                            assert(index_view(ret@) =~= index_before.insert(
                                key.spec_encode(),
                                Some(value.data@),
                            ));
                        },
                        DiskLogMessage::Delete(key) => {
                            ret.remove(&key.encode());
                            assert(index_view(ret@) =~= index_before.remove(key.spec_encode()));
                        },
                    }
                },
            }
        }
    }

    /// An engine over an index that was rebuilt from a log.
    pub fn with_content(mem_storage: BTreeMap<u64, Option<Arc<Value>>>) -> (res: KVStorage)
        ensures
            res.index() == index_view(mem_storage@),
            res.initial() == res.index(),
            res.log() == Seq::<LogRecord>::empty(),
            res.wf(),
    {
        KVStorage {
            initial: Ghost(index_view(mem_storage@)),
            mem_storage,
            log: Ghost(Seq::empty()),
        }
    }

    /// Looks `key` up: its value, or `None` when the key was never set or
    /// has been deleted.
    pub fn get(&self, key: &Key) -> (res: Option<Arc<Value>>)
        ensures
            value_bytes(res) == lookup(self.index(), key.spec_encode()),
    {
        let encoded_key = key.encode();
        match self.mem_storage.get(&encoded_key) {
            Some(Some(value)) => Some(value.clone()),
            _ => None,
        }
    }

    /// The record that has to be appended to the log before `key` is set to
    /// `value`.
    pub fn put_record(key: &Key, value: &Value) -> (res: DiskLogMessage)
        ensures
            res@ == (LogRecord::Put { key: key.data@, value: value.data@ }),
    {
        DiskLogMessage::Put(*key, Arc::new(*value))
    }

    /// Sets `key` to `value`, once the record of `put_record` has been given
    /// to the log: `logged` is how that append ended. After a failed append
    /// the index is as before, and the failure is handed back.
    pub fn put<E>(&mut self, key: &Key, value: &Value, logged: Result<(), E>) -> (res: Result<
        (),
        E,
    >)
        ensures
            res == logged,
            final(self).initial() == old(self).initial(),
            (match logged {
                Ok(_) => {
                    let record = LogRecord::Put { key: key.data@, value: value.data@ };
                    &&& final(self).index() == applied(old(self).index(), record)
                    &&& final(self).log() == old(self).log().push(record)
                },
                Err(_) => final(self).index() == old(self).index() && final(self).log() == old(
                    self,
                ).log(),
            }),
            old(self).wf() ==> final(self).wf(),
    {
        let encoded_key = key.encode();
        match logged {
            Err(e) => Err(e),
            Ok(done) => {
                let ghost record = LogRecord::Put { key: key.data@, value: value.data@ };
                let ghost before = self.index();
                self.mem_storage.insert(encoded_key, Some(Arc::new(*value)));
                proof {
                    assert(self.index() =~= applied(before, record));
                    lemma_replay_push(self.initial@, self.log@, record);
                    if old(self).wf() {
                        lemma_applied_answers_as_replayed(
                            before,
                            replay(self.initial@, self.log@),
                            record,
                        );
                    }
                    self.log@ = self.log@.push(record);
                }
                Ok(done)
            },
        }
    }

    /// The record that has to be appended to the log before `key` is
    /// deleted, or `None` where the index has no entry for the key and
    /// nothing is to be logged. A tombstone is an entry: deleting a deleted
    /// key is logged again.
    pub fn delete_record(&self, key: &Key) -> (res: Option<DiskLogMessage>)
        ensures
            res is Some <==> self.index().contains_key(key.spec_encode()),
            res matches Some(msg) ==> msg@ == (LogRecord::Delete { key: key.data@ }),
    {
        let encoded_key = key.encode();
        if self.mem_storage.contains_key(&encoded_key) {
            Some(DiskLogMessage::Delete(*key))
        } else {
            None
        }
    }

    /// Deletes `key` and gives the number of rows affected. Where the index
    /// has no entry for the key that is 0, nothing changes and `logged` is
    /// not looked at. Where it has one, tombstone or not, the record of
    /// `delete_record` has been given to the log and `logged` is how that
    /// append ended: after a success the entry becomes a tombstone and the
    /// count is 1, after a failure the index is as before and the failure
    /// is handed back.
    pub fn delete<E>(&mut self, key: &Key, logged: Result<(), E>) -> (res: Result<usize, E>)
        ensures
            final(self).initial() == old(self).initial(),
            !old(self).index().contains_key(key.spec_encode()) ==> ({
                &&& res == Ok::<usize, E>(0)
                &&& final(self).index() == old(self).index()
                &&& final(self).log() == old(self).log()
            }),
            old(self).index().contains_key(key.spec_encode()) ==> (match logged {
                Ok(_) => {
                    let record = LogRecord::Delete { key: key.data@ };
                    &&& res == Ok::<usize, E>(1)
                    &&& final(self).index() == applied(old(self).index(), record)
                    &&& final(self).log() == old(self).log().push(record)
                },
                Err(e) => {
                    &&& res == Err::<usize, E>(e)
                    &&& final(self).index() == old(self).index()
                    &&& final(self).log() == old(self).log()
                },
            }),
            old(self).wf() ==> final(self).wf(),
    {
        let encoded_key = key.encode();
        if !self.mem_storage.contains_key(&encoded_key) {
            return Ok(0);
        }
        match logged {
            Err(e) => Err(e),
            Ok(_) => {
                let ghost record = LogRecord::Delete { key: key.data@ };
                let ghost before = self.index();
                self.mem_storage.insert(encoded_key, None);
                proof {
                    assert(self.index() =~= applied(before, record));
                    lemma_replay_push(self.initial@, self.log@, record);
                    if old(self).wf() {
                        lemma_applied_answers_as_replayed(
                            before,
                            replay(self.initial@, self.log@),
                            record,
                        );
                    }
                    self.log@ = self.log@.push(record);
                }
                Ok(1)
            },
        }
    }

    /// Scans the keys from `key1` up to, not including, `key2`: every key in
    /// that range that has a value, with its value, in ascending order of
    /// the keys. Empty where `key1` is not below `key2`. The index is walked
    /// in key order from its lowest key and left at the first key that is
    /// not below `key2`.
    pub fn scan(&self, key1: &Key, key2: &Key) -> (res: Vec<(Key, Arc<Value>)>)
        ensures
            is_scan_of(self.index(), key1.spec_encode(), key2.spec_encode(), pairs_view(res@)),
    {
        let low = key1.encode();
        let high = key2.encode();
        let mut out: Vec<(Key, Arc<Value>)> = Vec::new();
        let entries = self.mem_storage.iter();
        let ghost all = entries.remaining();
        let ghost mut picked: Seq<int> = Seq::empty();
        proof {
            broadcast use vstd::std_specs::btree::group_btree_axioms;

            broadcast use vstd::laws_cmp::group_laws_cmp;

            let codes = all.map_values(|kv: (&u64, &Option<Arc<Value>>)| *kv.0);
            assert(vstd::std_specs::btree::increasing_seq(codes));
            vstd::std_specs::btree::axiom_increasing_seq_meaning(codes);
            assert forall|i: int, j: int| 0 <= i < j < all.len() implies *all[i].0 < *all[j].0 by {
                assert(codes[i] == *all[i].0);
                assert(codes[j] == *all[j].0);
                assert(codes[i].cmp_spec(&codes[j]) is Less);
            }
        }
        for entry in it: entries
            invariant_except_break
                forall|i: int| 0 <= i < picked.len() ==> 0 <= #[trigger] picked[i] < it.index(),
                forall|j: int|
                    0 <= j < it.index() && low <= *(#[trigger] all[j]).0 < high && (*all[j].1) is Some
                        ==> picked.contains(j),
            invariant
                it.seq() == all,
                forall|i: int, j: int| 0 <= i < j < all.len() ==> *all[i].0 < *all[j].0,
                forall|i: int|
                    0 <= i < out@.len() ==> ({
                        let source = all[picked[i]];
                        &&& (#[trigger] out@[i]).0.spec_encode() == *source.0
                        &&& Some(out@[i].1) == *source.1
                        &&& low <= *source.0 < high
                    }),
                out@.len() == picked.len(),
                forall|i: int| 0 <= i < picked.len() ==> 0 <= #[trigger] picked[i] < all.len(),
                forall|i: int, j: int| 0 <= i < j < picked.len() ==> picked[i] < picked[j],
            ensures
                forall|j: int|
                    0 <= j < all.len() && low <= *(#[trigger] all[j]).0 < high && (*all[j].1) is Some
                        ==> picked.contains(j),
        {
            let (code, maybe_value) = entry;
            let ghost at = it.index();
            if *code >= high {
                // The entries come in ascending order: none that follows is in range.
                proof {
                    assert forall|j: int|
                        0 <= j < all.len() && low <= *(#[trigger] all[j]).0 < high && (
                        *all[j].1) is Some implies picked.contains(j) by {
                        if j > at {
                            assert(*all[at].0 < *all[j].0);
                        }
                    }
                }
                break;
            }
            if low <= *code {
                match maybe_value {
                    Some(value) => {
                        let ghost gathered = out@;
                        let pair = (Key::decode(*code), value.clone());
                        out.push(pair);
                        proof {
                            let ghost before = picked;
                            picked = picked.push(at);
                            assert forall|i: int| 0 <= i < out@.len() implies {
                                let source = all[picked[i]];
                                &&& (#[trigger] out@[i]).0.spec_encode() == *source.0
                                &&& Some(out@[i].1) == *source.1
                                &&& low <= *source.0 < high
                            } by {
                                if i < gathered.len() {
                                    assert(out@[i] == gathered[i]);
                                    assert(picked[i] == before[i]);
                                } else {
                                    assert(out@[i] == pair);
                                    assert(picked[i] == at);
                                }
                            }
                            assert forall|j: int|
                                0 <= j < at + 1 && low <= *(#[trigger] all[j]).0 < high && (
                                *all[j].1) is Some implies picked.contains(j) by {
                                if j < at {
                                    assert(before.contains(j));
                                    let i = choose|i: int| 0 <= i < before.len() && before[i] == j;
                                    assert(picked[i] == j);
                                } else {
                                    assert(picked[picked.len() - 1] == j);
                                }
                            }
                        }
                    },
                    None => {},
                }
            }
        }
        proof {
            self.lemma_scan_collected(low, high, all, picked, out@);
        }
        out
    }

    /// What the scan's loop has gathered is the scan: the entries it walked
    /// are those of the index, each once, in ascending order.
    proof fn lemma_scan_collected(
        &self,
        low: u64,
        high: u64,
        all: Seq<(&u64, &Option<Arc<Value>>)>,
        picked: Seq<int>,
        out: Seq<(Key, Arc<Value>)>,
    )
        requires
            all == self.mem_storage.iter().remaining(),
            forall|i: int, j: int| 0 <= i < j < all.len() ==> *all[i].0 < *all[j].0,
            out.len() == picked.len(),
            forall|i: int| 0 <= i < picked.len() ==> 0 <= #[trigger] picked[i] < all.len(),
            forall|i: int, j: int| 0 <= i < j < picked.len() ==> picked[i] < picked[j],
            forall|i: int|
                0 <= i < out.len() ==> ({
                    let source = all[picked[i]];
                    &&& (#[trigger] out[i]).0.spec_encode() == *source.0
                    &&& Some(out[i].1) == *source.1
                    &&& low <= *source.0 < high
                }),
            forall|j: int|
                0 <= j < all.len() && low <= *(#[trigger] all[j]).0 < high && (*all[j].1) is Some
                    ==> picked.contains(j),
        ensures
            is_scan_of(self.index(), low, high, pairs_view(out)),
    {
        broadcast use vstd::std_specs::btree::group_btree_axioms;

        let entries = self.mem_storage@;
        let result = pairs_view(out);
        assert forall|i: int, j: int| 0 <= i < j < result.len() implies spec_encode_raw(
            #[trigger] result[i].0,
        ) < spec_encode_raw(#[trigger] result[j].0) by {
            assert(out[i].0.spec_encode() == *all[picked[i]].0);
            assert(out[j].0.spec_encode() == *all[picked[j]].0);
        }
        assert forall|i: int| 0 <= i < result.len() implies {
            let code = spec_encode_raw((#[trigger] result[i]).0);
            low <= code < high && lookup(self.index(), code) == Some(result[i].1)
        } by {
            let entry = all[picked[i]];
            assert(out[i].0.spec_encode() == *entry.0);
            assert(entries.contains_key(*entry.0) && entries[*entry.0] == *entry.1);
        }
        assert forall|code: u64|
            low <= code < high && (#[trigger] lookup(self.index(), code)) is Some implies exists|
            i: int,
        |
            0 <= i < result.len() && spec_encode_raw((#[trigger] result[i]).0) == code by {
            assert(entries.contains_key(code));
            assert(all.contains((&code, &entries[code])));
            let j = choose|j: int| 0 <= j < all.len() && all[j] == (&code, &entries[code]);
            assert(picked.contains(j));
            let i = choose|i: int| 0 <= i < picked.len() && picked[i] == j;
            assert(spec_encode_raw(result[i].0) == code);
        }
    }
}

/// Replaying the log reproduces what the engine shows: the index rebuilt
/// from the index the engine started with and the records logged since
/// answers every lookup, and every scan, as the live index does.
pub proof fn lemma_replay_reproduces_engine(
    storage: KVStorage,
    code: u64,
    low: u64,
    high: u64,
    result: Seq<(Seq<u8>, Seq<u8>)>,
)
    requires
        storage.wf(),
    ensures
        lookup(replay(storage.initial(), storage.log()), code) == lookup(storage.index(), code),
        is_scan_of(replay(storage.initial(), storage.log()), low, high, result) <==> is_scan_of(
            storage.index(),
            low,
            high,
            result,
        ),
{
    lemma_scan_goes_by_answers(
        storage.index(),
        replay(storage.initial(), storage.log()),
        low,
        high,
        result,
    );
}

/// A restart loses nothing. Take an engine that was started on the index
/// rebuilt from the records `earlier` (none, for an engine started empty).
/// The log file then holds the bytes of those records followed by the bytes
/// of the records logged since; it reads back as all these records, and the
/// index rebuilt from them answers as the live index does.
pub proof fn lemma_restart_reproduces_engine(storage: KVStorage, earlier: Seq<LogRecord>)
    requires
        storage.wf(),
        forall|i: int| 0 <= i < earlier.len() ==> (#[trigger] earlier[i]).wf(),
        storage.initial() == replay(Map::empty(), earlier),
    ensures
        log_bytes(earlier + storage.log()) == log_bytes(earlier) + log_bytes(storage.log()),
        parse_log(log_bytes(earlier) + log_bytes(storage.log())) == Ok::<Seq<LogRecord>, LogError>(
            earlier + storage.log(),
        ),
        same_answers(storage.index(), replay(Map::empty(), earlier + storage.log())),
{
    let all = earlier + storage.log();
    lemma_log_bytes_concat(earlier, storage.log());
    assert forall|i: int| 0 <= i < all.len() implies (#[trigger] all[i]).wf() by {
        if i < earlier.len() {
            assert(all[i] == earlier[i]);
        } else {
            assert(all[i] == storage.log()[i - earlier.len()]);
        }
    }
    lemma_parse_log_of_bytes(all);
    lemma_replay_concat(Map::empty(), earlier, storage.log());
}

} // verus!
