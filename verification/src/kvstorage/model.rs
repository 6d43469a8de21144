//! The mathematical model of the index and of the log it is rebuilt from.
//!
//! The index is a map from a key's code to an optional value. An entry
//! without a value is a tombstone: the key was set once and has been deleted
//! since. A running engine leaves tombstones behind; replaying the log
//! removes the entry instead. Lookups and scans cannot tell the two apart,
//! which is what this file proves.

use vstd::prelude::*;
use super::disklog::LogRecord;
use super::keycode::{lemma_encode_injective, spec_encode_raw};

verus! {

/// The value that a lookup of `code` gives: none where the index has no
/// entry and none where it has a tombstone.
pub open spec fn lookup(index: Map<u64, Option<Seq<u8>>>, code: u64) -> Option<Seq<u8>> {
    if index.contains_key(code) {
        index[code]
    } else {
        None
    }
}

/// Whether two indexes answer every lookup alike.
pub open spec fn same_answers(a: Map<u64, Option<Seq<u8>>>, b: Map<u64, Option<Seq<u8>>>) -> bool {
    forall|code: u64| lookup(a, code) == lookup(b, code)
}

/// The index after a running engine has carried out `record`: a put sets
/// the entry, a delete leaves a tombstone where there was an entry.
pub open spec fn applied(index: Map<u64, Option<Seq<u8>>>, record: LogRecord) -> Map<
    u64,
    Option<Seq<u8>>,
> {
    match record {
        LogRecord::Put { key, value } => index.insert(spec_encode_raw(key), Some(value)),
        LogRecord::Delete { key } => if index.contains_key(spec_encode_raw(key)) {
            index.insert(spec_encode_raw(key), None)
        } else {
            index
        },
    }
}

/// The index after replaying `record` from the log: a put sets the entry, a
/// delete removes it.
pub open spec fn replayed(index: Map<u64, Option<Seq<u8>>>, record: LogRecord) -> Map<
    u64,
    Option<Seq<u8>>,
> {
    match record {
        LogRecord::Put { key, value } => index.insert(spec_encode_raw(key), Some(value)),
        LogRecord::Delete { key } => index.remove(spec_encode_raw(key)),
    }
}

/// The index after replaying `records`, oldest first, on top of `index`.
pub open spec fn replay(index: Map<u64, Option<Seq<u8>>>, records: Seq<LogRecord>) -> Map<
    u64,
    Option<Seq<u8>>,
>
    decreases records.len(),
{
    if records.len() == 0 {
        index
    } else {
        replayed(replay(index, records.drop_last()), records.last())
    }
}

/// Whether `result` is the scan of `index` over the codes from `low` up to,
/// not including, `high`: the entries that have a value, each once, in
/// ascending order of their keys, and nothing else. Each item is a key's
/// bytes and a value's bytes.
pub open spec fn is_scan_of(
    index: Map<u64, Option<Seq<u8>>>,
    low: u64,
    high: u64,
    result: Seq<(Seq<u8>, Seq<u8>)>,
) -> bool {
    &&& forall|i: int| 0 <= i < result.len() ==> (#[trigger] result[i]).0.len() == 8
    &&& forall|i: int, j: int|
        0 <= i < j < result.len() ==> spec_encode_raw(#[trigger] result[i].0) < spec_encode_raw(
            #[trigger] result[j].0,
        )
    &&& forall|i: int|
        0 <= i < result.len() ==> {
            let code = spec_encode_raw((#[trigger] result[i]).0);
            low <= code < high && lookup(index, code) == Some(result[i].1)
        }
    &&& forall|code: u64|
        low <= code < high && (#[trigger] lookup(index, code)) is Some ==> exists|i: int|
            0 <= i < result.len() && spec_encode_raw((#[trigger] result[i]).0) == code
}

/// The codes of the keys of a scan, in the scan's order.
pub open spec fn codes_of(result: Seq<(Seq<u8>, Seq<u8>)>) -> Seq<u64> {
    Seq::new(result.len(), |i: int| spec_encode_raw(result[i].0))
}

/// Whether each item of `codes` is smaller than the next.
pub open spec fn ascending(codes: Seq<u64>) -> bool {
    forall|i: int, j: int| 0 <= i < j < codes.len() ==> codes[i] < codes[j]
}

/// Two ascending sequences that hold the same codes are one sequence.
pub proof fn lemma_ascending_same_codes(a: Seq<u64>, b: Seq<u64>)
    requires
        ascending(a),
        ascending(b),
        forall|i: int| 0 <= i < a.len() ==> b.contains(#[trigger] a[i]),
        forall|i: int| 0 <= i < b.len() ==> a.contains(#[trigger] b[i]),
    ensures
        a == b,
    decreases a.len(),
{
    if a.len() == 0 {
        if b.len() > 0 {
            assert(a.contains(b[0]));
        }
        assert(a =~= b);
    } else {
        let top = a.last();
        let at = choose|j: int| 0 <= j < b.len() && b[j] == top;
        let back = choose|j: int| 0 <= j < a.len() && a[j] == b.last();
        assert(b.last() == top) by {
            if back < a.len() - 1 {
                assert(a[back] < a[a.len() - 1]);
            }
            if at < b.len() - 1 {
                assert(b[at] < b[b.len() - 1]);
            }
        }
        let a0 = a.drop_last();
        let b0 = b.drop_last();
        assert forall|i: int| 0 <= i < a0.len() implies b0.contains(#[trigger] a0[i]) by {
            assert(a0[i] == a[i]);
            assert(b.contains(a[i]));
            let j = choose|j: int| 0 <= j < b.len() && b[j] == a[i];
            assert(a[i] < a[a.len() - 1]);
            assert(j < b.len() - 1);
            assert(b0[j] == a0[i]);
        }
        assert forall|i: int| 0 <= i < b0.len() implies a0.contains(#[trigger] b0[i]) by {
            assert(b0[i] == b[i]);
            assert(a.contains(b[i]));
            let j = choose|j: int| 0 <= j < a.len() && a[j] == b[i];
            assert(b[i] < b[b.len() - 1]);
            assert(j < a.len() - 1);
            assert(a0[j] == b0[i]);
        }
        lemma_ascending_same_codes(a0, b0);
        assert(a =~= a0.push(top));
        assert(b =~= b0.push(top));
    }
}

/// An index has one scan over a range, no more: the contract of a scan
/// leaves nothing open.
pub proof fn lemma_scan_is_unique(
    index: Map<u64, Option<Seq<u8>>>,
    low: u64,
    high: u64,
    first: Seq<(Seq<u8>, Seq<u8>)>,
    second: Seq<(Seq<u8>, Seq<u8>)>,
)
    requires
        is_scan_of(index, low, high, first),
        is_scan_of(index, low, high, second),
    ensures
        first == second,
{
    let a = codes_of(first);
    let b = codes_of(second);
    assert forall|i: int| 0 <= i < a.len() implies b.contains(#[trigger] a[i]) by {
        let code = spec_encode_raw(first[i].0);
        let j = choose|j: int| 0 <= j < second.len() && spec_encode_raw((#[trigger] second[j]).0) == code;
        assert(b[j] == code);
    }
    assert forall|i: int| 0 <= i < b.len() implies a.contains(#[trigger] b[i]) by {
        let code = spec_encode_raw(second[i].0);
        let j = choose|j: int| 0 <= j < first.len() && spec_encode_raw((#[trigger] first[j]).0) == code;
        assert(a[j] == code);
    }
    assert(ascending(a)) by {
        assert forall|i: int, j: int| 0 <= i < j < a.len() implies a[i] < a[j] by {
            assert(spec_encode_raw(first[i].0) < spec_encode_raw(first[j].0));
        }
    }
    assert(ascending(b)) by {
        assert forall|i: int, j: int| 0 <= i < j < b.len() implies b[i] < b[j] by {
            assert(spec_encode_raw(second[i].0) < spec_encode_raw(second[j].0));
        }
    }
    lemma_ascending_same_codes(a, b);
    assert forall|i: int| 0 <= i < first.len() implies first[i] == second[i] by {
        assert(a[i] == b[i]);
        lemma_encode_injective(first[i].0, second[i].0);
        assert(lookup(index, a[i]) == Some(first[i].1));
        assert(lookup(index, b[i]) == Some(second[i].1));
    }
    assert(first =~= second);
}

/// A scan reads the index through lookups alone: indexes that answer alike
/// have the same scans.
pub proof fn lemma_scan_goes_by_answers(
    a: Map<u64, Option<Seq<u8>>>,
    b: Map<u64, Option<Seq<u8>>>,
    low: u64,
    high: u64,
    result: Seq<(Seq<u8>, Seq<u8>)>,
)
    requires
        same_answers(a, b),
    ensures
        is_scan_of(a, low, high, result) <==> is_scan_of(b, low, high, result),
{
}

/// A scan over a range whose low end is not below its high end is empty.
pub proof fn lemma_scan_of_empty_range(
    index: Map<u64, Option<Seq<u8>>>,
    low: u64,
    high: u64,
    result: Seq<(Seq<u8>, Seq<u8>)>,
)
    requires
        high <= low,
    ensures
        is_scan_of(index, low, high, result) <==> result.len() == 0,
{
    if is_scan_of(index, low, high, result) && result.len() > 0 {
        let code = spec_encode_raw(result[0].0);
        assert(low <= code < high);
    }
}

/// After a put the key gives the value that was put, and every other key
/// what it gave before.
pub proof fn lemma_put_then_get(
    index: Map<u64, Option<Seq<u8>>>,
    key: Seq<u8>,
    value: Seq<u8>,
    other: Seq<u8>,
)
    requires
        key.len() == 8,
        other.len() == 8,
    ensures
        lookup(applied(index, LogRecord::Put { key, value }), spec_encode_raw(key)) == Some(value),
        other != key ==> lookup(applied(index, LogRecord::Put { key, value }), spec_encode_raw(other))
            == lookup(index, spec_encode_raw(other)),
{
    if other != key && spec_encode_raw(other) == spec_encode_raw(key) {
        lemma_encode_injective(other, key);
    }
}

/// After a delete the key gives nothing, and every other key what it gave
/// before.
pub proof fn lemma_delete_then_get(index: Map<u64, Option<Seq<u8>>>, key: Seq<u8>, other: Seq<u8>)
    requires
        key.len() == 8,
        other.len() == 8,
    ensures
        lookup(applied(index, LogRecord::Delete { key }), spec_encode_raw(key)) is None,
        other != key ==> lookup(applied(index, LogRecord::Delete { key }), spec_encode_raw(other))
            == lookup(index, spec_encode_raw(other)),
{
    if other != key && spec_encode_raw(other) == spec_encode_raw(key) {
        lemma_encode_injective(other, key);
    }
}

/// A delete leaves a tombstone where the key had an entry, so that the next
/// delete of the key finds an entry again; where the key had none, it
/// changes nothing.
pub proof fn lemma_delete_leaves_tombstone(index: Map<u64, Option<Seq<u8>>>, key: Seq<u8>)
    ensures
        index.contains_key(spec_encode_raw(key)) ==> ({
            let after = applied(index, LogRecord::Delete { key });
            after.contains_key(spec_encode_raw(key)) && after[spec_encode_raw(key)] is None
        }),
        !index.contains_key(spec_encode_raw(key)) ==> applied(index, LogRecord::Delete { key })
            == index,
{
}

/// Carrying a record out and replaying it keep two indexes answering alike:
/// a tombstone and a removed entry both answer nothing.
pub proof fn lemma_applied_answers_as_replayed(
    live: Map<u64, Option<Seq<u8>>>,
    rebuilt: Map<u64, Option<Seq<u8>>>,
    record: LogRecord,
)
    requires
        same_answers(live, rebuilt),
    ensures
        same_answers(applied(live, record), replayed(rebuilt, record)),
{
    assert forall|code: u64|
        lookup(applied(live, record), code) == lookup(replayed(rebuilt, record), code) by {
        assert(lookup(live, code) == lookup(rebuilt, code));
    }
}

/// Replaying a log with one more record is replaying the log, then the record.
pub proof fn lemma_replay_push(
    index: Map<u64, Option<Seq<u8>>>,
    records: Seq<LogRecord>,
    record: LogRecord,
)
    ensures
        replay(index, records.push(record)) == replayed(replay(index, records), record),
{
    assert(records.push(record).drop_last() =~= records);
}

/// Replaying two logs one after the other is replaying them joined: what a
/// restart rebuilt and what was logged since make one log.
pub proof fn lemma_replay_concat(
    index: Map<u64, Option<Seq<u8>>>,
    earlier: Seq<LogRecord>,
    later: Seq<LogRecord>,
)
    ensures
        replay(index, earlier + later) == replay(replay(index, earlier), later),
    decreases later.len(),
{
    if later.len() == 0 {
        assert(earlier + later =~= earlier);
    } else {
        lemma_replay_concat(index, earlier, later.drop_last());
        assert((earlier + later).drop_last() =~= earlier + later.drop_last());
        assert((earlier + later).last() == later.last());
    }
}

/// Replay is idempotent in what it shows: an engine that carried the
/// records out one by one, starting from an index that answers as `start`
/// does, answers every lookup as the index rebuilt by replaying the same
/// records on `start`.
pub proof fn lemma_replay_reproduces_answers(
    live_start: Map<u64, Option<Seq<u8>>>,
    start: Map<u64, Option<Seq<u8>>>,
    records: Seq<LogRecord>,
)
    requires
        same_answers(live_start, start),
    ensures
        same_answers(carried_out(live_start, records), replay(start, records)),
    decreases records.len(),
{
    if records.len() > 0 {
        lemma_replay_reproduces_answers(live_start, start, records.drop_last());
        lemma_applied_answers_as_replayed(
            carried_out(live_start, records.drop_last()),
            replay(start, records.drop_last()),
            records.last(),
        );
    }
}

/// The index of a running engine that has carried out `records`, oldest
/// first, starting from `index`.
pub open spec fn carried_out(index: Map<u64, Option<Seq<u8>>>, records: Seq<LogRecord>) -> Map<
    u64,
    Option<Seq<u8>>,
>
    decreases records.len(),
{
    if records.len() == 0 {
        index
    } else {
        applied(carried_out(index, records.drop_last()), records.last())
    }
}

/// Puts to distinct keys do not disturb one another: once all of them have
/// been carried out, in whatever order they came, each key gives the value
/// that was put for it.
pub proof fn lemma_puts_to_distinct_keys_all_show(
    index: Map<u64, Option<Seq<u8>>>,
    records: Seq<LogRecord>,
    i: int,
)
    requires
        0 <= i < records.len(),
        forall|j: int| 0 <= j < records.len() ==> (#[trigger] records[j]) is Put && records[j].wf(),
        forall|j: int, k: int|
            0 <= j < k < records.len() ==> (#[trigger] records[j])->Put_key != (
            #[trigger] records[k])->Put_key,
    ensures
        lookup(carried_out(index, records), spec_encode_raw(records[i]->Put_key)) == Some(
            records[i]->Put_value,
        ),
    decreases records.len(),
{
    let last = records.len() - 1;
    let front = records.drop_last();
    if i < last {
        lemma_puts_to_distinct_keys_all_show(index, front, i);
        assert(front[i] == records[i]);
        assert(records[i]->Put_key != records[last]->Put_key);
        if spec_encode_raw(records[i]->Put_key) == spec_encode_raw(records[last]->Put_key) {
            lemma_encode_injective(records[i]->Put_key, records[last]->Put_key);
        }
    }
}

} // verus!
