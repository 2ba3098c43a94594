//! The log engine: scanning a log, indexing it by aggregate, loading one
//! aggregate's records, and placing appended frames.
use std::collections::HashMap;
use vstd::prelude::*;

use crate::frame::{
    decode_frame, encode, encode_frame, frames, frames_from, is_complete, lemma_frame_offsets_increase,
    lemma_frames_of_appended, log_of, record_at, FrameRead, MAX_RECORD_LEN,
};
use crate::record::{aggregate_of, record_aggregate};

verus! {

broadcast use vstd::std_specs::hash::group_hash_axioms;

/// Maps aggregate identifiers to the offsets of their records in the log, in
/// append order.
pub type AggregateIndex = HashMap<u64, Vec<u64>>;

/// One complete frame found by a scan.
#[derive(Debug, PartialEq, Eq)]
pub struct LogEntry {
    /// Where the frame's length prefix starts.
    pub offset: u64,
    /// The serialized record that the frame holds.
    pub record: Vec<u8>,
    /// The record's aggregate identifier, if it has one.
    pub aggregate_id: Option<u64>,
}

/// A complete frame whose record cannot be parsed.
#[derive(Debug, Clone, Copy, PartialEq, Eq)]
pub enum ScanError {
    CorruptEntry { offset: u64 },
}

/// The record parses, so its frame is no corrupt entry.
pub open spec fn parses(record: Seq<u8>) -> bool {
    record_aggregate(record) is Some
}

/// The aggregate identifier of a record that parses.
pub open spec fn aggregate_in(record: Seq<u8>) -> Option<u64> {
    match record_aggregate(record) {
        Some(a) => a,
        None => None,
    }
}

/// Every complete frame of `log` holds a record that parses.
pub open spec fn scan_ok(log: Seq<u8>) -> bool {
    forall|i: int| 0 <= i < frames(log).len() ==> parses(#[trigger] frames(log)[i].1)
}

/// `offset` is that of the first complete frame of `log` whose record does not parse.
pub open spec fn first_corrupt(log: Seq<u8>, offset: u64) -> bool {
    exists|i: int|
        0 <= i < frames(log).len() && #[trigger] frames(log)[i].0 == offset && !parses(
            frames(log)[i].1,
        ) && forall|j: int| 0 <= j < i ==> parses(#[trigger] frames(log)[j].1)
}

/// Each complete frame as its offset and aggregate identifier, in scan order.
pub open spec fn keyed_frames(log: Seq<u8>) -> Seq<(u64, Option<u64>)> {
    frames(log).map_values(|f: (nat, Seq<u8>)| (f.0 as u64, aggregate_in(f.1)))
}

/// Each entry as its offset and aggregate identifier.
pub open spec fn keyed_entries(entries: Seq<LogEntry>) -> Seq<(u64, Option<u64>)> {
    entries.map_values(|e: LogEntry| (e.offset, e.aggregate_id))
}

/// What a scan of `log` returns.
pub open spec fn scanned(log: Seq<u8>, r: Result<Vec<LogEntry>, ScanError>) -> bool {
    &&& r is Ok <==> scan_ok(log)
    &&& r matches Ok(v) ==> {
        &&& v@.len() == frames(log).len()
        &&& forall|i: int|
            0 <= i < v@.len() ==> {
                &&& (#[trigger] v@[i]).offset == frames(log)[i].0
                &&& v@[i].record@ == frames(log)[i].1
                &&& v@[i].aggregate_id == aggregate_in(frames(log)[i].1)
            }
    }
    &&& r matches Err(ScanError::CorruptEntry { offset }) ==> first_corrupt(log, offset)
}

/// Walks the log from its start and returns its complete frames in order,
/// stopping cleanly where fewer bytes remain than a whole frame. A complete
/// frame whose record is not a JSON object is a corrupt entry: the scan stops
/// there with an error.
pub fn scan_log_entries(log: &[u8]) -> (r: Result<Vec<LogEntry>, ScanError>)
    ensures
        scanned(log@, r),
        log@.len() == 0 ==> (r matches Ok(v) && v@.len() == 0),
{
    let ghost all = frames(log@);
    let mut entries: Vec<LogEntry> = Vec::new();
    let mut offset: u64 = 0;
    let ghost mut done: Seq<(nat, Seq<u8>)> = seq![];
    while offset < log.len() as u64
        invariant
            offset <= log@.len(),
            all == frames(log@),
            all == done + frames_from(log@, offset as nat),
            entries@.len() == done.len(),
            forall|j: int| 0 <= j < done.len() ==> parses(#[trigger] done[j].1),
            forall|i: int|
                0 <= i < entries@.len() ==> {
                    &&& (#[trigger] entries@[i]).offset == done[i].0
                    &&& entries@[i].record@ == done[i].1
                    &&& entries@[i].aggregate_id == aggregate_in(done[i].1)
                },
        decreases log@.len() - offset,
    {
        match decode_frame(log, offset) {
            FrameRead::Complete { record, next } => {
                let ghost rest = frames_from(log@, next as nat);
                assert(frames_from(log@, offset as nat) == seq![
                    (offset as nat, record@),
                ] + rest);
                match aggregate_of(record.as_slice()) {
                    Some(aggregate_id) => {
                        proof {
                            done = done.push((offset as nat, record@));
                            assert(all =~= done + rest);
                        }
                        entries.push(LogEntry { offset, record, aggregate_id });
                        offset = next;
                    },
                    None => {
                        proof {
                            let i = done.len() as int;
                            assert(all[i] == (offset as nat, record@));
                            assert forall|j: int| 0 <= j < i implies parses(#[trigger] all[j].1) by {
                                assert(all[j] == done[j]);
                            }
                            assert(!parses(frames(log@)[i].1));
                            assert(frames(log@)[i].0 == offset);
                            assert(forall|j: int| 0 <= j < i ==> parses(#[trigger] frames(log@)[j].1));
                            assert(first_corrupt(log@, offset));
                        }
                        return Err(ScanError::CorruptEntry { offset });
                    },
                }
            },
            FrameRead::CleanEnd => {
                assert(all =~= done);
                return Ok(entries);
            },
        }
    }
    assert(!is_complete(log@, offset as nat));
    assert(all =~= done);
    Ok(entries)
}

/// The offsets that `pairs` lists for aggregate `id`, in their order.
pub open spec fn offsets_for(pairs: Seq<(u64, Option<u64>)>, id: u64) -> Seq<u64>
    decreases pairs.len(),
{
    if pairs.len() == 0 {
        seq![]
    } else {
        let rest = offsets_for(pairs.drop_last(), id);
        if pairs.last().1 == Some(id) {
            rest.push(pairs.last().0)
        } else {
            rest
        }
    }
}

/// `index` groups the offsets of `pairs` by aggregate identifier: it holds each
/// identifier that some pair carries, with that identifier's offsets in order.
pub open spec fn indexes(index: Map<u64, Vec<u64>>, pairs: Seq<(u64, Option<u64>)>) -> bool {
    &&& forall|id: u64| #[trigger] index.contains_key(id) <==> offsets_for(pairs, id).len() > 0
    &&& forall|id: u64| #[trigger] index.contains_key(id) ==> index[id]@ == offsets_for(pairs, id)
}

/// Groups the offsets of `entries` by aggregate identifier, keeping their
/// order; entries with no aggregate identifier are left out.
pub fn group_by_aggregate(entries: &Vec<LogEntry>) -> (index: AggregateIndex)
    ensures
        indexes(index@, keyed_entries(entries@)),
{
    let ghost pairs = keyed_entries(entries@);
    let mut index: AggregateIndex = HashMap::new();
    let mut i: usize = 0;
    assert(pairs.take(0) =~= seq![]);
    while i < entries.len()
        invariant
            i <= entries@.len(),
            pairs == keyed_entries(entries@),
            indexes(index@, pairs.take(i as int)),
        decreases entries.len() - i,
    {
        let ghost before = index@;
        let ghost done = pairs.take(i as int);
        let ghost now = pairs.take(i + 1);
        assert(now.drop_last() =~= done);
        assert(now.last() == (entries@[i as int].offset, entries@[i as int].aggregate_id));
        let entry = &entries[i];
        if let Some(id) = entry.aggregate_id {
            let mut list = match index.remove(&id) {
                Some(list) => list,
                None => {
                    assert(offsets_for(done, id) =~= seq![]);
                    Vec::new()
                },
            };
            list.push(entry.offset);
            index.insert(id, list);
            assert forall|k: u64| #[trigger] index@.contains_key(k) <==> offsets_for(now, k).len()
                > 0 by {
                if k != id {
                    assert(index@.contains_key(k) == before.contains_key(k));
                }
            }
            assert forall|k: u64| #[trigger] index@.contains_key(k) implies index@[k]@
                == offsets_for(now, k) by {
                if k != id {
                    assert(index@[k] == before[k]);
                }
            }
        } else {
            assert forall|k: u64| #[trigger] index@.contains_key(k) <==> offsets_for(now, k).len()
                > 0 by {
                assert(offsets_for(now, k) == offsets_for(done, k));
            }
            assert forall|k: u64| #[trigger] index@.contains_key(k) implies index@[k]@
                == offsets_for(now, k) by {
                assert(offsets_for(now, k) == offsets_for(done, k));
            }
        }
        i = i + 1;
    }
    assert(pairs.take(entries@.len() as int) =~= pairs);
    index
}

/// Builds the aggregate index of a log by one full scan: under each aggregate
/// identifier, the offsets of its records in append order. Fails, as the scan
/// does, at the first corrupt entry.
pub fn rebuild_index(log: &[u8]) -> (r: Result<AggregateIndex, ScanError>)
    ensures
        r is Ok <==> scan_ok(log@),
        r matches Ok(index) ==> indexes(index@, keyed_frames(log@)),
        r matches Err(ScanError::CorruptEntry { offset }) ==> first_corrupt(log@, offset),
{
    match scan_log_entries(log) {
        Ok(entries) => {
            assert(keyed_entries(entries@) =~= keyed_frames(log@));
            Ok(group_by_aggregate(&entries))
        },
        Err(e) => Err(e),
    }
}

/// A record is where the index says: a whole frame that parses lies at `off`.
pub open spec fn loadable(log: Seq<u8>, off: u64) -> bool {
    is_complete(log, off as nat) && parses(record_at(log, off as nat))
}

/// The offsets that `index` lists for `id`; none where it has no entry.
pub open spec fn listed(index: Map<u64, Vec<u64>>, id: u64) -> Seq<u64> {
    if index.contains_key(id) {
        index[id]@
    } else {
        seq![]
    }
}

/// A frame that the index lists but the log does not hold as expected.
#[derive(Debug, Clone, Copy, PartialEq, Eq)]
pub enum LoadError {
    /// Too few bytes remain at the offset for a whole frame.
    IncompleteEntry { offset: u64 },
    /// The frame at the offset holds a record that does not parse.
    CorruptEntry { offset: u64 },
}

/// `offset` is the first of `offs` at which no loadable record lies.
pub open spec fn first_unloadable(log: Seq<u8>, offs: Seq<u64>, offset: u64) -> bool {
    exists|i: int|
        0 <= i < offs.len() && #[trigger] offs[i] == offset && !loadable(log, offset) && forall|
            j: int,
        |
            0 <= j < i ==> loadable(log, #[trigger] offs[j])
}

/// Loads the records of one aggregate: for each offset that the index lists
/// for it, in the index's order, exactly the record of the frame there. An
/// aggregate that the index does not hold has no records. An offset at which
/// no whole frame lies, or whose record does not parse, is an error.
pub fn load_aggregate(log: &[u8], aggregate_id: u64, index: &AggregateIndex) -> (r: Result<
    Vec<Vec<u8>>,
    LoadError,
>)
    ensures
        !index@.contains_key(aggregate_id) ==> (r matches Ok(v) && v@.len() == 0),
        r is Ok <==> forall|i: int|
            0 <= i < listed(index@, aggregate_id).len() ==> loadable(
                log@,
                #[trigger] listed(index@, aggregate_id)[i],
            ),
        r matches Ok(v) ==> {
            &&& v@.len() == listed(index@, aggregate_id).len()
            &&& forall|i: int|
                0 <= i < v@.len() ==> (#[trigger] v@[i])@ == record_at(
                    log@,
                    listed(index@, aggregate_id)[i] as nat,
                )
        },
        r matches Err(LoadError::IncompleteEntry { offset }) ==> {
            &&& first_unloadable(log@, listed(index@, aggregate_id), offset)
            &&& !is_complete(log@, offset as nat)
        },
        r matches Err(LoadError::CorruptEntry { offset }) ==> {
            &&& first_unloadable(log@, listed(index@, aggregate_id), offset)
            &&& is_complete(log@, offset as nat)
        },
{
    let ghost offs = listed(index@, aggregate_id);
    let offsets = match index.get(&aggregate_id) {
        Some(list) => list,
        None => {
            return Ok(Vec::new());
        },
    };
    assert(offsets@ == offs);
    let mut records: Vec<Vec<u8>> = Vec::new();
    let mut i: usize = 0;
    while i < offsets.len()
        invariant
            i <= offsets@.len(),
            index@.contains_key(aggregate_id),
            offs == listed(index@, aggregate_id),
            offsets@ == offs,
            records@.len() == i,
            forall|j: int| 0 <= j < i ==> loadable(log@, #[trigger] offs[j]),
            forall|j: int|
                0 <= j < i ==> (#[trigger] records@[j])@ == record_at(log@, offs[j] as nat),
        decreases offsets.len() - i,
    {
        let offset = offsets[i];
        match decode_frame(log, offset) {
            FrameRead::Complete { record, next: _ } => {
                if aggregate_of(record.as_slice()).is_none() {
                    assert(!loadable(log@, offs[i as int]));
                    assert(first_unloadable(log@, offs, offset));
                    return Err(LoadError::CorruptEntry { offset });
                }
                records.push(record);
            },
            FrameRead::CleanEnd => {
                assert(!loadable(log@, offs[i as int]));
                assert(first_unloadable(log@, offs, offset));
                return Err(LoadError::IncompleteEntry { offset });
            },
        }
        i = i + 1;
    }
    Ok(records)
}

/// Where an appended record goes, and the bytes to write there.
#[derive(Debug, PartialEq, Eq)]
pub struct Appended {
    /// The log's length before the append: where the frame starts.
    pub offset: u64,
    /// The frame to write at the end of the log.
    pub frame: Vec<u8>,
}

/// Why a record cannot be appended.
#[derive(Debug, Clone, Copy, PartialEq, Eq)]
pub enum AppendError {
    /// The record is longer than a length prefix can state.
    RecordTooLong,
    /// The log would grow past the largest offset.
    LogTooLong,
}

/// Places `record` at the end of a log of `log_len` bytes: the frame starts at
/// `log_len`, which is the offset returned, and holds the length prefix and
/// the record.
pub fn append_event(log_len: u64, record: &[u8]) -> (r: Result<Appended, AppendError>)
    ensures
        r matches Err(AppendError::RecordTooLong) <==> record@.len() > MAX_RECORD_LEN,
        r matches Err(AppendError::LogTooLong) <==> record@.len() <= MAX_RECORD_LEN && log_len
            + 4 + record@.len() > u64::MAX,
        r matches Ok(a) ==> {
            &&& a.offset == log_len
            &&& a.frame@ == encode(record@)
        },
{
    match encode_frame(record) {
        None => Err(AppendError::RecordTooLong),
        Some(frame) => {
            if log_len > u64::MAX - frame.len() as u64 {
                Err(AppendError::LogTooLong)
            } else {
                Ok(Appended { offset: log_len, frame })
            }
        },
    }
}

/// Scanning a log made by appending records in order to an empty log, followed
/// by a trailing frame that is not whole (a length prefix cut short, or one
/// whose record is missing or short), returns exactly those records in append
/// order, each at the offset where it was appended, whatever they hold.
pub proof fn lemma_scan_in_append_order(
    records: Seq<Seq<u8>>,
    tail: Seq<u8>,
    r: Result<Vec<LogEntry>, ScanError>,
)
    requires
        forall|i: int| 0 <= i < records.len() ==> records[i].len() <= MAX_RECORD_LEN,
        !is_complete(tail, 0),
        scanned(log_of(records) + tail, r),
    ensures
        r matches Ok(v) ==> {
            &&& v@.len() == records.len()
            &&& forall|i: int|
                0 <= i < records.len() ==> {
                    &&& (#[trigger] v@[i]).record@ == records[i]
                    &&& v@[i].offset == log_of(records.take(i)).len()
                }
        },
{
    lemma_frames_of_appended(records, tail);
}

/// Every offset that `pairs` lists for `id` is that of a pair that carries `id`.
pub proof fn lemma_offsets_for_members(pairs: Seq<(u64, Option<u64>)>, id: u64)
    ensures
        forall|k: int|
            0 <= k < offsets_for(pairs, id).len() ==> exists|i: int|
                0 <= i < pairs.len() && pairs[i].0 == #[trigger] offsets_for(pairs, id)[k]
                    && pairs[i].1 == Some(id),
    decreases pairs.len(),
{
    if pairs.len() > 0 {
        let front = pairs.drop_last();
        lemma_offsets_for_members(front, id);
        let os = offsets_for(pairs, id);
        assert forall|k: int| 0 <= k < os.len() implies exists|i: int|
            0 <= i < pairs.len() && pairs[i].0 == #[trigger] os[k] && pairs[i].1 == Some(id) by {
            if k < offsets_for(front, id).len() {
                let i = choose|i: int|
                    0 <= i < front.len() && front[i].0 == #[trigger] offsets_for(front, id)[k]
                        && front[i].1 == Some(id);
                assert(pairs[i] == front[i]);
            } else {
                assert(pairs[pairs.len() - 1].0 == os[k]);
            }
        }
    }
}

/// Where the pairs' offsets strictly increase, so do the offsets listed for
/// any one identifier.
pub proof fn lemma_offsets_for_increase(pairs: Seq<(u64, Option<u64>)>, id: u64)
    requires
        forall|i: int, j: int| 0 <= i < j < pairs.len() ==> pairs[i].0 < pairs[j].0,
    ensures
        forall|a: int, b: int|
            0 <= a < b < offsets_for(pairs, id).len() ==> #[trigger] offsets_for(pairs, id)[a]
                < #[trigger] offsets_for(pairs, id)[b],
    decreases pairs.len(),
{
    if pairs.len() > 0 {
        let front = pairs.drop_last();
        lemma_offsets_for_increase(front, id);
        lemma_offsets_for_members(front, id);
        let fo = offsets_for(front, id);
        if pairs.last().1 == Some(id) {
            assert forall|a: int| 0 <= a < fo.len() implies #[trigger] fo[a] < pairs.last().0 by {
                let i = choose|i: int|
                    0 <= i < front.len() && front[i].0 == #[trigger] fo[a] && front[i].1 == Some(
                        id,
                    );
                assert(pairs[i] == front[i]);
            }
        }
    }
}

/// The index of a log groups its frames' offsets by aggregate identifier: each
/// offset listed under `id` is that of a frame whose record carries `id` (so a
/// record with no aggregate identifier is never listed), and each list keeps
/// the frames' order, which is append order, with offsets strictly increasing.
pub proof fn lemma_index_groups_by_aggregate(log: Seq<u8>, index: Map<u64, Vec<u64>>, id: u64)
    requires
        log.len() <= u64::MAX,
        indexes(index, keyed_frames(log)),
        index.contains_key(id),
    ensures
        forall|k: int|
            0 <= k < index[id]@.len() ==> exists|i: int|
                0 <= i < frames(log).len() && frames(log)[i].0 == #[trigger] index[id]@[k]
                    && aggregate_in(frames(log)[i].1) == Some(id),
        forall|a: int, b: int|
            0 <= a < b < index[id]@.len() ==> #[trigger] index[id]@[a] < #[trigger] index[id]@[b],
{
    let pairs = keyed_frames(log);
    lemma_frame_offsets_increase(log, 0);
    assert forall|i: int, j: int| 0 <= i < j < pairs.len() implies pairs[i].0 < pairs[j].0 by {
        assert(frames(log)[i].0 < frames(log)[j].0);
    }
    lemma_offsets_for_increase(pairs, id);
    lemma_offsets_for_members(pairs, id);
    assert forall|k: int| 0 <= k < index[id]@.len() implies exists|i: int|
        0 <= i < frames(log).len() && frames(log)[i].0 == #[trigger] index[id]@[k]
            && aggregate_in(frames(log)[i].1) == Some(id) by {
        let i = choose|i: int|
            0 <= i < pairs.len() && pairs[i].0 == #[trigger] offsets_for(pairs, id)[k]
                && pairs[i].1 == Some(id);
        assert(frames(log)[i].0 + 4 <= log.len());
    }
}

} // verus!
