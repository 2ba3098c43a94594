//! The frame format: a 4-byte big-endian length `N`, then `N` bytes of record.
use vstd::prelude::*;

verus! {

/// The largest record length that a length prefix can hold.
pub const MAX_RECORD_LEN: u64 = 0xffff_ffff;

/// The big-endian value of the first four bytes of `b`.
pub open spec fn be_u32(b: Seq<u8>) -> nat {
    (b[0] as nat) * 0x100_0000 + (b[1] as nat) * 0x1_0000 + (b[2] as nat) * 0x100 + (b[3] as nat)
}

/// The four big-endian bytes of `n` (for `n` below 2^32).
pub open spec fn be_bytes(n: nat) -> Seq<u8> {
    seq![
        (n / 0x100_0000) as u8,
        ((n / 0x1_0000) % 0x100) as u8,
        ((n / 0x100) % 0x100) as u8,
        (n % 0x100) as u8,
    ]
}

/// The frame that holds `record`.
pub open spec fn encode(record: Seq<u8>) -> Seq<u8> {
    be_bytes(record.len()) + record
}

/// The length that the prefix at `off` declares.
pub open spec fn declared_len(log: Seq<u8>, off: nat) -> nat {
    be_u32(log.subrange(off as int, off + 4 as int))
}

/// Where the frame that starts at `off` ends.
pub open spec fn frame_end(log: Seq<u8>, off: nat) -> nat {
    off + 4 + declared_len(log, off)
}

/// A whole frame, prefix and record, lies in `log` at `off`.
pub open spec fn is_complete(log: Seq<u8>, off: nat) -> bool {
    &&& off + 4 <= log.len()
    &&& frame_end(log, off) <= log.len()
}

/// The record of the frame at `off`.
pub open spec fn record_at(log: Seq<u8>, off: nat) -> Seq<u8> {
    log.subrange(off + 4 as int, frame_end(log, off) as int)
}

/// The complete frames of `log` from `off` on, each as its offset and record,
/// up to the first place where no complete frame starts.
pub open spec fn frames_from(log: Seq<u8>, off: nat) -> Seq<(nat, Seq<u8>)>
    decreases log.len() - off,
{
    if is_complete(log, off) {
        seq![(off, record_at(log, off))] + frames_from(log, frame_end(log, off))
    } else {
        seq![]
    }
}

/// The complete frames of a whole log.
pub open spec fn frames(log: Seq<u8>) -> Seq<(nat, Seq<u8>)> {
    frames_from(log, 0)
}

/// The log made by appending `records` in order to an empty log.
pub open spec fn log_of(records: Seq<Seq<u8>>) -> Seq<u8>
    decreases records.len(),
{
    if records.len() == 0 {
        seq![]
    } else {
        encode(records[0]) + log_of(records.drop_first())
    }
}

/// A length written as four big-endian bytes reads back as itself.
pub proof fn lemma_be_round_trip(n: nat)
    requires
        n <= MAX_RECORD_LEN,
    ensures
        be_u32(be_bytes(n)) == n,
{
    let b = be_bytes(n);
    assert(b[0] as nat == n / 0x100_0000);
    assert(b[1] as nat == (n / 0x1_0000) % 0x100);
    assert(b[2] as nat == (n / 0x100) % 0x100);
    assert(b[3] as nat == n % 0x100);
    assert((n / 0x100_0000) * 0x100_0000 + ((n / 0x1_0000) % 0x100) * 0x1_0000 + ((n / 0x100)
        % 0x100) * 0x100 + n % 0x100 == n) by (nonlinear_arith)
        requires
            n <= 0xffff_ffff,
    ;
}

/// What one decode at an offset finds.
#[derive(Debug, PartialEq, Eq)]
pub enum FrameRead {
    /// A whole frame: its record, and the offset just past it.
    Complete { record: Vec<u8>, next: u64 },
    /// Too few bytes remain for a whole frame: the readable end of the log.
    CleanEnd,
}

/// Reads the four-byte big-endian length at `at`.
fn read_len(log: &[u8], at: usize) -> (r: u64)
    requires
        at + 4 <= log@.len(),
    ensures
        r as nat == be_u32(log@.subrange(at as int, at + 4)),
        r <= MAX_RECORD_LEN,
{
    let b0 = log[at] as u64;
    let b1 = log[at + 1] as u64;
    let b2 = log[at + 2] as u64;
    let b3 = log[at + 3] as u64;
    b0 * 0x100_0000 + b1 * 0x1_0000 + b2 * 0x100 + b3
}

/// Decodes the frame that starts at `offset`: the whole frame, or the clean end
/// where fewer bytes remain than a length prefix or than the length it declares.
pub fn decode_frame(log: &[u8], offset: u64) -> (r: FrameRead)
    ensures
        match r {
            FrameRead::Complete { record, next } => {
                &&& is_complete(log@, offset as nat)
                &&& record@ == record_at(log@, offset as nat)
                &&& next as nat == frame_end(log@, offset as nat)
            },
            FrameRead::CleanEnd => !is_complete(log@, offset as nat),
        },
{
    let len = log.len() as u64;
    if offset > len || len - offset < 4 {
        return FrameRead::CleanEnd;
    }
    let start = offset as usize;
    let n = read_len(log, start);
    if n > len - offset - 4 {
        return FrameRead::CleanEnd;
    }
    let end = (offset + 4 + n) as usize;
    let mut record: Vec<u8> = Vec::new();
    let mut i: usize = start + 4;
    while i < end
        invariant
            start + 4 <= i <= end <= log@.len(),
            record@ == log@.subrange(start + 4, i as int),
        decreases end - i,
    {
        record.push(log[i]);
        i = i + 1;
        assert(record@ =~= log@.subrange(start + 4, i as int));
    }
    FrameRead::Complete { record, next: end as u64 }
}

/// The frame that holds `record`, or `None` where its length does not fit in a
/// length prefix.
pub fn encode_frame(record: &[u8]) -> (r: Option<Vec<u8>>)
    ensures
        r is Some <==> record@.len() <= MAX_RECORD_LEN,
        r matches Some(f) ==> f@ == encode(record@),
{
    let n = record.len() as u64;
    if n > MAX_RECORD_LEN {
        return None;
    }
    let mut frame: Vec<u8> = Vec::new();
    frame.push((n / 0x100_0000) as u8);
    frame.push(((n / 0x1_0000) % 0x100) as u8);
    frame.push(((n / 0x100) % 0x100) as u8);
    frame.push((n % 0x100) as u8);
    assert(frame@ =~= be_bytes(record@.len()));
    let mut i: usize = 0;
    while i < record.len()
        invariant
            i <= record@.len(),
            frame@ == be_bytes(record@.len()) + record@.subrange(0, i as int),
        decreases record.len() - i,
    {
        frame.push(record[i]);
        i = i + 1;
        assert(frame@ =~= be_bytes(record@.len()) + record@.subrange(0, i as int));
    }
    assert(record@.subrange(0, record@.len() as int) =~= record@);
    Some(frame)
}

} // verus!

verus! {

/// `fs` with `d` added to each offset.
pub open spec fn shifted(fs: Seq<(nat, Seq<u8>)>, d: nat) -> Seq<(nat, Seq<u8>)> {
    fs.map_values(|f: (nat, Seq<u8>)| (f.0 + d, f.1))
}

/// Bytes put in front of a log move its frames by their length and change
/// nothing else.
pub proof fn lemma_frames_shift(x: Seq<u8>, y: Seq<u8>, k: nat)
    ensures
        frames_from(x + y, x.len() + k) == shifted(frames_from(y, k), x.len()),
    decreases y.len() - k,
{
    let xy = x + y;
    let o = x.len() + k;
    if k + 4 <= y.len() {
        assert(xy.subrange(o as int, o + 4 as int) =~= y.subrange(k as int, k + 4 as int));
        if is_complete(y, k) {
            assert(record_at(xy, o) =~= record_at(y, k));
            lemma_frames_shift(x, y, frame_end(y, k));
            assert(frames_from(xy, o) =~= shifted(frames_from(y, k), x.len()));
        } else {
            assert(frames_from(xy, o) =~= shifted(frames_from(y, k), x.len()));
        }
    } else {
        assert(frames_from(xy, o) =~= shifted(frames_from(y, k), x.len()));
    }
}

/// Appending records in order to an empty log, and then any bytes that hold no
/// whole frame, gives a log whose frames are those records, in append order,
/// each at the length of the log before it was appended.
pub proof fn lemma_frames_of_appended(records: Seq<Seq<u8>>, tail: Seq<u8>)
    requires
        forall|i: int| 0 <= i < records.len() ==> records[i].len() <= MAX_RECORD_LEN,
        !is_complete(tail, 0),
    ensures
        frames(log_of(records) + tail).len() == records.len(),
        forall|i: int|
            0 <= i < records.len() ==> {
                &&& (#[trigger] frames(log_of(records) + tail)[i]).1 == records[i]
                &&& frames(log_of(records) + tail)[i].0 == log_of(records.take(i)).len()
            },
    decreases records.len(),
{
    let whole = log_of(records) + tail;
    if records.len() == 0 {
        assert(whole =~= tail);
    } else {
        let r0 = records[0];
        let rest = records.drop_first();
        let e0 = encode(r0);
        let l = log_of(rest) + tail;
        assert(whole =~= e0 + l);
        assert(whole.subrange(0, 4) =~= be_bytes(r0.len()));
        lemma_be_round_trip(r0.len());
        assert(is_complete(whole, 0));
        assert(record_at(whole, 0) =~= r0);
        lemma_frames_shift(e0, l, 0);
        lemma_frames_of_appended(rest, tail);
        assert forall|i: int| 0 <= i < records.len() implies {
            &&& (#[trigger] frames(whole)[i]).1 == records[i]
            &&& frames(whole)[i].0 == log_of(records.take(i)).len()
        } by {
            if i == 0 {
                assert(records.take(0) =~= seq![]);
            } else {
                assert(records.take(i).drop_first() =~= rest.take(i - 1));
                assert(frames(whole)[i] == shifted(frames(l), e0.len())[i - 1]);
            }
        }
    }
}

/// The offsets of a log's frames, in scan order, strictly increase.
pub proof fn lemma_frame_offsets_increase(log: Seq<u8>, off: nat)
    ensures
        forall|i: int|
            0 <= i < frames_from(log, off).len() ==> {
                &&& (#[trigger] frames_from(log, off)[i]).0 >= off
                &&& frames_from(log, off)[i].0 + 4 <= log.len()
            },
        forall|i: int, j: int|
            0 <= i < j < frames_from(log, off).len() ==> (#[trigger] frames_from(log, off)[i]).0
                < (#[trigger] frames_from(log, off)[j]).0,
    decreases log.len() - off,
{
    if is_complete(log, off) {
        let next = frame_end(log, off);
        lemma_frame_offsets_increase(log, next);
        let fs = frames_from(log, off);
        assert forall|i: int| 0 < i < fs.len() implies #[trigger] fs[i] == frames_from(
            log,
            next,
        )[i - 1] by {}
    }
}

/// Round trip: the frame appended for `record` decodes, at the offset where it
/// was appended, to exactly `record`, whatever the log held before.
pub proof fn lemma_round_trip(log: Seq<u8>, record: Seq<u8>)
    requires
        record.len() <= MAX_RECORD_LEN,
    ensures
        is_complete(log + encode(record), log.len()),
        record_at(log + encode(record), log.len()) == record,
        frame_end(log + encode(record), log.len()) == (log + encode(record)).len(),
{
    let whole = log + encode(record);
    assert(whole.subrange(log.len() as int, log.len() + 4 as int) =~= be_bytes(record.len()));
    lemma_be_round_trip(record.len());
    assert(record_at(whole, log.len()) =~= record);
}

/// Successive appends to one log return strictly increasing offsets: each
/// append returns the log's length, and the frame it adds is not empty.
pub proof fn lemma_successive_append_offsets(log: Seq<u8>, first: Seq<u8>, second: Seq<u8>)
    ensures
        log.len() < (log + encode(first)).len(),
        (log + encode(first)).len() < (log + encode(first) + encode(second)).len(),
{
}

} // verus!
