//! The write-ahead log: its records, and how they are framed in a file.

use crate::bytes;
use crate::decimal;
use crate::event::{PersistedEvent, PersistedView};
use crate::text;
use vstd::bytes::{
    lemma_auto_spec_u32_to_from_le_bytes, spec_u32_from_le_bytes, spec_u32_to_le_bytes,
    u32_from_le_bytes, u32_to_le_bytes,
};
use vstd::prelude::*;

verus! {

/// What `crc32fast::hash` returns.
pub uninterp spec fn crc32(bytes: Seq<u8>) -> u32;

/// `crc32fast::hash`: the CRC32 (IEEE) checksum of some bytes, a function of those bytes alone.
pub assume_specification[ crc32fast::hash ](buf: &[u8]) -> (r: u32)
    ensures
        r == crc32(buf@),
;

/// An event in the log, with its number and the offset in the source file right after its line.
#[derive(Debug, PartialEq)]
pub struct WALRecord {
    pub seq: u64,
    pub byte_offset: u64,
    pub event: PersistedEvent,
}

/// What a [`WALRecord`] holds.
pub struct RecordView {
    pub seq: int,
    pub byte_offset: int,
    pub event: PersistedView,
}

impl View for WALRecord {
    type V = RecordView;

    open spec fn view(&self) -> RecordView {
        RecordView {
            seq: self.seq as int,
            byte_offset: self.byte_offset as int,
            event: self.event@,
        }
    }
}

/// What each record holds.
pub open spec fn record_views(records: Seq<WALRecord>) -> Seq<RecordView> {
    records.map_values(|r: WALRecord| r@)
}

impl WALRecord {
    pub fn new(seq: u64, byte_offset: u64, event: PersistedEvent) -> (r: WALRecord)
        ensures
            r == (WALRecord { seq, byte_offset, event }),
    {
        WALRecord { seq, byte_offset, event }
    }
}

/// The length field of a payload: the low 32 bits of its length.
pub open spec fn length_field(len: nat) -> u32 {
    (len % 0x1_0000_0000) as u32
}

/// A payload as it stands in the file: its length, its bytes, and their checksum.
pub open spec fn frame(payload: Seq<u8>) -> Seq<u8> {
    spec_u32_to_le_bytes(length_field(payload.len())) + payload + spec_u32_to_le_bytes(
        crc32(payload),
    )
}

/// Several payloads as they stand in the file.
pub open spec fn frames(payloads: Seq<Seq<u8>>) -> Seq<u8>
    decreases payloads.len(),
{
    if payloads.len() == 0 {
        Seq::empty()
    } else {
        frames(payloads.drop_last()) + frame(payloads.last())
    }
}

/// How many bytes several payloads take in the file.
pub open spec fn frames_len(payloads: Seq<Seq<u8>>) -> nat
    decreases payloads.len(),
{
    if payloads.len() == 0 {
        0
    } else {
        frames_len(payloads.drop_last()) + 8 + payloads.last().len()
    }
}

/// The payload at the start of some bytes, if a whole frame with a matching checksum stands there.
pub open spec fn first_payload(bytes: Seq<u8>) -> Option<Seq<u8>> {
    if bytes.len() < 4 {
        None
    } else {
        let len = spec_u32_from_le_bytes(bytes.take(4)) as int;
        if 4 + len + 4 > bytes.len() {
            None
        } else {
            let payload = bytes.subrange(4, 4 + len);
            if spec_u32_from_le_bytes(bytes.subrange(4 + len, 8 + len)) == crc32(payload) {
                Some(payload)
            } else {
                None
            }
        }
    }
}

/// The payloads of the whole frames with matching checksums that some bytes start with.
pub open spec fn intact(bytes: Seq<u8>) -> Seq<Seq<u8>>
    decreases bytes.len(),
{
    match first_payload(bytes) {
        Some(payload) if 8 + payload.len() <= bytes.len() => seq![payload] + intact(
            bytes.skip(8 + payload.len() as int),
        ),
        _ => Seq::empty(),
    }
}

/// What each run of bytes holds.
pub open spec fn byte_views(runs: Seq<Vec<u8>>) -> Seq<Seq<u8>> {
    runs.map_values(|b: Vec<u8>| b@)
}

/// The log's place: the number of the next record, and the offset that the last one recorded.
#[derive(Debug, PartialEq, Eq, Clone, Copy)]
pub struct Wal {
    pub next_seq: u64,
    pub last_byte_offset: u64,
}

/// The records of a log, and how many bytes of it are theirs.
#[derive(Debug, PartialEq)]
pub struct Replay {
    pub records: Vec<WALRecord>,
    pub valid_len: u64,
}

/// How many of some decoded payloads come before the first that could not be decoded.
pub open spec fn decodable<T>(decoded: Seq<Option<T>>) -> nat
    decreases decoded.len(),
{
    if decoded.len() > 0 && decoded[0] is Some {
        1 + decodable(decoded.skip(1))
    } else {
        0
    }
}

impl Wal {
    /// A log that numbers its records from a given number on, or from zero.
    pub fn open(starting_seq: Option<u64>) -> (r: Wal)
        ensures
            r.next_seq == (match starting_seq {
                Some(seq) => seq,
                None => 0,
            }),
            r.last_byte_offset == 0,
    {
        let next_seq: u64 = match starting_seq {
            Some(seq) => seq,
            None => 0,
        };
        Wal { next_seq, last_byte_offset: 0 }
    }

    /// The record that the log appends next.
    pub fn next_record(&self, byte_offset: u64, event: PersistedEvent) -> (r: WALRecord)
        ensures
            r == (WALRecord { seq: self.next_seq, byte_offset, event }),
    {
        WALRecord::new(self.next_seq, byte_offset, event)
    }

    /// The bytes to write for a record that is encoded as `payload`.
    pub fn framed(payload: &Vec<u8>) -> (r: Vec<u8>)
        ensures
            r@ == frame(payload@),
    {
        let len: u32 = (payload.len() as u64 % 0x1_0000_0000) as u32;
        let mut framed = u32_to_le_bytes(len);
        framed.extend_from_slice(payload.as_slice());
        let crc = crc32fast::hash(payload.as_slice());
        framed.extend_from_slice(u32_to_le_bytes(crc).as_slice());
        assert(framed@ =~= frame(payload@));
        framed
    }

    /// Takes note of how writing the record that was next has ended: once it is written the log's
    /// place moves on, and where writing failed it stays.
    pub fn append<E>(&mut self, byte_offset: u64, written: Result<(), E>) -> (r: Result<(), E>)
        requires
            written is Ok ==> old(self).next_seq < u64::MAX,
        ensures
            r == written,
            r is Ok ==> final(self).next_seq == old(self).next_seq + 1
                && final(self).last_byte_offset == byte_offset,
            r is Err ==> *final(self) == *old(self),
    {
        if written.is_ok() {
            self.next_seq = self.next_seq + 1;
            self.last_byte_offset = byte_offset;
        }
        written
    }

    /// The payloads of the intact records at the start of a log.
    pub fn intact_payloads(log: &Vec<u8>) -> (r: Vec<Vec<u8>>)
        ensures
            byte_views(r@) == intact(log@),
            frames_len(byte_views(r@)) <= usize::MAX,
    {
        let mut payloads: Vec<Vec<u8>> = Vec::new();
        let mut start: usize = 0;
        assert(log@.skip(0) =~= log@);
        assert(byte_views(payloads@) + intact(log@) =~= intact(log@));
        loop
            invariant
                start <= log@.len(),
                byte_views(payloads@) + intact(log@.skip(start as int)) == intact(log@),
            decreases log@.len() - start,
        {
            let ghost rest = log@.skip(start as int);
            let ghost before = byte_views(payloads@);
            let Some(payload) = payload_at(log, start) else {
                proof {
                    assert(before + Seq::<Seq<u8>>::empty() =~= before);
                    law_intact_records_start_the_log(log@);
                }
                return payloads;
            };
            let next = start + 8 + payload.len();
            assert(rest.skip(8 + payload@.len() as int) =~= log@.skip(next as int));
            payloads.push(payload);
            assert(byte_views(payloads@) =~= before.push(payload@));
            assert(before + (seq![payload@] + intact(log@.skip(next as int))) =~= before.push(
                payload@,
            ) + intact(log@.skip(next as int)));
            start = next;
        }
    }

    /// The records of a log, given its intact payloads and what each was decoded to: all before the
    /// first that could not be decoded.
    pub fn replay(payloads: &Vec<Vec<u8>>, decoded: Vec<Option<WALRecord>>) -> (r: Replay)
        requires
            payloads@.len() == decoded@.len(),
            frames_len(byte_views(payloads@)) <= u64::MAX,
        ensures
            r.records@.len() == decodable(decoded@),
            forall|i: int|
                0 <= i < r.records@.len() ==> Some(#[trigger] r.records@[i]) == decoded@[i],
            r.valid_len == frames_len(byte_views(payloads@).take(decodable(decoded@) as int)),
    {
        let ghost views = byte_views(payloads@);
        let mut valid_len: u64 = 0;
        let mut n: usize = 0;
        let mut kept = decoded;
        assert(decoded@.skip(0) =~= decoded@);
        assert(views.take(0) =~= Seq::empty());
        while n < kept.len() && kept[n].is_some()
            invariant
                n <= kept@.len() == payloads@.len(),
                kept@ == decoded@,
                views == byte_views(payloads@),
                frames_len(views) <= u64::MAX,
                decodable(decoded@) == n + decodable(decoded@.skip(n as int)),
                forall|i: int| 0 <= i < n ==> (#[trigger] decoded@[i]) is Some,
                valid_len == frames_len(views.take(n as int)),
            decreases kept@.len() - n,
        {
            proof {
                assert(decoded@.skip(n as int).skip(1) =~= decoded@.skip(n + 1));
                assert(views.take(n + 1).drop_last() =~= views.take(n as int));
                lemma_frames_len_grows(views, n + 1);
            }
            valid_len = valid_len + 8 + payloads[n].len() as u64;
            n += 1;
        }
        kept.truncate(n);
        let mut records: Vec<WALRecord> = Vec::new();
        for outcome in it: kept
            invariant
                it.seq() == kept@,
                kept@ == decoded@.take(n as int),
                n <= decoded@.len(),
                forall|i: int| 0 <= i < n ==> (#[trigger] decoded@[i]) is Some,
                records@.len() == it.index(),
                forall|i: int|
                    0 <= i < records@.len() ==> Some(#[trigger] records@[i]) == decoded@[i],
        {
            assert(outcome == decoded@[it.index()]);
            if let Some(record) = outcome {
                records.push(record);
            }
        }
        Replay { records, valid_len }
    }

    /// What is said of bytes after the last intact record of a log, where there are any.
    pub fn torn_warning(log_len: u64, valid_len: u64) -> (r: Option<String>)
        ensures
            match torn_text(log_len, valid_len) {
                Some(said) => r matches Some(s) && s@ == said,
                None => r is None,
            },
    {
        if log_len > valid_len {
            Some(
                text::concat(
                    "WAL: dropping ",
                    decimal::decimal(log_len - valid_len).as_str(),
                    " bytes of torn or corrupt data after the last intact record",
                ),
            )
        } else {
            None
        }
    }
}

/// What is said of bytes after the last intact record of a log.
pub open spec fn torn_text(log_len: u64, valid_len: u64) -> Option<Seq<char>> {
    if log_len > valid_len {
        Some(
            "WAL: dropping "@ + decimal::decimal_text((log_len - valid_len) as nat)
                + " bytes of torn or corrupt data after the last intact record"@,
        )
    } else {
        None
    }
}

/// The first of several payloads take no more room than all.
proof fn lemma_frames_len_grows(payloads: Seq<Seq<u8>>, n: int)
    requires
        0 <= n <= payloads.len(),
    ensures
        frames_len(payloads.take(n)) <= frames_len(payloads),
    decreases payloads.len(),
{
    if n == payloads.len() {
        assert(payloads.take(n) =~= payloads);
    } else {
        lemma_frames_len_grows(payloads.drop_last(), n);
        assert(payloads.drop_last().take(n) =~= payloads.take(n));
    }
}

/// Reads four bytes as a number.
fn number_at(log: &Vec<u8>, start: usize) -> (r: u32)
    requires
        start + 4 <= log@.len() <= usize::MAX,
    ensures
        r == spec_u32_from_le_bytes(log@.subrange(start as int, start + 4)),
{
    let field = bytes::between(log, start, start + 4);
    u32_from_le_bytes(field.as_slice())
}

/// The payload that stands at a position of the log, if a whole frame with a matching checksum
/// does.
fn payload_at(log: &Vec<u8>, start: usize) -> (r: Option<Vec<u8>>)
    requires
        start <= log@.len(),
    ensures
        match first_payload(log@.skip(start as int)) {
            Some(payload) => r matches Some(p) && p@ == payload && start + 8 + payload.len()
                <= log@.len(),
            None => r is None,
        },
        log@.len() <= usize::MAX,
{
    let ghost rest = log@.skip(start as int);
    let remaining: usize = log.len() - start;
    if remaining < 4 {
        return None;
    }
    assert(rest.take(4) =~= log@.subrange(start as int, start + 4));
    let len: u32 = number_at(log, start);
    if 8 + len as u64 > remaining as u64 {
        return None;
    }
    let end: usize = start + 4 + len as usize;
    let payload = bytes::between(log, start + 4, end);
    assert(payload@ =~= rest.subrange(4, 4 + len as int));
    assert(rest.subrange(4 + len as int, 8 + len as int) =~= log@.subrange(end as int, end + 4));
    let expected: u32 = number_at(log, end);
    if expected == crc32fast::hash(payload.as_slice()) {
        Some(payload)
    } else {
        None
    }
}

/// Whether each payload is short enough for its length to be recorded.
pub open spec fn recordable(payloads: Seq<Seq<u8>>) -> bool {
    forall|i: int| 0 <= i < payloads.len() ==> (#[trigger] payloads[i]).len() <= u32::MAX
}

/// A frame at the start of some bytes is found.
proof fn lemma_first_frame(payload: Seq<u8>, rest: Seq<u8>)
    requires
        payload.len() <= u32::MAX,
    ensures
        intact(frame(payload) + rest) == seq![payload] + intact(rest),
        frame(payload).len() == 8 + payload.len(),
{
    lemma_auto_spec_u32_to_from_le_bytes();
    let head = spec_u32_to_le_bytes(length_field(payload.len()));
    let sum = spec_u32_to_le_bytes(crc32(payload));
    let log = frame(payload) + rest;
    let len = payload.len() as int;
    assert(log.take(4) =~= head);
    assert(log.subrange(4, 4 + len) =~= payload);
    assert(log.subrange(4 + len, 8 + len) =~= sum);
    assert(log.skip(8 + len) =~= rest);
    assert(first_payload(log) == Some(payload));
}

/// What was appended is read back: frames at the start of a log give their payloads, followed by
/// what stands after them.
pub proof fn law_frames_are_read_back(payloads: Seq<Seq<u8>>, rest: Seq<u8>)
    requires
        recordable(payloads),
    ensures
        intact(frames(payloads) + rest) == payloads + intact(rest),
        frames(payloads).len() == frames_len(payloads),
    decreases payloads.len(),
{
    if payloads.len() == 0 {
        assert(frames(payloads) + rest =~= rest);
        assert(payloads + intact(rest) =~= intact(rest));
    } else {
        let front = payloads.drop_last();
        let last = payloads.last();
        assert(recordable(front)) by {
            assert forall|i: int| 0 <= i < front.len() implies (#[trigger] front[i]).len()
                <= u32::MAX by {
                assert(payloads[i].len() <= u32::MAX);
            }
        }
        law_frames_are_read_back(front, frame(last) + rest);
        lemma_first_frame(last, rest);
        assert(frames(payloads) + rest =~= frames(front) + (frame(last) + rest));
        assert(front + (seq![last] + intact(rest)) =~= payloads + intact(rest));
    }
}

/// A frame that is cut off is not read.
proof fn lemma_cut_frame(payload: Seq<u8>, n: int)
    requires
        payload.len() <= u32::MAX,
        0 <= n < 8 + payload.len(),
    ensures
        intact(frame(payload).take(n)) == Seq::<Seq<u8>>::empty(),
{
    lemma_auto_spec_u32_to_from_le_bytes();
    let cut = frame(payload).take(n);
    if n >= 4 {
        assert(cut.take(4) =~= spec_u32_to_le_bytes(length_field(payload.len())));
    }
    assert(first_payload(cut) is None);
}

/// A log whose last frame is cut off gives the payloads before it.
pub proof fn law_torn_tails_are_dropped(payloads: Seq<Seq<u8>>, torn: Seq<u8>, n: int)
    requires
        recordable(payloads),
        torn.len() <= u32::MAX,
        0 <= n < 8 + torn.len(),
    ensures
        intact(frames(payloads) + frame(torn).take(n)) == payloads,
{
    law_frames_are_read_back(payloads, frame(torn).take(n));
    lemma_cut_frame(torn, n);
    assert(payloads + Seq::<Seq<u8>>::empty() =~= payloads);
}

/// What is read of a log is what stands at its start.
pub proof fn law_intact_records_start_the_log(log: Seq<u8>)
    ensures
        recordable(intact(log)),
        frames_len(intact(log)) <= log.len(),
        log.take(frames_len(intact(log)) as int) == frames(intact(log)),
    decreases log.len(),
{
    match first_payload(log) {
        Some(payload) if 8 + payload.len() <= log.len() => {
            let rest = log.skip(8 + payload.len() as int);
            law_intact_records_start_the_log(rest);
            let later = intact(rest);
            let all = seq![payload] + later;
            lemma_frames_of_concat(seq![payload], later);
            assert(recordable(all)) by {
                assert forall|i: int| 0 <= i < all.len() implies (#[trigger] all[i]).len()
                    <= u32::MAX by {
                    if i > 0 {
                        assert(later[i - 1].len() <= u32::MAX);
                    }
                }
            }
            lemma_auto_spec_u32_to_from_le_bytes();
            let len = payload.len() as int;
            assert(log.take(8 + len) =~= log.take(4) + log.subrange(4, 4 + len) + log.subrange(
                4 + len,
                8 + len,
            ));
            assert(log.take(4) =~= spec_u32_to_le_bytes(length_field(payload.len())));
            assert(log.take(8 + len) =~= frame(payload));
            assert(frames(seq![payload]) =~= frame(payload)) by {
                assert(seq![payload].drop_last() =~= Seq::empty());
                assert(frames(Seq::empty()) =~= Seq::empty());
            }
            assert(frames_len(seq![payload]) == 8 + len) by {
                assert(seq![payload].drop_last() =~= Seq::empty());
                assert(frames_len(Seq::empty()) == 0);
            }
            assert(log.take(frames_len(all) as int) =~= log.take(8 + len) + rest.take(
                frames_len(later) as int,
            ));
        },
        _ => {
            assert(log.take(0) =~= frames(Seq::empty()));
        },
    }
}

/// Frames of payloads one after another.
proof fn lemma_frames_of_concat(a: Seq<Seq<u8>>, b: Seq<Seq<u8>>)
    ensures
        frames(a + b) == frames(a) + frames(b),
        frames_len(a + b) == frames_len(a) + frames_len(b),
    decreases b.len(),
{
    if b.len() == 0 {
        assert(a + b =~= a);
        assert(frames(a) + frames(b) =~= frames(a));
    } else {
        lemma_frames_of_concat(a, b.drop_last());
        assert((a + b).drop_last() =~= a + b.drop_last());
        assert(frames(a) + frames(b.drop_last()) + frame(b.last()) =~= frames(a) + frames(b));
    }
}

/// A log that is cut back to some of its intact records stays readable: it gives just those, and
/// what is appended afterwards comes after them.
pub proof fn law_appends_after_recovery_survive(log: Seq<u8>, kept: int, more: Seq<Seq<u8>>)
    requires
        0 <= kept <= intact(log).len(),
        recordable(more),
    ensures
        ({
            let records = intact(log).take(kept);
            let healed = log.take(frames_len(records) as int);
            &&& intact(healed) == records
            &&& intact(healed + frames(more)) == records + more
        }),
{
    let all = intact(log);
    let records = all.take(kept);
    let healed = log.take(frames_len(records) as int);
    law_intact_records_start_the_log(log);
    lemma_frames_of_concat(records, all.skip(kept));
    assert(records + all.skip(kept) =~= all);
    assert(recordable(records)) by {
        assert forall|i: int| 0 <= i < records.len() implies (#[trigger] records[i]).len()
            <= u32::MAX by {
            assert(all[i].len() <= u32::MAX);
        }
    }
    law_frames_are_read_back(records, Seq::empty());
    assert(healed =~= frames(records)) by {
        assert(frames(all).take(frames_len(records) as int) =~= frames(records));
        assert(log.take(frames_len(all) as int).take(frames_len(records) as int) =~= healed);
    }
    assert(intact(Seq::empty()) =~= Seq::empty());
    assert(frames(records) + Seq::<u8>::empty() =~= healed);
    assert(records + Seq::<Seq<u8>>::empty() =~= records);
    law_frames_are_read_back(more, Seq::empty());
    assert(frames(more) + Seq::<u8>::empty() =~= frames(more));
    assert(more + Seq::<Seq<u8>>::empty() =~= more);
    law_frames_are_read_back(records, frames(more));
}

/// What each intact payload of a log is decoded to.
pub open spec fn decoded_payloads(
    log: Seq<u8>,
    decode: spec_fn(Seq<u8>) -> Option<RecordView>,
) -> Seq<Option<RecordView>> {
    intact(log).map_values(decode)
}

/// The records of a log: what its intact payloads are decoded to, before the first that cannot be.
pub open spec fn records_in(
    log: Seq<u8>,
    decode: spec_fn(Seq<u8>) -> Option<RecordView>,
) -> Seq<RecordView> {
    let decoded = decoded_payloads(log, decode);
    Seq::new(decodable(decoded), |i: int| decoded[i]->0)
}

/// How many bytes of a log are those of its records.
pub open spec fn records_len(
    log: Seq<u8>,
    decode: spec_fn(Seq<u8>) -> Option<RecordView>,
) -> nat {
    frames_len(intact(log).take(decodable(decoded_payloads(log, decode)) as int))
}

/// The records of events that are appended one after another, each with the offset right after its
/// line.
pub open spec fn numbered(first_seq: int, events: Seq<(PersistedView, int)>) -> Seq<RecordView> {
    Seq::new(
        events.len(),
        |i: int|
            RecordView { seq: first_seq + i, byte_offset: events[i].1, event: events[i].0 },
    )
}

/// What comes before the first that could not be decoded was decoded.
proof fn lemma_decodable_were_decoded<T>(decoded: Seq<Option<T>>)
    ensures
        decodable(decoded) <= decoded.len(),
        forall|i: int| 0 <= i < decodable(decoded) ==> (#[trigger] decoded[i]) is Some,
    decreases decoded.len(),
{
    if decoded.len() > 0 && decoded[0] is Some {
        let rest = decoded.skip(1);
        lemma_decodable_were_decoded(rest);
        assert forall|i: int| 0 <= i < decodable(decoded) implies (#[trigger] decoded[i]) is Some by {
            if i > 0 {
                assert(rest[i - 1] is Some);
            }
        }
    }
}

/// Where all could be decoded, all come before the first that could not.
proof fn lemma_all_decodable<T>(decoded: Seq<Option<T>>)
    requires
        forall|i: int| 0 <= i < decoded.len() ==> (#[trigger] decoded[i]) is Some,
    ensures
        decodable(decoded) == decoded.len(),
    decreases decoded.len(),
{
    if decoded.len() > 0 {
        let rest = decoded.skip(1);
        assert forall|i: int| 0 <= i < rest.len() implies (#[trigger] rest[i]) is Some by {
            assert(decoded[i + 1] is Some);
        }
        assert(decoded[0] is Some);
        lemma_all_decodable(rest);
    }
}

/// Replaying gives back what was appended: a log that was cut back to its records, whatever stood
/// after them, gives those records, and then the records of what was appended since, numbered on
/// from `first_seq`. This holds of every encoding that gives back the records that are appended.
pub proof fn law_appended_records_are_replayed(
    log: Seq<u8>,
    encode: spec_fn(RecordView) -> Seq<u8>,
    decode: spec_fn(Seq<u8>) -> Option<RecordView>,
    first_seq: int,
    events: Seq<(PersistedView, int)>,
)
    requires
        recordable(numbered(first_seq, events).map_values(encode)),
        forall|i: int|
            0 <= i < events.len() ==> decode(encode(#[trigger] numbered(first_seq, events)[i]))
                == Some(numbered(first_seq, events)[i]),
    ensures
        ({
            let healed = log.take(records_len(log, decode) as int);
            let more = numbered(first_seq, events);
            &&& records_in(healed, decode) == records_in(log, decode)
            &&& records_in(healed + frames(more.map_values(encode)), decode) == records_in(
                log,
                decode,
            ) + more
        }),
{
    let decoded = decoded_payloads(log, decode);
    let kept = decodable(decoded) as int;
    let healed = log.take(records_len(log, decode) as int);
    let more = numbered(first_seq, events);
    let payloads = more.map_values(encode);
    let old_records = records_in(log, decode);
    lemma_decodable_were_decoded(decoded);
    law_appends_after_recovery_survive(log, kept, payloads);
    let first = intact(log).take(kept).map_values(decode);
    assert(first =~= decoded.take(kept));
    assert forall|i: int| 0 <= i < first.len() implies (#[trigger] first[i]) is Some by {
        assert(decoded[i] is Some);
    }
    lemma_all_decodable(first);
    assert(records_in(healed, decode) =~= old_records);
    let all = (intact(log).take(kept) + payloads).map_values(decode);
    assert forall|i: int| 0 <= i < all.len() implies (#[trigger] all[i]) is Some by {
        if i < kept {
            assert(all[i] == first[i]);
        } else {
            assert(payloads[i - kept] == encode(more[i - kept]));
        }
    }
    lemma_all_decodable(all);
    assert(records_in(healed + frames(payloads), decode) =~= old_records + more) by {
        assert forall|i: int| 0 <= i < all.len() implies #[trigger] records_in(
            healed + frames(payloads),
            decode,
        )[i] == (old_records + more)[i] by {
            if i >= kept {
                assert(payloads[i - kept] == encode(more[i - kept]));
            } else {
                assert(all[i] == first[i]);
            }
        }
    }
}

/// What an optional record holds.
pub open spec fn optional_record(record: Option<WALRecord>) -> Option<RecordView> {
    match record {
        Some(record) => Some(record@),
        None => None,
    }
}

/// What has been decoded of the same payloads ends at the same one.
proof fn lemma_decodable_agree<A, B>(a: Seq<Option<A>>, b: Seq<Option<B>>)
    requires
        a.len() == b.len(),
        forall|i: int| 0 <= i < a.len() ==> ((#[trigger] a[i]) is Some <==> b[i] is Some),
    ensures
        decodable(a) == decodable(b),
    decreases a.len(),
{
    if a.len() > 0 {
        assert(a[0] is Some <==> b[0] is Some);
        let x = a.skip(1);
        let y = b.skip(1);
        assert forall|i: int| 0 <= i < x.len() implies ((#[trigger] x[i]) is Some <==> y[i] is Some) by {
            assert(a[i + 1] is Some <==> b[i + 1] is Some);
        }
        lemma_decodable_agree(x, y);
    }
}

/// Replaying a log, with its intact payloads decoded, gives the records in it and their length.
pub proof fn law_replay_gives_the_records(
    log: Seq<u8>,
    decode: spec_fn(Seq<u8>) -> Option<RecordView>,
    decoded: Seq<Option<WALRecord>>,
    records: Seq<WALRecord>,
)
    requires
        decoded.len() == intact(log).len(),
        forall|i: int|
            0 <= i < decoded.len() ==> optional_record(#[trigger] decoded[i]) == decode(
                intact(log)[i],
            ),
        records.len() == decodable(decoded),
        forall|i: int| 0 <= i < records.len() ==> Some(#[trigger] records[i]) == decoded[i],
    ensures
        record_views(records) == records_in(log, decode),
        frames_len(intact(log).take(decodable(decoded) as int)) == records_len(log, decode),
{
    let views = decoded_payloads(log, decode);
    assert forall|i: int| 0 <= i < decoded.len() implies ((#[trigger] decoded[i]) is Some
        <==> views[i] is Some) by {
        assert(optional_record(decoded[i]) == views[i]);
    }
    lemma_decodable_agree(decoded, views);
    lemma_decodable_were_decoded(decoded);
    assert forall|i: int| 0 <= i < records.len() implies #[trigger] record_views(records)[i]
        == records_in(log, decode)[i] by {
        assert(Some(records[i]) == decoded[i]);
        assert(optional_record(decoded[i]) == views[i]);
    }
    assert(record_views(records) =~= records_in(log, decode));
}

} // verus!
