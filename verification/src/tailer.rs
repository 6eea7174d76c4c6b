//! Turning the bytes of a log file into events.

use crate::bytes;
use crate::decimal;
use crate::event;
use crate::event::{Event, EventView, Fields};
use crate::index;
use crate::index::Index;
use crate::json;
use crate::json::{Json, JsonView};
use crate::text;
use crate::time;
use crate::time::{Instant, Timestamp};
use crate::value;
use crate::value::{Value, ValueView};
use crate::wal;
use crate::wal::Wal;
use vstd::prelude::*;
use vstd::utf8::{decode_utf8, valid_utf8};

verus! {

/// How many characters of a malformed line a message shows.
pub const PREVIEW_CHARS: usize = 80;

/// Where reading goes on after a look at a file's length and inode, if the file is there: at its
/// start if it has shrunk below the offset or is another file, else where it was.
pub open spec fn after_rotation(
    metadata: Option<(u64, u64)>,
    byte_offset: u64,
    last_inode: Option<u64>,
) -> (u64, Option<u64>) {
    match metadata {
        None => (byte_offset, last_inode),
        Some((len, inode)) => if len < byte_offset || last_inode != Some(inode) {
            (0, Some(inode))
        } else {
            (byte_offset, last_inode)
        },
    }
}

/// Decides where to read on, from the file's length and inode.
pub fn check_rotation(
    metadata: Option<(u64, u64)>,
    byte_offset: u64,
    last_inode: Option<u64>,
) -> (r: (u64, Option<u64>))
    ensures
        r == after_rotation(metadata, byte_offset, last_inode),
{
    match metadata {
        None => (byte_offset, last_inode),
        Some((len, inode)) => {
            let same_file = match last_inode {
                Some(last) => last == inode,
                None => false,
            };
            if len < byte_offset || !same_file {
                (0, Some(inode))
            } else {
                (byte_offset, last_inode)
            }
        },
    }
}

/// The fields of a log line: its scalar members, but for the one that holds the time.
pub open spec fn fields_of(
    members: Seq<(Seq<char>, JsonView)>,
    time_field: Option<Seq<char>>,
) -> Map<Seq<char>, ValueView>
    decreases members.len(),
{
    if members.len() == 0 {
        Map::empty()
    } else {
        let before = fields_of(members.drop_last(), time_field);
        let (name, json) = members.last();
        match value::value_of_json(json) {
            Some(value) if time_field != Some(name) => before.insert(name, value),
            _ => before,
        }
    }
}

/// The time of a log line: what the member that holds it names, if that is an RFC 3339 string.
pub open spec fn time_of(
    members: Seq<(Seq<char>, JsonView)>,
    time_field: Option<Seq<char>>,
) -> Option<Instant>
    decreases members.len(),
{
    if members.len() == 0 {
        None
    } else {
        let (name, json) = members.last();
        match json {
            JsonView::String(s) if time_field == Some(name) => time::rfc3339_instant(s),
            _ => time_of(members.drop_last(), time_field),
        }
    }
}

/// The event of a log line with these members; one without fields where the line is no object.
pub open spec fn event_with(
    line: Seq<char>,
    members: Option<Seq<(Seq<char>, JsonView)>>,
    time_field: Option<Seq<char>>,
) -> EventView {
    match members {
        Some(members) => EventView {
            timestamp: time_of(members, time_field),
            raw: line,
            fields: fields_of(members, time_field),
        },
        None => EventView { timestamp: None, raw: line, fields: Map::empty() },
    }
}

/// The event of a log line, or why the line is not JSON.
pub open spec fn line_event(line: Seq<char>, time_field: Option<Seq<char>>) -> Result<
    EventView,
    Seq<char>,
> {
    match json::json_members(line) {
        Ok(members) => Ok(event_with(line, members, time_field)),
        Err(message) => Err(message),
    }
}

/// What an optional name reads.
pub open spec fn name_view(name: Option<&str>) -> Option<Seq<char>> {
    match name {
        Some(name) => Some(name@),
        None => None,
    }
}

/// What optional members hold.
pub open spec fn optional_members(members: Option<Vec<(String, Json)>>) -> Option<
    Seq<(Seq<char>, JsonView)>,
> {
    match members {
        Some(members) => Some(json::member_views(members@)),
        None => None,
    }
}

/// Makes an event of a log line and its members.
pub fn event_from_members(
    line: String,
    members: Option<Vec<(String, Json)>>,
    time_field: Option<&str>,
) -> (r: Event)
    ensures
        r@ == event_with(line@, optional_members(members), name_view(time_field)),
{
    let mut timestamp: Option<Timestamp> = None;
    let mut fields = Fields::new();
    let Some(members) = members else {
        return Event::new(None, line, fields);
    };
    let ghost views = json::member_views(members@);
    let ghost time_name = name_view(time_field);
    for member in it: members
        invariant
            it.seq() == members@,
            views == json::member_views(members@),
            time_name == name_view(time_field),
            fields@ == fields_of(views.take(it.index()), time_name),
            event::instant(timestamp) == time_of(views.take(it.index()), time_name),
    {
        let (name, json) = member;
        assert(views[it.index()] == (name@, json@));
        assert(views.take(it.index() + 1).drop_last() =~= views.take(it.index()));
        assert(views.take(it.index() + 1).last() == views[it.index()]);
        let holds_time = match time_field {
            Some(field) => text::same(field, name.as_str()),
            None => false,
        };
        if holds_time {
            if let Json::String(s) = &json {
                timestamp = time::parse_rfc3339(s.as_str());
            }
        } else if let Some(value) = Value::from_json(json) {
            fields.insert(name, value);
        }
    }
    assert(views.take(views.len() as int) =~= views);
    Event::new(timestamp, line, fields)
}

/// Makes an event of a log line.
pub fn event_from_line(line: String, time_field: Option<&str>) -> (r: Result<
    Event,
    (String, String),
>)
    ensures
        match line_event(line@, name_view(time_field)) {
            Ok(event) => r matches Ok(e) && e@ == event,
            Err(message) => r matches Err((l, m)) && l@ == line@ && m@ == message,
        },
{
    match json::parse_json(line.as_str()) {
        Ok(members) => Ok(event_from_members(line, members, time_field)),
        Err(message) => Err((line, message)),
    }
}

/// The byte that ends a line.
pub const NEWLINE: u8 = 10;

/// The byte that may stand before the one that ends a line.
pub const CARRIAGE_RETURN: u8 = 13;

/// A line without the carriage return that it may end in.
pub open spec fn without_return(line: Seq<u8>) -> Seq<u8> {
    if line.len() > 0 && line.last() == CARRIAGE_RETURN {
        line.drop_last()
    } else {
        line
    }
}

/// The first characters of a text.
pub open spec fn preview(text: Seq<char>) -> Seq<char> {
    if text.len() > PREVIEW_CHARS {
        text.take(PREVIEW_CHARS as int)
    } else {
        text
    }
}

/// What is said of a line that is not JSON.
pub open spec fn malformed(number: nat, line: Seq<char>, message: Seq<char>) -> Seq<char> {
    "line "@ + decimal::decimal_text(number) + " is not valid JSON: "@ + message + "\n  "@
        + preview(line)
}

/// The event of the bytes of a line, or what is said of it where it has none.
pub open spec fn line_outcome(
    line: Seq<u8>,
    number: nat,
    time_field: Option<Seq<char>>,
) -> Result<EventView, Seq<char>> {
    let content = without_return(line);
    if !valid_utf8(content) {
        Err(malformed(number, text::lossy_text(content), "stream did not contain valid UTF-8"@))
    } else {
        match line_event(decode_utf8(content), time_field) {
            Ok(event) => Ok(event),
            Err(message) => Err(malformed(number, decode_utf8(content), message)),
        }
    }
}

/// What came of reading a file on.
pub struct BatchView {
    /// Each event, with the offset right after its line.
    pub events: Seq<(EventView, int)>,
    /// What is said of each line that was passed over.
    pub warnings: Seq<Seq<char>>,
    /// The offset right after the last line that was read.
    pub byte_offset: int,
    /// What is said of the line that ended the reading.
    pub error: Option<Seq<char>>,
}

/// A batch with more events and warnings before its own.
pub open spec fn preceded(
    events: Seq<(EventView, int)>,
    warnings: Seq<Seq<char>>,
    batch: BatchView,
) -> BatchView {
    BatchView {
        events: events + batch.events,
        warnings: warnings + batch.warnings,
        byte_offset: batch.byte_offset,
        error: batch.error,
    }
}

/// What reading a file on from an offset comes to, given the bytes from there on.
///
/// Only lines that have ended are read. A line that is malformed ends the reading if that is
/// strict, else it is passed over.
pub open spec fn batch(
    bytes: Seq<u8>,
    byte_offset: int,
    number: nat,
    time_field: Option<Seq<char>>,
    strict: bool,
) -> BatchView
    decreases bytes.len(),
{
    match bytes.index_of_first(NEWLINE) {
        Some(i) if 0 <= i < bytes.len() => {
            let end = byte_offset + i + 1;
            match line_outcome(bytes.take(i), number, time_field) {
                Ok(event) => preceded(
                    seq![(event, end)],
                    Seq::empty(),
                    batch(bytes.skip(i + 1), end, number + 1, time_field, strict),
                ),
                Err(message) => if strict {
                    BatchView {
                        events: Seq::empty(),
                        warnings: Seq::empty(),
                        byte_offset,
                        error: Some(message),
                    }
                } else {
                    preceded(
                        Seq::empty(),
                        seq![message],
                        batch(bytes.skip(i + 1), end, number + 1, time_field, strict),
                    )
                },
            }
        },
        _ => BatchView {
            events: Seq::empty(),
            warnings: Seq::empty(),
            byte_offset,
            error: None,
        },
    }
}

/// What came of reading a file on.
#[derive(Debug)]
pub struct Batch {
    /// Each event, with the offset right after its line.
    pub events: Vec<(Event, u64)>,
    /// What is said of each line that was passed over.
    pub warnings: Vec<String>,
    /// The offset right after the last line that was read.
    pub byte_offset: u64,
    /// What is said of the line that ended the reading.
    pub error: Option<String>,
}

/// What each event of a batch holds.
pub open spec fn batch_events(events: Seq<(Event, u64)>) -> Seq<(EventView, int)> {
    events.map_values(|e: (Event, u64)| (e.0@, e.1 as int))
}

/// What each text reads.
pub open spec fn texts(strings: Seq<String>) -> Seq<Seq<char>> {
    strings.map_values(|s: String| s@)
}

impl View for Batch {
    type V = BatchView;

    open spec fn view(&self) -> BatchView {
        BatchView {
            events: batch_events(self.events@),
            warnings: texts(self.warnings@),
            byte_offset: self.byte_offset as int,
            error: match self.error {
                Some(message) => Some(message@),
                None => None,
            },
        }
    }
}

/// What is said of a line that is not JSON.
fn malformed_message(number: u64, line: &str, message: &str) -> (r: String)
    ensures
        r@ == malformed(number as nat, line@, message@),
{
    let mut said = text::concat("line ", decimal::decimal(number).as_str(), " is not valid JSON: ");
    said.append(message);
    said.append("\n  ");
    let mut chars = text::chars_of(line);
    if chars.len() > PREVIEW_CHARS {
        chars.truncate(PREVIEW_CHARS);
    }
    assert(chars@ =~= preview(line@));
    said.append(text::string_of(&chars).as_str());
    said
}

/// Makes an event of the bytes of a line.
fn read_line(line: Vec<u8>, number: u64, time_field: Option<&str>) -> (r: Result<Event, String>)
    ensures
        match line_outcome(line@, number as nat, name_view(time_field)) {
            Ok(event) => r matches Ok(e) && e@ == event,
            Err(message) => r matches Err(m) && m@ == message,
        },
{
    let mut content = line;
    if content.len() > 0 && content[content.len() - 1] == CARRIAGE_RETURN {
        content.truncate(content.len() - 1);
    }
    assert(content@ =~= without_return(line@));
    let Some(text) = text::from_utf8(&content) else {
        let shown = text::from_utf8_lossy(&content);
        return Err(
            malformed_message(number, shown.as_str(), "stream did not contain valid UTF-8"),
        );
    };
    match event_from_line(text, time_field) {
        Ok(event) => Ok(event),
        Err((line, message)) => Err(malformed_message(number, line.as_str(), message.as_str())),
    }
}

/// Looks for the end of the line that starts at a position.
fn line_end(bytes: &Vec<u8>, start: usize) -> (r: Option<usize>)
    requires
        start <= bytes@.len(),
    ensures
        match bytes@.skip(start as int).index_of_first(NEWLINE) {
            Some(i) => r matches Some(end) && end == start + i && start <= end < bytes@.len(),
            None => r is None,
        },
        bytes@.len() <= usize::MAX,
{
    let ghost rest = bytes@.skip(start as int);
    proof {
        rest.index_of_first_ensures(NEWLINE);
    }
    let mut i: usize = start;
    while i < bytes.len()
        invariant
            start <= i <= bytes@.len(),
            rest == bytes@.skip(start as int),
            forall|j: int| 0 <= j < i - start ==> rest[j] != NEWLINE,
            match rest.index_of_first(NEWLINE) {
                Some(index) => 0 <= index < rest.len() && rest[index] == NEWLINE && forall|j: int|
                    0 <= j < index ==> rest[j] != NEWLINE,
                None => !rest.contains(NEWLINE),
            },
        decreases bytes@.len() - i,
    {
        assert(rest[i - start] == bytes@[i as int]);
        if bytes[i] == NEWLINE {
            assert(rest.contains(NEWLINE));
            return Some(i);
        }
        i += 1;
    }
    None
}

/// What reading a file on from an offset gives: nothing where the file could not be opened.
pub open spec fn file_batch(
    bytes: Option<Seq<u8>>,
    byte_offset: int,
    time_field: Option<Seq<char>>,
    strict: bool,
) -> BatchView {
    match bytes {
        Some(bytes) => batch(bytes, byte_offset, 1, time_field, strict),
        None => BatchView {
            events: Seq::empty(),
            warnings: Seq::empty(),
            byte_offset,
            error: None,
        },
    }
}

/// Reads a file on from an offset, given the bytes from there on if it could be opened.
///
/// Only lines that have ended are read. A line that is malformed ends the reading if that is
/// strict, else it is passed over.
pub fn read_file(
    bytes: Option<&Vec<u8>>,
    byte_offset: u64,
    time_field: Option<&str>,
    strict: bool,
) -> (r: Batch)
    requires
        bytes matches Some(bytes) ==> byte_offset + bytes@.len() < u64::MAX,
    ensures
        r@ == file_batch(
            match bytes {
                Some(bytes) => Some(bytes@),
                None => None,
            },
            byte_offset as int,
            name_view(time_field),
            strict,
        ),
{
    match bytes {
        Some(bytes) => read_bytes(bytes, byte_offset, time_field, strict),
        None => {
            let r = Batch { events: vec![], warnings: vec![], byte_offset, error: None };
            assert(r@.events =~= Seq::empty());
            assert(r@.warnings =~= Seq::empty());
            r
        },
    }
}

/// Reads the lines of some bytes that start at an offset.
fn read_bytes(bytes: &Vec<u8>, byte_offset: u64, time_field: Option<&str>, strict: bool) -> (r:
    Batch)
    requires
        byte_offset + bytes@.len() < u64::MAX,
    ensures
        r@ == batch(bytes@, byte_offset as int, 1, name_view(time_field), strict),
{
    let ghost name = name_view(time_field);
    let ghost whole = batch(bytes@, byte_offset as int, 1, name, strict);
    let mut events: Vec<(Event, u64)> = Vec::new();
    let mut warnings: Vec<String> = Vec::new();
    let mut start: usize = 0;
    let mut number: u64 = 1;
    assert(bytes@.skip(0) =~= bytes@);
    assert(preceded(Seq::empty(), Seq::empty(), whole) =~= whole) by {
        assert(Seq::empty() + whole.events =~= whole.events);
        assert(Seq::empty() + whole.warnings =~= whole.warnings);
    }
    assert(batch_events(events@) =~= Seq::empty());
    assert(texts(warnings@) =~= Seq::empty());
    loop
        invariant
            byte_offset + bytes@.len() < u64::MAX,
            start <= bytes@.len(),
            1 <= number <= start + 1,
            name == name_view(time_field),
            whole == batch(bytes@, byte_offset as int, 1, name, strict),
            whole == preceded(
                batch_events(events@),
                texts(warnings@),
                batch(bytes@.skip(start as int), byte_offset + start, number as nat, name, strict),
            ),
        decreases bytes@.len() - start,
    {
        let Some(end) = line_end(bytes, start) else {
            assert(batch_events(events@) + Seq::<(EventView, int)>::empty() =~= batch_events(
                events@,
            ));
            assert(texts(warnings@) + Seq::<Seq<char>>::empty() =~= texts(warnings@));
            return Batch { events, warnings, byte_offset: byte_offset + start as u64, error: None };
        };
        let ghost rest = bytes@.skip(start as int);
        let ghost earlier = batch_events(events@);
        let ghost said = texts(warnings@);
        let line = bytes::between(bytes, start, end);
        assert(line@ =~= rest.take(end - start));
        assert(rest.skip(end - start + 1) =~= bytes@.skip(end + 1));
        let after: u64 = byte_offset + end as u64 + 1;
        let ghost tail = batch(bytes@.skip(end + 1), after as int, number as nat + 1, name, strict);
        match read_line(line, number, time_field) {
            Ok(event) => {
                events.push((event, after));
                assert(batch_events(events@) =~= earlier.push((event@, after as int)));
                assert(earlier + (seq![(event@, after as int)] + tail.events) =~= earlier.push(
                    (event@, after as int),
                ) + tail.events);
                assert(said + (Seq::<Seq<char>>::empty() + tail.warnings) =~= said
                    + tail.warnings);
            },
            Err(message) => {
                if strict {
                    assert(earlier + Seq::<(EventView, int)>::empty() =~= earlier);
                    assert(said + Seq::<Seq<char>>::empty() =~= said);
                    return Batch {
                        events,
                        warnings,
                        byte_offset: byte_offset + start as u64,
                        error: Some(message),
                    };
                }
                warnings.push(message);
                assert(texts(warnings@) =~= said.push(message@));
                assert(said + (seq![message@] + tail.warnings) =~= said.push(message@)
                    + tail.warnings);
                assert(earlier + (Seq::<(EventView, int)>::empty() + tail.events) =~= earlier
                    + tail.events);
            },
        }
        start = end + 1;
        number += 1;
    }
}

/// Takes up an event once its record is written, by how that has ended: moves the log's place on and
/// appends the event to the index. Where writing failed both stay as they were.
pub fn ingest<E>(
    index: &mut Index,
    wal: &mut Wal,
    event: Event,
    byte_offset: u64,
    written: Result<(), E>,
) -> (r: Result<(), E>)
    requires
        old(index).wf(),
        written is Ok ==> old(wal).next_seq < u64::MAX,
    ensures
        r == written,
        final(index).wf(),
        final(index).capacity() == old(index).capacity(),
        r is Ok ==> {
            &&& final(index).view() == index::pushed(
                old(index).view(),
                seq![event@],
                old(index).capacity(),
            )
            &&& final(wal).next_seq == old(wal).next_seq + 1
            &&& final(wal).last_byte_offset == byte_offset
        },
        r is Err ==> *final(index) == *old(index) && *final(wal) == *old(wal),
{
    let appended = wal.append(byte_offset, written);
    if appended.is_err() {
        return appended;
    }
    index.push_event(event);
    proof {
        let one = seq![event@];
        assert(one.drop_last() =~= Seq::empty());
        assert(index::pushed(old(index).view(), one.drop_last(), old(index).capacity())
            == old(index).view());
    }
    appended
}

/// A line that ends in a carriage return and a line feed gives what it gives with the line feed
/// alone.
pub proof fn law_carriage_returns_are_dropped(
    line: Seq<u8>,
    number: nat,
    time_field: Option<Seq<char>>,
)
    requires
        line.len() > 0 ==> line.last() != CARRIAGE_RETURN,
    ensures
        line_outcome(line.push(CARRIAGE_RETURN), number, time_field) == line_outcome(
            line,
            number,
            time_field,
        ),
{
    assert(line.push(CARRIAGE_RETURN).drop_last() =~= line);
}

/// After a look at a file that is there, reading goes on within it.
pub proof fn law_offset_lies_in_file(
    len: u64,
    inode: u64,
    byte_offset: u64,
    last_inode: Option<u64>,
)
    ensures
        ({
            let (offset, known) = after_rotation(Some((len, inode)), byte_offset, last_inode);
            &&& offset <= len
            &&& known == Some(inode)
            &&& offset == byte_offset || offset == 0
            &&& last_inode == Some(inode) && byte_offset <= len ==> offset == byte_offset
        }),
{
}

/// Reading that is not ended early takes whole lines, and all of them: the offset moves to right
/// after the last line that has ended.
pub proof fn law_whole_lines_are_read(
    bytes: Seq<u8>,
    byte_offset: int,
    number: nat,
    time_field: Option<Seq<char>>,
    strict: bool,
)
    ensures
        ({
            let read = batch(bytes, byte_offset, number, time_field, strict);
            let n = read.byte_offset - byte_offset;
            &&& !strict ==> read.error is None
            &&& read.error is None ==> {
                &&& 0 <= n <= bytes.len()
                &&& n > 0 ==> bytes[n - 1] == NEWLINE
                &&& forall|i: int| n <= i < bytes.len() ==> bytes[i] != NEWLINE
            }
        }),
    decreases bytes.len(),
{
    bytes.index_of_first_ensures(NEWLINE);
    if let Some(i) = bytes.index_of_first(NEWLINE) {
        let end = byte_offset + i + 1;
        let rest = bytes.skip(i + 1);
        law_whole_lines_are_read(rest, end, number + 1, time_field, strict);
        let read = batch(bytes, byte_offset, number, time_field, strict);
        if read.error is None {
            let n = batch(rest, end, number + 1, time_field, strict).byte_offset - end;
            assert(n > 0 ==> rest[n - 1] == bytes[i + 1 + n - 1]);
            assert forall|j: int| i + 1 + n <= j < bytes.len() implies bytes[j] != NEWLINE by {
                assert(rest[j - i - 1] == bytes[j]);
            }
        }
    }
}

/// The number of a line does not matter to what is read.
proof fn lemma_number_does_not_matter(
    bytes: Seq<u8>,
    byte_offset: int,
    a: nat,
    b: nat,
    time_field: Option<Seq<char>>,
)
    ensures
        batch(bytes, byte_offset, a, time_field, false).events == batch(
            bytes,
            byte_offset,
            b,
            time_field,
            false,
        ).events,
        batch(bytes, byte_offset, a, time_field, false).byte_offset == batch(
            bytes,
            byte_offset,
            b,
            time_field,
            false,
        ).byte_offset,
    decreases bytes.len(),
{
    bytes.index_of_first_ensures(NEWLINE);
    if let Some(i) = bytes.index_of_first(NEWLINE) {
        lemma_number_does_not_matter(
            bytes.skip(i + 1),
            byte_offset + i + 1,
            a + 1,
            b + 1,
            time_field,
        );
    }
}

/// A position that is the first of its kind is found.
pub proof fn lemma_first_newline(bytes: Seq<u8>, i: int)
    requires
        0 <= i < bytes.len(),
        bytes[i] == NEWLINE,
        forall|j: int| 0 <= j < i ==> bytes[j] != NEWLINE,
    ensures
        bytes.index_of_first(NEWLINE) == Some(i),
{
    bytes.index_of_first_ensures(NEWLINE);
    assert(bytes.contains(NEWLINE));
}

/// A line is never read in part: polling while some of the bytes are there, and again from where
/// that left off once all are, gives the same events and the same offset as reading all at once.
pub proof fn law_polls_add_up(
    bytes: Seq<u8>,
    k: int,
    byte_offset: int,
    first_number: nat,
    second_number: nat,
    number: nat,
    time_field: Option<Seq<char>>,
)
    requires
        0 <= k <= bytes.len(),
    ensures
        ({
            let first = batch(bytes.take(k), byte_offset, first_number, time_field, false);
            let second = batch(
                bytes.skip(first.byte_offset - byte_offset),
                first.byte_offset,
                second_number,
                time_field,
                false,
            );
            let whole = batch(bytes, byte_offset, number, time_field, false);
            &&& whole.events == first.events + second.events
            &&& whole.byte_offset == second.byte_offset
        }),
    decreases bytes.len(),
{
    let part = bytes.take(k);
    bytes.index_of_first_ensures(NEWLINE);
    part.index_of_first_ensures(NEWLINE);
    let first = batch(part, byte_offset, first_number, time_field, false);
    let whole = batch(bytes, byte_offset, number, time_field, false);
    match bytes.index_of_first(NEWLINE) {
        Some(i) if i < k => {
            assert(part[i] == NEWLINE);
            lemma_first_newline(part, i);
            assert(part.take(i) =~= bytes.take(i));
            assert(part.skip(i + 1) =~= bytes.skip(i + 1).take(k - i - 1));
            let rest = bytes.skip(i + 1);
            let end = byte_offset + i + 1;
            law_polls_add_up(
                rest,
                k - i - 1,
                end,
                first_number + 1,
                second_number,
                number + 1,
                time_field,
            );
            let later = batch(rest.take(k - i - 1), end, first_number + 1, time_field, false);
            law_whole_lines_are_read(
                rest.take(k - i - 1),
                end,
                first_number + 1,
                time_field,
                false,
            );
            assert(rest.skip(later.byte_offset - end) =~= bytes.skip(
                first.byte_offset - byte_offset,
            ));
            let second = batch(
                bytes.skip(first.byte_offset - byte_offset),
                first.byte_offset,
                second_number,
                time_field,
                false,
            );
            let head = match line_outcome(bytes.take(i), number, time_field) {
                Ok(event) => seq![(event, end)],
                Err(_) => Seq::empty(),
            };
            assert(head + (later.events + second.events) =~= head + later.events + second.events);
        },
        _ => {
            assert(part.index_of_first(NEWLINE) is None) by {
                if let Some(j) = part.index_of_first(NEWLINE) {
                    assert(bytes[j] == NEWLINE);
                    assert(bytes.contains(NEWLINE));
                }
            }
            assert(bytes.skip(0) =~= bytes);
            lemma_number_does_not_matter(
                bytes,
                byte_offset,
                second_number,
                number,
                time_field,
            );
            assert(first.events + whole.events =~= whole.events);
        },
    }
}

/// Reading on from right after an event gives the events after it: what has not been taken up by
/// then is read again, and nothing else.
pub proof fn law_reading_resumes_after_an_event(
    bytes: Seq<u8>,
    byte_offset: int,
    number: nat,
    later_number: nat,
    time_field: Option<Seq<char>>,
    taken: int,
)
    requires
        0 < taken <= batch(bytes, byte_offset, number, time_field, false).events.len(),
    ensures
        ({
            let whole = batch(bytes, byte_offset, number, time_field, false);
            let resumed = whole.events[taken - 1].1;
            let rest = batch(
                bytes.skip(resumed - byte_offset),
                resumed,
                later_number,
                time_field,
                false,
            );
            &&& byte_offset < resumed <= byte_offset + bytes.len()
            &&& rest.events == whole.events.skip(taken)
            &&& rest.byte_offset == whole.byte_offset
        }),
    decreases bytes.len(),
{
    bytes.index_of_first_ensures(NEWLINE);
    let whole = batch(bytes, byte_offset, number, time_field, false);
    if let Some(i) = bytes.index_of_first(NEWLINE) {
        let end = byte_offset + i + 1;
        let after = bytes.skip(i + 1);
        let later = batch(after, end, number + 1, time_field, false);
        let counted = if line_outcome(bytes.take(i), number, time_field) is Ok {
            1int
        } else {
            0int
        };
        assert(whole.events.skip(counted) =~= later.events);
        if taken == counted {
            lemma_number_does_not_matter(after, end, later_number, number + 1, time_field);
        } else {
            law_reading_resumes_after_an_event(
                after,
                end,
                number + 1,
                later_number,
                time_field,
                taken - counted,
            );
            let resumed = later.events[taken - counted - 1].1;
            assert(whole.events[taken - 1].1 == resumed);
            assert(after.skip(resumed - end) =~= bytes.skip(resumed - byte_offset));
            assert(later.events.skip(taken - counted) =~= whole.events.skip(taken));
        }
    }
}

/// Strict and lenient reading agree where no line is malformed, and strict reading fails where one
/// is; what it has read by then, lenient reading starts with.
pub proof fn law_strict_reading_stops_at_malformed_lines(
    bytes: Seq<u8>,
    byte_offset: int,
    number: nat,
    time_field: Option<Seq<char>>,
)
    ensures
        ({
            let strict = batch(bytes, byte_offset, number, time_field, true);
            let lenient = batch(bytes, byte_offset, number, time_field, false);
            &&& strict.warnings.len() == 0
            &&& strict.error is None <==> lenient.warnings.len() == 0
            &&& strict.error is None ==> strict.events == lenient.events && strict.byte_offset
                == lenient.byte_offset
            &&& strict.error matches Some(message) ==> lenient.warnings[0] == message
            &&& strict.events.len() <= lenient.events.len()
            &&& strict.events == lenient.events.take(strict.events.len() as int)
        }),
    decreases bytes.len(),
{
    bytes.index_of_first_ensures(NEWLINE);
    if let Some(i) = bytes.index_of_first(NEWLINE) {
        let end = byte_offset + i + 1;
        law_strict_reading_stops_at_malformed_lines(
            bytes.skip(i + 1),
            end,
            number + 1,
            time_field,
        );
    }
    let strict = batch(bytes, byte_offset, number, time_field, true);
    let lenient = batch(bytes, byte_offset, number, time_field, false);
    assert(strict.events =~= lenient.events.take(strict.events.len() as int));
}

} // verus!
