//! Laws of log lines and files: what an event takes from its line, and what is read of a file.

use crate::decimal;
use crate::event::EventView;
use crate::json;
use crate::json::{Json, JsonView};
use crate::narrowing;
use crate::number_laws;
use crate::tailer;
use crate::time;
use crate::value;
use crate::value::{Value, ValueView};
use vstd::arithmetic::power2::pow2;
use vstd::prelude::*;
use vstd::utf8::{decode_utf8, valid_utf8};

verus! {

/// Whether a JSON value is a string, a boolean, or a number that has a double.
pub open spec fn is_scalar(json: JsonView) -> bool {
    match json {
        JsonView::String(_) => true,
        JsonView::Bool(_) => true,
        JsonView::Number(bits) => bits is Some,
        JsonView::Other => false,
    }
}

/// Every scalar has a value of its own type, whatever it holds: a string and a boolean as they are,
/// a number rounded to single precision, zero and the numbers below it too. Nothing else has one.
pub proof fn law_scalars_have_values(json: JsonView)
    ensures
        value::value_of_json(json) is Some <==> is_scalar(json),
        forall|s: Seq<char>|
            json == JsonView::String(s) <==> #[trigger] value::value_of_json(json) == Some(
                ValueView::String(s),
            ),
        forall|b: bool|
            json == JsonView::Bool(b) <==> #[trigger] value::value_of_json(json) == Some(
                ValueView::Bool(b),
            ),
        json matches JsonView::Number(Some(bits)) ==> (value::value_of_json(json) matches Some(
            ValueView::Number(n),
        ) && narrowing::rounds_to(bits, n)),
{
    if let JsonView::Number(Some(bits)) = json {
        number_laws::lemma_rounds(bits);
    }
}

/// A whole number in a log has the value that the number has in a query, zero too.
pub proof fn law_logged_numbers_are_those_of_queries(bits: u64, n: nat)
    requires
        bits < 0x7ff0_0000_0000_0000,
        narrowing::double_units(bits as int) == n * pow2(1074),
    ensures
        value::value_of_json(JsonView::Number(Some(bits))) == Some(
            value::value_of_token(decimal::decimal_text(n)),
        ),
{
    number_laws::law_logs_and_queries_agree_on_whole_numbers(bits, n);
}

/// Numbers in a log with the other sign have the other sign as values, and greater ones are no
/// smaller as values.
pub proof fn law_logged_numbers_keep_order_and_sign(a: u64, b: u64)
    requires
        a <= b <= 0x7ff0_0000_0000_0000,
    ensures
        ({
            let value = |bits: u64|
                value::value_of_json(JsonView::Number(Some(bits)))->0->Number_0;
            &&& value(a) <= value(b) <= 0x7f80_0000
            &&& value((a + 0x8000_0000_0000_0000) as u64) == value(a) + 0x8000_0000
        }),
{
    number_laws::law_rounding_keeps_order_and_sign(a, b);
    number_laws::law_rounding_keeps_order_and_sign(a, a);
}

/// Whether the member at a position is the last scalar one of a name.
pub open spec fn is_last_scalar(
    members: Seq<(Seq<char>, JsonView)>,
    name: Seq<char>,
    i: int,
) -> bool {
    &&& 0 <= i < members.len()
    &&& members[i].0 == name
    &&& is_scalar(members[i].1)
    &&& forall|j: int|
        i < j < members.len() ==> !((#[trigger] members[j]).0 == name && is_scalar(members[j].1))
}

/// An event has as fields exactly the names of its scalar members, but for the one that holds the
/// time, each with the value of the last such member.
pub proof fn law_fields_are_the_scalar_members(
    line: Seq<char>,
    members: Seq<(Seq<char>, JsonView)>,
    time_field: Option<Seq<char>>,
    name: Seq<char>,
)
    ensures
        ({
            let event = tailer::event_with(line, Some(members), time_field);
            &&& event.fields.contains_key(name) <==> time_field != Some(name) && exists|i: int|
                0 <= i < members.len() && (#[trigger] members[i]).0 == name && is_scalar(
                    members[i].1,
                )
            &&& forall|i: int|
                time_field != Some(name) && #[trigger] is_last_scalar(members, name, i)
                    ==> value::value_of_json(members[i].1) == Some(event.fields[name])
        }),
    decreases members.len(),
{
    if members.len() > 0 {
        let front = members.drop_last();
        let last = members.len() - 1;
        law_fields_are_the_scalar_members(line, front, time_field, name);
        law_scalars_have_values(members[last].1);
        let fields = tailer::fields_of(members, time_field);
        let before = tailer::fields_of(front, time_field);
        if fields.contains_key(name) {
            if before.contains_key(name) {
                let i = choose|i: int|
                    0 <= i < front.len() && (#[trigger] front[i]).0 == name && is_scalar(
                        front[i].1,
                    );
                assert(members[i] == front[i]);
            } else {
                assert(members[last].0 == name && is_scalar(members[last].1));
            }
        }
        if time_field != Some(name) && exists|i: int|
            0 <= i < members.len() && (#[trigger] members[i]).0 == name && is_scalar(members[i].1) {
            let i = choose|i: int|
                0 <= i < members.len() && (#[trigger] members[i]).0 == name && is_scalar(
                    members[i].1,
                );
            if i < last {
                assert(front[i] == members[i]);
            }
        }
        assert forall|i: int|
            time_field != Some(name) && #[trigger] is_last_scalar(members, name, i) implies
            value::value_of_json(members[i].1) == Some(fields[name]) by {
            if i < last {
                assert(!(members[last].0 == name && is_scalar(members[last].1)));
                assert forall|j: int| i < j < front.len() implies !((#[trigger] front[j]).0 == name
                    && is_scalar(front[j].1)) by {
                    assert(members[j] == front[j]);
                }
                assert(front[i] == members[i]);
                assert(is_last_scalar(front, name, i));
            }
        }
    }
}

/// Whether the member at a position is the last string under the name of the time field.
pub open spec fn is_last_time(
    members: Seq<(Seq<char>, JsonView)>,
    name: Seq<char>,
    i: int,
) -> bool {
    &&& 0 <= i < members.len()
    &&& members[i].0 == name
    &&& members[i].1 is String
    &&& forall|j: int|
        i < j < members.len() ==> !((#[trigger] members[j]).0 == name && members[j].1 is String)
}

/// An event has the time that the last string under the time field's name is in the RFC 3339 format,
/// and none where there is no such string or the line has no time field.
pub proof fn law_the_time_is_that_of_the_time_field(
    line: Seq<char>,
    members: Seq<(Seq<char>, JsonView)>,
    name: Seq<char>,
)
    ensures
        ({
            let event = tailer::event_with(line, Some(members), Some(name));
            &&& tailer::event_with(line, Some(members), None).timestamp is None
            &&& event.timestamp is Some ==> exists|i: int| #[trigger]
                is_last_time(members, name, i)
            &&& forall|i: int| #[trigger]
                is_last_time(members, name, i) ==> event.timestamp == time::rfc3339_instant(
                    members[i].1->String_0,
                )
        }),
    decreases members.len(),
{
    if members.len() > 0 {
        let front = members.drop_last();
        let last = members.len() - 1;
        law_the_time_is_that_of_the_time_field(line, front, name);
        let time = tailer::time_of(members, Some(name));
        let decides = members[last].0 == name && members[last].1 is String;
        if decides {
            assert(is_last_time(members, name, last));
        }
        assert forall|i: int| i < last implies (is_last_time(members, name, i) <==> !decides
            && #[trigger] is_last_time(front, name, i)) by {
            if is_last_time(members, name, i) {
                assert(!(members[last].0 == name && members[last].1 is String));
                assert(front[i] == members[i]);
                assert forall|j: int| i < j < front.len() implies !((#[trigger] front[j]).0 == name
                    && front[j].1 is String) by {
                    assert(members[j] == front[j]);
                }
            }
            if !decides && is_last_time(front, name, i) {
                assert(front[i] == members[i]);
                assert forall|j: int| i < j < members.len() implies !((#[trigger] members[j]).0
                    == name && members[j].1 is String) by {
                    if j < last {
                        assert(front[j] == members[j]);
                    }
                }
            }
        }
        if time is Some && !decides {
            let i = choose|i: int| #[trigger] is_last_time(front, name, i);
            assert(is_last_time(members, name, i));
        }
        assert forall|i: int| #[trigger] is_last_time(members, name, i) implies time
            == time::rfc3339_instant(members[i].1->String_0) by {
            if i < last {
                assert(is_last_time(front, name, i));
                assert(front[i] == members[i]);
            }
        }
    }
}

/// An event keeps its line as it is, and an event of a line that is no object has nothing else.
pub proof fn law_events_keep_their_line(
    line: Seq<char>,
    members: Option<Seq<(Seq<char>, JsonView)>>,
    time_field: Option<Seq<char>>,
)
    ensures
        ({
            let event = tailer::event_with(line, members, time_field);
            &&& event.raw == line
            &&& members is None ==> event.timestamp is None && event.fields.dom() == Set::<
                Seq<char>,
            >::empty()
        }),
{
}

/// Whether an outcome is that of a content: an event if and only if the content is text and JSON, and
/// then the event of its members, with the text as its line.
pub open spec fn is_outcome_of(
    content: Seq<u8>,
    time_field: Option<Seq<char>>,
    outcome: Result<EventView, Seq<char>>,
) -> bool {
    let text = decode_utf8(content);
    &&& outcome is Ok <==> valid_utf8(content) && json::json_members(text) is Ok
    &&& outcome matches Ok(event) ==> event == tailer::event_with(
        text,
        json::json_members(text)->Ok_0,
        time_field,
    )
}

/// A line gives an event if and only if it is text and JSON, whatever else it holds: the event of its
/// members, with the text as its line. One carriage return at its end does not belong to it, and
/// nothing else is taken from it.
pub proof fn law_lines_of_json_are_events(
    content: Seq<u8>,
    number: nat,
    time_field: Option<Seq<char>>,
)
    ensures
        content.len() == 0 || content.last() != 13 ==> is_outcome_of(
            content,
            time_field,
            tailer::line_outcome(content, number, time_field),
        ),
        is_outcome_of(
            content,
            time_field,
            tailer::line_outcome(content.push(13), number, time_field),
        ),
{
    assert(content.push(13).drop_last() =~= content);
}

/// A line, or its first eighty characters.
pub open spec fn start_of(line: Seq<char>) -> Seq<char> {
    if line.len() <= 80 {
        line
    } else {
        line.take(80)
    }
}

/// Whether a text holds three others one after another, the last at its end.
pub open spec fn holds_in_turn(
    text: Seq<char>,
    first: Seq<char>,
    second: Seq<char>,
    third: Seq<char>,
    before: Seq<char>,
    between: Seq<char>,
    after: Seq<char>,
) -> bool {
    text == before + first + between + second + after + third
}

/// What is said of a malformed line names its number, says what is wrong, and shows the line, or its
/// first eighty characters.
pub proof fn law_messages_show_the_line(number: nat, line: Seq<char>, message: Seq<char>)
    ensures
        exists|before: Seq<char>, between: Seq<char>, after: Seq<char>| #[trigger]
            holds_in_turn(
                tailer::malformed(number, line, message),
                decimal::decimal_text(number),
                message,
                start_of(line),
                before,
                between,
                after,
            ),
{
    assert(tailer::preview(line) =~= start_of(line));
    assert(holds_in_turn(
        tailer::malformed(number, line, message),
        decimal::decimal_text(number),
        message,
        start_of(line),
        "line "@,
        " is not valid JSON: "@,
        "\n  "@,
    ));
}

/// A line that has not ended is not read: nothing comes of it, and the offset stays.
pub proof fn law_a_line_that_has_not_ended_is_left(
    bytes: Seq<u8>,
    byte_offset: int,
    number: nat,
    time_field: Option<Seq<char>>,
    strict: bool,
)
    requires
        !bytes.contains(10),
    ensures
        ({
            let read = tailer::batch(bytes, byte_offset, number, time_field, strict);
            &&& read.events.len() == 0
            &&& read.warnings.len() == 0
            &&& read.byte_offset == byte_offset
            &&& read.error is None
        }),
{
    bytes.index_of_first_ensures(tailer::NEWLINE);
}

/// A file is read line by line: a line that has ended gives its event, with the offset right behind
/// it, and then the rest is read from there. A line that gives none is passed over with one warning,
/// or, in strict reading, ends it right there.
pub proof fn law_files_are_read_line_by_line(
    line: Seq<u8>,
    rest: Seq<u8>,
    byte_offset: int,
    number: nat,
    time_field: Option<Seq<char>>,
    strict: bool,
)
    requires
        !line.contains(10),
    ensures
        ({
            let end = byte_offset + line.len() + 1;
            let read = tailer::batch(
                line.push(10) + rest,
                byte_offset,
                number,
                time_field,
                strict,
            );
            let later = tailer::batch(rest, end, number + 1, time_field, strict);
            match tailer::line_outcome(line, number, time_field) {
                Ok(event) => {
                    &&& read.events == seq![(event, end)] + later.events
                    &&& read.warnings == later.warnings
                    &&& read.byte_offset == later.byte_offset
                    &&& read.error == later.error
                },
                Err(message) => if strict {
                    &&& read.events.len() == 0
                    &&& read.warnings.len() == 0
                    &&& read.byte_offset == byte_offset
                    &&& read.error == Some(message)
                } else {
                    &&& read.events == later.events
                    &&& read.warnings == seq![message] + later.warnings
                    &&& read.byte_offset == later.byte_offset
                    &&& read.error == later.error
                },
            }
        }),
{
    let all = line.push(10) + rest;
    let i = line.len() as int;
    assert(all[i] == 10);
    assert forall|j: int| 0 <= j < i implies all[j] != 10 by {
        assert(line.contains(line[j]));
    }
    tailer::lemma_first_newline(all, i);
    assert(all.take(i) =~= line);
    assert(all.skip(i + 1) =~= rest);
    let later = tailer::batch(rest, byte_offset + i + 1, number + 1, time_field, strict);
    assert(Seq::<Seq<char>>::empty() + later.warnings =~= later.warnings);
    assert(Seq::<(EventView, int)>::empty() + later.events =~= later.events);
}

/// A file that could not be opened gives nothing, and is read on from the same offset; one that could
/// is read from its first line on.
pub proof fn law_missing_files_give_nothing(
    bytes: Seq<u8>,
    byte_offset: int,
    time_field: Option<Seq<char>>,
    strict: bool,
)
    ensures
        ({
            let missing = tailer::file_batch(None, byte_offset, time_field, strict);
            &&& missing.events.len() == 0
            &&& missing.warnings.len() == 0
            &&& missing.byte_offset == byte_offset
            &&& missing.error is None
            &&& tailer::file_batch(Some(bytes), byte_offset, time_field, strict) == tailer::batch(
                bytes,
                byte_offset,
                1,
                time_field,
                strict,
            )
        }),
{
}

/// A look at a file that is there: whenever its inode is not the one known before, smaller or
/// greater, or none was known, the file is read from its beginning, however long it is, and whenever
/// it is shorter than the offset; in every other case reading goes on where it was. The inode is then
/// known. Where the file is not there nothing changes.
pub proof fn law_other_files_are_read_from_the_start(
    len: u64,
    inode: u64,
    byte_offset: u64,
    last_inode: Option<u64>,
)
    ensures
        ({
            let (offset, known) = tailer::after_rotation(
                Some((len, inode)),
                byte_offset,
                last_inode,
            );
            &&& last_inode != Some(inode) ==> offset == 0
            &&& len < byte_offset ==> offset == 0
            &&& last_inode == Some(inode) && byte_offset <= len ==> offset == byte_offset
            &&& known == Some(inode)
        }),
        tailer::after_rotation(None, byte_offset, last_inode) == (byte_offset, last_inode),
{
}

/// Once a file has been looked at, looking again while it stays and grows changes nothing; after it
/// has been replaced, the first look starts over and the next ones do not.
pub proof fn law_a_file_is_started_over_once(
    len: u64,
    later_len: u64,
    inode: u64,
    byte_offset: u64,
    read_up_to: u64,
    last_inode: Option<u64>,
)
    requires
        read_up_to <= later_len,
    ensures
        ({
            let (offset, known) = tailer::after_rotation(
                Some((len, inode)),
                byte_offset,
                last_inode,
            );
            tailer::after_rotation(Some((later_len, inode)), read_up_to, known) == (
                read_up_to,
                Some(inode),
            )
        }),
{
}

/// The text of a line that is JSON gives the event of its members, and any other the message of what
/// is wrong with it.
pub proof fn law_texts_are_read_as_json(line: Seq<char>, time_field: Option<Seq<char>>)
    ensures
        tailer::line_event(line, time_field) == match json::json_members(line) {
            Ok(members) => Ok::<EventView, Seq<char>>(
                tailer::event_with(line, members, time_field),
            ),
            Err(message) => Err(message),
        },
        tailer::line_event(line, time_field) matches Ok(event) ==> event.raw == line,
{
}

/// A time in the RFC 3339 format is kept to the nanosecond.
pub proof fn law_times_are_read_to_the_nanosecond(text: Seq<char>)
    ensures
        time::rfc3339_instant(text) is Some <==> time::rfc3339(text) is Some,
        time::rfc3339_instant(text) matches Some(t) ==> time::rfc3339(text) == Some(
            (t.secs, t.nanos),
        ),
{
}

/// A JSON value and a value are seen as what they hold, and the members of a line in their order.
pub proof fn law_values_are_seen_as_they_are(
    json: Json,
    value: Value,
    members: Seq<(String, Json)>,
)
    ensures
        json matches Json::String(s) ==> json@ == JsonView::String(s@),
        json matches Json::Number(bits) ==> json@ == JsonView::Number(bits),
        json matches Json::Bool(b) ==> json@ == JsonView::Bool(b),
        json is Other ==> json@ is Other,
        value matches Value::String(s) ==> value@ == ValueView::String(s@),
        value matches Value::Number(bits) ==> value@ == ValueView::Number(bits),
        value matches Value::Bool(b) ==> value@ == ValueView::Bool(b),
        json::member_views(members).len() == members.len(),
        forall|i: int|
            0 <= i < members.len() ==> #[trigger] json::member_views(members)[i] == (
                members[i].0@,
                members[i].1@,
            ),
{
}

} // verus!
