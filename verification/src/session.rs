//! Laws of reading the agent's output: of single lines, of two lines that belong
//! together, and of all the lines of a session.
use vstd::prelude::*;
use vstd::utf8::*;
use crate::agent::{
    bytes_step, call_arguments, call_entry, call_output, close_entry, completed_call,
    is_internal_tool, is_shown, line_step, line_text, message_text, no_step, readable_line,
    session_id, shown_lines, started_call, step, CallView,
};
use crate::events::EventView;
use crate::json::{
    bool_value, escaped, int_value, is_first_field, law_int_field, law_object_with_one_string,
    law_plain_text_needs_no_escape, law_string_field, law_values_are_no_longer_than_the_line,
    line_with_field, object_value, one_string, quoted, str_value, written,
};
use crate::search::stands_at;
use crate::split::{
    law_lines, law_trimmed, law_white_space_around_is_trimmed, lemma_skip_white,
    lemma_text_end, lemma_trimmed_is, lines, skip_white, text_end, trimmed, trimmed_start,
};
use crate::state::{
    call_index, fits, law_calls_keep_their_order, law_decode_after_encode, law_decoded_fits,
    law_ids_stay_nonempty, law_insert, law_no_duplicates, law_remove, law_remove_takes_the_first,
    law_remove_undoes_insert, law_round_trip, law_stored_calls_are_read_back, lemma_call_index,
    no_id_is_empty, state_bytes, state_of_bytes, stored_calls, without_call, StateView, LIMIT,
};
use crate::text::{
    is_white, lemma_encode_concat, lemma_encode_subrange, lemma_same_filter,
    lemma_valid_between, or_empty,
};
use crate::tools::{command_argument, cuts_cleanly, law_tool_categories, tool_class};

verus! {

/// Whether a line says that a tool call begins.
pub open spec fn is_start(line: Seq<char>) -> bool {
    str_value(line, "type"@) == Some("tool.execution_start"@)
}

/// Whether a line says that a tool call ended.
pub open spec fn is_complete(line: Seq<char>) -> bool {
    str_value(line, "type"@) == Some("tool.execution_complete"@)
}

/// Whether a line says what the assistant said.
pub open spec fn is_message(line: Seq<char>) -> bool {
    str_value(line, "type"@) == Some("assistant.message"@)
}

/// Whether a line says that the session is over.
pub open spec fn is_result(line: Seq<char>) -> bool {
    str_value(line, "type"@) == Some("result"@)
}

/// The four types of line are different.
proof fn lemma_types_differ()
    ensures
        "tool.execution_start"@ != "tool.execution_complete"@,
        "tool.execution_start"@ != "assistant.message"@,
        "tool.execution_start"@ != "result"@,
        "tool.execution_complete"@ != "assistant.message"@,
        "tool.execution_complete"@ != "result"@,
        "assistant.message"@ != "result"@,
{
    reveal_strlit("tool.execution_start");
    reveal_strlit("tool.execution_complete");
    reveal_strlit("assistant.message");
    reveal_strlit("result");
    assert("tool.execution_start"@.len() == 20);
    assert("tool.execution_complete"@.len() == 23);
    assert("assistant.message"@.len() == 17);
    assert("result"@.len() == 6);
}

// ---------------------------------------------------------------------------
// Single lines
// ---------------------------------------------------------------------------

/// A line of another type, or of none, does nothing.
pub proof fn law_other_lines_do_nothing(line: Seq<char>, st: StateView)
    requires
        !is_start(line),
        !is_complete(line),
        !is_message(line),
        !is_result(line),
    ensures
        step(line, st) == no_step(st),
{
}

/// A call of an internal tool does nothing.
pub proof fn law_internal_tools_are_skipped(line: Seq<char>, data: Seq<char>, st: StateView)
    requires
        is_start(line),
        object_value(line, "data"@) == Some(data),
        is_internal_tool(or_empty(str_value(data, "toolName"@))),
    ensures
        step(line, st) == no_step(st),
{
}

/// The end of a call that is not open does nothing.
pub proof fn law_unopened_calls_do_not_end(line: Seq<char>, st: StateView)
    requires
        is_complete(line),
        !st.open_calls.contains(completed_call(line)),
    ensures
        step(line, st) == no_step(st),
{
    lemma_types_differ();
}

/// The end of the session tells the session's id first, where the line has it, and
/// last that the session is over.
pub proof fn law_result_ends_the_session(line: Seq<char>, st: StateView)
    requires
        is_result(line),
    ensures
        step(line, st).events.last() is SessionEnded,
        step(line, st).events.drop_last() == session_id(line),
        str_value(line, "sessionId"@) matches Some(id) ==> step(line, st).events.first()
            == EventView::SessionIDAvailable(id),
        !step(line, st).state.open_message,
        step(line, st).state.open_calls == st.open_calls,
{
    lemma_types_differ();
    assert(step(line, st).events.drop_last() =~= session_id(line));
}

/// No line opens a call twice.
pub proof fn law_calls_are_open_once(line: Seq<char>, st: StateView)
    requires
        st.open_calls.no_duplicates(),
    ensures
        step(line, st).state.open_calls.no_duplicates(),
{
    if let Some(call) = started_call(line) {
        law_no_duplicates(st.open_calls, call.id);
    }
    law_no_duplicates(st.open_calls, completed_call(line));
}

/// Every entry that a line opens or closes has an id.
pub proof fn law_entries_have_ids(line: Seq<char>, st: StateView, k: int)
    requires
        0 <= k < step(line, st).events.len(),
    ensures
        match step(line, st).events[k] {
            EventView::NewEntry { vendor_id, .. } => vendor_id.len() > 0,
            EventView::CloseEntry { vendor_id, .. } => vendor_id.len() > 0,
            EventView::AppendToEntry { vendor_id, .. } => vendor_id.len() > 0,
            _ => true,
        },
{
    reveal_strlit("copilot-message");
    if is_result(line) {
        lemma_types_differ();
    }
}

/// Of what a tool call printed, the lines that are shown are lines of it that hold
/// something, and every line of it that holds something else than the note of exit
/// code zero is shown.
pub proof fn law_output_is_shown(content: Seq<char>)
    ensures
        forall|n: int|
            0 <= n < shown_lines(content).len() ==> {
                let l = #[trigger] shown_lines(content)[n];
                lines(content).contains(l) && is_shown(l) && !l.contains('\n')
            },
        forall|n: int|
            0 <= n < lines(content).len() && is_shown(#[trigger] lines(content)[n])
                ==> shown_lines(content).contains(lines(content)[n]),
{
    let ls = lines(content);
    let keep = |l: Seq<char>| is_shown(l);
    assert forall|n: int| 0 <= n < shown_lines(content).len() implies {
        let l = #[trigger] shown_lines(content)[n];
        ls.contains(l) && is_shown(l) && !l.contains('\n')
    } by {
        let l = shown_lines(content)[n];
        ls.lemma_filter_contains_rev(keep, l);
        ls.lemma_filter_pred(keep, n);
        let k = choose|k: int| 0 <= k < ls.len() && ls[k] == l;
        law_lines(content, k);
    }
    assert forall|n: int| 0 <= n < ls.len() && is_shown(#[trigger] ls[n]) implies shown_lines(
        content,
    ).contains(ls[n]) by {
        ls.lemma_filter_contains(keep, n);
    }
}

/// White space around a line changes nothing.
pub proof fn law_white_space_around_a_line(
    before: Seq<char>,
    line: Seq<u8>,
    after: Seq<char>,
    b: Seq<u8>,
)
    requires
        forall|i: int| 0 <= i < before.len() ==> is_white(#[trigger] before[i]),
        forall|i: int| 0 <= i < after.len() ==> is_white(#[trigger] after[i]),
    ensures
        line_text(encode_utf8(before) + line + encode_utf8(after)) == line_text(line),
        bytes_step(encode_utf8(before) + line + encode_utf8(after), b) == bytes_step(line, b),
{
    lemma_valid_between(before, line, after);
    if valid_utf8(line) {
        let text = decode_utf8(line);
        decode_utf8_encode_utf8(line);
        lemma_encode_concat(before, text);
        lemma_encode_concat(before + text, after);
        encode_utf8_decode_utf8(before + text + after);
        law_white_space_around_is_trimmed(before, text, after);
    }
}

/// No line opens a call with an empty id.
pub proof fn law_no_empty_id_is_opened(line: Seq<char>, st: StateView)
    requires
        no_id_is_empty(st),
    ensures
        no_id_is_empty(step(line, st).state),
{
    let after = step(line, st).state;
    assert forall|i: int| 0 <= i < after.open_calls.len() implies (
    #[trigger] after.open_calls[i]).len() > 0 by {
        let id = after.open_calls[i];
        assert(after.open_calls.contains(id));
        if is_complete(line) && !is_start(line) {
            lemma_without_call_shrinks(st.open_calls, completed_call(line), id);
        }
        if st.open_calls.contains(id) {
            let k = choose|k: int| 0 <= k < st.open_calls.len() && st.open_calls[k] == id;
            assert(st.open_calls[k].len() > 0);
        }
    }
}

// ---------------------------------------------------------------------------
// What each type of line does
// ---------------------------------------------------------------------------

/// A line that says that a tool call begins opens one entry under the id of the
/// call, shown by the name of the tool and its arguments, and the call is open
/// afterwards. Only the tool `report_intent` is left out.
pub proof fn law_call_begins(
    line: Seq<char>,
    data: Seq<char>,
    id: Seq<char>,
    name: Seq<char>,
    st: StateView,
)
    requires
        str_value(line, "type"@) == Some("tool.execution_start"@),
        object_value(line, "data"@) == Some(data),
        str_value(data, "toolCallId"@) == Some(id),
        str_value(data, "toolName"@) == Some(name),
        id.len() > 0,
        name.len() > 0,
        name != "report_intent"@,
    ensures
        ({
            let args = match object_value(data, "arguments"@) {
                Some(object) => object,
                None => match str_value(data, "arguments"@) {
                    Some(text) => text,
                    None => seq![],
                },
            };
            let shown = tool_class(name, args);
            let r = step(line, st);
            &&& r.events == seq![
                EventView::NewEntry {
                    vendor_id: id,
                    tool: shown.label,
                    category: shown.category,
                    raw_cmd: shown.raw_cmd,
                    file_paths: shown.file_paths,
                },
            ]
            &&& r.state.open_calls.contains(id)
            &&& st.open_calls.contains(id) ==> r.state == st
            &&& !st.open_calls.contains(id) ==> r.state.open_calls == st.open_calls + seq![id]
            &&& r.state.open_message == st.open_message
        }),
{
    law_calls_keep_their_order(st.open_calls, id);
    law_insert(st.open_calls, id, id);
}

/// A line that says that a tool call begins does nothing where it has no data, where
/// the data hold no id or no name of a tool, and where the tool is `report_intent`.
pub proof fn law_lines_that_begin_no_call(line: Seq<char>, st: StateView)
    requires
        str_value(line, "type"@) == Some("tool.execution_start"@),
        object_value(line, "data"@) matches Some(data) ==> {
            ||| str_value(data, "toolCallId"@) is None
            ||| str_value(data, "toolCallId"@) == Some(Seq::<char>::empty())
            ||| str_value(data, "toolName"@) is None
            ||| str_value(data, "toolName"@) == Some(Seq::<char>::empty())
            ||| str_value(data, "toolName"@) == Some("report_intent"@)
        },
    ensures
        step(line, st).events.len() == 0,
        step(line, st).state == st,
{
}

/// A line that says that an open tool call ended closes the entry under the id of
/// the call. The exit code is one exactly where the line says that the call did not
/// succeed. The lines shown are those of what the call printed, in their order,
/// without the empty ones and those that say that it exited with code zero. The call
/// is not open any more, and all else is as before.
pub proof fn law_call_ends(
    line: Seq<char>,
    data: Seq<char>,
    first: Seq<Seq<char>>,
    id: Seq<char>,
    rest: Seq<Seq<char>>,
    open_message: bool,
)
    requires
        str_value(line, "type"@) == Some("tool.execution_complete"@),
        object_value(line, "data"@) == Some(data),
        str_value(data, "toolCallId"@) == Some(id),
        id.len() > 0,
        !first.contains(id),
    ensures
        ({
            let st = StateView { open_calls: first + seq![id] + rest, open_message };
            let printed = match object_value(data, "result"@) {
                Some(result) => match str_value(result, "content"@) {
                    Some(content) => content,
                    None => seq![],
                },
                None => seq![],
            };
            let r = step(line, st);
            &&& r.events == seq![
                EventView::CloseEntry {
                    vendor_id: id,
                    exit_code: if bool_value(data, "success"@) == Some(false) {
                        1i32
                    } else {
                        0i32
                    },
                    output_lines: lines(printed).filter(
                        |l: Seq<char>| l.len() != 0 && l != "<exited with exit code 0>"@,
                    ),
                },
            ]
            &&& r.state == (StateView { open_calls: first + rest, open_message })
        }),
{
    let ks = first + seq![id] + rest;
    let st = StateView { open_calls: ks, open_message };
    lemma_types_differ();
    assert(ks[first.len() as int] == id);
    assert(st.open_calls.contains(id));
    law_remove_takes_the_first(first, id, rest);
    let printed = call_output(data);
    lemma_same_filter(
        lines(printed),
        |l: Seq<char>| is_shown(l),
        |l: Seq<char>| l.len() != 0 && l != "<exited with exit code 0>"@,
    );
    assert(or_empty(object_value(line, "data"@)) == data);
    assert(step(line, st).events =~= seq![close_entry(line)]);
}

/// Every line that a call printed is shown unless it is empty or says that the call
/// exited with code zero, and no other line is shown.
pub proof fn law_printed_lines_are_shown(
    line: Seq<char>,
    data: Seq<char>,
    result: Seq<char>,
    printed: Seq<char>,
    st: StateView,
    l: Seq<char>,
)
    requires
        str_value(line, "type"@) == Some("tool.execution_complete"@),
        object_value(line, "data"@) == Some(data),
        str_value(data, "toolCallId"@) matches Some(id) && id.len() > 0
            && st.open_calls.contains(id),
        object_value(data, "result"@) == Some(result),
        str_value(result, "content"@) == Some(printed),
    ensures
        step(line, st).events.len() == 1,
        step(line, st).events[0] is CloseEntry,
        step(line, st).events[0]->output_lines.contains(l) <==> lines(printed).contains(l)
            && l.len() > 0 && l != "<exited with exit code 0>"@,
{
    lemma_types_differ();
    let ls = lines(printed);
    let keep = |l: Seq<char>| is_shown(l);
    assert(step(line, st).events[0] == close_entry(line));
    let shown = ls.filter(keep);
    if shown.contains(l) {
        ls.lemma_filter_contains_rev(keep, l);
        let n = choose|n: int| 0 <= n < shown.len() && shown[n] == l;
        ls.lemma_filter_pred(keep, n);
    }
    if ls.contains(l) && l.len() > 0 && l != "<exited with exit code 0>"@ {
        let n = choose|n: int| 0 <= n < ls.len() && ls[n] == l;
        ls.lemma_filter_contains(keep, n);
    }
}

/// A line that says that a tool call ended does nothing where it has no data, where
/// the data hold no id, and where the call is not open.
pub proof fn law_lines_that_end_no_call(line: Seq<char>, st: StateView)
    requires
        str_value(line, "type"@) == Some("tool.execution_complete"@),
        object_value(line, "data"@) matches Some(data) ==> (str_value(
            data,
            "toolCallId"@,
        ) matches Some(id) ==> id.len() == 0 || !st.open_calls.contains(id)),
    ensures
        step(line, st).events.len() == 0,
        step(line, st).state == st,
{
    lemma_types_differ();
}

/// What the assistant says, without white space around it, opens the entry of the
/// message where none is open, and is added to it where one is.
pub proof fn law_assistant_says(
    line: Seq<char>,
    data: Seq<char>,
    content: Seq<char>,
    st: StateView,
)
    requires
        str_value(line, "type"@) == Some("assistant.message"@),
        object_value(line, "data"@) == Some(data),
        str_value(data, "content"@) == Some(content),
        exists|i: int| 0 <= i < content.len() && !is_white(#[trigger] content[i]),
    ensures
        step(line, st).state == (StateView { open_calls: st.open_calls, open_message: true }),
        !st.open_message ==> step(line, st).events == seq![
            EventView::NewEntry {
                vendor_id: "copilot-message"@,
                tool: trimmed(content),
                category: "message"@,
                raw_cmd: seq![],
                file_paths: seq![],
            },
        ],
        st.open_message ==> step(line, st).events == seq![
            EventView::AppendToEntry { vendor_id: "copilot-message"@, text: trimmed(content) },
        ],
{
    lemma_types_differ();
    law_trimmed(content);
    assert(trimmed(content).len() > 0);
}

/// A message without data, without content or with nothing but white space does
/// nothing.
pub proof fn law_assistant_says_nothing(line: Seq<char>, st: StateView)
    requires
        str_value(line, "type"@) == Some("assistant.message"@),
        object_value(line, "data"@) matches Some(data) ==> (str_value(
            data,
            "content"@,
        ) matches Some(content) ==> forall|i: int|
            0 <= i < content.len() ==> is_white(#[trigger] content[i])),
    ensures
        step(line, st).events.len() == 0,
        step(line, st).state == st,
{
    lemma_types_differ();
    if let Some(data) = object_value(line, "data"@) {
        let content = or_empty(str_value(data, "content"@));
        lemma_trimmed_is(content, 0, 0);
    }
}

/// The end of the session tells the id of the session, where the line has one, and
/// then that the session is over: with success exactly where the exit code is zero or
/// there is none. No message is open afterwards.
pub proof fn law_session_ends(line: Seq<char>, st: StateView)
    requires
        str_value(line, "type"@) == Some("result"@),
    ensures
        ({
            let success = int_value(line, "exitCode"@) is None || int_value(line, "exitCode"@)
                == Some(0i64);
            let r = step(line, st);
            &&& str_value(line, "sessionId"@) matches Some(id) ==> r.events == seq![
                EventView::SessionIDAvailable(id),
                EventView::SessionEnded { success },
            ]
            &&& str_value(line, "sessionId"@) is None ==> r.events == seq![
                EventView::SessionEnded { success },
            ]
            &&& r.state == (StateView { open_calls: st.open_calls, open_message: false })
        }),
{
    lemma_types_differ();
}

/// A line that ends the session with an exit code says that it succeeded where the
/// code is zero, and that it failed for any other.
pub proof fn law_exit_code_decides(
    lead: Seq<char>,
    white: Seq<char>,
    n: i64,
    rest: Seq<char>,
    st: StateView,
)
    requires
        is_first_field(lead, "exitCode"@, white, written(n as int) + rest),
        rest.len() > 0 ==> rest[0] != '-' && (rest[0] < '0' || rest[0] > '9'),
        str_value(
            line_with_field(lead, "exitCode"@, white, written(n as int) + rest),
            "type"@,
        ) == Some("result"@),
    ensures
        ({
            let line = line_with_field(lead, "exitCode"@, white, written(n as int) + rest);
            let last = step(line, st).events.last();
            &&& n == 0 ==> last == EventView::SessionEnded { success: true }
            &&& n != 0 ==> last == EventView::SessionEnded { success: false }
        }),
{
    law_int_field(lead, "exitCode"@, white, n, rest);
    law_session_ends(
        line_with_field(lead, "exitCode"@, white, written(n as int) + rest),
        st,
    );
}

/// A line of no type, or of any other than these four, does nothing.
pub proof fn law_other_types_do_nothing(line: Seq<char>, st: StateView)
    requires
        str_value(line, "type"@) != Some("tool.execution_start"@),
        str_value(line, "type"@) != Some("tool.execution_complete"@),
        str_value(line, "type"@) != Some("assistant.message"@),
        str_value(line, "type"@) != Some("result"@),
    ensures
        step(line, st).events.len() == 0,
        step(line, st).state == st,
{
}

/// The bytes of a line are read as text without the white space around it, and the
/// state is handed on in byte form. Where they are not UTF-8 or hold nothing but
/// white space, the byte form is handed on as it is.
pub proof fn law_bytes_of_a_line(line: Seq<u8>, b: Seq<u8>)
    ensures
        !valid_utf8(line) ==> bytes_step(line, b) == (b, Seq::<EventView>::empty()),
        valid_utf8(line) ==> {
            let text = decode_utf8(line);
            let r = step(trimmed(text), state_of_bytes(b));
            &&& (forall|i: int| 0 <= i < text.len() ==> is_white(#[trigger] text[i]))
                ==> bytes_step(line, b) == (b, Seq::<EventView>::empty())
            &&& (exists|i: int| 0 <= i < text.len() && !is_white(#[trigger] text[i]))
                ==> bytes_step(line, b) == (state_bytes(r.state), r.events)
        },
{
    if valid_utf8(line) {
        let text = decode_utf8(line);
        law_trimmed(text);
        if forall|i: int| 0 <= i < text.len() ==> is_white(#[trigger] text[i]) {
            lemma_trimmed_is(text, 0, 0);
        } else {
            assert(trimmed(text).len() > 0);
        }
    }
}

/// A line cannot be read only where it begins a tool call that is shown and whose
/// arguments would be cut inside a character.
pub proof fn law_lines_that_cannot_be_read(line: Seq<char>)
    ensures
        !readable_line(line) <==> {
            &&& str_value(line, "type"@) == Some("tool.execution_start"@)
            &&& object_value(line, "data"@) matches Some(data)
            &&& str_value(data, "toolCallId"@) matches Some(id)
            &&& id.len() > 0
            &&& str_value(data, "toolName"@) matches Some(name)
            &&& name.len() > 0
            &&& name != "report_intent"@
            &&& !cuts_cleanly(
                name,
                match object_value(data, "arguments"@) {
                    Some(object) => object,
                    None => match str_value(data, "arguments"@) {
                        Some(text) => text,
                        None => seq![],
                    },
                },
            )
        },
{
}

// ---------------------------------------------------------------------------
// Lines as they are written
// ---------------------------------------------------------------------------

/// What the assistant says is read as it was written, whatever it holds.
pub proof fn law_message_is_read(
    lead: Seq<char>,
    white: Seq<char>,
    text: Seq<char>,
    rest: Seq<char>,
)
    requires
        is_first_field(lead, "data"@, white, one_string("content"@, text) + rest),
    ensures
        message_text(
            line_with_field(lead, "data"@, white, one_string("content"@, text) + rest),
        ) == trimmed(text),
{
    reveal_strlit("content");
    law_object_with_one_string(lead, "data"@, white, "content"@, text, rest);
}

/// What a tool call printed is read as it was written, whatever it holds.
pub proof fn law_output_is_read(
    lead: Seq<char>,
    white: Seq<char>,
    text: Seq<char>,
    rest: Seq<char>,
)
    requires
        is_first_field(lead, "result"@, white, one_string("content"@, text) + rest),
    ensures
        call_output(
            line_with_field(lead, "result"@, white, one_string("content"@, text) + rest),
        ) == text,
{
    reveal_strlit("content");
    law_object_with_one_string(lead, "result"@, white, "content"@, text, rest);
}

/// The command of a tool call is read as it was written, whatever it holds.
pub proof fn law_command_is_read(
    lead: Seq<char>,
    white: Seq<char>,
    cmd: Seq<char>,
    rest: Seq<char>,
)
    requires
        is_first_field(lead, "arguments"@, white, one_string("command"@, cmd) + rest),
    ensures
        ({
            let args = call_arguments(
                line_with_field(lead, "arguments"@, white, one_string("command"@, cmd) + rest),
            );
            args == one_string("command"@, cmd) && command_argument(args) == cmd
        }),
{
    reveal_strlit("command");
    law_object_with_one_string(lead, "arguments"@, white, "command"@, cmd, rest);
}

/// What stands before the data in a line that says what the assistant said.
pub open spec fn message_lead() -> Seq<char> {
    seq!['{'] + quoted("type"@) + seq![':', '"'] + "assistant.message"@ + seq!['"', ',']
}

/// A line that says what the assistant said.
pub open spec fn message_line(text: Seq<char>) -> Seq<char> {
    line_with_field(message_lead(), "data"@, seq![], one_string("content"@, text) + seq!['}'])
}

/// A line that says what the assistant said is read as such, whatever that is: the
/// text opens the entry of the message, or is added to it.
pub proof fn law_message_line(text: Seq<char>, st: StateView)
    requires
        trimmed(text).len() > 0,
    ensures
        step(message_line(text), st).state == (StateView { open_message: true, ..st }),
        step(message_line(text), st).events == seq![
            if st.open_message {
                EventView::AppendToEntry { vendor_id: "copilot-message"@, text: trimmed(text) }
            } else {
                EventView::NewEntry {
                    vendor_id: "copilot-message"@,
                    tool: trimmed(text),
                    category: "message"@,
                    raw_cmd: seq![],
                    file_paths: seq![],
                }
            },
        ],
{
    let line = message_line(text);
    let tail = one_string("content"@, text) + seq!['}'];
    reveal_strlit("type");
    reveal_strlit("data");
    reveal_strlit("assistant.message");
    assert(is_message(line)) by {
        let rest = seq![','] + quoted("data"@) + seq![':'] + tail;
        let t = "assistant.message"@;
        law_plain_text_needs_no_escape(t);
        assert(line =~= line_with_field(
            seq!['{'],
            "type"@,
            seq![],
            seq!['"'] + escaped(t) + seq!['"'] + rest,
        ));
        assert(!stands_at(line, quoted("type"@), 0)) by {
            if stands_at(line, quoted("type"@), 0) {
                assert(line.subrange(0, 6)[0] == quoted("type"@)[0]);
            }
        }
        law_string_field(seq!['{'], "type"@, seq![], t, rest);
    }
    assert forall|j: int| 0 <= j < message_lead().len() implies !#[trigger] stands_at(
        line,
        quoted("data"@),
        j,
    ) by {
        if stands_at(line, quoted("data"@), j) {
            assert(line.subrange(j, j + 6)[0] == quoted("data"@)[0]);
            assert(line.subrange(j, j + 6)[1] == quoted("data"@)[1]);
            assert(line[j] == message_lead()[j]);
            if j + 1 < message_lead().len() {
                assert(line[j + 1] == message_lead()[j + 1]);
            }
        }
    }
    law_message_is_read(message_lead(), seq![], text, seq!['}']);
    lemma_types_differ();
}

// ---------------------------------------------------------------------------
// Two lines that belong together
// ---------------------------------------------------------------------------

/// A call that begins and ends gives an entry that is opened and closed under one
/// id, and leaves the state as it was.
pub proof fn law_call_begins_and_ends(first: Seq<char>, second: Seq<char>, st: StateView)
    requires
        is_start(first),
        is_complete(second),
        started_call(first) is Some,
        completed_call(second) == started_call(first)->0.id,
        !st.open_calls.contains(completed_call(second)),
    ensures
        step(first, st).events == seq![call_entry(started_call(first)->0)],
        step(second, step(first, st).state).events == seq![close_entry(second)],
        call_entry(started_call(first)->0)->NewEntry_vendor_id
            == close_entry(second)->CloseEntry_vendor_id,
        step(second, step(first, st).state).state == st,
{
    lemma_types_differ();
    let id = completed_call(second);
    law_insert(st.open_calls, id, id);
    law_remove_undoes_insert(st.open_calls, id);
}

/// A call ends once: the line that says so a second time does nothing.
pub proof fn law_call_ends_once(line: Seq<char>, again: Seq<char>, st: StateView)
    requires
        is_complete(line),
        is_complete(again),
        completed_call(again) == completed_call(line),
        st.open_calls.no_duplicates(),
    ensures
        step(again, step(line, st).state) == no_step(step(line, st).state),
{
    lemma_types_differ();
    law_remove(st.open_calls, completed_call(line), completed_call(line));
}

/// After a message every further text is added to its entry.
pub proof fn law_messages_are_joined(first: Seq<char>, second: Seq<char>, st: StateView)
    requires
        is_message(first),
        is_message(second),
        message_text(first).len() > 0,
        message_text(second).len() > 0,
    ensures
        step(first, st).state.open_message,
        step(second, step(first, st).state).events == seq![
            EventView::AppendToEntry {
                vendor_id: "copilot-message"@,
                text: message_text(second),
            },
        ],
        step(second, step(first, st).state).state == step(first, st).state,
{
    lemma_types_differ();
}

/// After the end of the session a message opens an entry of its own.
pub proof fn law_result_closes_the_message(first: Seq<char>, second: Seq<char>, st: StateView)
    requires
        is_result(first),
        is_message(second),
        message_text(second).len() > 0,
    ensures
        step(second, step(first, st).state).events.len() == 1,
        step(second, step(first, st).state).events[0] is NewEntry,
{
    lemma_types_differ();
}

// ---------------------------------------------------------------------------
// The state in byte form
// ---------------------------------------------------------------------------

/// The byte form that comes out of a line holds the state after it exactly where
/// there is room for that state.
pub proof fn law_line_carries_the_state(line: Seq<u8>, b: Seq<u8>)
    ensures
        state_of_bytes(bytes_step(line, b).0) == line_step(line, state_of_bytes(b)).state
            <==> fits(line_step(line, state_of_bytes(b)).state),
{
    law_decoded_fits(b);
    law_round_trip(line_step(line, state_of_bytes(b)).state);
}

/// The state after the lines `ls`, seen from the state `st`.
pub open spec fn state_after(ls: Seq<Seq<u8>>, st: StateView) -> StateView
    decreases ls.len(),
{
    if ls.len() == 0 {
        st
    } else {
        line_step(ls.last(), state_after(ls.drop_last(), st)).state
    }
}

/// The byte form of the state after the lines `ls`, seen from the byte form `b`.
pub open spec fn bytes_after(ls: Seq<Seq<u8>>, b: Seq<u8>) -> Seq<u8>
    decreases ls.len(),
{
    if ls.len() == 0 {
        b
    } else {
        bytes_step(ls.last(), bytes_after(ls.drop_last(), b)).0
    }
}

/// Reading a session with the byte form handed from line to line goes through the
/// same states as reading it with the state itself, exactly where there is room
/// for each of these states.
pub proof fn law_bytes_carry_the_state(ls: Seq<Seq<u8>>, b: Seq<u8>)
    ensures
        (forall|k: int|
            0 <= k <= ls.len() ==> state_of_bytes(bytes_after(#[trigger] ls.take(k), b))
                == state_after(ls.take(k), state_of_bytes(b))) <==> (forall|k: int|
            0 <= k <= ls.len() ==> fits(
                state_after(#[trigger] ls.take(k), state_of_bytes(b)),
            )),
{
    let st = state_of_bytes(b);
    if forall|k: int|
        0 <= k <= ls.len() ==> state_of_bytes(bytes_after(#[trigger] ls.take(k), b))
            == state_after(ls.take(k), st) {
        assert forall|k: int| 0 <= k <= ls.len() implies fits(
            state_after(#[trigger] ls.take(k), st),
        ) by {
            law_decoded_fits(bytes_after(ls.take(k), b));
        }
    }
    if forall|k: int| 0 <= k <= ls.len() ==> fits(state_after(#[trigger] ls.take(k), st)) {
        assert forall|k: int| 0 <= k <= ls.len() implies state_of_bytes(
            bytes_after(#[trigger] ls.take(k), b),
        ) == state_after(ls.take(k), st) by {
            lemma_bytes_carry_the_state(ls, b, k);
        }
    }
}

proof fn lemma_bytes_carry_the_state(ls: Seq<Seq<u8>>, b: Seq<u8>, k: int)
    requires
        0 <= k <= ls.len(),
        forall|j: int|
            0 <= j <= ls.len() ==> fits(
                state_after(#[trigger] ls.take(j), state_of_bytes(b)),
            ),
    ensures
        state_of_bytes(bytes_after(ls.take(k), b)) == state_after(
            ls.take(k),
            state_of_bytes(b),
        ),
    decreases k,
{
    if k > 0 {
        lemma_bytes_carry_the_state(ls, b, k - 1);
        assert(ls.take(k).drop_last() =~= ls.take(k - 1));
        assert(ls.take(k).last() == ls[k - 1]);
        law_line_carries_the_state(ls[k - 1], bytes_after(ls.take(k - 1), b));
        assert(fits(state_after(ls.take(k), state_of_bytes(b))));
    }
}

// ---------------------------------------------------------------------------
// All the lines of a session
// ---------------------------------------------------------------------------

/// The events that each line gives in a session that begins in the state `st`.
pub open spec fn session_events(ls: Seq<Seq<u8>>, st: StateView) -> Seq<Seq<EventView>> {
    Seq::new(ls.len(), |i: int| line_step(ls[i], state_after(ls.take(i), st)).events)
}

/// The events that each line gives where the byte form of the state is handed from
/// line to line, beginning with `b`.
pub open spec fn bytes_session_events(ls: Seq<Seq<u8>>, b: Seq<u8>) -> Seq<Seq<EventView>> {
    Seq::new(ls.len(), |i: int| bytes_step(ls[i], bytes_after(ls.take(i), b)).1)
}

/// Whether the events of a line open the entry of the tool call `id`.
pub open spec fn opens_call(es: Seq<EventView>, id: Seq<char>) -> bool {
    exists|k: int|
        0 <= k < es.len() && (#[trigger] es[k] matches EventView::NewEntry {
            vendor_id,
            category,
            ..
        } && vendor_id == id && category != "message"@)
}

/// Whether the events of a line close the entry `id`.
pub open spec fn closes_entry(es: Seq<EventView>, id: Seq<char>) -> bool {
    exists|k: int|
        0 <= k < es.len() && (#[trigger] es[k] matches EventView::CloseEntry { vendor_id, .. }
            && vendor_id == id)
}

/// Whether the events of a line open the entry of a message.
pub open spec fn opens_message(es: Seq<EventView>) -> bool {
    exists|k: int|
        0 <= k < es.len() && (#[trigger] es[k] matches EventView::NewEntry {
            vendor_id,
            category,
            ..
        } && vendor_id == "copilot-message"@ && category == "message"@)
}

/// Whether the events of a line add to the entry `id`.
pub open spec fn appends_to_entry(es: Seq<EventView>, id: Seq<char>) -> bool {
    exists|k: int|
        0 <= k < es.len() && (#[trigger] es[k] matches EventView::AppendToEntry {
            vendor_id,
            ..
        } && vendor_id == id)
}

/// Whether the events of a line end the session.
pub open spec fn ends_session(es: Seq<EventView>) -> bool {
    exists|k: int| 0 <= k < es.len() && #[trigger] es[k] is SessionEnded
}

/// Whether no line from number `from` up to `to` closes the entry `id`.
pub open spec fn none_closes(
    es: Seq<Seq<EventView>>,
    from: int,
    to: int,
    id: Seq<char>,
) -> bool {
    forall|m: int| from <= m < to ==> !closes_entry(#[trigger] es[m], id)
}

/// Whether no line from number `from` up to `to` ends the session.
pub open spec fn none_ends(es: Seq<Seq<EventView>>, from: int, to: int) -> bool {
    forall|m: int| from <= m < to ==> !ends_session(#[trigger] es[m])
}

/// Whether a line before number `i` opens the entry of the tool call `id`.
pub open spec fn opened_before(es: Seq<Seq<EventView>>, i: int, id: Seq<char>) -> bool {
    exists|j: int| 0 <= j < i && opens_call(#[trigger] es[j], id)
}

/// Whether a line before number `i` opens the entry of the tool call `id`, and no
/// line between the two closes it.
pub open spec fn open_since(es: Seq<Seq<EventView>>, i: int, id: Seq<char>) -> bool {
    exists|j: int|
        0 <= j < i && opens_call(#[trigger] es[j], id) && none_closes(es, j + 1, i, id)
}

/// Whether a line before number `i` opens the entry of a message, and no line
/// between the two ends the session.
pub open spec fn message_open_since(es: Seq<Seq<EventView>>, i: int) -> bool {
    exists|j: int| 0 <= j < i && opens_message(#[trigger] es[j]) && none_ends(es, j + 1, i)
}

/// No call is open twice in a session that begins with no call open twice.
pub proof fn law_session_keeps_calls_open_once(ls: Seq<Seq<u8>>, st: StateView)
    requires
        st.open_calls.no_duplicates(),
    ensures
        state_after(ls, st).open_calls.no_duplicates(),
    decreases ls.len(),
{
    if ls.len() > 0 {
        law_session_keeps_calls_open_once(ls.drop_last(), st);
        law_calls_are_open_once(line_text(ls.last()), state_after(ls.drop_last(), st));
    }
}

/// No call with an empty id is open in a session that begins with none.
pub proof fn law_no_empty_id_is_ever_open(ls: Seq<Seq<u8>>, st: StateView)
    requires
        no_id_is_empty(st),
    ensures
        no_id_is_empty(state_after(ls, st)),
    decreases ls.len(),
{
    if ls.len() > 0 {
        law_no_empty_id_is_ever_open(ls.drop_last(), st);
        law_no_empty_id_is_opened(line_text(ls.last()), state_after(ls.drop_last(), st));
    }
}

/// The same holds where the byte form of the state is handed from line to line.
pub proof fn law_no_empty_id_is_ever_open_in_bytes(ls: Seq<Seq<u8>>, b: Seq<u8>)
    requires
        no_id_is_empty(state_of_bytes(b)),
    ensures
        no_id_is_empty(state_of_bytes(bytes_after(ls, b))),
    decreases ls.len(),
{
    if ls.len() > 0 {
        let before = bytes_after(ls.drop_last(), b);
        law_no_empty_id_is_ever_open_in_bytes(ls.drop_last(), b);
        law_no_empty_id_is_opened(line_text(ls.last()), state_of_bytes(before));
        if line_text(ls.last()).len() > 0 {
            law_ids_stay_nonempty(line_step(ls.last(), state_of_bytes(before)).state);
        }
    }
}

/// A call that is open was open when the session began, or a line opened its entry.
/// Where no call was open twice when the session began, no line since closed it.
pub proof fn law_open_calls_have_entries(ls: Seq<Seq<u8>>, st: StateView, id: Seq<char>)
    requires
        state_after(ls, st).open_calls.contains(id),
    ensures
        ({
            let es = session_events(ls, st);
            let n = ls.len() as int;
            &&& st.open_calls.contains(id) || opened_before(es, n, id)
            &&& st.open_calls.no_duplicates() ==> (st.open_calls.contains(id) && none_closes(
                es,
                0,
                n,
                id,
            )) || open_since(es, n, id)
        }),
{
    lemma_states(ls, st);
    assert(ls.take(ls.len() as int) =~= ls);
    lemma_calls(states(ls, st), session_events(ls, st), ls.len() as int, id);
}

/// An entry that is closed was open when the session began, or an earlier line
/// opened it as that of a tool call. Where no call was open twice when the session
/// began, no line between the two closes it.
pub proof fn law_closed_entries_were_opened(
    ls: Seq<Seq<u8>>,
    st: StateView,
    i: int,
    id: Seq<char>,
)
    requires
        0 <= i < ls.len(),
        closes_entry(session_events(ls, st)[i], id),
    ensures
        ({
            let es = session_events(ls, st);
            &&& st.open_calls.contains(id) || opened_before(es, i, id)
            &&& st.open_calls.no_duplicates() ==> (st.open_calls.contains(id) && none_closes(
                es,
                0,
                i,
                id,
            )) || open_since(es, i, id)
        }),
{
    lemma_states(ls, st);
    lemma_calls(states(ls, st), session_events(ls, st), i, id);
}

/// The same holds where the byte form of the state is handed from line to line, if
/// every line is short enough for its ids to fit into the byte form.
pub proof fn law_closed_entries_were_opened_in_bytes(
    ls: Seq<Seq<u8>>,
    b: Seq<u8>,
    i: int,
    id: Seq<char>,
)
    requires
        0 <= i < ls.len(),
        forall|k: int| 0 <= k < ls.len() ==> (#[trigger] ls[k]).len() <= LIMIT,
        closes_entry(bytes_session_events(ls, b)[i], id),
    ensures
        ({
            let es = bytes_session_events(ls, b);
            let st = state_of_bytes(b);
            &&& st.open_calls.contains(id) || opened_before(es, i, id)
            &&& st.open_calls.no_duplicates() ==> (st.open_calls.contains(id) && none_closes(
                es,
                0,
                i,
                id,
            )) || open_since(es, i, id)
        }),
{
    lemma_bytes_states(ls, b);
    lemma_calls(bytes_states(ls, b), bytes_session_events(ls, b), i, id);
}

/// In a session that is read from its first line on, with the byte form of the
/// state handed from line to line, every entry that is closed was opened by an
/// earlier line as that of a tool call, and no line between the two closes it.
pub proof fn law_calls_of_a_session_are_closed_once(
    ls: Seq<Seq<u8>>,
    i: int,
    id: Seq<char>,
)
    requires
        0 <= i < ls.len(),
        forall|k: int| 0 <= k < ls.len() ==> (#[trigger] ls[k]).len() <= LIMIT,
        closes_entry(bytes_session_events(ls, seq![])[i], id),
    ensures
        open_since(bytes_session_events(ls, seq![]), i, id),
{
    law_closed_entries_were_opened_in_bytes(ls, seq![], i, id);
}

/// A message that is open was open when the session began, or a line opened its
/// entry, and no line since ended the session.
pub proof fn law_open_message_has_entry(ls: Seq<Seq<u8>>, st: StateView)
    requires
        state_after(ls, st).open_message,
    ensures
        ({
            let es = session_events(ls, st);
            let n = ls.len() as int;
            (st.open_message && none_ends(es, 0, n)) || message_open_since(es, n)
        }),
{
    lemma_states(ls, st);
    assert(ls.take(ls.len() as int) =~= ls);
    lemma_message(states(ls, st), session_events(ls, st), ls.len() as int);
}

/// Text is added to no other entry than that of a message. The message was open
/// when the session began, or an earlier line opened its entry, and no line between
/// the two ends the session.
pub proof fn law_appended_text_has_an_entry(
    ls: Seq<Seq<u8>>,
    st: StateView,
    i: int,
    id: Seq<char>,
)
    requires
        0 <= i < ls.len(),
        appends_to_entry(session_events(ls, st)[i], id),
    ensures
        ({
            let es = session_events(ls, st);
            &&& id == "copilot-message"@
            &&& (st.open_message && none_ends(es, 0, i)) || message_open_since(es, i)
        }),
{
    lemma_states(ls, st);
    lemma_message(states(ls, st), session_events(ls, st), i);
}

/// The same holds where the byte form of the state is handed from line to line.
pub proof fn law_appended_text_has_an_entry_in_bytes(
    ls: Seq<Seq<u8>>,
    b: Seq<u8>,
    i: int,
    id: Seq<char>,
)
    requires
        0 <= i < ls.len(),
        appends_to_entry(bytes_session_events(ls, b)[i], id),
    ensures
        ({
            let es = bytes_session_events(ls, b);
            &&& id == "copilot-message"@
            &&& (state_of_bytes(b).open_message && none_ends(es, 0, i)) || message_open_since(
                es,
                i,
            )
        }),
{
    lemma_bytes_messages(ls, b);
    lemma_message(bytes_states(ls, b), bytes_session_events(ls, b), i);
}

/// Between two lines that open the entry of a message a line ends the session.
pub proof fn law_session_ends_between_messages(
    ls: Seq<Seq<u8>>,
    st: StateView,
    i: int,
    j: int,
)
    requires
        0 <= i < j < ls.len(),
        opens_message(session_events(ls, st)[i]),
        opens_message(session_events(ls, st)[j]),
    ensures
        !none_ends(session_events(ls, st), i + 1, j),
{
    lemma_states(ls, st);
    lemma_message_ends(states(ls, st), session_events(ls, st), i + 1, j);
}

/// The same holds where the byte form of the state is handed from line to line.
pub proof fn law_session_ends_between_messages_in_bytes(
    ls: Seq<Seq<u8>>,
    b: Seq<u8>,
    i: int,
    j: int,
)
    requires
        0 <= i < j < ls.len(),
        opens_message(bytes_session_events(ls, b)[i]),
        opens_message(bytes_session_events(ls, b)[j]),
    ensures
        !none_ends(bytes_session_events(ls, b), i + 1, j),
{
    lemma_bytes_messages(ls, b);
    lemma_message_ends(bytes_states(ls, b), bytes_session_events(ls, b), i + 1, j);
}

// ---------------------------------------------------------------------------
// The states of a session
// ---------------------------------------------------------------------------

/// The states before each line, and the one after the last.
spec fn states(ls: Seq<Seq<u8>>, st: StateView) -> Seq<StateView> {
    Seq::new(ls.len() + 1, |i: int| state_after(ls.take(i), st))
}

/// The states whose byte forms are handed from line to line.
spec fn bytes_states(ls: Seq<Seq<u8>>, b: Seq<u8>) -> Seq<StateView> {
    Seq::new(ls.len() + 1, |i: int| state_of_bytes(bytes_after(ls.take(i), b)))
}

/// What the events of a line say of the open calls before it and after it.
spec fn calls_follow(
    before: Seq<Seq<char>>,
    es: Seq<EventView>,
    after: Seq<Seq<char>>,
) -> bool {
    &&& before.no_duplicates() ==> after.no_duplicates()
    &&& forall|id: Seq<char>| #[trigger]
        after.contains(id) && !before.contains(id) ==> opens_call(es, id)
    &&& forall|id: Seq<char>| #[trigger]
        closes_entry(es, id) ==> before.contains(id) && (before.no_duplicates()
            ==> !after.contains(id))
}

/// What the events of a line say of the open message before it and after it.
spec fn message_follows(before: bool, es: Seq<EventView>, after: bool) -> bool {
    &&& opens_message(es) ==> !before && after
    &&& after && !before ==> opens_message(es)
    &&& ends_session(es) ==> !after
    &&& before && !after ==> ends_session(es)
    &&& forall|id: Seq<char>| #[trigger]
        appends_to_entry(es, id) ==> before && id == "copilot-message"@
}

proof fn lemma_line(line: Seq<u8>, st: StateView)
    ensures
        calls_follow(
            st.open_calls,
            line_step(line, st).events,
            line_step(line, st).state.open_calls,
        ),
        message_follows(
            st.open_message,
            line_step(line, st).events,
            line_step(line, st).state.open_message,
        ),
{
    let text = line_text(line);
    let (es, after) = (line_step(line, st).events, line_step(line, st).state);
    lemma_types_differ();
    if text.len() == 0 {
    } else if is_start(text) {
        if let Some(call) = started_call(text) {
            lemma_call_is_no_message(call);
            assert(es[0] == call_entry(call));
            lemma_calls_are_open_once(text, st);
            assert forall|id: Seq<char>| #[trigger]
                after.open_calls.contains(id) && !st.open_calls.contains(id) implies opens_call(
                es,
                id,
            ) by {
                law_insert(st.open_calls, call.id, id);
            }
        }
    } else if is_complete(text) {
        let id = completed_call(text);
        if id.len() > 0 && st.open_calls.contains(id) {
            assert(es[0] == close_entry(text));
            lemma_calls_are_open_once(text, st);
            assert forall|other: Seq<char>| #[trigger]
                after.open_calls.contains(other) implies st.open_calls.contains(other) by {
                lemma_without_call_shrinks(st.open_calls, id, other);
            }
            if st.open_calls.no_duplicates() {
                law_remove(st.open_calls, id, id);
            }
        }
    } else if is_message(text) {
        if message_text(text).len() > 0 && !st.open_message {
            assert(es[0]->NewEntry_category == "message"@);
        }
    } else if is_result(text) {
        assert(es.last() is SessionEnded);
    }
}

proof fn lemma_calls_are_open_once(text: Seq<char>, st: StateView)
    ensures
        st.open_calls.no_duplicates() ==> step(text, st).state.open_calls.no_duplicates(),
{
    if st.open_calls.no_duplicates() {
        law_calls_are_open_once(text, st);
    }
}

proof fn lemma_call_is_no_message(call: CallView)
    ensures
        call_entry(call)->NewEntry_category != "message"@,
{
    law_tool_categories(call.name, call.args);
    reveal_strlit("message");
    reveal_strlit("list");
    reveal_strlit("move");
    reveal_strlit("create");
    reveal_strlit("delete");
    reveal_strlit("write");
    reveal_strlit("git");
    reveal_strlit("build");
    reveal_strlit("run");
    reveal_strlit("read");
    assert("message"@.len() == 7);
    assert(call_entry(call)->NewEntry_category.len() < 7);
}

proof fn lemma_without_call_shrinks(ks: Seq<Seq<char>>, id: Seq<char>, other: Seq<char>)
    ensures
        without_call(ks, id).contains(other) ==> ks.contains(other),
{
    if let Some(k) = call_index(ks, id, 0) {
        lemma_call_index(ks, id, 0);
        let ls = ks.remove(k);
        if ls.contains(other) {
            let j = choose|j: int| 0 <= j < ls.len() && ls[j] == other;
            if j < k {
                assert(ks[j] == other);
            } else {
                assert(ks[j + 1] == other);
            }
        }
    }
}

/// A tool call's id takes no more bytes than the line that says it began.
proof fn lemma_call_id_fits(line: Seq<u8>)
    ensures
        started_call(line_text(line)) matches Some(call) ==> encode_utf8(call.id).len()
            <= line.len(),
{
    let text = line_text(line);
    if valid_utf8(line) {
        let all = decode_utf8(line);
        let from = skip_white(all, 0);
        let rest = trimmed_start(all);
        let to = text_end(rest, rest.len() as int);
        decode_utf8_encode_utf8(line);
        lemma_skip_white(all, 0);
        lemma_text_end(rest, rest.len() as int);
        assert(text =~= all.subrange(from, from + to));
        lemma_encode_subrange(all, from, from + to);
    }
    law_values_are_no_longer_than_the_line(text, "data"@);
    if let Some(data) = object_value(text, "data"@) {
        law_values_are_no_longer_than_the_line(data, "toolCallId"@);
    }
}

proof fn lemma_bytes_line(line: Seq<u8>, b: Seq<u8>)
    ensures
        line.len() <= LIMIT ==> calls_follow(
            state_of_bytes(b).open_calls,
            bytes_step(line, b).1,
            state_of_bytes(bytes_step(line, b).0).open_calls,
        ),
        message_follows(
            state_of_bytes(b).open_message,
            bytes_step(line, b).1,
            state_of_bytes(bytes_step(line, b).0).open_message,
        ),
{
    let st = state_of_bytes(b);
    let after = line_step(line, st).state;
    lemma_line(line, st);
    law_decode_after_encode(after);
    if line_text(line).len() > 0 && line.len() <= LIMIT {
        law_decoded_fits(b);
        lemma_call_id_fits(line);
        assert forall|i: int| 0 <= i < after.open_calls.len() implies encode_utf8(
            #[trigger] after.open_calls[i],
        ).len() <= LIMIT by {
            let id = after.open_calls[i];
            assert(after.open_calls.contains(id));
            if st.open_calls.contains(id) {
                let k = choose|k: int| 0 <= k < st.open_calls.len() && st.open_calls[k] == id;
                assert(encode_utf8(st.open_calls[k]).len() <= LIMIT);
            } else {
                lemma_new_call(line, st, id);
            }
        }
        law_stored_calls_are_read_back(after);
        let kept = stored_calls(after.open_calls);
        assert forall|id: Seq<char>| #[trigger] kept.contains(id) implies after.open_calls.contains(
            id,
        ) by {
            let k = choose|k: int| 0 <= k < kept.len() && kept[k] == id;
            assert(after.open_calls[k] == id);
        }
    }
}

proof fn lemma_new_call(line: Seq<u8>, st: StateView, id: Seq<char>)
    requires
        line_step(line, st).state.open_calls.contains(id),
        !st.open_calls.contains(id),
    ensures
        started_call(line_text(line)) matches Some(call) && call.id == id,
{
    let text = line_text(line);
    lemma_types_differ();
    if is_start(text) {
        if let Some(call) = started_call(text) {
            law_insert(st.open_calls, call.id, id);
        }
    } else if is_complete(text) {
        lemma_without_call_shrinks(st.open_calls, completed_call(text), id);
    }
}

proof fn lemma_states(ls: Seq<Seq<u8>>, st: StateView)
    ensures
        states(ls, st)[0] == st,
        forall|i: int|
            0 <= i < ls.len() ==> calls_follow(
                states(ls, st)[i].open_calls,
                #[trigger] session_events(ls, st)[i],
                states(ls, st)[i + 1].open_calls,
            ) && message_follows(
                states(ls, st)[i].open_message,
                session_events(ls, st)[i],
                states(ls, st)[i + 1].open_message,
            ),
{
    assert forall|i: int| 0 <= i < ls.len() implies calls_follow(
        states(ls, st)[i].open_calls,
        #[trigger] session_events(ls, st)[i],
        states(ls, st)[i + 1].open_calls,
    ) && message_follows(
        states(ls, st)[i].open_message,
        session_events(ls, st)[i],
        states(ls, st)[i + 1].open_message,
    ) by {
        lemma_line(ls[i], state_after(ls.take(i), st));
        assert(ls.take(i + 1).drop_last() =~= ls.take(i));
    }
}

proof fn lemma_bytes_messages(ls: Seq<Seq<u8>>, b: Seq<u8>)
    ensures
        bytes_states(ls, b)[0] == state_of_bytes(b),
        forall|i: int|
            0 <= i < ls.len() ==> message_follows(
                bytes_states(ls, b)[i].open_message,
                #[trigger] bytes_session_events(ls, b)[i],
                bytes_states(ls, b)[i + 1].open_message,
            ),
{
    assert forall|i: int| 0 <= i < ls.len() implies message_follows(
        bytes_states(ls, b)[i].open_message,
        #[trigger] bytes_session_events(ls, b)[i],
        bytes_states(ls, b)[i + 1].open_message,
    ) by {
        lemma_bytes_line(ls[i], bytes_after(ls.take(i), b));
        assert(ls.take(i + 1).drop_last() =~= ls.take(i));
    }
}

proof fn lemma_bytes_states(ls: Seq<Seq<u8>>, b: Seq<u8>)
    requires
        forall|k: int| 0 <= k < ls.len() ==> (#[trigger] ls[k]).len() <= LIMIT,
    ensures
        bytes_states(ls, b)[0] == state_of_bytes(b),
        forall|i: int|
            0 <= i < ls.len() ==> calls_follow(
                bytes_states(ls, b)[i].open_calls,
                #[trigger] bytes_session_events(ls, b)[i],
                bytes_states(ls, b)[i + 1].open_calls,
            ),
{
    assert forall|i: int| 0 <= i < ls.len() implies calls_follow(
        bytes_states(ls, b)[i].open_calls,
        #[trigger] bytes_session_events(ls, b)[i],
        bytes_states(ls, b)[i + 1].open_calls,
    ) by {
        lemma_bytes_line(ls[i], bytes_after(ls.take(i), b));
        assert(ls.take(i + 1).drop_last() =~= ls.take(i));
    }
}

/// A call that is open before line `i`, or whose entry line `i` closes, was open
/// when the session began or was opened since.
proof fn lemma_calls(
    sts: Seq<StateView>,
    es: Seq<Seq<EventView>>,
    i: int,
    id: Seq<char>,
)
    requires
        0 <= i <= es.len(),
        forall|k: int|
            0 <= k < es.len() ==> calls_follow(
                sts[k].open_calls,
                #[trigger] es[k],
                sts[k + 1].open_calls,
            ),
        sts[i].open_calls.contains(id) || (i < es.len() && closes_entry(es[i], id)),
    ensures
        sts[0].open_calls.contains(id) || opened_before(es, i, id),
        sts[0].open_calls.no_duplicates() ==> (sts[0].open_calls.contains(id) && none_closes(
            es,
            0,
            i,
            id,
        )) || open_since(es, i, id),
    decreases i,
{
    if i < es.len() {
        assert(calls_follow(sts[i].open_calls, es[i], sts[i + 1].open_calls));
    }
    assert(sts[i].open_calls.contains(id));
    if i > 0 {
        let (before, after) = (sts[i - 1].open_calls, sts[i].open_calls);
        assert(calls_follow(before, es[i - 1], after));
        lemma_no_call_twice(sts, es, i - 1);
        if opens_call(es[i - 1], id) {
            assert(none_closes(es, i, i, id));
        } else {
            assert(before.contains(id));
            lemma_calls(sts, es, i - 1, id);
            if sts[0].open_calls.no_duplicates() {
                assert(!closes_entry(es[i - 1], id));
                if open_since(es, i - 1, id) {
                    let j = choose|j: int|
                        0 <= j < i - 1 && opens_call(#[trigger] es[j], id) && none_closes(
                            es,
                            j + 1,
                            i - 1,
                            id,
                        );
                    assert(none_closes(es, j + 1, i, id));
                }
            }
        }
    }
}

proof fn lemma_no_call_twice(sts: Seq<StateView>, es: Seq<Seq<EventView>>, i: int)
    requires
        0 <= i <= es.len(),
        forall|k: int|
            0 <= k < es.len() ==> calls_follow(
                sts[k].open_calls,
                #[trigger] es[k],
                sts[k + 1].open_calls,
            ),
    ensures
        sts[0].open_calls.no_duplicates() ==> sts[i].open_calls.no_duplicates(),
    decreases i,
{
    if i > 0 {
        lemma_no_call_twice(sts, es, i - 1);
        assert(calls_follow(sts[i - 1].open_calls, es[i - 1], sts[i].open_calls));
    }
}

/// A message that is open before line `i` was open when the session began or was
/// opened since, and the session did not end since.
proof fn lemma_message(sts: Seq<StateView>, es: Seq<Seq<EventView>>, i: int)
    requires
        0 <= i <= es.len(),
        forall|k: int|
            0 <= k < es.len() ==> message_follows(
                sts[k].open_message,
                #[trigger] es[k],
                sts[k + 1].open_message,
            ),
    ensures
        sts[i].open_message ==> (sts[0].open_message && none_ends(es, 0, i))
            || message_open_since(es, i),
    decreases i,
{
    if i > 0 && sts[i].open_message {
        assert(message_follows(sts[i - 1].open_message, es[i - 1], sts[i].open_message));
        if opens_message(es[i - 1]) {
            assert(none_ends(es, i, i));
        } else {
            lemma_message(sts, es, i - 1);
            if message_open_since(es, i - 1) {
                let j = choose|j: int|
                    0 <= j < i - 1 && opens_message(#[trigger] es[j]) && none_ends(
                        es,
                        j + 1,
                        i - 1,
                    );
                assert(none_ends(es, j + 1, i));
            }
        }
    }
}

/// A message that is open before line `i` and not before line `j` was closed by the
/// end of the session.
proof fn lemma_message_ends(sts: Seq<StateView>, es: Seq<Seq<EventView>>, i: int, j: int)
    requires
        0 < i <= j < es.len(),
        forall|k: int|
            0 <= k < es.len() ==> message_follows(
                sts[k].open_message,
                #[trigger] es[k],
                sts[k + 1].open_message,
            ),
        opens_message(es[i - 1]) || sts[i].open_message,
        opens_message(es[j]),
    ensures
        !none_ends(es, i, j),
    decreases j - i,
{
    assert(message_follows(sts[i - 1].open_message, es[i - 1], sts[i].open_message));
    assert(message_follows(sts[j].open_message, es[j], sts[j + 1].open_message));
    assert(message_follows(sts[i].open_message, es[i], sts[i + 1].open_message));
    if !ends_session(es[i]) {
        lemma_message_ends(sts, es, i + 1, j);
    }
}

} // verus!
