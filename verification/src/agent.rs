//! Reading the agent's output line by line.
//!
//! Each line is one JSON object whose `type` says what happened: a tool call
//! began or ended, the assistant said something, or the session is over.
use vstd::prelude::*;
use vstd::slice::slice_to_vec;
use vstd::utf8::*;
use crate::events::{no_events, one_event, views, AgentEvent, EventView};
use crate::json::{
    bool_value, int_value, json_bool, json_int, json_object_raw, json_str, object_value, str_value,
};
use crate::split::{lines, split_lines, trim, trimmed};
use crate::state::{state_bytes, state_of_bytes, with_call, without_call, ParseState, StateView};
use crate::text::{or_empty, same, texts};
use crate::tools::{can_classify, classify_tool, cuts_cleanly, tool_class};

verus! {

/// What a line does: the state after it, and the events that it gives.
pub struct Step {
    pub state: StateView,
    pub events: Seq<EventView>,
}

/// The step that changes nothing and gives no event.
pub open spec fn no_step(st: StateView) -> Step {
    Step { state: st, events: seq![] }
}

// ---------------------------------------------------------------------------
// A tool call begins
// ---------------------------------------------------------------------------

/// The tools whose calls are not shown.
pub open spec fn is_internal_tool(name: Seq<char>) -> bool {
    name == "report_intent"@
}

/// A tool call that begins.
pub struct CallView {
    pub id: Seq<char>,
    pub name: Seq<char>,
    pub args: Seq<char>,
}

/// The arguments of a tool call: the text of an object, or a string.
pub open spec fn call_arguments(data: Seq<char>) -> Seq<char> {
    match object_value(data, "arguments"@) {
        Some(args) => args,
        None => or_empty(str_value(data, "arguments"@)),
    }
}

/// The tool call that a line of type `tool.execution_start` shows: it has an id
/// and the name of a tool that is not internal.
pub open spec fn started_call(line: Seq<char>) -> Option<CallView> {
    match object_value(line, "data"@) {
        Some(data) => {
            let id = or_empty(str_value(data, "toolCallId"@));
            let name = or_empty(str_value(data, "toolName"@));
            if id.len() == 0 || name.len() == 0 || is_internal_tool(name) {
                None
            } else {
                Some(CallView { id, name, args: call_arguments(data) })
            }
        },
        None => None,
    }
}

/// The event that opens the entry of a tool call.
pub open spec fn call_entry(call: CallView) -> EventView {
    let shown = tool_class(call.name, call.args);
    EventView::NewEntry {
        vendor_id: call.id,
        tool: shown.label,
        category: shown.category,
        raw_cmd: shown.raw_cmd,
        file_paths: shown.file_paths,
    }
}

/// What a line of type `tool.execution_start` does.
pub open spec fn start_step(line: Seq<char>, st: StateView) -> Step {
    match started_call(line) {
        Some(call) => Step {
            state: StateView { open_calls: with_call(st.open_calls, call.id), ..st },
            events: seq![call_entry(call)],
        },
        None => no_step(st),
    }
}

// ---------------------------------------------------------------------------
// A tool call ends
// ---------------------------------------------------------------------------

/// The id of the tool call that a line of type `tool.execution_complete` ends,
/// empty where there is none.
pub open spec fn completed_call(line: Seq<char>) -> Seq<char> {
    match object_value(line, "data"@) {
        Some(data) => or_empty(str_value(data, "toolCallId"@)),
        None => seq![],
    }
}

/// The exit code of a tool call: zero unless it did not succeed.
pub open spec fn exit_code(data: Seq<char>) -> i32 {
    if bool_value(data, "success"@) == Some(false) {
        1
    } else {
        0
    }
}

/// What a tool call printed.
pub open spec fn call_output(data: Seq<char>) -> Seq<char> {
    match object_value(data, "result"@) {
        Some(result) => or_empty(str_value(result, "content"@)),
        None => seq![],
    }
}

/// Whether a line of what a tool call printed is shown.
pub open spec fn is_shown(line: Seq<char>) -> bool {
    line.len() > 0 && line != "<exited with exit code 0>"@
}

/// The lines of `content` that are shown.
pub open spec fn shown_lines(content: Seq<char>) -> Seq<Seq<char>> {
    lines(content).filter(|l: Seq<char>| is_shown(l))
}

/// The event that closes the entry of a tool call.
pub open spec fn close_entry(line: Seq<char>) -> EventView {
    let data = or_empty(object_value(line, "data"@));
    EventView::CloseEntry {
        vendor_id: completed_call(line),
        exit_code: exit_code(data),
        output_lines: shown_lines(call_output(data)),
    }
}

/// What a line of type `tool.execution_complete` does: nothing unless the call is
/// open.
pub open spec fn complete_step(line: Seq<char>, st: StateView) -> Step {
    let id = completed_call(line);
    if id.len() == 0 || !st.open_calls.contains(id) {
        no_step(st)
    } else {
        Step {
            state: StateView { open_calls: without_call(st.open_calls, id), ..st },
            events: seq![close_entry(line)],
        }
    }
}

// ---------------------------------------------------------------------------
// The assistant says something
// ---------------------------------------------------------------------------

/// What the assistant says in a line of type `assistant.message`.
pub open spec fn message_text(line: Seq<char>) -> Seq<char> {
    match object_value(line, "data"@) {
        Some(data) => trimmed(or_empty(str_value(data, "content"@))),
        None => seq![],
    }
}

/// What a line of type `assistant.message` does: the first text opens the entry
/// of the message, and the ones that follow are added to it.
pub open spec fn message_step(line: Seq<char>, st: StateView) -> Step {
    let text = message_text(line);
    if text.len() == 0 {
        no_step(st)
    } else if !st.open_message {
        Step {
            state: StateView { open_message: true, ..st },
            events: seq![
                EventView::NewEntry {
                    vendor_id: "copilot-message"@,
                    tool: text,
                    category: "message"@,
                    raw_cmd: seq![],
                    file_paths: seq![],
                },
            ],
        }
    } else {
        Step {
            state: st,
            events: seq![EventView::AppendToEntry { vendor_id: "copilot-message"@, text }],
        }
    }
}

// ---------------------------------------------------------------------------
// The session is over
// ---------------------------------------------------------------------------

/// The event that tells the session's id, where the line has it.
pub open spec fn session_id(line: Seq<char>) -> Seq<EventView> {
    match str_value(line, "sessionId"@) {
        Some(id) => seq![EventView::SessionIDAvailable(id)],
        None => seq![],
    }
}

/// Whether the session ended well: with exit code zero, or with none.
pub open spec fn ended_well(line: Seq<char>) -> bool {
    match int_value(line, "exitCode"@) {
        Some(n) => n == 0,
        None => true,
    }
}

/// What a line of type `result` does: it tells the session's id, then that the
/// session is over, and closes the message.
pub open spec fn result_step(line: Seq<char>, st: StateView) -> Step {
    Step {
        state: StateView { open_message: false, ..st },
        events: session_id(line).push(EventView::SessionEnded { success: ended_well(line) }),
    }
}

// ---------------------------------------------------------------------------
// Any line
// ---------------------------------------------------------------------------

/// What a line does in the state `st`.
pub open spec fn step(line: Seq<char>, st: StateView) -> Step {
    match str_value(line, "type"@) {
        Some(t) => if t == "tool.execution_start"@ {
            start_step(line, st)
        } else if t == "tool.execution_complete"@ {
            complete_step(line, st)
        } else if t == "assistant.message"@ {
            message_step(line, st)
        } else if t == "result"@ {
            result_step(line, st)
        } else {
            no_step(st)
        },
        None => no_step(st),
    }
}

/// Whether a line can be read: where it begins a tool call, the arguments of the
/// call are cut inside no character.
pub open spec fn readable_line(line: Seq<char>) -> bool {
    str_value(line, "type"@) == Some("tool.execution_start"@) ==> match started_call(line) {
        Some(call) => cuts_cleanly(call.name, call.args),
        None => true,
    }
}

/// The text of a line's bytes without white space around it; nothing where they
/// are not UTF-8.
pub open spec fn line_text(line: Seq<u8>) -> Seq<char> {
    if valid_utf8(line) {
        trimmed(decode_utf8(line))
    } else {
        seq![]
    }
}

/// What the bytes of a line do in the state `st`; nothing where they are not UTF-8
/// or hold white space only.
pub open spec fn line_step(line: Seq<u8>, st: StateView) -> Step {
    if line_text(line).len() == 0 {
        no_step(st)
    } else {
        step(line_text(line), st)
    }
}

/// What the bytes of a line do to the byte form of the state, and the events that
/// they give. A line that does nothing gives the byte form back as it is.
pub open spec fn bytes_step(line: Seq<u8>, state: Seq<u8>) -> (Seq<u8>, Seq<EventView>) {
    let after = line_step(line, state_of_bytes(state));
    if line_text(line).len() == 0 {
        (state, after.events)
    } else {
        (state_bytes(after.state), after.events)
    }
}

/// The tool call that a line of type `tool.execution_start` shows: its id, the
/// name of the tool and the arguments.
fn read_started_call(line: &str) -> (r: Option<(String, String, String)>)
    ensures
        match r {
            Some((id, name, args)) => started_call(line@) == Some(
                (CallView { id: id@, name: name@, args: args@ }),
            ),
            None => started_call(line@) is None,
        },
{
    let data_raw = json_object_raw(line, "data")?;
    let data = data_raw.as_str();
    let tool_call_id = json_str(data, "toolCallId").unwrap_or_default();
    let tool_name = json_str(data, "toolName").unwrap_or_default();
    if tool_call_id.as_str().is_empty() || tool_name.as_str().is_empty() || same(
        tool_name.as_str(),
        "report_intent",
    ) {
        return None;
    }
    let args = match json_object_raw(data, "arguments") {
        Some(args) => args,
        None => json_str(data, "arguments").unwrap_or_default(),
    };
    Some((tool_call_id, tool_name, args))
}

/// Reads a line of type `tool.execution_start`.
fn parse_tool_start(line: &str, ps: &mut ParseState) -> (r: Vec<AgentEvent>)
    requires
        match started_call(line@) {
            Some(call) => cuts_cleanly(call.name, call.args),
            None => true,
        },
    ensures
        (Step { state: final(ps)@, events: views(r@) }) == start_step(line@, old(ps)@),
{
    match read_started_call(line) {
        Some((tool_call_id, tool_name, args)) => {
            let (tool, category, file_paths, raw_cmd) = classify_tool(
                tool_name.as_str(),
                args.as_str(),
            );
            ps.insert(tool_call_id.clone());
            one_event(
                AgentEvent::NewEntry { vendor_id: tool_call_id, tool, category, raw_cmd, file_paths },
            )
        },
        None => no_events(),
    }
}

/// The lines of `content` that are shown.
fn output_lines(content: &str) -> (r: Vec<String>)
    ensures
        texts(r@) == shown_lines(content@),
{
    let ls = split_lines(content);
    let ghost all = lines(content@);
    let ghost keep = |l: Seq<char>| is_shown(l);
    let mut out: Vec<String> = Vec::new();
    let mut i: usize = 0;
    assert(all.take(0).filter(keep) =~= seq![]) by {
        reveal(Seq::filter);
    }
    assert(texts(out@) =~= seq![]);
    while i < ls.len()
        invariant
            all == texts(ls@),
            keep == (|l: Seq<char>| is_shown(l)),
            i <= ls@.len(),
            texts(out@) == all.take(i as int).filter(keep),
        decreases ls@.len() - i,
    {
        let ghost gathered = out@;
        assert(all.take(i + 1).drop_last() =~= all.take(i as int));
        assert(all.take(i + 1).last() == ls@[i as int]@);
        proof {
            reveal(Seq::filter);
        }
        let l = ls[i].as_str();
        if !l.is_empty() && !same(l, "<exited with exit code 0>") {
            out.push(ls[i].clone());
            assert(texts(out@) =~= texts(gathered).push(ls@[i as int]@));
        }
        i = i + 1;
    }
    assert(all.take(i as int) =~= all);
    out
}

/// Reads a line of type `tool.execution_complete`.
fn parse_tool_complete(line: &str, ps: &mut ParseState) -> (r: Vec<AgentEvent>)
    ensures
        (Step { state: final(ps)@, events: views(r@) }) == complete_step(line@, old(ps)@),
{
    let data_raw = match json_object_raw(line, "data") {
        Some(data_raw) => data_raw,
        None => return no_events(),
    };
    let data = data_raw.as_str();
    let tool_call_id = json_str(data, "toolCallId").unwrap_or_default();
    if tool_call_id.as_str().is_empty() {
        return no_events();
    }
    if !ps.remove(tool_call_id.as_str()) {
        proof {
            crate::state::law_remove_absent(old(ps)@.open_calls, tool_call_id@);
        }
        return no_events();
    }
    let success = json_bool(data, "success").unwrap_or(true);
    let exit_code: i32 = if success {
        0
    } else {
        1
    };
    let content = match json_object_raw(data, "result") {
        Some(result_raw) => json_str(result_raw.as_str(), "content").unwrap_or_default(),
        None => String::new(),
    };
    one_event(
        AgentEvent::CloseEntry {
            vendor_id: tool_call_id,
            exit_code,
            output_lines: output_lines(content.as_str()),
        },
    )
}

/// Reads a line of type `assistant.message`.
pub fn parse_assistant_message(line: &str, ps: &mut ParseState) -> (r: Vec<AgentEvent>)
    ensures
        (Step { state: final(ps)@, events: views(r@) }) == message_step(line@, old(ps)@),
{
    let text = match json_object_raw(line, "data") {
        Some(data_raw) => trim(
            json_str(data_raw.as_str(), "content").unwrap_or_default().as_str(),
        ),
        None => String::new(),
    };
    if text.as_str().is_empty() {
        return no_events();
    }
    if !ps.open_message {
        ps.open_message = true;
        let file_paths: Vec<String> = Vec::new();
        assert(texts(file_paths@) =~= seq![]);
        return one_event(
            AgentEvent::NewEntry {
                vendor_id: "copilot-message".to_owned(),
                tool: text,
                category: "message".to_owned(),
                raw_cmd: String::new(),
                file_paths,
            },
        );
    }
    one_event(AgentEvent::AppendToEntry { vendor_id: "copilot-message".to_owned(), text })
}

/// Reads a line of type `result`.
fn parse_result(line: &str, ps: &mut ParseState) -> (r: Vec<AgentEvent>)
    ensures
        (Step { state: final(ps)@, events: views(r@) }) == result_step(line@, old(ps)@),
{
    let mut events = match json_str(line, "sessionId") {
        Some(sid) => one_event(AgentEvent::SessionIDAvailable(sid)),
        None => no_events(),
    };
    let exit_code = json_int(line, "exitCode").unwrap_or(0);
    ps.open_message = false;
    let end = AgentEvent::SessionEnded { success: exit_code == 0 };
    let ghost told = events@;
    events.push(end);
    assert(views(events@) =~= views(told).push(end@));
    events
}

/// Reads one line of the agent's output: the events that it gives, with the state
/// brought up to date.
pub fn parse_copilot_line(line: &str, ps: &mut ParseState) -> (r: Vec<AgentEvent>)
    requires
        readable_line(line@),
    ensures
        (Step { state: final(ps)@, events: views(r@) }) == step(line@, old(ps)@),
{
    let type_val = match json_str(line, "type") {
        Some(t) => t,
        None => return no_events(),
    };
    let t = type_val.as_str();
    if same(t, "tool.execution_start") {
        parse_tool_start(line, ps)
    } else if same(t, "tool.execution_complete") {
        parse_tool_complete(line, ps)
    } else if same(t, "assistant.message") {
        parse_assistant_message(line, ps)
    } else if same(t, "result") {
        parse_result(line, ps)
    } else {
        no_events()
    }
}

/// Reads one line of the agent's output, with the state before it and after it in
/// byte form. A line that is not UTF-8, or holds white space only, gives the state
/// back byte for byte and no event.
pub fn agent_parse_line(line: &[u8], state: &[u8]) -> (r: (Vec<u8>, Vec<AgentEvent>))
    requires
        readable_line(line_text(line@)),
    ensures
        (r.0@, views(r.1@)) == bytes_step(line@, state@),
{
    let line_str = match std::str::from_utf8(line) {
        Ok(s) => trim(s),
        Err(_) => return (slice_to_vec(state), no_events()),
    };
    if line_str.as_str().is_empty() {
        return (slice_to_vec(state), no_events());
    }
    let mut ps = ParseState::decode(state);
    let events = parse_copilot_line(line_str.as_str(), &mut ps);
    (ps.encode(), events)
}

/// Whether [`agent_parse_line`] can read the line: where it begins a tool call, the
/// arguments of the call are cut inside no character.
pub fn can_parse_line(line: &[u8]) -> (r: bool)
    ensures
        r == readable_line(line_text(line@)),
{
    let line_str = match std::str::from_utf8(line) {
        Ok(s) => trim(s),
        Err(_) => String::new(),
    };
    match json_str(line_str.as_str(), "type") {
        Some(t) => if same(t.as_str(), "tool.execution_start") {
            match read_started_call(line_str.as_str()) {
                Some((_, tool_name, args)) => can_classify(tool_name.as_str(), args.as_str()),
                None => true,
            }
        } else {
            true
        },
        None => true,
    }
}

} // verus!
