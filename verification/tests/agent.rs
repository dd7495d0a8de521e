use copilot_agent::agent::{
    agent_parse_line, can_parse_line, parse_assistant_message, parse_copilot_line,
};
use copilot_agent::events::AgentEvent;
use copilot_agent::state::ParseState;

fn strings(v: &[&str]) -> Vec<String> {
    v.iter().map(|s| s.to_string()).collect()
}

fn state(calls: &[&str], open_message: bool) -> ParseState {
    ParseState { open_calls: strings(calls), open_message }
}

fn parse(line: &str, state: &[u8]) -> (Vec<u8>, Vec<AgentEvent>) {
    assert!(can_parse_line(line.as_bytes()));
    agent_parse_line(line.as_bytes(), state)
}

const START: &str = "{\"type\":\"tool.execution_start\",\"timestamp\":\"t\",\"data\":{\"toolCallId\":\"c1\",\"toolName\":\"bash\",\"arguments\":{\"command\":\"ls src/\"}}}";
const COMPLETE: &str = "{\"type\":\"tool.execution_complete\",\"timestamp\":\"t\",\"data\":{\"toolCallId\":\"c1\",\"success\":true,\"result\":{\"content\":\"a.rs\\n\\nb.rs\\r\\n<exited with exit code 0>\\n\"}}}";
const MESSAGE: &str = "{\"type\":\"assistant.message\",\"timestamp\":\"t\",\"data\":{\"content\":\"  Hello\\nthere \"}}";
const RESULT: &str = "{\"type\":\"result\",\"exitCode\":0,\"sessionId\":\"s-1\"}";

fn start_event() -> AgentEvent {
    AgentEvent::NewEntry {
        vendor_id: "c1".to_string(),
        tool: "List ls".to_string(),
        category: "list".to_string(),
        raw_cmd: "ls src/".to_string(),
        file_paths: strings(&["src/"]),
    }
}

#[test]
fn tool_call_begins() {
    let (st, events) = parse(START, &[]);
    assert_eq!(events, vec![start_event()]);
    assert_eq!(ParseState::decode(&st), state(&["c1"], false));
}

#[test]
fn tool_call_ends() {
    let (st, events) = parse(COMPLETE, &state(&["c0", "c1"], true).encode());
    assert_eq!(
        events,
        vec![AgentEvent::CloseEntry {
            vendor_id: "c1".to_string(),
            exit_code: 0,
            output_lines: strings(&["a.rs", "b.rs"]),
        }]
    );
    assert_eq!(ParseState::decode(&st), state(&["c0"], true));
}

#[test]
fn tool_call_begins_and_ends() {
    let before = state(&["x"], true).encode();
    let (st, first) = parse(START, &before);
    let (st, second) = parse(COMPLETE, &st);
    assert_eq!(st, before);
    assert_eq!(first.len(), 1);
    assert_eq!(second.len(), 1);
    let (again, third) = parse(COMPLETE, &st);
    assert_eq!(again, st);
    assert!(third.is_empty());
}

#[test]
fn tool_call_that_failed() {
    let line = "{\"type\":\"tool.execution_complete\",\"data\":{\"toolCallId\":\"c\",\"success\": false}}";
    let (_, events) = parse(line, &state(&["c"], false).encode());
    assert_eq!(
        events,
        vec![AgentEvent::CloseEntry {
            vendor_id: "c".to_string(),
            exit_code: 1,
            output_lines: vec![],
        }]
    );
    let line = "{\"type\":\"tool.execution_complete\",\"data\":{\"toolCallId\":\"c\"}}";
    let (_, events) = parse(line, &state(&["c"], false).encode());
    assert_eq!(
        events,
        vec![AgentEvent::CloseEntry {
            vendor_id: "c".to_string(),
            exit_code: 0,
            output_lines: vec![],
        }]
    );
}

#[test]
fn lines_that_end_no_call() {
    let st = state(&["other"], true).encode();
    for line in [
        COMPLETE,
        "{\"type\":\"tool.execution_complete\"}",
        "{\"type\":\"tool.execution_complete\",\"data\":{}}",
        "{\"type\":\"tool.execution_complete\",\"data\":{\"toolCallId\":\"\"}}",
    ] {
        let (after, events) = parse(line, &st);
        assert_eq!(after, st);
        assert!(events.is_empty());
    }
}

#[test]
fn lines_that_begin_no_call() {
    let st = state(&["other"], false).encode();
    for line in [
        "{\"type\":\"tool.execution_start\"}",
        "{\"type\":\"tool.execution_start\",\"data\":{\"toolName\":\"bash\"}}",
        "{\"type\":\"tool.execution_start\",\"data\":{\"toolCallId\":\"c\"}}",
        "{\"type\":\"tool.execution_start\",\"data\":{\"toolCallId\":\"\",\"toolName\":\"bash\"}}",
        "{\"type\":\"tool.execution_start\",\"data\":{\"toolCallId\":\"c\",\"toolName\":\"\"}}",
        "{\"type\":\"tool.execution_start\",\"data\":{\"toolCallId\":\"c\",\"toolName\":\"report_intent\",\"arguments\":{}}}",
    ] {
        let (after, events) = parse(line, &st);
        assert_eq!(after, st, "{}", line);
        assert!(events.is_empty(), "{}", line);
    }
}

#[test]
fn arguments_can_be_a_string_or_missing() {
    let line = "{\"type\":\"tool.execution_start\",\"data\":{\"toolCallId\":\"c\",\"toolName\":\"apply_patch\",\"arguments\":\"*** Begin\"}}";
    let (_, events) = parse(line, &[]);
    assert_eq!(
        events,
        vec![AgentEvent::NewEntry {
            vendor_id: "c".to_string(),
            tool: "Write ".to_string(),
            category: "write".to_string(),
            raw_cmd: "*** Begin".to_string(),
            file_paths: vec![],
        }]
    );
    let line = "{\"type\":\"tool.execution_start\",\"data\":{\"toolCallId\":\"c\",\"toolName\":\"web_fetch\"}}";
    let (_, events) = parse(line, &[]);
    assert_eq!(
        events,
        vec![AgentEvent::NewEntry {
            vendor_id: "c".to_string(),
            tool: "Web Fetch".to_string(),
            category: "run".to_string(),
            raw_cmd: "web_fetch".to_string(),
            file_paths: vec![],
        }]
    );
}

#[test]
fn call_that_begins_twice_is_open_once() {
    let mut ps = state(&[], false);
    assert_eq!(parse_copilot_line(START, &mut ps), vec![start_event()]);
    assert_eq!(parse_copilot_line(START, &mut ps), vec![start_event()]);
    assert_eq!(ps, state(&["c1"], false));
}

#[test]
fn messages_share_an_entry_until_the_session_ends() {
    let mut ps = state(&["c"], false);
    let opened = AgentEvent::NewEntry {
        vendor_id: "copilot-message".to_string(),
        tool: "Hello\nthere".to_string(),
        category: "message".to_string(),
        raw_cmd: String::new(),
        file_paths: vec![],
    };
    let added = AgentEvent::AppendToEntry {
        vendor_id: "copilot-message".to_string(),
        text: "Hello\nthere".to_string(),
    };
    assert_eq!(parse_assistant_message(MESSAGE, &mut ps), vec![opened]);
    assert_eq!(ps, state(&["c"], true));
    assert_eq!(parse_copilot_line(MESSAGE, &mut ps), vec![added]);
    assert_eq!(ps, state(&["c"], true));
    assert_eq!(parse_copilot_line(RESULT, &mut ps).len(), 2);
    assert_eq!(ps, state(&["c"], false));
    assert!(matches!(
        parse_copilot_line(MESSAGE, &mut ps)[0],
        AgentEvent::NewEntry { .. }
    ));
}

#[test]
fn messages_without_text_do_nothing() {
    for line in [
        "{\"type\":\"assistant.message\"}",
        "{\"type\":\"assistant.message\",\"data\":{}}",
        "{\"type\":\"assistant.message\",\"data\":{\"content\":\" \\n \"}}",
    ] {
        let mut ps = state(&[], false);
        assert!(parse_copilot_line(line, &mut ps).is_empty());
        assert_eq!(ps, state(&[], false));
    }
}

#[test]
fn result_tells_the_session_and_ends_it() {
    let (st, events) = parse(RESULT, &state(&["c"], true).encode());
    assert_eq!(
        events,
        vec![
            AgentEvent::SessionIDAvailable("s-1".to_string()),
            AgentEvent::SessionEnded { success: true },
        ]
    );
    assert_eq!(ParseState::decode(&st), state(&["c"], false));
    let (_, events) = parse("{\"type\":\"result\",\"exitCode\":2}", &[]);
    assert_eq!(events, vec![AgentEvent::SessionEnded { success: false }]);
    let (_, events) = parse("{\"type\":\"result\"}", &[]);
    assert_eq!(events, vec![AgentEvent::SessionEnded { success: true }]);
}

#[test]
fn other_lines_do_nothing() {
    let st = state(&["c"], true).encode();
    for line in ["{\"type\":\"session.start\"}", "{\"data\":{}}", "no json", "{\"type\":1}"] {
        let (after, events) = parse(line, &st);
        assert_eq!(after, st);
        assert!(events.is_empty());
    }
}

#[test]
fn blank_lines_and_lines_that_are_not_utf8_keep_the_bytes() {
    // These bytes are not what the state they stand for would be written as.
    let st = vec![9, 9, 9];
    for line in [&b""[..], &b" \t\r\n"[..], &[0xff, 0xfe][..], &[b'{', 0xc3][..]] {
        assert!(can_parse_line(line));
        assert_eq!(agent_parse_line(line, &st), (st.clone(), vec![]));
    }
    let (after, events) = parse("{}", &st);
    assert_eq!(after, vec![0, 0, 1]);
    assert!(events.is_empty());
}

#[test]
fn white_space_around_a_line_is_ignored() {
    let (_, events) = parse(&format!("\u{3000} {}\r\n", START), &[]);
    assert_eq!(events, vec![start_event()]);
}

#[test]
fn lines_whose_arguments_would_be_cut_inside_a_character() {
    let line = |tool: &str| {
        format!(
            "{{\"type\":\"tool.execution_start\",\"data\":{{\"toolCallId\":\"c\",\"toolName\":\"{}\",\"arguments\":\"{}é\"}}}}",
            tool,
            "x".repeat(119)
        )
    };
    assert!(!can_parse_line(line("ask").as_bytes()));
    assert!(can_parse_line(line("bash").as_bytes()));
    assert!(can_parse_line(line("report_intent").as_bytes()));
}

#[test]
fn state_is_carried_from_line_to_line() {
    let lines = [START, MESSAGE, "", MESSAGE, COMPLETE, COMPLETE, RESULT, MESSAGE];
    let mut bytes: Vec<u8> = vec![];
    let mut ps = state(&[], false);
    for line in lines {
        let (after, events) = parse(line, &bytes);
        assert_eq!(events, parse_copilot_line(line, &mut ps));
        bytes = after;
        assert_eq!(ParseState::decode(&bytes), ps);
    }
    assert_eq!(ps, state(&[], true));
}

fn message(text: &str) -> AgentEvent {
    AgentEvent::NewEntry {
        vendor_id: "copilot-message".to_string(),
        tool: text.to_string(),
        category: "message".to_string(),
        raw_cmd: String::new(),
        file_paths: vec![],
    }
}

#[test]
fn messages_with_braces_are_read_whole() {
    let (st, events) = parse(
        "{\"type\":\"assistant.message\",\"data\":{\"content\":\"a } b\"}}",
        &[],
    );
    assert_eq!(events, vec![message("a } b")]);
    assert_eq!(ParseState::decode(&st), state(&[], true));
    for text in ["fn f() {", "}", "{}", "} {", "{{ x"] {
        let line = format!(
            "{{\"type\":\"assistant.message\",\"data\":{{\"content\":\"{}\"}}}}",
            text
        );
        let (st, events) = parse(&line, &[]);
        assert_eq!(events, vec![message(text)]);
        assert_eq!(ParseState::decode(&st), state(&[], true));
    }
}

#[test]
fn output_with_braces_is_read_whole() {
    let line = "{\"type\":\"tool.execution_complete\",\"data\":{\"toolCallId\":\"c\",\"result\":{\"content\":\"fn f() {\\n    g(\\\"}\\\")\\n}\\n}\"},\"success\":false}}";
    let (st, events) = parse(line, &state(&["c"], false).encode());
    assert_eq!(
        events,
        vec![AgentEvent::CloseEntry {
            vendor_id: "c".to_string(),
            exit_code: 1,
            output_lines: strings(&["fn f() {", "    g(\"}\")", "}", "}"]),
        }]
    );
    assert_eq!(ParseState::decode(&st), state(&[], false));
}

#[test]
fn commands_with_braces_are_read_whole() {
    for end in ["}", "{", "} }", "{}"] {
        let line = format!(
            "{{\"type\":\"tool.execution_start\",\"data\":{{\"toolCallId\":\"c\",\"toolName\":\"bash\",\"arguments\":{{\"command\":\"cat src/a.rs {}\"}}}}}}",
            end
        );
        let (st, events) = parse(&line, &[]);
        assert_eq!(
            events,
            vec![AgentEvent::NewEntry {
                vendor_id: "c".to_string(),
                tool: "List cat".to_string(),
                category: "list".to_string(),
                raw_cmd: format!("cat src/a.rs {}", end),
                file_paths: strings(&["src/a.rs"]),
            }]
        );
        assert_eq!(ParseState::decode(&st), state(&["c"], false));
    }
}

#[test]
fn escapes_in_lines_are_replaced() {
    let (_, events) = parse(
        "{\"type\":\"assistant.message\",\"data\":{\"content\":\"caf\\u00e9 \\ud83d\\ude00\"}}",
        &[],
    );
    assert_eq!(events, vec![message("café \u{1f600}")]);
    let (_, events) = parse(
        "{\"type\":\"tool.execution_complete\",\"data\":{\"toolCallId\":\"c\",\"result\":{\"content\":\"\\u001b[1mok\\u001b[0m\\b\"}}}",
        &state(&["c"], false).encode(),
    );
    assert_eq!(
        events,
        vec![AgentEvent::CloseEntry {
            vendor_id: "c".to_string(),
            exit_code: 0,
            output_lines: strings(&["\u{1b}[1mok\u{1b}[0m\u{8}"]),
        }]
    );
}

#[test]
fn entries_of_calls_are_closed_once_for_each_opening() {
    let mut st: Vec<u8> = vec![];
    let mut open = false;
    let mut closed = 0;
    for line in [COMPLETE, START, START, COMPLETE, COMPLETE, RESULT, START, COMPLETE, COMPLETE] {
        let (after, events) = parse(line, &st);
        for event in events {
            match event {
                AgentEvent::NewEntry { vendor_id, category, .. } => {
                    assert_eq!(vendor_id, "c1");
                    assert_ne!(category, "message");
                    open = true;
                }
                AgentEvent::CloseEntry { vendor_id, .. } => {
                    assert_eq!(vendor_id, "c1");
                    assert!(open);
                    open = false;
                    closed += 1;
                }
                _ => {}
            }
        }
        st = after;
    }
    assert_eq!(closed, 2);
    assert!(!open);
}

#[test]
fn call_that_is_open_twice_in_the_bytes_is_closed_twice() {
    let (st, events) = parse(COMPLETE, &state(&["c1", "c1"], false).encode());
    assert_eq!(events.len(), 1);
    assert_eq!(ParseState::decode(&st), state(&["c1"], false));
    let (_, events) = parse(COMPLETE, &st);
    assert_eq!(events.len(), 1);
}

#[test]
fn session_ends_between_the_entries_of_two_messages() {
    let mut st: Vec<u8> = vec![];
    let mut open = false;
    let mut opened = 0;
    let mut added = 0;
    for line in [MESSAGE, START, MESSAGE, COMPLETE, MESSAGE, RESULT, RESULT, MESSAGE, MESSAGE] {
        let (after, events) = parse(line, &st);
        for event in events {
            match event {
                AgentEvent::NewEntry { vendor_id, category, .. } => {
                    if category == "message" {
                        assert_eq!(vendor_id, "copilot-message");
                        assert!(!open);
                        open = true;
                        opened += 1;
                    }
                }
                AgentEvent::AppendToEntry { vendor_id, .. } => {
                    assert_eq!(vendor_id, "copilot-message");
                    assert!(open);
                    added += 1;
                }
                AgentEvent::SessionEnded { .. } => open = false,
                _ => {}
            }
        }
        st = after;
    }
    assert_eq!(opened, 2);
    assert_eq!(added, 3);
}

#[test]
fn id_of_a_short_line_survives_in_the_bytes() {
    let empty = "{\"type\":\"tool.execution_start\",\"data\":{\"toolCallId\":\"\",\"toolName\":\"view\"}}";
    let id = "i".repeat(65535 - empty.len());
    let line = empty.replace("\"toolCallId\":\"\"", &format!("\"toolCallId\":\"{}\"", id));
    assert_eq!(line.len(), 65535);
    let (st, _) = parse(&line, &[]);
    assert_eq!(ParseState::decode(&st), state(&[&id], false));
    let end = format!(
        "{{\"type\":\"tool.execution_complete\",\"data\":{{\"toolCallId\":\"{}\"}}}}",
        id
    );
    let (st, events) = parse(&end, &st);
    assert_eq!(events.len(), 1);
    assert_eq!(ParseState::decode(&st), state(&[], false));
}

#[test]
fn call_ends_with_a_line_that_is_cut_short() {
    let line = "{\"type\":\"tool.execution_complete\",\"data\":{\"toolCallId\":\"c\",\"result\":{\"content\":\"}}";
    let (st, events) = parse(line, &state(&["c"], false).encode());
    assert_eq!(
        events,
        vec![AgentEvent::CloseEntry {
            vendor_id: "c".to_string(),
            exit_code: 0,
            output_lines: vec![],
        }]
    );
    assert_eq!(ParseState::decode(&st), state(&[], false));
}

#[test]
fn white_space_around_any_line_changes_nothing() {
    let before = state(&["c1"], true).encode();
    for line in [
        START.as_bytes(),
        COMPLETE.as_bytes(),
        MESSAGE.as_bytes(),
        RESULT.as_bytes(),
        "".as_bytes(),
        &[0x80, 0x7b],
        &[0x7b, 0xe3, 0x80],
    ] {
        for (first, last) in [(" ", "\r\n"), ("\u{3000}\t", "\u{2028}"), ("", "\u{85}")] {
            let mut wide = first.as_bytes().to_vec();
            wide.extend_from_slice(line);
            wide.extend_from_slice(last.as_bytes());
            assert_eq!(agent_parse_line(&wide, &before), agent_parse_line(line, &before));
        }
    }
}

#[test]
fn no_empty_id_is_ever_open() {
    let mut st: Vec<u8> = vec![];
    for line in [
        "{\"type\":\"tool.execution_start\",\"data\":{\"toolCallId\":\"\",\"toolName\":\"bash\"}}",
        "{\"type\":\"tool.execution_start\",\"data\":{\"toolName\":\"bash\"}}",
        START,
        "{\"type\":\"tool.execution_complete\",\"data\":{\"toolCallId\":\"\"}}",
        COMPLETE,
    ] {
        st = parse(line, &st).0;
        assert!(ParseState::decode(&st).open_calls.iter().all(|id| !id.is_empty()));
    }
}
