use copilot_agent::state::ParseState;

fn state(calls: &[&str], open_message: bool) -> ParseState {
    ParseState { open_calls: calls.iter().map(|s| s.to_string()).collect(), open_message }
}

#[test]
fn byte_form_of_a_state() {
    assert_eq!(
        state(&["ab", "é"], true).encode(),
        vec![2, 0, 2, 0, b'a', b'b', 2, 0, 0xc3, 0xa9, 1]
    );
    assert_eq!(state(&[], false).encode(), vec![0, 0, 0]);
    let long = "x".repeat(300);
    let bytes = state(&[&long], false).encode();
    assert_eq!(bytes[..4], [1, 0, 44, 1]);
    assert_eq!(bytes.len(), 2 + 2 + 300 + 1);
}

#[test]
fn state_reads_back() {
    for st in [
        state(&[], false),
        state(&[], true),
        state(&["call-1"], false),
        state(&["call-1", "", "語🦀", "call-1"], true),
    ] {
        assert_eq!(ParseState::decode(&st.encode()), st);
    }
}

#[test]
fn too_few_bytes_are_the_first_state() {
    assert_eq!(ParseState::decode(&[]), state(&[], false));
    assert_eq!(ParseState::decode(&[7]), state(&[], false));
    assert_eq!(ParseState::decode(&[0, 0]), state(&[], false));
    assert_eq!(ParseState::decode(&[0, 0, 9]), state(&[], true));
}

#[test]
fn reading_stops_where_the_bytes_end() {
    // The second length is missing; the byte that is left is read as the message flag.
    assert_eq!(ParseState::decode(&[2, 0, 1, 0, b'a', 5]), state(&["a"], true));
    // The second id is too long; what follows its length is read as the message flag.
    assert_eq!(ParseState::decode(&[2, 0, 1, 0, b'a', 9, 0, 3]), state(&["a"], true));
    assert_eq!(ParseState::decode(&[1, 0, 9, 0]), state(&[], false));
}

#[test]
fn ids_that_are_not_utf8_are_passed_over() {
    assert_eq!(
        ParseState::decode(&[2, 0, 1, 0, 0xff, 1, 0, b'b', 1]),
        state(&["b"], true)
    );
}

#[test]
fn long_ids_are_cut_at_the_limit() {
    let fits = "x".repeat(0xffff);
    let st = state(&[&fits], true);
    assert_eq!(ParseState::decode(&st.encode()), st);
    let long = "x".repeat(0x10000);
    assert_eq!(
        ParseState::decode(&state(&[&long, "b"], true).encode()),
        state(&[&fits, "b"], true)
    );
    // The limit falls inside the last character, so the id is lost.
    let cut = format!("{}é", "x".repeat(0xfffe));
    assert_eq!(ParseState::decode(&state(&[&cut, "b"], true).encode()), state(&["b"], true));
}

#[test]
fn calls_beyond_the_limit_are_dropped() {
    let mut st = state(&[], true);
    for i in 0..0x10001u32 {
        st.open_calls.push(i.to_string());
    }
    let back = ParseState::decode(&st.encode());
    assert_eq!(back.open_calls, st.open_calls[..0xffff].to_vec());
    assert!(back.open_message);
}

#[test]
fn inserting_opens_a_call_once() {
    let mut st = state(&["a"], true);
    assert!(!st.contains("b"));
    st.insert("b".to_string());
    assert!(st.contains("b"));
    st.insert("b".to_string());
    st.insert("a".to_string());
    assert_eq!(st, state(&["a", "b"], true));
}

#[test]
fn removing_undoes_inserting() {
    let mut st = state(&["a", "c"], false);
    st.insert("b".to_string());
    assert!(st.remove("b"));
    assert_eq!(st, state(&["a", "c"], false));
    assert!(!st.remove("b"));
    assert_eq!(st, state(&["a", "c"], false));
}

#[test]
fn removing_takes_the_first_of_equal_ids() {
    let mut st = state(&["x", "a", "y", "a"], false);
    assert!(st.remove("a"));
    assert_eq!(st, state(&["x", "y", "a"], false));
    assert!(st.contains("a"));
}

#[test]
fn states_that_were_read_fit() {
    let st = ParseState::decode(&[1, 0, 2, 0, b'o', b'k', 0]);
    assert_eq!(ParseState::decode(&st.encode()), st);
}

#[test]
fn bytes_that_are_cut_give_the_first_calls() {
    let all = state(&["a", "", "é語", "c3"], true);
    let bytes = all.encode();
    for k in 0..bytes.len() {
        let cut = ParseState::decode(&bytes[..k]).open_calls;
        assert_eq!(cut[..], all.open_calls[..cut.len()]);
    }
    assert_eq!(ParseState::decode(&bytes[..5]).open_calls, vec!["a"]);
    assert!(ParseState::decode(&bytes[..4]).open_calls.is_empty());
}
