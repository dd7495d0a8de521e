use copilot_agent::tools::{can_classify, classify_tool, tool_title};

fn shown(name: &str, args: &str) -> (String, String, Vec<String>, String) {
    assert!(can_classify(name, args));
    classify_tool(name, args)
}

fn expected(
    label: &str,
    category: &str,
    paths: &[&str],
    raw: &str,
) -> (String, String, Vec<String>, String) {
    (
        label.to_string(),
        category.to_string(),
        paths.iter().map(|s| s.to_string()).collect(),
        raw.to_string(),
    )
}

#[test]
fn shell_tools_show_their_command() {
    for name in ["bash", "run_command", "execute_command"] {
        assert_eq!(
            shown(name, "{\"command\":\"cat src/main.rs\"}"),
            expected("List cat", "list", &["src/main.rs"], "cat src/main.rs")
        );
    }
}

#[test]
fn shell_tool_without_a_command_shows_its_arguments() {
    let args = "é".repeat(100);
    let (label, category, paths, raw) = shown("bash", &args);
    assert_eq!(raw, "é".repeat(80));
    assert_eq!(category, "run");
    assert_eq!(label, format!("É{}", "é".repeat(79)));
    assert!(paths.is_empty());
    assert_eq!(shown("bash", ""), expected("Shell", "run", &[], ""));
}

#[test]
fn read_tools_show_the_file() {
    for name in ["read_file", "get_file_content", "view"] {
        assert_eq!(
            shown(name, "{\"path\":\"/a/b/c.rs\"}"),
            expected("Read c.rs", "read", &["/a/b/c.rs"], "/a/b/c.rs")
        );
    }
    assert_eq!(
        shown("view", "{\"file_path\":\"x.md\"}"),
        expected("Read x.md", "read", &["x.md"], "x.md")
    );
    assert_eq!(shown("view", "{}"), expected("Read ", "read", &[], ""));
}

#[test]
fn write_tools_show_the_file() {
    for name in ["write_file", "update_file", "apply_patch"] {
        assert_eq!(
            shown(name, "{\"path\":\"a/b.rs\"}"),
            expected("Write b.rs", "write", &["a/b.rs"], "a/b.rs")
        );
    }
    assert_eq!(
        shown("create_file", "{\"file_path\":\"a/b.rs\"}"),
        expected("Write b.rs", "create", &["a/b.rs"], "a/b.rs")
    );
}

#[test]
fn write_tool_without_a_path_shows_its_arguments() {
    let args = "語".repeat(130);
    assert_eq!(
        shown("apply_patch", &args),
        expected("Write ", "write", &[], &"語".repeat(120))
    );
}

#[test]
fn other_tools_show_command_path_or_arguments() {
    assert_eq!(
        shown("web_search", "{\"command\":\"go\",\"path\":\"p\"}"),
        expected("Web Search", "run", &[], "go")
    );
    assert_eq!(
        shown("list_dir", "{\"path\":\"src\"}"),
        expected("List Dir", "run", &[], "list_dir src")
    );
    assert_eq!(shown("ask", ""), expected("Ask", "run", &[], "ask"));
    assert_eq!(
        shown("ask", "{\"q\":\"why\"}"),
        expected("Ask", "run", &[], "ask {\"q\":\"why\"}")
    );
    let args = "x".repeat(200);
    assert_eq!(
        shown("ask", &args),
        expected("Ask", "run", &[], &format!("ask {}", "x".repeat(120)))
    );
}

#[test]
fn arguments_are_cut_between_characters_only() {
    // 119 bytes and a character of two bytes: the cut would fall inside it.
    let inside = format!("{}é", "x".repeat(119));
    assert!(!can_classify("ask", &inside));
    assert!(can_classify("bash", &inside));
    assert!(can_classify("view", &inside));
    assert!(can_classify("create_file", &inside));
    assert!(can_classify("ask", &format!("\"command\":\"c\"{}", inside)));
    // 118 bytes and a character of two bytes: the cut falls behind it.
    let behind = format!("{}éz", "x".repeat(118));
    assert_eq!(shown("ask", &behind).3, format!("ask {}é", "x".repeat(118)));
    // All of at most 120 bytes is kept.
    let whole = "é".repeat(60);
    assert_eq!(shown("ask", &whole).3, format!("ask {}", whole));
}

#[test]
fn titles_of_tools() {
    assert_eq!(tool_title("web_search"), "Web Search");
    assert_eq!(tool_title("fetch"), "Fetch");
    assert_eq!(tool_title("_a__b_"), " A  B ");
    assert_eq!(tool_title("état_ßx"), "État SSx");
    assert_eq!(tool_title(""), "");
}
