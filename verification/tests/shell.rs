use copilot_agent::shell::{
    classify_command, extract_inner, is_file, shell_classify, shell_file_paths,
    shell_mutation_classify, word_of,
};

fn pair(label: &str, category: &str) -> (String, String) {
    (label.to_string(), category.to_string())
}

#[test]
fn inner_command_stands_between_the_outer_quotes() {
    assert_eq!(extract_inner("bash -lc 'ls -la'"), "ls -la");
    assert_eq!(extract_inner("bash -lc 'echo 'x' y' tail"), "echo 'x' y");
    assert_eq!(extract_inner("''"), "");
    assert_eq!(extract_inner("it's"), "it's");
    assert_eq!(extract_inner("ls"), "ls");
    assert_eq!(extract_inner(""), "");
}

#[test]
fn commands_that_change_files() {
    assert_eq!(shell_mutation_classify("mv"), pair("Move mv", "move"));
    assert_eq!(shell_mutation_classify("mkdir"), pair("Create mkdir", "create"));
    assert_eq!(shell_mutation_classify("touch"), pair("Create touch", "create"));
    assert_eq!(shell_mutation_classify("rm"), pair("Delete rm", "delete"));
    assert_eq!(shell_mutation_classify("cp"), pair("Write cp", "write"));
    assert_eq!(shell_mutation_classify(""), pair("Write ", "write"));
}

#[test]
fn commands_by_their_first_word() {
    for c in ["ls", "find", "cat", "head", "tail", "grep", "rg", "fd", "stat"] {
        assert_eq!(shell_classify(&format!("{} x", c)), pair(&format!("List {}", c), "list"));
    }
    for c in ["cp", "tee", "sed", "awk"] {
        assert_eq!(shell_classify(c), pair(&format!("Write {}", c), "write"));
    }
    assert_eq!(shell_classify("mv a b"), pair("Move mv", "move"));
    assert_eq!(shell_classify("mkdir a"), pair("Create mkdir", "create"));
    assert_eq!(shell_classify("touch a"), pair("Create touch", "create"));
    assert_eq!(shell_classify("rm a"), pair("Delete rm", "delete"));
    for c in ["cargo", "swift", "xcodebuild", "make", "npm", "yarn", "pnpm"] {
        assert_eq!(shell_classify(&format!(" {} x", c)), pair(&format!("Build {}", c), "build"));
    }
    assert_eq!(shell_classify("curl x"), pair("Run curl", "run"));
    assert_eq!(shell_classify("wget x"), pair("Run wget", "run"));
}

#[test]
fn git_with_and_without_a_subcommand() {
    assert_eq!(shell_classify("git status -s"), pair("Git status", "git"));
    assert_eq!(shell_classify("git"), pair("Git", "git"));
    assert_eq!(shell_classify("GIT Log"), pair("Git Log", "git"));
}

#[test]
fn other_commands_are_capitalized() {
    assert_eq!(shell_classify("python3 a.py"), pair("Python3", "run"));
    assert_eq!(shell_classify("PyTest"), pair("Pytest", "run"));
    assert_eq!(shell_classify(""), pair("Shell", "run"));
    assert_eq!(shell_classify("''"), pair("Shell", "run"));
}

#[test]
fn first_word_is_put_into_lower_case() {
    assert_eq!(shell_classify("LS -la"), pair("List ls", "list"));
    assert_eq!(shell_classify("CARGO build"), pair("Build cargo", "build"));
    assert_eq!(shell_classify("ÉCHO x"), pair("Écho", "run"));
    assert_eq!(shell_classify("ΟΔΟΣ"), pair("Οδος", "run"));
}

#[test]
fn command_inside_quotes_is_what_counts() {
    assert_eq!(shell_classify("bash -lc 'cat src/lib.rs'"), pair("List cat", "list"));
}

#[test]
fn classification_by_a_given_first_word() {
    assert_eq!(classify_command("git", "anything push"), pair("Git push", "git"));
    assert_eq!(classify_command("ls", ""), pair("List ls", "list"));
    assert_eq!(classify_command("", "x"), pair("Shell", "run"));
    assert_eq!(classify_command("node", "x"), pair("Node", "run"));
}

#[test]
fn numbered_words() {
    assert_eq!(word_of("a  b c", 1), "b");
    assert_eq!(word_of("a", 1), "");
    assert_eq!(word_of("", 0), "");
}

#[test]
fn files_that_a_command_names() {
    assert_eq!(
        shell_file_paths("bash -lc 'cat -n src/lib.rs README.md && cd docs | grep x > out.txt'"),
        vec!["src/lib.rs", "README.md", "out.txt"]
    );
    assert!(shell_file_paths("ls -la").is_empty());
    assert!(shell_file_paths("").is_empty());
}

#[test]
fn words_that_are_taken_for_files() {
    for t in ["a/b", "/", "x.rs", ".json", "rs", "c", "a.b.toml", "x.yml", "n.h"] {
        assert!(is_file(t), "{}", t);
    }
    for t in ["-a/b", "--x.rs", "x.exe", "rs.", "Makefile", "in", "2>", "", "&&", "x.RS"] {
        assert!(!is_file(t), "{}", t);
    }
}

#[test]
fn ascii_case_does_not_matter_for_the_category() {
    for (a, b) in [
        ("LS src", "ls SRC"),
        ("Git Push", "gIT pUSH"),
        ("bash -c 'MKDIR X'", "BASH -C 'mkdir x'"),
        ("Unknown", "uNKNOWN"),
    ] {
        assert_eq!(shell_classify(a).1, shell_classify(b).1);
    }
    assert_eq!(shell_classify("MKDIR x").1, "create");
}
