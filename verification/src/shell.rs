//! What a shell command is about: a label and a category for it, and the files
//! that it names.
use vstd::prelude::*;
use vstd::utf8::is_ascii_chars;
use crate::search::{
    after_last, index_of, last_index_of, last_position_of, law_after_last, lemma_index_of,
    lemma_last_index_of, position_of, text_after_last,
};
use crate::split::{
    law_words, lemma_skip_white, lemma_skip_word, lemma_trimmed_is, skip_white, skip_word,
    split_words, trim, trimmed, word, words,
};
use crate::text::{
    ascii_lower, ascii_lowered, capitalize, capitalized, chars_of, is_white, joined,
    lemma_same_filter, lowercase, same, string_between, texts, uppercase,
};

verus! {

// ---------------------------------------------------------------------------
// The command inside single quotes
// ---------------------------------------------------------------------------

/// What stands between the first and the last single quote of `cmd`, the whole of
/// `cmd` where there are fewer than two.
pub open spec fn inner(cmd: Seq<char>) -> Seq<char> {
    match index_of(cmd, '\'', 0) {
        Some(a) => match last_index_of(cmd, '\'', cmd.len() as int) {
            Some(b) => if a < b {
                cmd.subrange(a + 1, b)
            } else {
                cmd
            },
            None => cmd,
        },
        None => cmd,
    }
}

/// What stands between the first and the last single quote of `cmd`, the whole of
/// `cmd` where there are fewer than two.
pub fn extract_inner(cmd: &str) -> (r: String)
    ensures
        r@ == inner(cmd@),
{
    let cs = chars_of(cmd);
    if let Some(a) = position_of(&cs, '\'', 0) {
        if let Some(b) = last_position_of(&cs, '\'') {
            if a < b {
                return string_between(&cs, a + 1, b);
            }
        }
    }
    cmd.to_owned()
}

// ---------------------------------------------------------------------------
// Label and category
// ---------------------------------------------------------------------------

/// The label and the category of a command that changes files.
pub open spec fn mutation_class(first: Seq<char>) -> (Seq<char>, Seq<char>) {
    if first == "mv"@ {
        ("Move "@ + first, "move"@)
    } else if first == "mkdir"@ || first == "touch"@ {
        ("Create "@ + first, "create"@)
    } else if first == "rm"@ {
        ("Delete "@ + first, "delete"@)
    } else {
        ("Write "@ + first, "write"@)
    }
}

/// The commands that look at files.
pub open spec fn is_listing(first: Seq<char>) -> bool {
    ||| first == "ls"@
    ||| first == "find"@
    ||| first == "cat"@
    ||| first == "head"@
    ||| first == "tail"@
    ||| first == "grep"@
    ||| first == "rg"@
    ||| first == "fd"@
    ||| first == "stat"@
}

/// The commands that change files.
pub open spec fn is_mutation(first: Seq<char>) -> bool {
    ||| first == "cp"@
    ||| first == "mv"@
    ||| first == "mkdir"@
    ||| first == "touch"@
    ||| first == "rm"@
    ||| first == "tee"@
    ||| first == "sed"@
    ||| first == "awk"@
}

/// The commands that build.
pub open spec fn is_build(first: Seq<char>) -> bool {
    ||| first == "cargo"@
    ||| first == "swift"@
    ||| first == "xcodebuild"@
    ||| first == "make"@
    ||| first == "npm"@
    ||| first == "yarn"@
    ||| first == "pnpm"@
}

/// The label and the category of the command `command` whose first word in lower
/// case is `first`.
pub open spec fn command_class(first: Seq<char>, command: Seq<char>) -> (Seq<char>, Seq<char>) {
    if is_listing(first) {
        ("List "@ + first, "list"@)
    } else if is_mutation(first) {
        mutation_class(first)
    } else if first == "git"@ {
        (trimmed("Git "@ + word(command, 1)), "git"@)
    } else if is_build(first) {
        ("Build "@ + first, "build"@)
    } else if first == "curl"@ || first == "wget"@ {
        ("Run "@ + first, "run"@)
    } else if first.len() == 0 {
        ("Shell"@, "run"@)
    } else {
        (capitalized(first), "run"@)
    }
}

/// The label and the category of the shell command `cmd`.
pub open spec fn shell_class(cmd: Seq<char>) -> (Seq<char>, Seq<char>) {
    command_class(lowercase(word(inner(cmd), 0)), inner(cmd))
}

/// The label and the category of a command that changes files.
pub fn shell_mutation_classify(first: &str) -> (r: (String, String))
    ensures
        (r.0@, r.1@) == mutation_class(first@),
{
    if same(first, "mv") {
        (joined("Move ", first), "move".to_owned())
    } else if same(first, "mkdir") || same(first, "touch") {
        (joined("Create ", first), "create".to_owned())
    } else if same(first, "rm") {
        (joined("Delete ", first), "delete".to_owned())
    } else {
        (joined("Write ", first), "write".to_owned())
    }
}

/// The label and the category of the command `command` whose first word in lower
/// case is `first`.
pub fn classify_command(first: &str, command: &str) -> (r: (String, String))
    ensures
        (r.0@, r.1@) == command_class(first@, command@),
{
    if same(first, "ls") || same(first, "find") || same(first, "cat") || same(first, "head")
        || same(first, "tail") || same(first, "grep") || same(first, "rg") || same(first, "fd")
        || same(first, "stat") {
        (joined("List ", first), "list".to_owned())
    } else if same(first, "cp") || same(first, "mv") || same(first, "mkdir") || same(
        first,
        "touch",
    ) || same(first, "rm") || same(first, "tee") || same(first, "sed") || same(first, "awk") {
        shell_mutation_classify(first)
    } else if same(first, "git") {
        let sub = word_of(command, 1);
        (trim(joined("Git ", sub.as_str()).as_str()), "git".to_owned())
    } else if same(first, "cargo") || same(first, "swift") || same(first, "xcodebuild") || same(
        first,
        "make",
    ) || same(first, "npm") || same(first, "yarn") || same(first, "pnpm") {
        (joined("Build ", first), "build".to_owned())
    } else if same(first, "curl") || same(first, "wget") {
        (joined("Run ", first), "run".to_owned())
    } else if first.is_empty() {
        ("Shell".to_owned(), "run".to_owned())
    } else {
        (capitalize(first), "run".to_owned())
    }
}

/// The word of `s` with number `n`, counted from zero; empty where `s` has fewer.
pub fn word_of(s: &str, n: usize) -> (r: String)
    ensures
        r@ == word(s@, n as int),
{
    let ws = split_words(s);
    if n < ws.len() {
        assert(texts(ws@)[n as int] == ws@[n as int]@);
        ws[n].clone()
    } else {
        String::new()
    }
}

/// The label and the category of the shell command `cmd`.
pub fn shell_classify(cmd: &str) -> (r: (String, String))
    ensures
        (r.0@, r.1@) == shell_class(cmd@),
{
    let command = extract_inner(cmd);
    let first = word_of(command.as_str(), 0).as_str().to_lowercase();
    classify_command(first.as_str(), command.as_str())
}

// ---------------------------------------------------------------------------
// Files
// ---------------------------------------------------------------------------

/// The words of the shell that never name a file.
pub open spec fn is_shell_word(t: Seq<char>) -> bool {
    ||| t == "if"@
    ||| t == "then"@
    ||| t == "else"@
    ||| t == "fi"@
    ||| t == "do"@
    ||| t == "done"@
    ||| t == "for"@
    ||| t == "while"@
    ||| t == "in"@
    ||| t == "echo"@
    ||| t == "export"@
    ||| t == "cd"@
    ||| t == "||"@
    ||| t == "&&"@
    ||| t == "|"@
    ||| t == ";"@
    ||| t == ">"@
    ||| t == ">>"@
    ||| t == "<"@
    ||| t == "2>"@
}

/// The file name extensions by which a word is taken for a file.
pub open spec fn is_file_extension(t: Seq<char>) -> bool {
    ||| t == "swift"@
    ||| t == "rs"@
    ||| t == "ts"@
    ||| t == "js"@
    ||| t == "py"@
    ||| t == "go"@
    ||| t == "c"@
    ||| t == "cpp"@
    ||| t == "h"@
    ||| t == "toml"@
    ||| t == "json"@
    ||| t == "yaml"@
    ||| t == "yml"@
    ||| t == "md"@
    ||| t == "txt"@
}

/// Whether the word `t` is taken for a file: it is no option and no word of the
/// shell, and it holds a slash or what follows its last dot is an extension.
pub open spec fn names_file(t: Seq<char>) -> bool {
    &&& !(t.len() > 0 && t[0] == '-')
    &&& !is_shell_word(t)
    &&& t.contains('/') || is_file_extension(after_last(t, '.'))
}

/// The files that the shell command `cmd` names, in their order.
pub open spec fn file_paths(cmd: Seq<char>) -> Seq<Seq<char>> {
    words(inner(cmd)).filter(|t: Seq<char>| names_file(t))
}

fn shell_word(t: &str) -> (r: bool)
    ensures
        r == is_shell_word(t@),
{
    same(t, "if") || same(t, "then") || same(t, "else") || same(t, "fi") || same(t, "do") || same(
        t,
        "done",
    ) || same(t, "for") || same(t, "while") || same(t, "in") || same(t, "echo") || same(t, "export")
        || same(t, "cd") || same(t, "||") || same(t, "&&") || same(t, "|") || same(t, ";") || same(
        t,
        ">",
    ) || same(t, ">>") || same(t, "<") || same(t, "2>")
}

fn file_extension(t: &str) -> (r: bool)
    ensures
        r == is_file_extension(t@),
{
    same(t, "swift") || same(t, "rs") || same(t, "ts") || same(t, "js") || same(t, "py") || same(
        t,
        "go",
    ) || same(t, "c") || same(t, "cpp") || same(t, "h") || same(t, "toml") || same(t, "json")
        || same(t, "yaml") || same(t, "yml") || same(t, "md") || same(t, "txt")
}

/// Whether the word `t` is taken for a file.
pub fn is_file(t: &str) -> (r: bool)
    ensures
        r == names_file(t@),
{
    let cs = chars_of(t);
    if cs.len() > 0 && cs[0] == '-' {
        return false;
    }
    if shell_word(t) {
        return false;
    }
    proof {
        lemma_index_of(t@, '/', 0);
    }
    if position_of(&cs, '/', 0).is_some() {
        return true;
    }
    file_extension(text_after_last(t, '.').as_str())
}

/// The files that the shell command `cmd` names, in their order.
pub fn shell_file_paths(cmd: &str) -> (r: Vec<String>)
    ensures
        texts(r@) == file_paths(cmd@),
{
    let command = extract_inner(cmd);
    let ws = split_words(command.as_str());
    let ghost all = words(inner(cmd@));
    let ghost keep = |t: Seq<char>| names_file(t);
    let mut out: Vec<String> = Vec::new();
    let mut i: usize = 0;
    assert(all.take(0).filter(keep) =~= seq![]) by {
        reveal(Seq::filter);
    }
    assert(texts(out@) =~= seq![]);
    while i < ws.len()
        invariant
            all == texts(ws@),
            keep == (|t: Seq<char>| names_file(t)),
            i <= ws@.len(),
            texts(out@) == all.take(i as int).filter(keep),
        decreases ws@.len() - i,
    {
        let ghost gathered = out@;
        assert(all.take(i + 1).drop_last() =~= all.take(i as int));
        assert(all.take(i + 1).last() == ws@[i as int]@);
        proof {
            reveal(Seq::filter);
        }
        if is_file(ws[i].as_str()) {
            out.push(ws[i].clone());
            assert(texts(out@) =~= texts(gathered).push(ws@[i as int]@));
        }
        i = i + 1;
    }
    assert(all.take(i as int) =~= all);
    out
}

// ---------------------------------------------------------------------------
// Laws
// ---------------------------------------------------------------------------

/// Every file that a command names is one of its words, no option and no word of
/// the shell.
pub proof fn law_files_are_words(cmd: Seq<char>, n: int)
    requires
        0 <= n < file_paths(cmd).len(),
    ensures
        words(inner(cmd)).contains(file_paths(cmd)[n]),
        file_paths(cmd)[n][0] != '-',
        !is_shell_word(file_paths(cmd)[n]),
        names_file(file_paths(cmd)[n]),
{
    let ws = words(inner(cmd));
    let keep = |t: Seq<char>| names_file(t);
    let f = file_paths(cmd)[n];
    ws.lemma_filter_contains_rev(keep, f);
    ws.lemma_filter_pred(keep, n);
    let k = choose|k: int| 0 <= k < ws.len() && ws[k] == f;
    law_words(inner(cmd), k);
}

/// Every word of a command that is taken for a file is among the files it names.
pub proof fn law_files_are_complete(cmd: Seq<char>, n: int)
    requires
        0 <= n < words(inner(cmd)).len(),
        names_file(words(inner(cmd))[n]),
    ensures
        file_paths(cmd).contains(words(inner(cmd))[n]),
{
    let ws = words(inner(cmd));
    let keep = |t: Seq<char>| names_file(t);
    ws.lemma_filter_contains(keep, n);
}

/// The category of a shell command is one of these.
pub proof fn law_shell_categories(cmd: Seq<char>)
    ensures
        ({
            let c = shell_class(cmd).1;
            ||| c == "list"@
            ||| c == "move"@
            ||| c == "create"@
            ||| c == "delete"@
            ||| c == "write"@
            ||| c == "git"@
            ||| c == "build"@
            ||| c == "run"@
        }),
{
}

/// A command that is handed over between single quotes is found, whatever it holds,
/// where no single quote stands before the first of them or after the last.
pub proof fn law_quoted_command_is_found(lead: Seq<char>, cmd: Seq<char>, tail: Seq<char>)
    requires
        !lead.contains('\''),
        !tail.contains('\''),
    ensures
        inner(lead + seq!['\''] + cmd + seq!['\''] + tail) == cmd,
{
    let s = lead + seq!['\''] + cmd + seq!['\''] + tail;
    let a = lead.len() as int;
    let b = a + 1 + cmd.len();
    lemma_index_of(s, '\'', 0);
    lemma_last_index_of(s, '\'', s.len() as int);
    assert(s[a] == '\'');
    assert(s[b] == '\'');
    assert forall|j: int| 0 <= j < a implies s[j] != '\'' by {
        assert(lead.contains(lead[j]));
        assert(s[j] == lead[j]);
    }
    assert forall|j: int| b < j < s.len() implies s[j] != '\'' by {
        assert(tail.contains(tail[j - b - 1]));
        assert(s[j] == tail[j - b - 1]);
    }
    assert(s.subrange(a + 1, b) =~= cmd);
}

/// A command with fewer than two single quotes is taken as it is.
pub proof fn law_unquoted_command_is_kept(cmd: Seq<char>)
    requires
        forall|i: int, j: int|
            0 <= i < j < cmd.len() ==> #[trigger] cmd[i] != '\'' || #[trigger] cmd[j] != '\'',
    ensures
        inner(cmd) == cmd,
{
    lemma_index_of(cmd, '\'', 0);
    lemma_last_index_of(cmd, '\'', cmd.len() as int);
}

/// The category of a command is told by the first word of its inner command, in
/// lower case: each category but the last has these words and no others.
pub proof fn law_category_of_a_command(cmd: Seq<char>)
    ensures
        ({
            let first = lowercase(word(inner(cmd), 0));
            let category = shell_class(cmd).1;
            &&& category == "list"@ <==> {
                ||| first == "ls"@
                ||| first == "find"@
                ||| first == "cat"@
                ||| first == "head"@
                ||| first == "tail"@
                ||| first == "grep"@
                ||| first == "rg"@
                ||| first == "fd"@
                ||| first == "stat"@
            }
            &&& category == "move"@ <==> first == "mv"@
            &&& category == "create"@ <==> {
                ||| first == "mkdir"@
                ||| first == "touch"@
            }
            &&& category == "delete"@ <==> first == "rm"@
            &&& category == "write"@ <==> {
                ||| first == "cp"@
                ||| first == "tee"@
                ||| first == "sed"@
                ||| first == "awk"@
            }
            &&& category == "git"@ <==> first == "git"@
            &&& category == "build"@ <==> {
                ||| first == "cargo"@
                ||| first == "swift"@
                ||| first == "xcodebuild"@
                ||| first == "make"@
                ||| first == "npm"@
                ||| first == "yarn"@
                ||| first == "pnpm"@
            }
            &&& category == "run"@ <==> {
                &&& first != "ls"@
                &&& first != "find"@
                &&& first != "cat"@
                &&& first != "head"@
                &&& first != "tail"@
                &&& first != "grep"@
                &&& first != "rg"@
                &&& first != "fd"@
                &&& first != "stat"@
                &&& first != "mv"@
                &&& first != "mkdir"@
                &&& first != "touch"@
                &&& first != "rm"@
                &&& first != "cp"@
                &&& first != "tee"@
                &&& first != "sed"@
                &&& first != "awk"@
                &&& first != "git"@
                &&& first != "cargo"@
                &&& first != "swift"@
                &&& first != "xcodebuild"@
                &&& first != "make"@
                &&& first != "npm"@
                &&& first != "yarn"@
                &&& first != "pnpm"@
            }
        }),
{
    law_category_of_a_word(lowercase(word(inner(cmd), 0)), inner(cmd));
}

/// The label of a command names what is done and the first word of its inner
/// command, in lower case. That of `git` names the second word instead, as it is.
/// That of a word in no list is the word alone with its first character in upper
/// case, and a command without a word has one of its own.
pub proof fn law_label_of_a_command(cmd: Seq<char>)
    ensures
        ({
            let ws = words(inner(cmd));
            let first = lowercase(word(inner(cmd), 0));
            let (label, category) = shell_class(cmd);
            &&& category == "list"@ ==> label == "List "@ + first
            &&& category == "move"@ ==> label == "Move "@ + first
            &&& category == "create"@ ==> label == "Create "@ + first
            &&& category == "delete"@ ==> label == "Delete "@ + first
            &&& category == "write"@ ==> label == "Write "@ + first
            &&& category == "build"@ ==> label == "Build "@ + first
            &&& category == "git"@ && ws.len() > 1 ==> label == "Git "@ + ws[1]
            &&& category == "git"@ && ws.len() <= 1 ==> label == "Git"@
            &&& first == "curl"@ ==> label == "Run curl"@
            &&& first == "wget"@ ==> label == "Run wget"@
            &&& first.len() == 0 ==> label == "Shell"@
            &&& category == "run"@ && first.len() > 0 && first != "curl"@ && first != "wget"@
                ==> label == uppercase(first[0]) + first.skip(1)
        }),
{
    law_label_of_a_word(lowercase(word(inner(cmd), 0)), inner(cmd));
}

/// Each category but the last has these first words and no others.
pub proof fn law_category_of_a_word(first: Seq<char>, command: Seq<char>)
    ensures
        ({
            let category = command_class(first, command).1;
            &&& category == "list"@ <==> {
                ||| first == "ls"@
                ||| first == "find"@
                ||| first == "cat"@
                ||| first == "head"@
                ||| first == "tail"@
                ||| first == "grep"@
                ||| first == "rg"@
                ||| first == "fd"@
                ||| first == "stat"@
            }
            &&& category == "move"@ <==> first == "mv"@
            &&& category == "create"@ <==> {
                ||| first == "mkdir"@
                ||| first == "touch"@
            }
            &&& category == "delete"@ <==> first == "rm"@
            &&& category == "write"@ <==> {
                ||| first == "cp"@
                ||| first == "tee"@
                ||| first == "sed"@
                ||| first == "awk"@
            }
            &&& category == "git"@ <==> first == "git"@
            &&& category == "build"@ <==> {
                ||| first == "cargo"@
                ||| first == "swift"@
                ||| first == "xcodebuild"@
                ||| first == "make"@
                ||| first == "npm"@
                ||| first == "yarn"@
                ||| first == "pnpm"@
            }
            &&& category == "run"@ <==> {
                &&& first != "ls"@
                &&& first != "find"@
                &&& first != "cat"@
                &&& first != "head"@
                &&& first != "tail"@
                &&& first != "grep"@
                &&& first != "rg"@
                &&& first != "fd"@
                &&& first != "stat"@
                &&& first != "mv"@
                &&& first != "mkdir"@
                &&& first != "touch"@
                &&& first != "rm"@
                &&& first != "cp"@
                &&& first != "tee"@
                &&& first != "sed"@
                &&& first != "awk"@
                &&& first != "git"@
                &&& first != "cargo"@
                &&& first != "swift"@
                &&& first != "xcodebuild"@
                &&& first != "make"@
                &&& first != "npm"@
                &&& first != "yarn"@
                &&& first != "pnpm"@
            }
        }),
{
    lemma_command_words();
    lemma_category_names();
}

/// The label of a command names what is done and its first word. That of `git` names
/// the second word instead. That of a word in no list is the word alone with its
/// first character in upper case, and a command without a word has one of its own.
pub proof fn law_label_of_a_word(first: Seq<char>, command: Seq<char>)
    ensures
        ({
            let ws = words(command);
            let (label, category) = command_class(first, command);
            &&& category == "list"@ ==> label == "List "@ + first
            &&& category == "move"@ ==> label == "Move "@ + first
            &&& category == "create"@ ==> label == "Create "@ + first
            &&& category == "delete"@ ==> label == "Delete "@ + first
            &&& category == "write"@ ==> label == "Write "@ + first
            &&& category == "build"@ ==> label == "Build "@ + first
            &&& category == "git"@ && ws.len() > 1 ==> label == "Git "@ + ws[1]
            &&& category == "git"@ && ws.len() <= 1 ==> label == "Git"@
            &&& first == "curl"@ ==> label == "Run curl"@
            &&& first == "wget"@ ==> label == "Run wget"@
            &&& first.len() == 0 ==> label == "Shell"@
            &&& category == "run"@ && first.len() > 0 && first != "curl"@ && first != "wget"@
                ==> label == uppercase(first[0]) + first.skip(1)
        }),
{
    let ws = words(command);
    lemma_command_words();
    lemma_category_names();
    reveal_strlit("Run ");
    reveal_strlit("Run curl");
    reveal_strlit("Run wget");
    reveal_strlit("curl");
    reveal_strlit("wget");
    assert("Run "@ + "curl"@ =~= "Run curl"@);
    assert("Run "@ + "wget"@ =~= "Run wget"@);
    if first == "git"@ {
        assert forall|n: int| 0 <= n < ws.len() implies (#[trigger] ws[n]).len() > 0 && !is_white(
            ws[n].last(),
        ) by {
            law_words(command, n);
        }
        lemma_git_label(ws);
    }
}

/// Of the commands that change files these four say how; all others write.
pub proof fn law_commands_that_change_files(first: Seq<char>)
    ensures
        mutation_class("mv"@) == ("Move "@ + "mv"@, "move"@),
        mutation_class("mkdir"@) == ("Create "@ + "mkdir"@, "create"@),
        mutation_class("touch"@) == ("Create "@ + "touch"@, "create"@),
        mutation_class("rm"@) == ("Delete "@ + "rm"@, "delete"@),
        first != "mv"@ && first != "mkdir"@ && first != "touch"@ && first != "rm"@
            ==> mutation_class(first) == ("Write "@ + first, "write"@),
{
    lemma_command_words();
}

/// What tells the words apart by which commands are classified.
proof fn lemma_command_words()
    ensures
        "ls"@.len() == 2,
        "ls"@[0] == 'l',
        "find"@.len() == 4,
        "find"@[0] == 'f',
        "cat"@.len() == 3,
        "cat"@[0] == 'c',
        "head"@.len() == 4,
        "head"@[0] == 'h',
        "tail"@.len() == 4,
        "tail"@[0] == 't',
        "grep"@.len() == 4,
        "grep"@[0] == 'g',
        "rg"@.len() == 2,
        "rg"@[0] == 'r',
        "rg"@[1] == 'g',
        "fd"@.len() == 2,
        "fd"@[0] == 'f',
        "stat"@.len() == 4,
        "stat"@[0] == 's',
        "mv"@.len() == 2,
        "mv"@[0] == 'm',
        "mkdir"@.len() == 5,
        "mkdir"@[0] == 'm',
        "touch"@.len() == 5,
        "touch"@[0] == 't',
        "rm"@.len() == 2,
        "rm"@[0] == 'r',
        "rm"@[1] == 'm',
        "cp"@.len() == 2,
        "cp"@[0] == 'c',
        "tee"@.len() == 3,
        "tee"@[0] == 't',
        "sed"@.len() == 3,
        "sed"@[0] == 's',
        "awk"@.len() == 3,
        "awk"@[0] == 'a',
        "git"@.len() == 3,
        "git"@[0] == 'g',
        "cargo"@.len() == 5,
        "cargo"@[0] == 'c',
        "swift"@.len() == 5,
        "swift"@[0] == 's',
        "xcodebuild"@.len() == 10,
        "make"@.len() == 4,
        "make"@[0] == 'm',
        "npm"@.len() == 3,
        "npm"@[0] == 'n',
        "yarn"@.len() == 4,
        "yarn"@[0] == 'y',
        "pnpm"@.len() == 4,
        "pnpm"@[0] == 'p',
        "curl"@.len() == 4,
        "curl"@[0] == 'c',
        "wget"@.len() == 4,
        "wget"@[0] == 'w',
{
    reveal_strlit("ls");
    reveal_strlit("find");
    reveal_strlit("cat");
    reveal_strlit("head");
    reveal_strlit("tail");
    reveal_strlit("grep");
    reveal_strlit("rg");
    reveal_strlit("fd");
    reveal_strlit("stat");
    reveal_strlit("mv");
    reveal_strlit("mkdir");
    reveal_strlit("touch");
    reveal_strlit("rm");
    reveal_strlit("cp");
    reveal_strlit("tee");
    reveal_strlit("sed");
    reveal_strlit("awk");
    reveal_strlit("git");
    reveal_strlit("cargo");
    reveal_strlit("swift");
    reveal_strlit("xcodebuild");
    reveal_strlit("make");
    reveal_strlit("npm");
    reveal_strlit("yarn");
    reveal_strlit("pnpm");
    reveal_strlit("curl");
    reveal_strlit("wget");
}

/// What tells the categories apart.
proof fn lemma_category_names()
    ensures
        "list"@.len() == 4,
        "list"@[0] == 'l',
        "move"@.len() == 4,
        "move"@[0] == 'm',
        "create"@.len() == 6,
        "create"@[0] == 'c',
        "delete"@.len() == 6,
        "delete"@[0] == 'd',
        "write"@.len() == 5,
        "write"@[0] == 'w',
        "git"@.len() == 3,
        "git"@[0] == 'g',
        "build"@.len() == 5,
        "build"@[0] == 'b',
        "run"@.len() == 3,
        "run"@[0] == 'r',
{
    reveal_strlit("list");
    reveal_strlit("move");
    reveal_strlit("create");
    reveal_strlit("delete");
    reveal_strlit("write");
    reveal_strlit("git");
    reveal_strlit("build");
    reveal_strlit("run");
}

proof fn lemma_git_label(ws: Seq<Seq<char>>)
    requires
        forall|n: int|
            0 <= n < ws.len() ==> (#[trigger] ws[n]).len() > 0 && !is_white(ws[n].last()),
    ensures
        ws.len() > 1 ==> trimmed("Git "@ + ws[1]) == "Git "@ + ws[1],
        trimmed("Git "@ + seq![]) == "Git"@,
{
    reveal_strlit("Git ");
    reveal_strlit("Git");
    if ws.len() > 1 {
        let s = "Git "@ + ws[1];
        assert(s[0] == 'G');
        assert(s.last() == ws[1].last());
        lemma_trimmed_is(s, 0, s.len() as int);
        assert(s.subrange(0, s.len() as int) =~= s);
    }
    let t = "Git "@ + seq![];
    assert(t =~= "Git "@);
    lemma_trimmed_is(t, 0, 3);
    assert(t.subrange(0, 3) =~= "Git"@);
}

/// A word is taken for a file where it does not begin with a hyphen, is none of these
/// words of the shell, and holds a slash or is, or ends in a dot and, one of these
/// extensions.
pub proof fn law_words_that_are_files(w: Seq<char>)
    ensures
        names_file(w) <==> {
            &&& w.len() == 0 || w[0] != '-'
            &&& w != "if"@
            &&& w != "then"@
            &&& w != "else"@
            &&& w != "fi"@
            &&& w != "do"@
            &&& w != "done"@
            &&& w != "for"@
            &&& w != "while"@
            &&& w != "in"@
            &&& w != "echo"@
            &&& w != "export"@
            &&& w != "cd"@
            &&& w != "||"@
            &&& w != "&&"@
            &&& w != "|"@
            &&& w != ";"@
            &&& w != ">"@
            &&& w != ">>"@
            &&& w != "<"@
            &&& w != "2>"@
            &&& {
                ||| w.contains('/')
                ||| w == "swift"@ || ".swift"@.is_suffix_of(w)
                ||| w == "rs"@ || ".rs"@.is_suffix_of(w)
                ||| w == "ts"@ || ".ts"@.is_suffix_of(w)
                ||| w == "js"@ || ".js"@.is_suffix_of(w)
                ||| w == "py"@ || ".py"@.is_suffix_of(w)
                ||| w == "go"@ || ".go"@.is_suffix_of(w)
                ||| w == "c"@ || ".c"@.is_suffix_of(w)
                ||| w == "cpp"@ || ".cpp"@.is_suffix_of(w)
                ||| w == "h"@ || ".h"@.is_suffix_of(w)
                ||| w == "toml"@ || ".toml"@.is_suffix_of(w)
                ||| w == "json"@ || ".json"@.is_suffix_of(w)
                ||| w == "yaml"@ || ".yaml"@.is_suffix_of(w)
                ||| w == "yml"@ || ".yml"@.is_suffix_of(w)
                ||| w == "md"@ || ".md"@.is_suffix_of(w)
                ||| w == "txt"@ || ".txt"@.is_suffix_of(w)
            }
        },
{
    lemma_extensions(w);
}

/// The files that a command names are, in their order, the words of its inner
/// command that do not begin with a hyphen, are none of these words of the shell,
/// and hold a slash or are, or end in a dot and, one of these extensions.
pub proof fn law_files_of_a_command(cmd: Seq<char>)
    ensures
        file_paths(cmd) == words(inner(cmd)).filter(
            |w: Seq<char>|
                {
                    &&& w[0] != '-'
                    &&& w != "if"@
                    &&& w != "then"@
                    &&& w != "else"@
                    &&& w != "fi"@
                    &&& w != "do"@
                    &&& w != "done"@
                    &&& w != "for"@
                    &&& w != "while"@
                    &&& w != "in"@
                    &&& w != "echo"@
                    &&& w != "export"@
                    &&& w != "cd"@
                    &&& w != "||"@
                    &&& w != "&&"@
                    &&& w != "|"@
                    &&& w != ";"@
                    &&& w != ">"@
                    &&& w != ">>"@
                    &&& w != "<"@
                    &&& w != "2>"@
                    &&& {
                        ||| w.contains('/')
                        ||| w == "swift"@ || ".swift"@.is_suffix_of(w)
                        ||| w == "rs"@ || ".rs"@.is_suffix_of(w)
                        ||| w == "ts"@ || ".ts"@.is_suffix_of(w)
                        ||| w == "js"@ || ".js"@.is_suffix_of(w)
                        ||| w == "py"@ || ".py"@.is_suffix_of(w)
                        ||| w == "go"@ || ".go"@.is_suffix_of(w)
                        ||| w == "c"@ || ".c"@.is_suffix_of(w)
                        ||| w == "cpp"@ || ".cpp"@.is_suffix_of(w)
                        ||| w == "h"@ || ".h"@.is_suffix_of(w)
                        ||| w == "toml"@ || ".toml"@.is_suffix_of(w)
                        ||| w == "json"@ || ".json"@.is_suffix_of(w)
                        ||| w == "yaml"@ || ".yaml"@.is_suffix_of(w)
                        ||| w == "yml"@ || ".yml"@.is_suffix_of(w)
                        ||| w == "md"@ || ".md"@.is_suffix_of(w)
                        ||| w == "txt"@ || ".txt"@.is_suffix_of(w)
                    }
                },
        ),
{
    let ws = words(inner(cmd));
    let keep = |t: Seq<char>| names_file(t);
    let listed = |w: Seq<char>|
        {
            &&& w[0] != '-'
            &&& w != "if"@
            &&& w != "then"@
            &&& w != "else"@
            &&& w != "fi"@
            &&& w != "do"@
            &&& w != "done"@
            &&& w != "for"@
            &&& w != "while"@
            &&& w != "in"@
            &&& w != "echo"@
            &&& w != "export"@
            &&& w != "cd"@
            &&& w != "||"@
            &&& w != "&&"@
            &&& w != "|"@
            &&& w != ";"@
            &&& w != ">"@
            &&& w != ">>"@
            &&& w != "<"@
            &&& w != "2>"@
            &&& {
                ||| w.contains('/')
                ||| w == "swift"@ || ".swift"@.is_suffix_of(w)
                ||| w == "rs"@ || ".rs"@.is_suffix_of(w)
                ||| w == "ts"@ || ".ts"@.is_suffix_of(w)
                ||| w == "js"@ || ".js"@.is_suffix_of(w)
                ||| w == "py"@ || ".py"@.is_suffix_of(w)
                ||| w == "go"@ || ".go"@.is_suffix_of(w)
                ||| w == "c"@ || ".c"@.is_suffix_of(w)
                ||| w == "cpp"@ || ".cpp"@.is_suffix_of(w)
                ||| w == "h"@ || ".h"@.is_suffix_of(w)
                ||| w == "toml"@ || ".toml"@.is_suffix_of(w)
                ||| w == "json"@ || ".json"@.is_suffix_of(w)
                ||| w == "yaml"@ || ".yaml"@.is_suffix_of(w)
                ||| w == "yml"@ || ".yml"@.is_suffix_of(w)
                ||| w == "md"@ || ".md"@.is_suffix_of(w)
                ||| w == "txt"@ || ".txt"@.is_suffix_of(w)
            }
        };
    assert forall|n: int| 0 <= n < ws.len() implies keep(#[trigger] ws[n]) == listed(ws[n]) by {
        law_words(inner(cmd), n);
        law_words_that_are_files(ws[n]);
    }
    lemma_same_filter(ws, keep, listed);
}

/// A word has an extension where it is one, or ends in a dot and one.
proof fn lemma_extensions(w: Seq<char>)
    ensures
        is_file_extension(after_last(w, '.')) <==> {
            ||| w == "swift"@ || ".swift"@.is_suffix_of(w)
            ||| w == "rs"@ || ".rs"@.is_suffix_of(w)
            ||| w == "ts"@ || ".ts"@.is_suffix_of(w)
            ||| w == "js"@ || ".js"@.is_suffix_of(w)
            ||| w == "py"@ || ".py"@.is_suffix_of(w)
            ||| w == "go"@ || ".go"@.is_suffix_of(w)
            ||| w == "c"@ || ".c"@.is_suffix_of(w)
            ||| w == "cpp"@ || ".cpp"@.is_suffix_of(w)
            ||| w == "h"@ || ".h"@.is_suffix_of(w)
            ||| w == "toml"@ || ".toml"@.is_suffix_of(w)
            ||| w == "json"@ || ".json"@.is_suffix_of(w)
            ||| w == "yaml"@ || ".yaml"@.is_suffix_of(w)
            ||| w == "yml"@ || ".yml"@.is_suffix_of(w)
            ||| w == "md"@ || ".md"@.is_suffix_of(w)
            ||| w == "txt"@ || ".txt"@.is_suffix_of(w)
        },
{
    assert(after_last(w, '.') == "swift"@ <==> w == "swift"@ || ".swift"@.is_suffix_of(w)) by {
        reveal_strlit("swift");
        reveal_strlit(".swift");
        assert(".swift"@ =~= seq!['.'] + "swift"@);
        lemma_extension(w, "swift"@);
    }
    assert(after_last(w, '.') == "rs"@ <==> w == "rs"@ || ".rs"@.is_suffix_of(w)) by {
        reveal_strlit("rs");
        reveal_strlit(".rs");
        assert(".rs"@ =~= seq!['.'] + "rs"@);
        lemma_extension(w, "rs"@);
    }
    assert(after_last(w, '.') == "ts"@ <==> w == "ts"@ || ".ts"@.is_suffix_of(w)) by {
        reveal_strlit("ts");
        reveal_strlit(".ts");
        assert(".ts"@ =~= seq!['.'] + "ts"@);
        lemma_extension(w, "ts"@);
    }
    assert(after_last(w, '.') == "js"@ <==> w == "js"@ || ".js"@.is_suffix_of(w)) by {
        reveal_strlit("js");
        reveal_strlit(".js");
        assert(".js"@ =~= seq!['.'] + "js"@);
        lemma_extension(w, "js"@);
    }
    assert(after_last(w, '.') == "py"@ <==> w == "py"@ || ".py"@.is_suffix_of(w)) by {
        reveal_strlit("py");
        reveal_strlit(".py");
        assert(".py"@ =~= seq!['.'] + "py"@);
        lemma_extension(w, "py"@);
    }
    assert(after_last(w, '.') == "go"@ <==> w == "go"@ || ".go"@.is_suffix_of(w)) by {
        reveal_strlit("go");
        reveal_strlit(".go");
        assert(".go"@ =~= seq!['.'] + "go"@);
        lemma_extension(w, "go"@);
    }
    assert(after_last(w, '.') == "c"@ <==> w == "c"@ || ".c"@.is_suffix_of(w)) by {
        reveal_strlit("c");
        reveal_strlit(".c");
        assert(".c"@ =~= seq!['.'] + "c"@);
        lemma_extension(w, "c"@);
    }
    assert(after_last(w, '.') == "cpp"@ <==> w == "cpp"@ || ".cpp"@.is_suffix_of(w)) by {
        reveal_strlit("cpp");
        reveal_strlit(".cpp");
        assert(".cpp"@ =~= seq!['.'] + "cpp"@);
        lemma_extension(w, "cpp"@);
    }
    assert(after_last(w, '.') == "h"@ <==> w == "h"@ || ".h"@.is_suffix_of(w)) by {
        reveal_strlit("h");
        reveal_strlit(".h");
        assert(".h"@ =~= seq!['.'] + "h"@);
        lemma_extension(w, "h"@);
    }
    assert(after_last(w, '.') == "toml"@ <==> w == "toml"@ || ".toml"@.is_suffix_of(w)) by {
        reveal_strlit("toml");
        reveal_strlit(".toml");
        assert(".toml"@ =~= seq!['.'] + "toml"@);
        lemma_extension(w, "toml"@);
    }
    assert(after_last(w, '.') == "json"@ <==> w == "json"@ || ".json"@.is_suffix_of(w)) by {
        reveal_strlit("json");
        reveal_strlit(".json");
        assert(".json"@ =~= seq!['.'] + "json"@);
        lemma_extension(w, "json"@);
    }
    assert(after_last(w, '.') == "yaml"@ <==> w == "yaml"@ || ".yaml"@.is_suffix_of(w)) by {
        reveal_strlit("yaml");
        reveal_strlit(".yaml");
        assert(".yaml"@ =~= seq!['.'] + "yaml"@);
        lemma_extension(w, "yaml"@);
    }
    assert(after_last(w, '.') == "yml"@ <==> w == "yml"@ || ".yml"@.is_suffix_of(w)) by {
        reveal_strlit("yml");
        reveal_strlit(".yml");
        assert(".yml"@ =~= seq!['.'] + "yml"@);
        lemma_extension(w, "yml"@);
    }
    assert(after_last(w, '.') == "md"@ <==> w == "md"@ || ".md"@.is_suffix_of(w)) by {
        reveal_strlit("md");
        reveal_strlit(".md");
        assert(".md"@ =~= seq!['.'] + "md"@);
        lemma_extension(w, "md"@);
    }
    assert(after_last(w, '.') == "txt"@ <==> w == "txt"@ || ".txt"@.is_suffix_of(w)) by {
        reveal_strlit("txt");
        reveal_strlit(".txt");
        assert(".txt"@ =~= seq!['.'] + "txt"@);
        lemma_extension(w, "txt"@);
    }
}

proof fn lemma_extension(w: Seq<char>, ext: Seq<char>)
    requires
        !ext.contains('.'),
    ensures
        after_last(w, '.') == ext <==> w == ext || (seq!['.'] + ext).is_suffix_of(w),
{
    let last = after_last(w, '.');
    let dotted = seq!['.'] + ext;
    law_after_last(w, '.');
    if last == ext && w.contains('.') {
        let k = w.len() - ext.len() - 1;
        assert(w.subrange(k, w.len() as int) =~= dotted);
    }
    if dotted.is_suffix_of(w) {
        let k = w.len() - dotted.len();
        let tail = w.subrange(k, w.len() as int);
        assert(tail == dotted);
        assert(w[k] == tail[0]);
        assert(w.contains('.'));
        let m = w.len() - last.len() - 1;
        if m < k {
            assert(last[k - m - 1] == w[k]);
            assert(last.contains('.'));
        }
        if m > k {
            assert(w[m] == tail[m - k]);
            assert(tail[m - k] == ext[m - k - 1]);
            assert(ext.contains('.'));
        }
        assert(m == k);
        assert forall|i: int| 0 <= i < ext.len() implies last[i] == ext[i] by {
            assert(last[i] == w[k + 1 + i]);
            assert(w[k + 1 + i] == tail[i + 1]);
        }
        assert(last =~= ext);
    }
    if w == ext {
        assert(!w.contains('.'));
    }
}

/// Every word of a command that holds a slash and does not begin with a hyphen is
/// among the files that it names.
pub proof fn law_words_with_a_slash_are_files(cmd: Seq<char>, n: int)
    requires
        0 <= n < words(inner(cmd)).len(),
        words(inner(cmd))[n].contains('/'),
        words(inner(cmd))[n][0] != '-',
    ensures
        file_paths(cmd).contains(words(inner(cmd))[n]),
{
    let w = words(inner(cmd))[n];
    let k = choose|k: int| 0 <= k < w.len() && w[k] == '/';
    reveal_strlit("if");
    reveal_strlit("then");
    reveal_strlit("else");
    reveal_strlit("fi");
    reveal_strlit("do");
    reveal_strlit("done");
    reveal_strlit("for");
    reveal_strlit("while");
    reveal_strlit("in");
    reveal_strlit("echo");
    reveal_strlit("export");
    reveal_strlit("cd");
    reveal_strlit("||");
    reveal_strlit("&&");
    reveal_strlit("|");
    reveal_strlit(";");
    reveal_strlit(">");
    reveal_strlit(">>");
    reveal_strlit("<");
    reveal_strlit("2>");
    assert(!is_shell_word(w));
    law_files_are_complete(cmd, n);
}

/// Every word of a command that ends in a dot and one of these extensions is among
/// the files that it names, unless it begins with a hyphen.
pub proof fn law_words_with_an_extension_are_files(cmd: Seq<char>, n: int)
    requires
        0 <= n < words(inner(cmd)).len(),
        words(inner(cmd))[n][0] != '-',
        ({
            let w = words(inner(cmd))[n];
            ||| ".swift"@.is_suffix_of(w)
            ||| ".rs"@.is_suffix_of(w)
            ||| ".ts"@.is_suffix_of(w)
            ||| ".js"@.is_suffix_of(w)
            ||| ".py"@.is_suffix_of(w)
            ||| ".go"@.is_suffix_of(w)
            ||| ".c"@.is_suffix_of(w)
            ||| ".cpp"@.is_suffix_of(w)
            ||| ".h"@.is_suffix_of(w)
            ||| ".toml"@.is_suffix_of(w)
            ||| ".json"@.is_suffix_of(w)
            ||| ".yaml"@.is_suffix_of(w)
            ||| ".yml"@.is_suffix_of(w)
            ||| ".md"@.is_suffix_of(w)
            ||| ".txt"@.is_suffix_of(w)
        }),
    ensures
        file_paths(cmd).contains(words(inner(cmd))[n]),
{
    let w = words(inner(cmd))[n];
    lemma_extensions(w);
    law_after_last(w, '.');
    assert(w.contains('.')) by {
        if ".swift"@.is_suffix_of(w) {
            reveal_strlit(".swift");
            assert(w.subrange(w.len() - 6, w.len() as int)[0] == '.');
        }
        if ".rs"@.is_suffix_of(w) {
            reveal_strlit(".rs");
            assert(w.subrange(w.len() - 3, w.len() as int)[0] == '.');
        }
        if ".ts"@.is_suffix_of(w) {
            reveal_strlit(".ts");
            assert(w.subrange(w.len() - 3, w.len() as int)[0] == '.');
        }
        if ".js"@.is_suffix_of(w) {
            reveal_strlit(".js");
            assert(w.subrange(w.len() - 3, w.len() as int)[0] == '.');
        }
        if ".py"@.is_suffix_of(w) {
            reveal_strlit(".py");
            assert(w.subrange(w.len() - 3, w.len() as int)[0] == '.');
        }
        if ".go"@.is_suffix_of(w) {
            reveal_strlit(".go");
            assert(w.subrange(w.len() - 3, w.len() as int)[0] == '.');
        }
        if ".c"@.is_suffix_of(w) {
            reveal_strlit(".c");
            assert(w.subrange(w.len() - 2, w.len() as int)[0] == '.');
        }
        if ".cpp"@.is_suffix_of(w) {
            reveal_strlit(".cpp");
            assert(w.subrange(w.len() - 4, w.len() as int)[0] == '.');
        }
        if ".h"@.is_suffix_of(w) {
            reveal_strlit(".h");
            assert(w.subrange(w.len() - 2, w.len() as int)[0] == '.');
        }
        if ".toml"@.is_suffix_of(w) {
            reveal_strlit(".toml");
            assert(w.subrange(w.len() - 5, w.len() as int)[0] == '.');
        }
        if ".json"@.is_suffix_of(w) {
            reveal_strlit(".json");
            assert(w.subrange(w.len() - 5, w.len() as int)[0] == '.');
        }
        if ".yaml"@.is_suffix_of(w) {
            reveal_strlit(".yaml");
            assert(w.subrange(w.len() - 5, w.len() as int)[0] == '.');
        }
        if ".yml"@.is_suffix_of(w) {
            reveal_strlit(".yml");
            assert(w.subrange(w.len() - 4, w.len() as int)[0] == '.');
        }
        if ".md"@.is_suffix_of(w) {
            reveal_strlit(".md");
            assert(w.subrange(w.len() - 3, w.len() as int)[0] == '.');
        }
        if ".txt"@.is_suffix_of(w) {
            reveal_strlit(".txt");
            assert(w.subrange(w.len() - 4, w.len() as int)[0] == '.');
        }
    }
    let k = choose|k: int| 0 <= k < w.len() && w[k] == '.';
    reveal_strlit("if");
    reveal_strlit("then");
    reveal_strlit("else");
    reveal_strlit("fi");
    reveal_strlit("do");
    reveal_strlit("done");
    reveal_strlit("for");
    reveal_strlit("while");
    reveal_strlit("in");
    reveal_strlit("echo");
    reveal_strlit("export");
    reveal_strlit("cd");
    reveal_strlit("||");
    reveal_strlit("&&");
    reveal_strlit("|");
    reveal_strlit(";");
    reveal_strlit(">");
    reveal_strlit(">>");
    reveal_strlit("<");
    reveal_strlit("2>");
    assert(!is_shell_word(w));
    law_files_are_complete(cmd, n);
}

/// The case of ASCII letters does not matter for the category of a command.
pub proof fn law_ascii_case_does_not_matter(a: Seq<char>, b: Seq<char>)
    requires
        ascii_lowered(a) == ascii_lowered(b),
        is_ascii_chars(word(inner(a), 0)),
    ensures
        shell_class(a).1 == shell_class(b).1,
{
    lemma_inner_lowered(a);
    lemma_inner_lowered(b);
    lemma_first_word_lowered(inner(a));
    lemma_first_word_lowered(inner(b));
    let (v, w) = (word(inner(a), 0), word(inner(b), 0));
    assert(ascii_lowered(v) == ascii_lowered(w));
    assert(v.len() == ascii_lowered(v).len());
    assert(w.len() == ascii_lowered(w).len());
    assert forall|i: int| 0 <= i < w.len() implies '\0' <= #[trigger] w[i] <= '\u{7f}' by {
        assert(ascii_lowered(v)[i] == ascii_lower(v[i]));
        assert(ascii_lowered(w)[i] == ascii_lower(w[i]));
    }
    assert(lowercase(v) =~= ascii_lowered(v));
    assert(lowercase(w) =~= ascii_lowered(w));
}

proof fn lemma_inner_lowered(cmd: Seq<char>)
    ensures
        inner(ascii_lowered(cmd)) == ascii_lowered(inner(cmd)),
{
    let low = ascii_lowered(cmd);
    lemma_quote_lowered(cmd, 0);
    lemma_last_quote_lowered(cmd, cmd.len() as int);
    lemma_index_of(cmd, '\'', 0);
    lemma_last_index_of(cmd, '\'', cmd.len() as int);
    if let Some(a) = index_of(cmd, '\'', 0) {
        if let Some(b) = last_index_of(cmd, '\'', cmd.len() as int) {
            if a < b {
                assert(low.subrange(a + 1, b) =~= ascii_lowered(cmd.subrange(a + 1, b)));
            }
        }
    }
}

proof fn lemma_quote_lowered(s: Seq<char>, i: int)
    requires
        0 <= i,
    ensures
        index_of(ascii_lowered(s), '\'', i) == index_of(s, '\'', i),
    decreases s.len() - i,
{
    if i < s.len() {
        assert(ascii_lowered(s)[i] == ascii_lower(s[i]));
        lemma_quote_lowered(s, i + 1);
    }
}

proof fn lemma_last_quote_lowered(s: Seq<char>, j: int)
    requires
        j <= s.len(),
    ensures
        last_index_of(ascii_lowered(s), '\'', j) == last_index_of(s, '\'', j),
    decreases j,
{
    if j > 0 {
        assert(ascii_lowered(s)[j - 1] == ascii_lower(s[j - 1]));
        lemma_last_quote_lowered(s, j - 1);
    }
}

proof fn lemma_first_word_lowered(s: Seq<char>)
    ensures
        word(ascii_lowered(s), 0) == ascii_lowered(word(s, 0)),
{
    let low = ascii_lowered(s);
    let a = skip_white(s, 0);
    let b = skip_word(s, a);
    lemma_skip_white(s, 0);
    lemma_skip_word(s, a);
    lemma_white_lowered(s, 0);
    lemma_word_lowered(s, a);
    if a < s.len() {
        assert(words(s)[0] == s.subrange(a, b));
        assert(words(low)[0] == low.subrange(a, b));
        assert(low.subrange(a, b) =~= ascii_lowered(s.subrange(a, b)));
    } else {
        assert(ascii_lowered(word(s, 0)) =~= word(low, 0));
    }
}

proof fn lemma_white_lowered(s: Seq<char>, i: int)
    requires
        0 <= i,
    ensures
        skip_white(ascii_lowered(s), i) == skip_white(s, i),
    decreases s.len() - i,
{
    if i < s.len() {
        assert(ascii_lowered(s)[i] == ascii_lower(s[i]));
        lemma_white_lowered(s, i + 1);
    }
}

proof fn lemma_word_lowered(s: Seq<char>, i: int)
    requires
        0 <= i,
    ensures
        skip_word(ascii_lowered(s), i) == skip_word(s, i),
    decreases s.len() - i,
{
    if i < s.len() {
        assert(ascii_lowered(s)[i] == ascii_lower(s[i]));
        lemma_word_lowered(s, i + 1);
    }
}

} // verus!
