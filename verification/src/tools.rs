//! How a tool call is shown: a label, a category, the files that it names and the
//! raw command.
use vstd::prelude::*;
use vstd::string::*;
use vstd::utf8::*;
use crate::json::{json_str, str_value};
use crate::search::{after_last, text_after_last};
use crate::shell::{file_paths, law_shell_categories, shell_class, shell_classify, shell_file_paths};
use crate::split::{law_pieces_one_by_one, pieces, split_at_each};
use crate::text::{
    capitalize, capitalized, chars_of, joined, or_empty, same, string_between, texts,
};

verus! {

/// The tools that run a shell command.
pub open spec fn is_shell_tool(name: Seq<char>) -> bool {
    name == "bash"@ || name == "run_command"@ || name == "execute_command"@
}

/// The tools that read a file.
pub open spec fn is_read_tool(name: Seq<char>) -> bool {
    name == "read_file"@ || name == "get_file_content"@ || name == "view"@
}

/// The tools that write a file.
pub open spec fn is_write_tool(name: Seq<char>) -> bool {
    ||| name == "write_file"@
    ||| name == "create_file"@
    ||| name == "update_file"@
    ||| name == "apply_patch"@
}

/// The first `n` characters of `s`, all of them where there are fewer.
pub open spec fn first_chars(s: Seq<char>, n: int) -> Seq<char> {
    if s.len() <= n {
        s
    } else {
        s.take(n)
    }
}

/// `n`, or the length of `s` in bytes where that is smaller.
pub open spec fn byte_cut(s: Seq<char>, n: int) -> int {
    if encode_utf8(s).len() <= n {
        encode_utf8(s).len() as int
    } else {
        n
    }
}

/// The characters in the first `n` bytes of `s`, all of them where there are fewer.
pub open spec fn first_bytes(s: Seq<char>, n: int) -> Seq<char> {
    decode_utf8(encode_utf8(s).take(byte_cut(s, n)))
}

/// The shell command that the arguments hold, or how they begin.
pub open spec fn command_argument(args: Seq<char>) -> Seq<char> {
    match str_value(args, "command"@) {
        Some(cmd) => cmd,
        None => first_chars(args, 80),
    }
}

/// The path that the arguments hold, empty where they hold none.
pub open spec fn path_argument(args: Seq<char>) -> Seq<char> {
    match str_value(args, "path"@) {
        Some(path) => path,
        None => or_empty(str_value(args, "file_path"@)),
    }
}

/// The list of the one path `path`, of none where it is empty.
pub open spec fn path_list(path: Seq<char>) -> Seq<Seq<char>> {
    if path.len() == 0 {
        seq![]
    } else {
        seq![path]
    }
}

/// The raw command of a tool that is neither a shell nor works on a file.
pub open spec fn other_command(name: Seq<char>, args: Seq<char>) -> Seq<char> {
    match str_value(args, "command"@) {
        Some(cmd) => cmd,
        None => match str_value(args, "path"@) {
            Some(path) => name + " "@ + path,
            None => if args.len() == 0 {
                name
            } else {
                name + " "@ + first_bytes(args, 120)
            },
        },
    }
}

/// `ws` with a space between each and the next.
pub open spec fn spaced(ws: Seq<Seq<char>>) -> Seq<char>
    decreases ws.len(),
{
    if ws.len() == 0 {
        seq![]
    } else if ws.len() == 1 {
        ws[0]
    } else {
        spaced(ws.drop_last()) + " "@ + ws.last()
    }
}

/// A tool's name as words: spaces for underscores, each word with its first
/// character in upper case.
pub open spec fn title(name: Seq<char>) -> Seq<char> {
    spaced(pieces(name, '_').map_values(|w: Seq<char>| capitalized(w)))
}

/// The model of what [`classify_tool`] returns.
pub struct ToolView {
    pub label: Seq<char>,
    pub category: Seq<char>,
    pub file_paths: Seq<Seq<char>>,
    pub raw_cmd: Seq<char>,
}

/// How a call of the tool `name` with the arguments `args` is shown.
pub open spec fn tool_class(name: Seq<char>, args: Seq<char>) -> ToolView {
    if is_shell_tool(name) {
        let cmd = command_argument(args);
        ToolView {
            label: shell_class(cmd).0,
            category: shell_class(cmd).1,
            file_paths: file_paths(cmd),
            raw_cmd: cmd,
        }
    } else if is_read_tool(name) {
        let path = path_argument(args);
        ToolView {
            label: "Read "@ + after_last(path, '/'),
            category: "read"@,
            file_paths: path_list(path),
            raw_cmd: path,
        }
    } else if is_write_tool(name) {
        let path = path_argument(args);
        ToolView {
            label: "Write "@ + after_last(path, '/'),
            category: if name == "create_file"@ {
                "create"@
            } else {
                "write"@
            },
            file_paths: path_list(path),
            raw_cmd: if path.len() == 0 {
                first_chars(args, 120)
            } else {
                path
            },
        }
    } else {
        ToolView {
            label: title(name),
            category: "run"@,
            file_paths: seq![],
            raw_cmd: other_command(name, args),
        }
    }
}

/// Whether the arguments can be cut where the raw command cuts them: not inside a
/// character. It matters only where they are cut.
pub open spec fn cuts_cleanly(name: Seq<char>, args: Seq<char>) -> bool {
    ||| is_shell_tool(name)
    ||| is_read_tool(name)
    ||| is_write_tool(name)
    ||| str_value(args, "command"@) is Some
    ||| str_value(args, "path"@) is Some
    ||| is_char_boundary(encode_utf8(args), byte_cut(args, 120))
}

/// The model of a label, a category, files and a raw command.
pub open spec fn tool_view(r: (String, String, Vec<String>, String)) -> ToolView {
    ToolView { label: r.0@, category: r.1@, file_paths: texts(r.2@), raw_cmd: r.3@ }
}

fn shell_tool(name: &str) -> (r: bool)
    ensures
        r == is_shell_tool(name@),
{
    same(name, "bash") || same(name, "run_command") || same(name, "execute_command")
}

fn read_tool(name: &str) -> (r: bool)
    ensures
        r == is_read_tool(name@),
{
    same(name, "read_file") || same(name, "get_file_content") || same(name, "view")
}

fn write_tool(name: &str) -> (r: bool)
    ensures
        r == is_write_tool(name@),
{
    same(name, "write_file") || same(name, "create_file") || same(name, "update_file") || same(
        name,
        "apply_patch",
    )
}

/// The first `n` characters of `s`, all of them where there are fewer.
fn beginning(s: &str, n: usize) -> (r: String)
    ensures
        r@ == first_chars(s@, n as int),
{
    let cs = chars_of(s);
    if cs.len() <= n {
        s.to_owned()
    } else {
        assert(cs@.subrange(0, n as int) =~= s@.take(n as int));
        string_between(&cs, 0, n)
    }
}

/// The number of bytes of `s`, at most `n`.
fn cut_position(s: &str, n: usize) -> (r: usize)
    ensures
        r == byte_cut(s@, n as int),
{
    let bytes = s.as_bytes();
    if bytes.len() <= n {
        bytes.len()
    } else {
        n
    }
}

/// The characters in the first `n` bytes of `s`, all of them where there are fewer.
fn beginning_bytes(s: &str, n: usize) -> (r: String)
    requires
        is_char_boundary(encode_utf8(s@), byte_cut(s@, n as int)),
    ensures
        r@ == first_bytes(s@, n as int),
{
    let cut = cut_position(s, n);
    let (head, _) = s.split_at(cut);
    proof {
        encode_utf8_decode_utf8(head@);
        assert(encode_utf8(s@).subrange(0, cut as int) =~= encode_utf8(s@).take(cut as int));
    }
    head.to_owned()
}

fn find_path(args_raw: &str) -> (r: String)
    ensures
        r@ == path_argument(args_raw@),
{
    match json_str(args_raw, "path") {
        Some(path) => path,
        None => match json_str(args_raw, "file_path") {
            Some(path) => path,
            None => String::new(),
        },
    }
}

fn list_path(path: &String) -> (r: Vec<String>)
    ensures
        texts(r@) == path_list(path@),
{
    let mut out: Vec<String> = Vec::new();
    if !path.as_str().is_empty() {
        out.push(path.clone());
    }
    assert(texts(out@) =~= path_list(path@));
    out
}

fn find_other_command(tool_name: &str, args_raw: &str) -> (r: String)
    requires
        ({
            ||| str_value(args_raw@, "command"@) is Some
            ||| str_value(args_raw@, "path"@) is Some
            ||| is_char_boundary(encode_utf8(args_raw@), byte_cut(args_raw@, 120))
        }),
    ensures
        r@ == other_command(tool_name@, args_raw@),
{
    if let Some(cmd) = json_str(args_raw, "command") {
        return cmd;
    }
    let lead = joined(tool_name, " ");
    if let Some(path) = json_str(args_raw, "path") {
        return joined(lead.as_str(), path.as_str());
    }
    if args_raw.is_empty() {
        tool_name.to_owned()
    } else {
        joined(lead.as_str(), beginning_bytes(args_raw, 120).as_str())
    }
}

/// A tool's name as words: spaces for underscores, each word with its first
/// character in upper case.
pub fn tool_title(name: &str) -> (r: String)
    ensures
        r@ == title(name@),
{
    let ps = split_at_each(name, '_');
    let ghost ws = pieces(name@, '_').map_values(|w: Seq<char>| capitalized(w));
    let mut out = String::new();
    let mut i: usize = 0;
    while i < ps.len()
        invariant
            texts(ps@) == pieces(name@, '_'),
            ws == pieces(name@, '_').map_values(|w: Seq<char>| capitalized(w)),
            i <= ps@.len(),
            out@ == spaced(ws.take(i as int)),
        decreases ps@.len() - i,
    {
        let w = capitalize(ps[i].as_str());
        assert(texts(ps@)[i as int] == ps@[i as int]@);
        assert(ws.take(i + 1).drop_last() =~= ws.take(i as int));
        if i > 0 {
            out.append(" ");
        }
        out.append(w.as_str());
        assert(i == 0 ==> out@ =~= w@);
        i = i + 1;
    }
    assert(ws.take(i as int) =~= ws);
    out
}

/// How a call of the tool `tool_name` with the arguments `args_raw`, the text of a
/// JSON object or of a string, is shown: its label, its category, the files that
/// it names and the raw command.
pub fn classify_tool(tool_name: &str, args_raw: &str) -> (r: (String, String, Vec<String>, String))
    requires
        cuts_cleanly(tool_name@, args_raw@),
    ensures
        tool_view(r) == tool_class(tool_name@, args_raw@),
{
    if shell_tool(tool_name) {
        let cmd = match json_str(args_raw, "command") {
            Some(cmd) => cmd,
            None => beginning(args_raw, 80),
        };
        let (tool, category) = shell_classify(cmd.as_str());
        let paths = shell_file_paths(cmd.as_str());
        (tool, category, paths, cmd)
    } else if read_tool(tool_name) {
        let path = find_path(args_raw);
        let name_part = text_after_last(path.as_str(), '/');
        (joined("Read ", name_part.as_str()), "read".to_owned(), list_path(&path), path)
    } else if write_tool(tool_name) {
        let path = find_path(args_raw);
        let name_part = text_after_last(path.as_str(), '/');
        let category = if same(tool_name, "create_file") {
            "create"
        } else {
            "write"
        };
        let raw = if path.as_str().is_empty() {
            beginning(args_raw, 120)
        } else {
            path.clone()
        };
        (joined("Write ", name_part.as_str()), category.to_owned(), list_path(&path), raw)
    } else {
        let paths: Vec<String> = Vec::new();
        assert(texts(paths@) =~= seq![]);
        (tool_title(tool_name), "run".to_owned(), paths, find_other_command(tool_name, args_raw))
    }
}

/// Whether [`classify_tool`] can be called: the arguments are cut inside no
/// character.
pub fn can_classify(tool_name: &str, args_raw: &str) -> (r: bool)
    ensures
        r == cuts_cleanly(tool_name@, args_raw@),
{
    shell_tool(tool_name) || read_tool(tool_name) || write_tool(tool_name) || json_str(
        args_raw,
        "command",
    ).is_some() || json_str(args_raw, "path").is_some() || args_raw.is_char_boundary(
        cut_position(args_raw, 120),
    )
}

// ---------------------------------------------------------------------------
// Laws
// ---------------------------------------------------------------------------

/// Where a text is cut inside no character, its first bytes are a beginning of it
/// of just that many bytes.
pub proof fn law_first_bytes(s: Seq<char>, n: int)
    requires
        0 <= n,
        is_char_boundary(encode_utf8(s), byte_cut(s, n)),
    ensures
        first_bytes(s, n).is_prefix_of(s),
        encode_utf8(first_bytes(s, n)).len() == byte_cut(s, n),
{
    let b = encode_utf8(s);
    let cut = byte_cut(s, n);
    encode_utf8_valid_utf8(s);
    encode_utf8_decode_utf8(s);
    valid_utf8_split(b, cut);
    decode_utf8_split(b, cut);
    assert(b.subrange(0, cut) =~= b.take(cut));
    decode_utf8_encode_utf8(b.take(cut));
}

/// Arguments of at most 120 bytes are never cut.
pub proof fn law_short_arguments_are_kept(name: Seq<char>, args: Seq<char>)
    requires
        encode_utf8(args).len() <= 120,
    ensures
        cuts_cleanly(name, args),
        first_bytes(args, 120) == args,
{
    let b = encode_utf8(args);
    encode_utf8_valid_utf8(args);
    is_char_boundary_start_end_of_seq(b);
    assert(b.take(b.len() as int) =~= b);
    encode_utf8_decode_utf8(args);
}

/// ASCII arguments are never cut inside a character, and their first bytes are
/// their first characters.
pub proof fn law_ascii_arguments_cut_cleanly(name: Seq<char>, args: Seq<char>)
    requires
        is_ascii_chars(args),
    ensures
        cuts_cleanly(name, args),
        first_bytes(args, 120) == first_chars(args, 120),
{
    let b = encode_utf8(args);
    is_ascii_chars_encode_utf8(args);
    encode_utf8_valid_utf8(args);
    if args.len() <= 120 {
        law_short_arguments_are_kept(name, args);
    } else {
        assert(args[120] as u8 == b[120]);
        is_char_boundary_iff_not_is_continuation_byte(b, 120);
        law_first_bytes(args, 120);
        let f = first_bytes(args, 120);
        assert(is_ascii_chars(f)) by {
            assert forall|i: int| 0 <= i < f.len() implies '\0' <= #[trigger] f[i]
                <= '\u{7f}' by {
                assert(f[i] == args[i]);
            }
        }
        is_ascii_chars_encode_utf8(f);
        assert(f =~= args.take(120));
    }
}

/// The raw command of a shell tool whose arguments hold no command is at most 80
/// characters.
pub proof fn law_raw_shell_arguments_are_short(name: Seq<char>, args: Seq<char>)
    requires
        is_shell_tool(name),
        str_value(args, "command"@) is None,
    ensures
        tool_class(name, args).raw_cmd.len() <= 80,
        tool_class(name, args).raw_cmd.is_prefix_of(args),
{
}

/// The category of a tool call is one of these.
pub proof fn law_tool_categories(name: Seq<char>, args: Seq<char>)
    ensures
        ({
            let c = tool_class(name, args).category;
            ||| c == "list"@
            ||| c == "move"@
            ||| c == "create"@
            ||| c == "delete"@
            ||| c == "write"@
            ||| c == "git"@
            ||| c == "build"@
            ||| c == "run"@
            ||| c == "read"@
        }),
{
    law_shell_categories(command_argument(args));
}

/// A call of one of these tools is shown as its shell command: the string under
/// `command` of its arguments, or their first 80 characters where they have none.
pub proof fn law_shell_tools(name: Seq<char>, args: Seq<char>)
    requires
        name == "bash"@ || name == "run_command"@ || name == "execute_command"@,
    ensures
        ({
            let shown = tool_class(name, args);
            &&& str_value(args, "command"@) matches Some(cmd) ==> shown.raw_cmd == cmd
            &&& str_value(args, "command"@) is None && args.len() <= 80 ==> shown.raw_cmd == args
            &&& str_value(args, "command"@) is None && args.len() > 80 ==> shown.raw_cmd
                == args.take(80)
            &&& shown.label == shell_class(shown.raw_cmd).0
            &&& shown.category == shell_class(shown.raw_cmd).1
            &&& shown.file_paths == file_paths(shown.raw_cmd)
        }),
{
    lemma_tool_names();
}

/// A call of one of these tools is shown as reading a file: the string under `path`
/// of its arguments, or under `file_path` where they have no `path`. Its label names
/// what follows the last slash of the path.
pub proof fn law_read_tools(name: Seq<char>, args: Seq<char>)
    requires
        name == "read_file"@ || name == "get_file_content"@ || name == "view"@,
    ensures
        ({
            let shown = tool_class(name, args);
            let path = shown.raw_cmd;
            &&& str_value(args, "path"@) matches Some(p) ==> path == p
            &&& str_value(args, "path"@) is None ==> match str_value(args, "file_path"@) {
                Some(p) => path == p,
                None => path.len() == 0,
            }
            &&& shown.label == "Read "@ + after_last(path, '/')
            &&& shown.category == "read"@
            &&& path.len() > 0 ==> shown.file_paths == seq![path]
            &&& path.len() == 0 ==> shown.file_paths.len() == 0
        }),
{
    lemma_tool_names();
}

/// A call of one of these tools is shown as writing a file, found as for reading.
/// Only `create_file` creates. Without a path the raw command is the first 120
/// characters of the arguments.
pub proof fn law_write_tools(name: Seq<char>, args: Seq<char>)
    requires
        name == "write_file"@ || name == "create_file"@ || name == "update_file"@ || name
            == "apply_patch"@,
    ensures
        ({
            let shown = tool_class(name, args);
            let path = match str_value(args, "path"@) {
                Some(p) => p,
                None => match str_value(args, "file_path"@) {
                    Some(p) => p,
                    None => seq![],
                },
            };
            &&& shown.label == "Write "@ + after_last(path, '/')
            &&& name == "create_file"@ ==> shown.category == "create"@
            &&& name != "create_file"@ ==> shown.category == "write"@
            &&& path.len() > 0 ==> shown.file_paths == seq![path] && shown.raw_cmd == path
            &&& path.len() == 0 ==> shown.file_paths.len() == 0
            &&& path.len() == 0 && args.len() <= 120 ==> shown.raw_cmd == args
            &&& path.len() == 0 && args.len() > 120 ==> shown.raw_cmd == args.take(120)
        }),
{
    lemma_tool_names();
}

/// A call of any other tool runs the string under `command` of its arguments. Where
/// they have none, its name stands for it, with the string under `path` behind it,
/// or else the beginning of the arguments of at most 120 bytes.
pub proof fn law_other_tools(name: Seq<char>, args: Seq<char>)
    requires
        name != "bash"@,
        name != "run_command"@,
        name != "execute_command"@,
        name != "read_file"@,
        name != "get_file_content"@,
        name != "view"@,
        name != "write_file"@,
        name != "create_file"@,
        name != "update_file"@,
        name != "apply_patch"@,
        cuts_cleanly(name, args),
    ensures
        ({
            let shown = tool_class(name, args);
            let (command, path) = (str_value(args, "command"@), str_value(args, "path"@));
            &&& shown.category == "run"@
            &&& shown.file_paths.len() == 0
            &&& shown.label == title(name)
            &&& command matches Some(cmd) ==> shown.raw_cmd == cmd
            &&& command is None ==> (path matches Some(p) ==> shown.raw_cmd == name + seq![' ']
                + p)
            &&& command is None && path is None && args.len() == 0 ==> shown.raw_cmd == name
            &&& command is None && path is None && args.len() > 0 ==> exists|k: int|
                0 <= k <= args.len() && shown.raw_cmd == name + seq![' '] + #[trigger] args.take(k)
                    && (if encode_utf8(args).len() <= 120 {
                    k == args.len()
                } else {
                    encode_utf8(args.take(k)).len() == 120
                })
        }),
{
    reveal_strlit(" ");
    assert(" "@ =~= seq![' ']);
    if str_value(args, "command"@) is None && str_value(args, "path"@) is None && args.len() > 0 {
        law_first_bytes(args, 120);
        let k = first_bytes(args, 120).len() as int;
        assert(args.take(k) =~= first_bytes(args, 120));
        if encode_utf8(args).len() <= 120 {
            law_short_arguments_are_kept(name, args);
        }
    }
}

/// The arguments of a call would be cut inside a character only where the tool is
/// none of these, they hold neither a command nor a path, they are longer than 120
/// bytes, and byte 120 is not the first of a character.
pub proof fn law_where_arguments_cannot_be_cut(name: Seq<char>, args: Seq<char>)
    ensures
        !cuts_cleanly(name, args) <==> {
            &&& name != "bash"@
            &&& name != "run_command"@
            &&& name != "execute_command"@
            &&& name != "read_file"@
            &&& name != "get_file_content"@
            &&& name != "view"@
            &&& name != "write_file"@
            &&& name != "create_file"@
            &&& name != "update_file"@
            &&& name != "apply_patch"@
            &&& str_value(args, "command"@) is None
            &&& str_value(args, "path"@) is None
            &&& encode_utf8(args).len() > 120
            &&& is_continuation_byte(encode_utf8(args)[120])
        },
{
    let b = encode_utf8(args);
    encode_utf8_valid_utf8(args);
    is_char_boundary_start_end_of_seq(b);
    if b.len() > 120 {
        is_char_boundary_iff_not_is_continuation_byte(b, 120);
    }
}

/// What tells the names of the tools apart.
proof fn lemma_tool_names()
    ensures
        "bash"@.len() == 4,
        "bash"@[0] == 'b',
        "run_command"@.len() == 11,
        "run_command"@[0] == 'r',
        "execute_command"@.len() == 15,
        "read_file"@.len() == 9,
        "get_file_content"@.len() == 16,
        "view"@.len() == 4,
        "view"@[0] == 'v',
        "write_file"@.len() == 10,
        "create_file"@.len() == 11,
        "create_file"@[0] == 'c',
        "update_file"@.len() == 11,
        "update_file"@[0] == 'u',
        "apply_patch"@.len() == 11,
        "apply_patch"@[0] == 'a',
{
    reveal_strlit("bash");
    reveal_strlit("run_command");
    reveal_strlit("execute_command");
    reveal_strlit("read_file");
    reveal_strlit("get_file_content");
    reveal_strlit("view");
    reveal_strlit("write_file");
    reveal_strlit("create_file");
    reveal_strlit("update_file");
    reveal_strlit("apply_patch");
}

/// The title of a tool whose name has no underscore is its name with its first
/// character in upper case. An underscore becomes a space between the titles of
/// what stands before it and after it.
pub proof fn law_title(first: Seq<char>, rest: Seq<char>)
    requires
        !first.contains('_'),
    ensures
        title(first) == capitalized(first),
        title(first + seq!['_'] + rest) == capitalized(first) + seq![' '] + title(rest),
{
    let cap = |w: Seq<char>| capitalized(w);
    let ps = pieces(rest, '_');
    let ws = ps.map_values(cap);
    law_pieces_one_by_one(first, '_', rest);
    assert(seq![first].map_values(cap) =~= seq![capitalized(first)]);
    assert((seq![first] + ps).map_values(cap) =~= seq![capitalized(first)] + ws);
    reveal_strlit(" ");
    assert(" "@ =~= seq![' ']);
    assert(ps.len() > 0);
    lemma_spaced(capitalized(first), ws);
}

proof fn lemma_spaced(w: Seq<char>, ws: Seq<Seq<char>>)
    requires
        ws.len() > 0,
    ensures
        spaced(seq![w] + ws) == w + " "@ + spaced(ws),
    decreases ws.len(),
{
    let all = seq![w] + ws;
    assert(all.last() == ws.last());
    if ws.len() == 1 {
        assert(all.drop_last() =~= seq![w]);
        assert(spaced(all.drop_last()) == w);
    } else {
        assert(all.drop_last() =~= seq![w] + ws.drop_last());
        lemma_spaced(w, ws.drop_last());
        assert(spaced(all) =~= w + " "@ + spaced(ws));
    }
}

} // verus!
