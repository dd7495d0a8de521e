use copilot_agent::json::{json_bool, json_int, json_object_raw, json_str, parse_json_string};

#[test]
fn string_body_ends_at_the_first_bare_quote() {
    assert_eq!(parse_json_string("abc\" tail"), Some("abc".to_string()));
    assert_eq!(parse_json_string("\""), Some(String::new()));
    assert_eq!(parse_json_string("abc"), None);
    assert_eq!(parse_json_string(""), None);
}

#[test]
fn string_escapes() {
    assert_eq!(
        parse_json_string("a\\nb\\tc\\rd\\\"e\\\\f\\/g\\u0041\\bh\\fi\""),
        Some("a\nb\tc\rd\"e\\f/gA\u{8}h\u{c}i".to_string())
    );
    assert_eq!(parse_json_string("abc\\"), None);
    assert_eq!(parse_json_string("abc\\\""), None);
}

#[test]
fn unicode_escapes() {
    for (written, read) in [
        ("\\u0041", "A"),
        ("\\u00e9\\u00E9", "éé"),
        ("\\u001b[0m\\b", "\u{1b}[0m\u{8}"),
        ("\\u0000", "\u{0}"),
        ("\\u8a9e", "語"),
        ("\\ud7ff\\ue000\\uffff", "\u{d7ff}\u{e000}\u{ffff}"),
        ("\\ud83d\\ude00", "\u{1f600}"),
        ("\\uD800\\uDC00\\uDBFF\\uDFFF", "\u{10000}\u{10ffff}"),
        ("\\u0022\\u005c\\u007d", "\"\\}"),
        ("\\u00411", "A1"),
    ] {
        assert_eq!(parse_json_string(&format!("{}\" x", written)), Some(read.to_string()));
    }
}

#[test]
fn backslash_is_dropped_before_what_is_no_escape() {
    for (written, read) in [
        ("\\u", "u"),
        ("\\u12", "u12"),
        ("\\u12g4", "u12g4"),
        ("\\ud83d", "ud83d"),
        ("\\ud83d!", "ud83d!"),
        ("\\ude00\\ud83d", "ude00ud83d"),
        ("\\ud83d\\u0041", "ud83dA"),
        ("\\ud83d\\n", "ud83d\n"),
        ("\\q\\/", "q/"),
    ] {
        assert_eq!(parse_json_string(&format!("{}\"", written)), Some(read.to_string()));
    }
    assert_eq!(parse_json_string("\\u004\"1\""), Some("u004".to_string()));
    assert_eq!(parse_json_string("\\u0041"), None);
}

#[test]
fn every_kind_of_character_reads_back_from_unicode_escapes() {
    for text in ["plain", "\u{0}\u{1f} \"\\", "é語", "\u{ffff}\u{10000}\u{1f600}\u{10ffff}"] {
        let mut written = String::new();
        for unit in text.encode_utf16() {
            written.push_str(&format!("\\u{:04x}", unit));
        }
        assert_eq!(parse_json_string(&format!("{}\"", written)), Some(text.to_string()));
    }
}

#[test]
fn escaped_text_reads_back() {
    let text = "say \"hi\"\\\n\t\r\u{8}\u{c}\u{1b} — 語";
    let mut written = String::new();
    for c in text.chars() {
        match c {
            '"' => written.push_str("\\\""),
            '\\' => written.push_str("\\\\"),
            '\n' => written.push_str("\\n"),
            '\t' => written.push_str("\\t"),
            '\r' => written.push_str("\\r"),
            '\u{8}' => written.push_str("\\b"),
            '\u{c}' => written.push_str("\\f"),
            c if c < ' ' => written.push_str(&format!("\\u{:04x}", c as u32)),
            c => written.push(c),
        }
    }
    assert_eq!(parse_json_string(&format!("{}\", \"x\"", written)), Some(text.to_string()));
    assert_eq!(
        json_str(&format!("{{\"k\" : \"{}\"}}", written), "k"),
        Some(text.to_string())
    );
}

#[test]
fn string_value_of_a_key() {
    let json = "{\"a\": 1, \"name\" :\t\"value\", \"name\": \"second\"}";
    assert_eq!(json_str(json, "name"), Some("value".to_string()));
    assert_eq!(json_str(json, "a"), None);
    assert_eq!(json_str(json, "missing"), None);
    assert_eq!(json_str("\"name\"", "name"), None);
    assert_eq!(json_str("\"name\":", "name"), None);
    assert_eq!(json_str("\"name\":\"open", "name"), None);
    assert_eq!(json_str("", "name"), None);
}

#[test]
fn key_is_found_wherever_its_quoted_text_stands_first() {
    assert_eq!(
        json_str("{\"x\": \"type\", \"y\": \"next\", \"type\": \"own\"}", "type"),
        Some("next".to_string())
    );
    assert_eq!(
        json_str("{\"inner\":{\"id\":\"1\"},\"id\":\"2\"}", "id"),
        Some("1".to_string())
    );
}

#[test]
fn truth_value_of_a_key() {
    assert_eq!(json_bool("{\"ok\":true}", "ok"), Some(true));
    assert_eq!(json_bool("{\"ok\": false}", "ok"), Some(false));
    assert_eq!(json_bool("{\"ok\":trueish}", "ok"), Some(true));
    assert_eq!(json_bool("{\"ok\":1}", "ok"), None);
    assert_eq!(json_bool("{\"ok\":tru", "ok"), None);
    assert_eq!(json_bool("{}", "ok"), None);
}

#[test]
fn integer_value_of_a_key() {
    assert_eq!(json_int("{\"n\":0}", "n"), Some(0));
    assert_eq!(json_int("{\"n\": -12, \"m\":3}", "n"), Some(-12));
    assert_eq!(json_int("{\"n\":007}", "n"), Some(7));
    assert_eq!(json_int("{\"n\":1.5}", "n"), Some(1));
    assert_eq!(json_int("{\"n\":12", "n"), Some(12));
    assert_eq!(json_int("{\"n\":-0}", "n"), Some(0));
}

#[test]
fn text_that_is_no_integer() {
    assert_eq!(json_int("{\"n\":\"1\"}", "n"), None);
    assert_eq!(json_int("{\"n\":}", "n"), None);
    assert_eq!(json_int("{\"n\":-}", "n"), None);
    assert_eq!(json_int("{\"n\":1-2}", "n"), None);
    assert_eq!(json_int("{\"n\":--1}", "n"), None);
    assert_eq!(json_int("{\"n\":+1}", "n"), None);
    assert_eq!(json_int("{}", "n"), None);
}

#[test]
fn integers_at_the_limits() {
    for n in [i64::MIN, i64::MIN + 1, -1, 0, 1, i64::MAX - 1, i64::MAX] {
        assert_eq!(json_int(&format!("{{\"n\":{}}}", n), "n"), Some(n));
    }
    assert_eq!(json_int("{\"n\":9223372036854775808}", "n"), None);
    assert_eq!(json_int("{\"n\":-9223372036854775809}", "n"), None);
    assert_eq!(json_int("{\"n\":100000000000000000000000000000000}", "n"), None);
}

#[test]
fn object_value_of_a_key() {
    let json = "{\"type\":\"x\",\"data\": {\"a\":{\"b\":{}}},\"end\":{}}";
    assert_eq!(json_object_raw(json, "data"), Some("{\"a\":{\"b\":{}}}".to_string()));
    assert_eq!(json_object_raw(json, "end"), Some("{}".to_string()));
    assert_eq!(json_object_raw(json, "type"), None);
    assert_eq!(json_object_raw(json, "missing"), None);
    assert_eq!(json_object_raw("{\"data\":{\"a\":{}", "data"), None);
    assert_eq!(json_object_raw("{\"data\":", "data"), None);
}

#[test]
fn object_is_balanced_and_no_beginning_of_it_is() {
    let object = json_object_raw("{\"data\":{\"a\":[{},{\"é\":{}}]}, {", "data").unwrap();
    assert_eq!(object, "{\"a\":[{},{\"é\":{}}]}");
    let mut depth = 0;
    for (i, c) in object.char_indices() {
        match c {
            '{' => depth += 1,
            '}' => depth -= 1,
            _ => {}
        }
        assert_eq!(depth == 0, i + 1 == object.len());
    }
}

#[test]
fn braces_inside_strings_do_not_count() {
    for object in [
        "{\"a\":\"}\"}",
        "{\"a\":\"{\"}",
        "{\"}\":{\"{\":\"}}}\"}}",
        "{\"a\":\"\\\"}\",\"b\":{}}",
        "{\"a\":\"\\\\\",\"b\":{}}",
        "{\"a\":\"\\u007d\"}",
        "{\"a\":\"\\ud83d}\"}",
    ] {
        let json = format!("{{\"data\": {}, \"next\":{{}}}}", object);
        assert_eq!(json_object_raw(&json, "data"), Some(object.to_string()));
    }
}

#[test]
fn every_brace_counts_in_an_object_that_is_cut_short() {
    for (json, object) in [
        ("{\"data\":{\"a\":\"}}", "{\"a\":\"}"),
        ("{\"data\":{\"a\":\"}\\\"}", "{\"a\":\"}"),
        ("{\"data\":{\"a\":\"}\\", "{\"a\":\"}"),
        ("{\"data\":{\"x\":\"}\",\"a\":\"}}", "{\"x\":\"}"),
        ("{\"data\":{\"x\":\"{\",\"a\":\"}}}", "{\"x\":\"{\",\"a\":\"}}"),
        ("{\"data\":{\"a\":\"}\"", "{\"a\":\"}"),
        ("{\"data\":{\"a\":{\"b\":\"}}\"", "{\"a\":{\"b\":\"}}"),
    ] {
        assert_eq!(json_object_raw(json, "data"), Some(object.to_string()), "{}", json);
    }
    assert_eq!(json_object_raw("{\"data\":{\"a\":\"{", "data"), None);
    assert_eq!(json_object_raw("{\"data\":{\"a\":\"x", "data"), None);
    assert_eq!(json_object_raw("{\"data\":{\"a\":\"{}\"", "data"), None);
}

#[test]
fn nothing_after_a_string_or_an_object_matters() {
    for rest in ["", "\"", "0041", "\\ude00", "}", "{\"data\":", "é"] {
        for body in ["abc\"", "\\u00\"", "\\ud83d\"", "\\\"}\""] {
            assert_eq!(
                parse_json_string(&format!("{}{}", body, rest)),
                parse_json_string(body)
            );
        }
        assert_eq!(
            json_object_raw(&format!("{{\"data\":{{\"a\":\"}}\"}}{}", rest), "data"),
            Some("{\"a\":\"}\"}".to_string())
        );
    }
}
