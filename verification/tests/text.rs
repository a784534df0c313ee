use gdscript_graph::docstring::clean_comment;
use gdscript_graph::ids::{file_node_id, node_id};
use gdscript_graph::kinds::{
    edge_kind_index, is_class_like, is_value_host, node_kind_index, node_kind_word, EdgeKind,
    NodeKind, FUNCTION_REF_CODE,
};
use gdscript_graph::textutil::{
    append_decimal, base_name, chars_of, col16, contains_word, count_newlines,
    has_upper_or_underscore, init_signature, is_simple_name, join, line_starts, slice, str_eq,
    trimmed, utf16_len, without_quotes, INIT_SIGNATURE_UNITS,
};

#[test]
fn characters_come_one_by_one() {
    assert_eq!(chars_of("aé😀"), vec!['a', 'é', '😀']);
    assert_eq!(chars_of(""), Vec::<char>::new());
}

#[test]
fn equal_texts_are_equal() {
    assert!(str_eq("", ""));
    assert!(str_eq("héllo", "héllo"));
    assert!(!str_eq("hello", "hellO"));
    assert!(!str_eq("hello", "hell"));
}

#[test]
fn slices_follow_byte_offsets() {
    let s = "aé😀b";
    assert_eq!(slice(s, 0, 1), "a");
    assert_eq!(slice(s, 1, 3), "é");
    assert_eq!(slice(s, 3, 7), "😀");
    assert_eq!(slice(s, 7, 8), "b");
    assert_eq!(slice(s, 3, 3), "");
    assert_eq!(slice(s, 0, 8), s);
}

#[test]
fn lengths_are_in_utf16_code_units() {
    assert_eq!(utf16_len(""), 0);
    assert_eq!(utf16_len("abc"), 3);
    assert_eq!(utf16_len("é"), 1);
    assert_eq!(utf16_len("\u{ffff}"), 1);
    assert_eq!(utf16_len("\u{10000}"), 2);
    assert_eq!(utf16_len("a😀b"), 4);
    for s in ["", "abc", "héllo wörld", "😀😀", "日本語"] {
        assert_eq!(utf16_len(s), s.encode_utf16().count());
    }
}

#[test]
fn lines_start_after_line_feeds() {
    assert_eq!(line_starts(""), vec![0]);
    assert_eq!(line_starts("ab"), vec![0]);
    assert_eq!(line_starts("ab\n"), vec![0, 3]);
    assert_eq!(line_starts("\n\nx\r\ny"), vec![0, 1, 2, 5]);
    assert_eq!(count_newlines(""), 0);
    assert_eq!(count_newlines("a\nb\n"), 2);
    for s in ["", "x", "\n", "a\nbb\n\nccc"] {
        assert_eq!(line_starts(s).len(), count_newlines(s) + 1);
    }
}

#[test]
fn columns_count_utf16_code_units_from_the_line_start() {
    let s = "ab\né😀c\n";
    let starts = line_starts(s);
    assert_eq!(col16(s, &starts, 0, 0), 0);
    assert_eq!(col16(s, &starts, 0, 2), 2);
    assert_eq!(col16(s, &starts, 1, 3), 0);
    assert_eq!(col16(s, &starts, 1, 5), 1);
    assert_eq!(col16(s, &starts, 1, 9), 3);
    assert_eq!(col16(s, &starts, 1, 10), 4);
    assert_eq!(col16(s, &starts, 2, 11), 0);
}

#[test]
fn distinctive_names_have_a_capital_or_an_underscore() {
    assert!(has_upper_or_underscore("maxSpeed"));
    assert!(has_upper_or_underscore("max_speed"));
    assert!(has_upper_or_underscore("Z"));
    assert!(!has_upper_or_underscore("speed2"));
    assert!(!has_upper_or_underscore("É"));
    assert!(!has_upper_or_underscore(""));
}

#[test]
fn simple_names_are_single_identifiers() {
    assert!(is_simple_name("Foo"));
    assert!(is_simple_name("_a1"));
    assert!(is_simple_name("$x"));
    assert!(!is_simple_name(""));
    assert!(!is_simple_name("1a"));
    assert!(!is_simple_name("a.b"));
    assert!(!is_simple_name("a b"));
    assert!(!is_simple_name("é"));
}

#[test]
fn words_are_found_anywhere() {
    assert!(contains_word("@export_range(0, 1)", "export"));
    assert!(contains_word("abc", "abc"));
    assert!(contains_word("abc", ""));
    assert!(contains_word("", ""));
    assert!(contains_word("aab", "ab"));
    assert!(!contains_word("@onready", "export"));
    assert!(!contains_word("ab", "abc"));
}

#[test]
fn initializers_are_shown_up_to_an_allowance() {
    assert_eq!(INIT_SIGNATURE_UNITS, 100);
    assert_eq!(init_signature("1"), "= 1");
    assert_eq!(init_signature(""), "= ");
    let short = "x".repeat(99);
    assert_eq!(init_signature(&short), format!("= {}", short));
    let exact = "x".repeat(100);
    assert_eq!(init_signature(&exact), format!("= {}...", exact));
    let long = "x".repeat(101);
    assert_eq!(init_signature(&long), format!("= {}...", exact));
}

#[test]
fn the_allowance_never_splits_a_character() {
    let head = "x".repeat(99);
    let text = format!("{}😀y", head);
    assert_eq!(init_signature(&text), format!("= {}...", head));
    let even = "😀".repeat(50);
    assert_eq!(init_signature(&format!("{}z", even)), format!("= {}...", even));
}

#[test]
fn numbers_are_written_in_decimal() {
    for n in [0u32, 7, 10, 99, 100, 4294967295] {
        let mut out = String::from("n=");
        append_decimal(&mut out, n);
        assert_eq!(out, format!("n={}", n));
    }
}

#[test]
fn base_names_follow_the_last_separator() {
    assert_eq!(base_name("player.gd"), "player.gd");
    assert_eq!(base_name("a/b/player.gd"), "player.gd");
    assert_eq!(base_name("a\\b/c\\player.gd"), "player.gd");
    assert_eq!(base_name("a/"), "");
    assert_eq!(base_name(""), "");
}

#[test]
fn parts_are_joined_with_a_separator() {
    let none: Vec<String> = Vec::new();
    assert_eq!(join(&none, "::"), "");
    assert_eq!(join(&vec!["a".to_string()], "::"), "a");
    let three = vec!["a".to_string(), String::new(), "c".to_string()];
    assert_eq!(join(&three, "::"), "a::::c");
}

#[test]
fn white_space_is_trimmed_on_both_sides() {
    assert_eq!(trimmed(&chars_of(" \t a b\r\n"), 0), "a b");
    assert_eq!(trimmed(&chars_of("## x "), 2), "x");
    assert_eq!(trimmed(&chars_of("   "), 0), "");
    assert_eq!(trimmed(&chars_of("\u{b}\u{c}x"), 3), "");
}

#[test]
fn string_literals_lose_their_quotes() {
    assert_eq!(without_quotes("\"res://a.gd\""), "res://a.gd");
    assert_eq!(without_quotes("'res://a.gd'"), "res://a.gd");
    assert_eq!(without_quotes("\"\"\"a\"b\"\"\""), "a\"b");
    assert_eq!(without_quotes("r'a\\b'"), "a\\b");
    assert_eq!(without_quotes("r\"\"\"x\"\"\""), "x");
    assert_eq!(without_quotes("\"\""), "");
    assert_eq!(without_quotes(""), "");
    assert_eq!(without_quotes("\"\"a\"\""), "\"a\"");
    assert_eq!(without_quotes("\"a'"), "\"a'");
    assert_eq!(without_quotes("\""), "\"");
    assert_eq!(without_quotes("r"), "r");
    assert_eq!(without_quotes("res"), "res");
    assert_eq!(without_quotes(""), "");
}

#[test]
fn comments_lose_their_marks() {
    assert_eq!(clean_comment("# one"), "one");
    assert_eq!(clean_comment("##   two # three "), "two # three");
    assert_eq!(clean_comment("#"), "");
}

#[test]
fn identifiers_name_kind_file_name_and_line() {
    assert_eq!(file_node_id("a/b.gd"), "file:a/b.gd");
    assert_eq!(node_id("a/b.gd", NodeKind::Method, "run", 12), "method:a/b.gd:run:12");
    assert_eq!(node_id("b.gd", NodeKind::Constant, "MAX", 1), "constant:b.gd:MAX:1");
}

#[test]
fn kinds_have_codes_and_words() {
    let all = [
        (NodeKind::File, 0, "file"),
        (NodeKind::Module, 1, "module"),
        (NodeKind::Class, 2, "class"),
        (NodeKind::Struct, 3, "struct"),
        (NodeKind::Interface, 4, "interface"),
        (NodeKind::Trait, 5, "trait"),
        (NodeKind::Function, 7, "function"),
        (NodeKind::Method, 8, "method"),
        (NodeKind::Variable, 11, "variable"),
        (NodeKind::Constant, 12, "constant"),
        (NodeKind::Enum, 13, "enum"),
    ];
    for (kind, code, word) in all {
        assert_eq!(node_kind_index(kind), code);
        assert_eq!(node_kind_word(kind), word);
        let class_like = ["class", "struct", "interface", "trait", "enum", "module"];
        assert_eq!(is_class_like(kind), class_like.contains(&word));
        let hosts = ["file", "class", "module", "struct", "enum"];
        assert_eq!(is_value_host(kind), hosts.contains(&word));
    }
    assert_eq!(edge_kind_index(EdgeKind::Contains), 0);
    assert_eq!(edge_kind_index(EdgeKind::Imports), 2);
    assert_eq!(edge_kind_index(EdgeKind::Extends), 4);
    assert_eq!(FUNCTION_REF_CODE, 255);
}
