use gdscript_graph::buffers::{BoolFlags, EmitOut, StrRef, NONE};
use gdscript_graph::extract;
use gdscript_graph::gdscript::{extract_parsed, extract_tree};
use gdscript_graph::kinds::NodeKind;
use gdscript_graph::parser::Parsed;
use gdscript_graph::syntax::{SyntaxNode, SyntaxTree};
use gdscript_graph::textutil::line_starts;
use gdscript_graph::walker::Extra;
use gdscript_graph::Walker;

const FILE: u8 = 0;
const CLASS: u8 = 2;
const FUNCTION: u8 = 7;
const METHOD: u8 = 8;
const VARIABLE: u8 = 11;
const CONSTANT: u8 = 12;
const ENUM: u8 = 13;
const CONTAINS: u8 = 0;
const EXTENDS: u8 = 4;
const MENTION: u8 = 255;

fn text(out: &EmitOut, r: StrRef) -> Option<String> {
    if r.offset == usize::MAX {
        return None;
    }
    let bytes = out.arena[r.offset..r.offset + r.len].to_vec();
    Some(String::from_utf8(bytes).unwrap())
}

fn some(s: &str) -> Option<String> {
    Some(s.to_string())
}

/// The kind, name and qualified name of every node.
fn nodes(out: &EmitOut) -> Vec<(u8, String, String)> {
    out.nodes
        .iter()
        .map(|n| (n.kind, text(out, n.name).unwrap(), text(out, n.qualified_name).unwrap()))
        .collect()
}

fn node(kind: u8, name: &str, qualified: &str) -> (u8, String, String) {
    (kind, name.to_string(), qualified.to_string())
}

/// The source row, kind, line, column and name of every reference.
fn refs(out: &EmitOut) -> Vec<(u32, u8, u32, u32, String)> {
    out.refs
        .iter()
        .map(|r| (r.from_idx, r.kind, r.line, r.column, text(out, r.reference_name).unwrap()))
        .collect()
}

fn reference(from: u32, kind: u8, line: u32, column: u32, name: &str) -> (u32, u8, u32, u32, String) {
    (from, kind, line, column, name.to_string())
}

/// The ends and kind of every edge.
fn edges(out: &EmitOut) -> Vec<(u32, u32, u8)> {
    out.edges.iter().map(|e| (e.source_idx, e.target_idx, e.kind)).collect()
}

/// What holds of the rows of every graph.
fn check_sound(out: &EmitOut) {
    assert_eq!(out.meta.node_count, out.nodes.len());
    assert_eq!(out.meta.edge_count, out.edges.len());
    assert_eq!(out.meta.ref_count, out.refs.len());
    assert_eq!(out.meta.arena_len, out.arena.len());
    assert!(String::from_utf8(out.arena.clone()).is_ok());
    assert_eq!(text(out, out.meta.message), None);
    assert_eq!(out.nodes[0].kind, FILE);
    let rows = out.nodes.len() as u32;
    let contains: Vec<(u32, u32, u8)> =
        edges(out).into_iter().filter(|e| e.2 == CONTAINS).collect();
    assert_eq!(contains.len() + 1, out.nodes.len());
    for (k, edge) in contains.iter().enumerate() {
        let row = k + 1;
        assert_eq!(edge.1 as usize, row);
        assert!((edge.0 as usize) < row);
        let name = text(out, out.nodes[row].name).unwrap();
        assert!(!name.is_empty());
        let qualified = text(out, out.nodes[row].qualified_name).unwrap();
        if edge.0 == 0 {
            assert_eq!(qualified, name);
        } else {
            let outer = text(out, out.nodes[edge.0 as usize].qualified_name).unwrap();
            assert_eq!(qualified, format!("{}::{}", outer, name));
        }
    }
    for e in &out.edges {
        assert!(e.source_idx < rows && e.target_idx < rows);
        if e.kind == CONTAINS {
            assert_eq!((e.line, e.column), (NONE, NONE));
        }
        for r in [e.metadata_json, e.source_id_str, e.target_id_str] {
            assert_eq!(text(out, r), None);
        }
    }
    for r in &out.refs {
        assert!(r.from_idx < rows);
        assert!(text(out, r.reference_name).is_some());
        assert_eq!(text(out, r.candidates), None);
        assert_eq!(text(out, r.from_id_str), None);
    }
    for n in &out.nodes {
        assert_eq!(n.visibility, 0);
        for r in [n.decorators, n.type_parameters, n.extra_json] {
            assert_eq!(text(out, r), None);
        }
    }
}

fn graph(source: &str) -> EmitOut {
    let out = extract("dir/test.gd", source).unwrap();
    check_sound(&out);
    out
}

/// A syntax tree under construction, for a given source.
struct Trees<'a> {
    source: &'a str,
    nodes: Vec<SyntaxNode>,
}

impl<'a> Trees<'a> {
    fn new(source: &'a str) -> Self {
        let rows = source.matches('\n').count();
        let root = SyntaxNode {
            kind: "source".to_string(),
            field: None,
            named: true,
            depth: 0,
            start_byte: 0,
            end_byte: source.len(),
            start_row: 0,
            end_row: rows,
        };
        Trees { source, nodes: vec![root] }
    }

    /// Adds a node for the occurrence number `nth` of `part` in the source.
    fn add(&mut self, depth: u32, field: &str, kind: &str, part: &str, nth: usize) {
        let start = self.source.match_indices(part).nth(nth).unwrap().0;
        let end = start + part.len();
        self.nodes.push(SyntaxNode {
            kind: kind.to_string(),
            field: if field.is_empty() { None } else { Some(field.to_string()) },
            named: true,
            depth,
            start_byte: start,
            end_byte: end,
            start_row: self.source[..start].matches('\n').count(),
            end_row: self.source[..end].matches('\n').count(),
        });
    }

    fn graph(self) -> EmitOut {
        let source = self.source;
        let tree = SyntaxTree { nodes: self.nodes };
        assert!(tree.fits(source, &line_starts(source)));
        let out = extract_parsed("t.gd", source, &Parsed::Tree(tree)).unwrap();
        check_sound(&out);
        out
    }
}

#[test]
fn a_script_becomes_a_graph() {
    let source = "class_name MyPlayer\nextends Node\n## Hit points.\nvar health_pts: int = 100\nenum Direction { UP, DOWN }\nfunc _ready() -> void:\n    connect(_ready, health_pts)\nclass Inner:\n    func m(x): pass\n";
    let out = graph(source);
    assert_eq!(
        nodes(&out),
        vec![
            node(FILE, "test.gd", "dir/test.gd"),
            node(CLASS, "MyPlayer", "MyPlayer"),
            node(VARIABLE, "health_pts", "health_pts"),
            node(ENUM, "Direction", "Direction"),
            node(CONSTANT, "UP", "Direction::UP"),
            node(CONSTANT, "DOWN", "Direction::DOWN"),
            node(FUNCTION, "_ready", "_ready"),
            node(CLASS, "Inner", "Inner"),
            node(METHOD, "m", "Inner::m"),
        ]
    );
    assert_eq!(
        edges(&out),
        vec![
            (0, 1, CONTAINS),
            (1, 0, EXTENDS),
            (0, 2, CONTAINS),
            (0, 3, CONTAINS),
            (3, 4, CONTAINS),
            (3, 5, CONTAINS),
            (0, 6, CONTAINS),
            (0, 7, CONTAINS),
            (7, 8, CONTAINS),
        ]
    );
    assert_eq!(
        refs(&out),
        vec![
            reference(1, EXTENDS, 2, 8, "Node"),
            reference(6, MENTION, 7, 4, "connect"),
            reference(6, MENTION, 7, 0, "_ready"),
            reference(2, MENTION, 7, 20, "health_pts"),
            reference(5, MENTION, 5, 21, "DOWN"),
        ]
    );
    let places: Vec<(u32, u32, u32, u32)> = out
        .nodes
        .iter()
        .map(|n| (n.start_line, n.start_column, n.end_line, n.end_column))
        .collect();
    assert_eq!(
        places,
        vec![
            (1, 0, 10, 0),
            (1, 0, 1, 19),
            (4, 0, 4, 25),
            (5, 0, 5, 27),
            (5, 17, 5, 19),
            (5, 21, 5, 25),
            (6, 0, 7, 31),
            (8, 0, 9, 19),
            (9, 4, 9, 19),
        ]
    );
    let ids: Vec<String> = out.nodes.iter().map(|n| text(&out, n.id).unwrap()).collect();
    assert_eq!(ids[0], "file:dir/test.gd");
    assert_eq!(ids[2], "variable:dir/test.gd:health_pts:4");
    assert_eq!(ids[8], "method:dir/test.gd:m:9");
    assert_eq!(text(&out, out.nodes[2].docstring), some("Hit points."));
    assert_eq!(text(&out, out.nodes[2].signature), some("= 100"));
    assert_eq!(text(&out, out.nodes[6].signature), some("() -> void"));
    assert_eq!(text(&out, out.nodes[6].return_type), some("void"));
    assert_eq!(text(&out, out.nodes[8].signature), some("(x)"));
    assert_eq!(text(&out, out.nodes[8].return_type), None);
    assert_eq!(out.nodes[0].flags, BoolFlags { known: 0, value: 0 });
    for n in &out.nodes[1..] {
        assert_eq!(n.flags, BoolFlags { known: 1, value: 1 });
    }
}

#[test]
fn an_empty_file_is_a_node() {
    let out = graph("");
    assert_eq!(nodes(&out), vec![node(FILE, "test.gd", "dir/test.gd")]);
    assert_eq!((out.nodes[0].start_line, out.nodes[0].end_line), (1, 1));
    assert!(out.edges.is_empty());
    assert!(out.refs.is_empty());
    assert_eq!(out.arena, b"file:dir/test.gdtest.gddir/test.gd".to_vec());
}

#[test]
fn the_strings_of_a_node_are_stored_in_order() {
    let out = extract("t.gd", "# D\nfunc f(a) -> int:\n    pass\n").unwrap();
    let arena = String::from_utf8(out.arena.clone()).unwrap();
    assert_eq!(arena, "file:t.gdt.gdt.gdfffunction:t.gd:f:2D(a) -> intint");
}

#[test]
fn broken_sources_are_left_to_another_parser() {
    let e = extract("t.gd", "func (\n").err().unwrap();
    assert_eq!(e, "defer: parse tree contains errors — wasm recovery is canonical");
}

#[test]
fn every_outcome_of_a_parse_has_its_result() {
    let refused = Parsed::Refused("too new".to_string());
    let e = extract_parsed("t.gd", "", &refused).err().unwrap();
    assert_eq!(e, "set_language(gdscript) failed: too new");
    let e = extract_parsed("t.gd", "", &Parsed::NoTree).err().unwrap();
    assert_eq!(e, "parser returned null tree");
    let e = extract_parsed("t.gd", "", &Parsed::Broken).err().unwrap();
    assert_eq!(e, "defer: parse tree contains errors — wasm recovery is canonical");
    let empty = Parsed::Tree(SyntaxTree { nodes: Vec::new() });
    let e = extract_parsed("t.gd", "", &empty).err().unwrap();
    assert_eq!(e, "defer: parse tree does not fit the source");
    let large = Parsed::Tree(SyntaxTree { nodes: Trees::new("abc").nodes });
    assert!(extract_parsed("t.gd", "abc", &large).is_ok());
    let e = extract_parsed("t.gd", "ab", &large).err().unwrap();
    assert_eq!(e, "defer: parse tree does not fit the source");
}

#[test]
fn calls_and_known_arguments_are_referred_to() {
    let source = "func run():\n    go(stop, other)\nfunc stop():\n    pass\n";
    let mut t = Trees::new(source);
    t.add(1, "", "function_definition", "func run():\n    go(stop, other)", 0);
    t.add(2, "name", "name", "run", 0);
    t.add(2, "body", "body", "go(stop, other)", 0);
    t.add(3, "", "call", "go(stop, other)", 0);
    t.add(4, "function", "identifier", "go", 0);
    t.add(4, "arguments", "arguments", "(stop, other)", 0);
    t.add(5, "", "identifier", "stop", 0);
    t.add(5, "", "identifier", "other", 0);
    t.add(1, "", "function_definition", "func stop():\n    pass", 0);
    t.add(2, "name", "name", "stop", 1);
    let out = t.graph();
    assert_eq!(
        nodes(&out),
        vec![
            node(FILE, "t.gd", "t.gd"),
            node(FUNCTION, "run", "run"),
            node(FUNCTION, "stop", "stop"),
        ]
    );
    assert_eq!(
        refs(&out),
        vec![reference(1, MENTION, 2, 4, "go"), reference(1, MENTION, 2, 0, "stop")]
    );
}

#[test]
fn calls_outside_functions_belong_to_the_file() {
    let source = "go(go)\n";
    let mut t = Trees::new(source);
    t.add(1, "", "call", "go(go)", 0);
    t.add(2, "function", "identifier", "go", 0);
    t.add(2, "arguments", "arguments", "(go)", 0);
    t.add(3, "", "identifier", "go", 1);
    let out = t.graph();
    assert_eq!(refs(&out), vec![reference(0, MENTION, 1, 0, "go")]);
}

#[test]
fn extends_statements_belong_to_the_innermost_class() {
    let source = "class A:\n    func f():\n        pass\n    extends B\n";
    let mut t = Trees::new(source);
    t.add(1, "", "class_definition", "class A:\n    func f():\n        pass\n    extends B", 0);
    t.add(2, "name", "name", "A", 0);
    t.add(2, "body", "class_body", "func f():\n        pass\n    extends B", 0);
    t.add(3, "", "function_definition", "func f():\n        pass", 0);
    t.add(4, "name", "name", "f", 0);
    t.add(3, "", "extends_statement", "extends B", 0);
    t.add(4, "", "identifier", "B", 0);
    let out = t.graph();
    assert_eq!(edges(&out), vec![(0, 1, CONTAINS), (1, 2, CONTAINS), (1, 0, EXTENDS)]);
    assert_eq!((out.edges[2].line, out.edges[2].column), (4, 12));
    assert_eq!(refs(&out), vec![reference(1, EXTENDS, 4, 12, "B")]);
}

#[test]
fn extends_statements_outside_classes_leave_no_trace() {
    let source = "extends B\n";
    let mut t = Trees::new(source);
    t.add(1, "", "extends_statement", "extends B", 0);
    t.add(2, "", "identifier", "B", 0);
    let out = t.graph();
    assert_eq!(out.nodes.len(), 1);
    assert!(out.edges.is_empty());
    assert!(out.refs.is_empty());
    let real = graph("extends Node2D\n");
    assert_eq!(real.nodes.len(), 1);
    assert!(real.refs.is_empty());
}

#[test]
fn only_the_first_name_of_an_extends_statement_counts() {
    let source = "class A:\n    extends B, C\n";
    let mut t = Trees::new(source);
    t.add(1, "", "class_definition", "class A:\n    extends B, C", 0);
    t.add(2, "name", "name", "A", 0);
    t.add(2, "body", "class_body", "extends B, C", 0);
    t.add(3, "", "extends_statement", "extends B, C", 0);
    t.add(4, "", "comment", ",", 0);
    t.add(4, "", "identifier", "B", 0);
    t.add(4, "", "identifier", "C", 0);
    let out = t.graph();
    assert_eq!(refs(&out), vec![reference(1, EXTENDS, 2, 12, "B")]);
    assert_eq!(out.edges.len(), 2);
}

#[test]
fn extends_clauses_are_references_of_the_class() {
    let source = "class A extends B, C:\n    pass\n";
    let mut t = Trees::new(source);
    t.add(1, "", "class_definition", "class A extends B, C:\n    pass", 0);
    t.add(2, "name", "name", "A", 0);
    t.add(2, "", "extends_clause", "extends B, C", 0);
    t.add(3, "", "identifier", "B", 0);
    t.add(3, "", "identifier", "C", 0);
    let out = t.graph();
    assert_eq!(edges(&out), vec![(0, 1, CONTAINS)]);
    assert_eq!(
        refs(&out),
        vec![reference(1, EXTENDS, 1, 16, "B"), reference(1, EXTENDS, 1, 19, "C")]
    );
}

#[test]
fn functions_are_methods_directly_in_classes_only() {
    let source = "class A:\n    static func m():\n        func inner():\n            pass\n";
    let mut t = Trees::new(source);
    t.add(1, "", "class_definition", source.trim_end(), 0);
    t.add(2, "name", "name", "A", 0);
    let method = "static func m():\n        func inner():\n            pass";
    t.add(2, "body", "class_body", method, 0);
    t.add(3, "", "static_function_definition", method, 0);
    t.add(4, "name", "name", "m", 0);
    t.add(4, "body", "body", "func inner():\n            pass", 0);
    t.add(5, "", "function_definition", "func inner():\n            pass", 0);
    t.add(6, "name", "name", "inner", 0);
    let out = t.graph();
    assert_eq!(
        nodes(&out),
        vec![
            node(FILE, "t.gd", "t.gd"),
            node(CLASS, "A", "A"),
            node(METHOD, "m", "A::m"),
            node(FUNCTION, "inner", "A::m::inner"),
        ]
    );
    assert_eq!(edges(&out), vec![(0, 1, CONTAINS), (1, 2, CONTAINS), (2, 3, CONTAINS)]);
}

#[test]
fn lambdas_are_named_after_their_line() {
    let out = graph("var a = 1\nconst F = 2\nvar handler = func(x) -> int: return run(x)\n");
    assert_eq!(
        nodes(&out),
        vec![
            node(FILE, "test.gd", "dir/test.gd"),
            node(VARIABLE, "a", "a"),
            node(CONSTANT, "F", "F"),
            node(VARIABLE, "handler", "handler"),
            node(FUNCTION, "lambda@3", "lambda@3"),
        ]
    );
    let lambda = &out.nodes[4];
    assert_eq!(lambda.flags, BoolFlags { known: 0, value: 0 });
    assert_eq!(text(&out, lambda.signature), some("(x) -> int"));
    assert_eq!(text(&out, lambda.return_type), some("int"));
    assert_eq!(text(&out, lambda.docstring), None);
    assert_eq!(text(&out, lambda.id), some("function:dir/test.gd:lambda@3:3"));
}

#[test]
fn names_without_text_are_not_recorded() {
    let out = graph("enum { LOOSE, ENDS }\n");
    assert_eq!(out.nodes.len(), 1);
    assert!(out.refs.is_empty());
    let mut t = Trees::new("class : pass\n");
    t.add(1, "", "class_definition", "class : pass", 0);
    t.add(2, "body", "class_body", "pass", 0);
    assert_eq!(t.graph().nodes.len(), 1);
}

#[test]
fn the_name_field_goes_before_identifiers() {
    let source = "const A = B\n";
    let mut t = Trees::new(source);
    t.add(1, "", "const_statement", "const A = B", 0);
    t.add(2, "", "identifier", "B", 0);
    t.add(2, "name", "name", "A", 0);
    assert_eq!(nodes(&t.graph())[1], node(CONSTANT, "A", "A"));
    let mut t = Trees::new(source);
    t.add(1, "", "const_statement", "const A = B", 0);
    t.add(2, "", "identifier", "A", 0);
    t.add(2, "", "identifier", "B", 0);
    assert_eq!(nodes(&t.graph())[1], node(CONSTANT, "A", "A"));
}

#[test]
fn comments_before_a_declaration_document_it() {
    let out = graph("# one\n##  two\nvar health = 1\n\n# three\nsignal died\nvar plain = 2\n");
    let docs: Vec<Option<String>> = out.nodes.iter().map(|n| text(&out, n.docstring)).collect();
    assert_eq!(docs, vec![None, some("one\ntwo"), some("three"), None]);
    assert_eq!(nodes(&out)[2], node(VARIABLE, "died", "died"));
}

#[test]
fn empty_comments_document_nothing() {
    let out = graph("#\nvar health = 1\n");
    assert_eq!(text(&out, out.nodes[1].docstring), None);
}

#[test]
fn uses_of_shared_values_are_referred_to() {
    let out = graph("const MAX_V = 1\nvar next_v = MAX_V\nfunc f():\n    return MAX_V + next_v\n");
    assert_eq!(
        refs(&out),
        vec![
            reference(1, MENTION, 2, 13, "MAX_V"),
            reference(1, MENTION, 4, 11, "MAX_V"),
            reference(2, MENTION, 4, 19, "next_v"),
        ]
    );
}

#[test]
fn short_and_plain_names_are_not_shared() {
    let out = graph("const AB = 1\nvar speed = AB\nvar other_one = speed\n");
    assert!(out.refs.is_empty());
}

#[test]
fn values_in_functions_are_not_shared() {
    let out = graph("func f():\n    var local_v = 1\n    return local_v\n");
    assert_eq!(out.nodes.len(), 2);
    assert!(out.refs.is_empty());
}

#[test]
fn every_declaration_of_a_shared_name_gets_its_uses() {
    let out = graph("const MAX_V = 1\nconst MAX_V = 2\nvar a = MAX_V\n");
    assert_eq!(
        refs(&out),
        vec![reference(1, MENTION, 3, 8, "MAX_V"), reference(2, MENTION, 3, 8, "MAX_V")]
    );
}

#[test]
fn a_function_named_like_a_shared_value_refers_to_its_uses() {
    let out = graph("const MAX_V = 1\nfunc MAX_V(): pass\nvar a = MAX_V\n");
    assert_eq!(
        refs(&out),
        vec![reference(1, MENTION, 3, 8, "MAX_V"), reference(2, MENTION, 3, 8, "MAX_V")]
    );
}

#[test]
fn arguments_name_functions_declared_anywhere() {
    let out = graph("func a():\n    connect(later, missing)\nclass C:\n    func later(): pass\n");
    assert_eq!(
        refs(&out),
        vec![reference(1, MENTION, 2, 4, "connect"), reference(1, MENTION, 2, 0, "later")]
    );
}

#[test]
fn arguments_in_initializers_are_noted_in_both_scopes() {
    let out = graph("func f(): pass\nvar handler = wrap(f)\n");
    assert_eq!(
        refs(&out),
        vec![
            reference(2, MENTION, 2, 14, "wrap"),
            reference(0, MENTION, 2, 14, "wrap"),
            reference(2, MENTION, 2, 0, "f"),
            reference(0, MENTION, 2, 0, "f"),
        ]
    );
}

#[test]
fn columns_are_in_utf16_code_units() {
    let out = graph("var s_a = \"é😀\" + str(s_a)\n");
    assert_eq!(
        refs(&out),
        vec![
            reference(1, MENTION, 1, 18, "str"),
            reference(0, MENTION, 1, 18, "str"),
            reference(1, MENTION, 1, 22, "s_a"),
        ]
    );
    assert_eq!((out.nodes[1].start_column, out.nodes[1].end_column), (0, 26));
}

#[test]
fn long_initializers_are_cut() {
    let items = "1, ".repeat(60);
    let source = format!("var list = [{}]\n", items);
    let out = graph(&source);
    let value = format!("[{}]", items);
    assert_eq!(text(&out, out.nodes[1].signature), some(&format!("= {}...", &value[..100])));
}

#[test]
fn annotated_and_plain_variables_are_exported() {
    let out = graph("@export var a = 1\n@onready var b = 2\nvar c = 3\n");
    assert_eq!(out.nodes.len(), 4);
    for n in &out.nodes[1..] {
        assert_eq!(n.flags, BoolFlags { known: 1, value: 1 });
    }
}

#[test]
fn scopes_are_closed_after_their_contents() {
    let out = graph("class A:\n    class B:\n        var x = 1\n    var y = 2\nvar z = 3\n");
    assert_eq!(
        nodes(&out),
        vec![
            node(FILE, "test.gd", "dir/test.gd"),
            node(CLASS, "A", "A"),
            node(CLASS, "B", "A::B"),
            node(VARIABLE, "x", "A::B::x"),
            node(VARIABLE, "y", "A::y"),
            node(VARIABLE, "z", "z"),
        ]
    );
}

#[test]
fn unvisited_nodes_are_not_recorded() {
    let source = "var a\nvar b\n";
    let mut t = Trees::new(source);
    t.add(1, "", "variable_statement", "var a", 0);
    t.add(2, "name", "name", "a", 0);
    t.add(1, "", "variable_statement", "var b", 0);
    t.add(2, "name", "name", "b", 0);
    let tree = SyntaxTree { nodes: t.nodes };
    let mut w = Walker::new("t.gd", source, &tree);
    w.visit_node(3);
    let out = w.finish();
    assert_eq!(nodes(&out), vec![node(FILE, "t.gd", "t.gd"), node(VARIABLE, "b", "b")]);
}

#[test]
fn code_declares_functions_but_no_variables() {
    let source = "func f():\n    var a\n";
    let mut t = Trees::new(source);
    t.add(1, "", "function_definition", "func f():\n    var a", 0);
    t.add(2, "name", "name", "f", 0);
    t.add(2, "body", "body", "var a", 0);
    t.add(3, "", "variable_statement", "var a", 0);
    t.add(4, "name", "name", "a", 0);
    let tree = SyntaxTree { nodes: t.nodes };
    let mut w = Walker::new("t.gd", source, &tree);
    w.visit_function_body(0);
    let walked = w.finish();
    assert_eq!(nodes(&walked), vec![node(FILE, "t.gd", "t.gd"), node(FUNCTION, "f", "f")]);
    let whole = extract_tree("t.gd", source, &tree);
    assert_eq!(nodes(&whole), nodes(&walked));
}

#[test]
fn references_come_after_the_walk() {
    let source = "func f(): pass\nvar a = g(f)\n";
    let tree = match gdscript_graph::parser::parse(source) {
        Parsed::Tree(tree) => tree,
        _ => panic!("no tree"),
    };
    let mut w = Walker::new("t.gd", source, &tree);
    w.visit_node(0);
    w.flush_fn_ref_candidates();
    let out = w.finish();
    assert_eq!(refs(&out).len(), 4);
    let mut w = Walker::new("t.gd", source, &tree);
    w.visit_node(0);
    let out = w.finish();
    assert_eq!(
        refs(&out),
        vec![reference(2, MENTION, 2, 8, "g"), reference(0, MENTION, 2, 8, "g")]
    );
}

#[test]
fn a_script_class_extends_on_the_next_line_or_the_same() {
    let next = graph("class_name MyPlayer\nextends CharacterBody2D\n");
    assert_eq!(edges(&next), vec![(0, 1, CONTAINS), (1, 0, EXTENDS)]);
    assert_eq!((next.edges[1].line, next.edges[1].column), (2, 8));
    assert_eq!(refs(&next), vec![reference(1, EXTENDS, 2, 8, "CharacterBody2D")]);
    let same = graph("class_name MyPlayer extends CharacterBody2D\n");
    assert_eq!(edges(&same), vec![(0, 1, CONTAINS), (1, 0, EXTENDS)]);
    assert_eq!(refs(&same), vec![reference(1, EXTENDS, 1, 28, "CharacterBody2D")]);
    let later = graph("class_name MyPlayer\nvar a = 1\nextends Node.Inner\n");
    assert_eq!(refs(&later), vec![reference(1, EXTENDS, 3, 8, "Node.Inner")]);
}

#[test]
fn a_base_class_can_be_the_path_of_a_script() {
    let script = graph("class_name A\nextends \"res://base.gd\"\n");
    assert_eq!(refs(&script), vec![reference(1, EXTENDS, 2, 8, "res://base.gd")]);
    let inner = graph("class A:\n    extends 'res://x.gd'\n    var y = 1\n");
    assert_eq!(edges(&inner), vec![(0, 1, CONTAINS), (1, 0, EXTENDS), (1, 2, CONTAINS)]);
    assert_eq!(refs(&inner), vec![reference(1, EXTENDS, 2, 12, "res://x.gd")]);
    let header = graph("class A extends \"res://x.gd\":\n    pass\n");
    assert_eq!(edges(&header), vec![(0, 1, CONTAINS)]);
    assert_eq!(refs(&header), vec![reference(1, EXTENDS, 1, 16, "res://x.gd")]);
}

#[test]
fn inner_classes_name_their_bases_in_the_header() {
    let out = graph("class A extends B:\n    class C extends A.D:\n        pass\n");
    assert_eq!(edges(&out), vec![(0, 1, CONTAINS), (1, 2, CONTAINS)]);
    assert_eq!(
        refs(&out),
        vec![reference(1, EXTENDS, 1, 16, "B"), reference(2, EXTENDS, 2, 20, "A.D")]
    );
}

#[test]
fn open_classes_go_before_the_script_class() {
    let out = graph("class_name S\nclass A:\n    extends B\nextends C\n");
    assert_eq!(
        edges(&out),
        vec![(0, 1, CONTAINS), (0, 2, CONTAINS), (2, 0, EXTENDS), (1, 0, EXTENDS)]
    );
    assert_eq!(
        refs(&out),
        vec![reference(2, EXTENDS, 3, 12, "B"), reference(1, EXTENDS, 4, 8, "C")]
    );
}

#[test]
fn the_parameters_of_a_getter_are_walked_in_place_of_its_body() {
    let out = graph("var a:\n    get(x):\n        return foo()\n");
    assert_eq!(out.nodes.len(), 2);
    assert!(out.refs.is_empty());
    let both = graph("var a:\n    get(x):\n        return foo()\n    set(v):\n        bar(v)\n");
    assert_eq!(refs(&both), vec![reference(0, MENTION, 5, 8, "bar")]);
}

#[test]
fn base_classes_wait_for_the_script_class() {
    let out = graph("extends Node\nclass_name S\n");
    assert_eq!(edges(&out), vec![(0, 1, CONTAINS), (1, 0, EXTENDS)]);
    assert_eq!((out.edges[1].line, out.edges[1].column), (1, 8));
    assert_eq!(refs(&out), vec![reference(1, EXTENDS, 1, 8, "Node")]);
    let path = graph("extends \"res://b.gd\"\nclass_name S\n");
    assert_eq!(refs(&path), vec![reference(1, EXTENDS, 1, 8, "res://b.gd")]);
    let around = graph("extends A\nclass B:\n    extends C\nclass_name D\nvar e = f()\n");
    assert_eq!(
        edges(&around),
        vec![
            (0, 1, CONTAINS),
            (1, 0, EXTENDS),
            (0, 2, CONTAINS),
            (2, 0, EXTENDS),
            (0, 3, CONTAINS),
        ]
    );
    assert_eq!(
        refs(&around),
        vec![
            reference(1, EXTENDS, 3, 12, "C"),
            reference(2, EXTENDS, 1, 8, "A"),
            reference(3, MENTION, 5, 8, "f"),
            reference(0, MENTION, 5, 8, "f"),
        ]
    );
}

#[test]
fn base_classes_belong_to_the_latest_script_class() {
    let source = "class_name A\nclass_name B\nextends C\n";
    let mut t = Trees::new(source);
    t.add(1, "", "class_name_statement", "class_name A", 0);
    t.add(2, "name", "name", "A", 0);
    t.add(1, "", "class_name_statement", "class_name B", 0);
    t.add(2, "name", "name", "B", 0);
    t.add(1, "", "extends_statement", "extends C", 0);
    t.add(2, "", "type", "C", 0);
    let out = t.graph();
    assert_eq!(refs(&out), vec![reference(2, EXTENDS, 3, 8, "C")]);
}

#[test]
fn calls_refer_from_the_innermost_scope() {
    let out = graph("foo()\nclass A:\n    func m():\n        foo()\n    var v = foo()\n");
    assert_eq!(
        refs(&out),
        vec![
            reference(0, MENTION, 1, 0, "foo"),
            reference(2, MENTION, 4, 8, "foo"),
            reference(3, MENTION, 5, 12, "foo"),
            reference(1, MENTION, 5, 12, "foo"),
        ]
    );
}

#[test]
fn declarations_can_be_made_one_by_one() {
    let source = "const MAX_V = 1\nfunc f(): pass\n";
    let tree = match gdscript_graph::parser::parse(source) {
        Parsed::Tree(tree) => tree,
        _ => panic!("no tree"),
    };
    let extra = || Extra {
        docstring: None,
        signature: None,
        is_exported: None,
        return_type: None,
        qualified_name: None,
    };
    let mut w = Walker::new("t.gd", source, &tree);
    assert_eq!(w.create_node(NodeKind::Constant, "MAX_V", 1, extra()), Some(1));
    assert_eq!(w.create_node(NodeKind::Constant, "MAX_V", 1, extra()), Some(2));
    assert_eq!(w.create_node(NodeKind::Constant, "", 1, extra()), None);
    let out = w.finish();
    assert_eq!(
        nodes(&out),
        vec![
            node(FILE, "t.gd", "t.gd"),
            node(CONSTANT, "MAX_V", "MAX_V"),
            node(CONSTANT, "MAX_V", "MAX_V"),
        ]
    );
    assert_eq!(text(&out, out.nodes[2].id), some("constant:t.gd:MAX_V:1"));
    let f = tree.named_children(0)[1];
    let mut plain = Walker::new("t.gd", source, &tree);
    plain.extract_function(f, false);
    let mut fixed = Walker::new("t.gd", source, &tree);
    fixed.extract_function(f, true);
    let (a, b) = (plain.finish(), fixed.finish());
    assert_eq!(a.nodes, b.nodes);
    assert_eq!(a.arena, b.arena);
    assert_eq!(nodes(&a)[1], node(FUNCTION, "f", "f"));
}

#[test]
fn calls_in_parsed_text_are_referred_to() {
    let out = graph("func f():\n    foo(bar())\n    a.b()\nvar c = f()\n");
    assert_eq!(
        refs(&out),
        vec![
            reference(1, MENTION, 2, 4, "foo"),
            reference(1, MENTION, 2, 8, "bar"),
            reference(2, MENTION, 4, 8, "f"),
            reference(0, MENTION, 4, 8, "f"),
        ]
    );
}

#[test]
fn calls_without_a_callee_are_passed_over() {
    let source = "(stop)\n";
    let mut t = Trees::new(source);
    t.add(1, "", "call", "(stop)", 0);
    t.add(2, "arguments", "arguments", "(stop)", 0);
    t.add(3, "", "identifier", "stop", 0);
    assert!(t.graph().refs.is_empty());
}

#[test]
fn accessors_are_walked() {
    let source = "var a:\n    get():\n        return foo()\n    set(v):\n        bar(v)\n";
    let out = graph(source);
    assert_eq!(
        refs(&out),
        vec![reference(0, MENTION, 3, 15, "foo"), reference(0, MENTION, 5, 8, "bar")]
    );
}

#[test]
fn static_functions_are_recorded_like_others() {
    let source = "class A:\n    func m(x) -> int:\n        go(x)\n";
    let build = |kind: &str| {
        let mut t = Trees::new(source);
        t.add(1, "", "class_definition", source.trim_end(), 0);
        t.add(2, "name", "name", "A", 0);
        t.add(2, "body", "class_body", "func m(x) -> int:\n        go(x)", 0);
        t.add(3, "", kind, "func m(x) -> int:\n        go(x)", 0);
        t.add(4, "name", "name", "m", 0);
        t.add(4, "parameters", "parameters", "(x)", 0);
        t.add(4, "return_type", "type", "int", 0);
        t.add(4, "body", "body", "go(x)", 0);
        t.add(5, "", "call", "go(x)", 0);
        t.add(6, "", "identifier", "go", 0);
        t.add(6, "arguments", "arguments", "(x)", 1);
        t.graph()
    };
    let plain = build("function_definition");
    let fixed = build("static_function_definition");
    assert_eq!(plain.nodes, fixed.nodes);
    assert_eq!(plain.edges, fixed.edges);
    assert_eq!(plain.refs, fixed.refs);
    assert_eq!(plain.arena, fixed.arena);
    assert_eq!(nodes(&plain)[2], node(METHOD, "m", "A::m"));
    assert_eq!(refs(&plain), vec![reference(2, MENTION, 3, 8, "go")]);
    let parsed = graph("class A:\n    static func m(): pass\n");
    assert_eq!(nodes(&parsed)[2], node(METHOD, "m", "A::m"));
}
