use gdscript_graph::parser::{parse, Parsed};
use gdscript_graph::syntax::SyntaxTree;
use gdscript_graph::textutil::line_starts;
use tree_sitter::{Node, Parser, Tree};

const PLAYER: &str = r##"@tool
class_name Player
extends CharacterBody2D

## How fast, in "px/s" — not 😀.
const MAX_SPEED = 300.0
@export_range(0, 100) var health: int = 100
@onready
# a comment in between
var sprite := $Sprite2D
signal died(by)
enum Direction { UP, DOWN = 4 }
enum { LOOSE }

func _ready() -> void:
    connect("died", _on_died)
    var f = func(x): return x + 1
    if health > 0:
        for i in range(10):
            print(i, MAX_SPEED)

static func create(a: int, b := 2) -> Player:
    return Player.new()

class Inner extends Node:
    var depth_e = "é"
    func go(): pass
    class Deep:
        enum Kind { A_B }
"##;

const MATCH: &str = "func f(x):\n    match x:\n        1, 2:\n            return [1, {\"a\": x}]\n        _:\n            while true:\n                x.y.z(1)[0] = not x\n";

fn outside_parse(source: &str) -> Tree {
    let mut parser = Parser::new();
    parser.set_language(&tree_sitter_gdscript::LANGUAGE.into()).unwrap();
    parser.parse(source, None).unwrap()
}

/// The nodes of a subtree in pre-order.
fn pre_order<'t>(node: Node<'t>, out: &mut Vec<Node<'t>>) {
    out.push(node);
    for i in 0..node.child_count() {
        pre_order(node.child(i).unwrap(), out);
    }
}

fn captured(source: &str) -> SyntaxTree {
    match parse(source) {
        Parsed::Tree(tree) => tree,
        _ => panic!("no tree for {:?}", source),
    }
}

fn place(nodes: &Vec<Node>, node: Node) -> usize {
    nodes.iter().position(|n| *n == node).unwrap()
}

/// Holds the captured tree of a source against the tree it was captured from: every
/// node, and every step from it.
fn same_tree(source: &str) {
    let tree = captured(source);
    let outside = outside_parse(source);
    let mut nodes = Vec::new();
    pre_order(outside.root_node(), &mut nodes);
    assert_eq!(tree.nodes.len(), nodes.len());
    let mut fields: Vec<String> = Vec::new();
    for n in &tree.nodes {
        if let Some(f) = &n.field {
            fields.push(f.clone());
        }
    }
    for f in ["name", "body", "value", "parameters", "return_type", "function", "arguments"] {
        fields.push(f.to_string());
    }
    fields.sort();
    fields.dedup();
    for i in 0..nodes.len() {
        let node = nodes[i];
        let copy = &tree.nodes[i];
        assert_eq!(copy.kind, node.kind());
        assert_eq!(copy.named, node.is_named());
        assert_eq!(copy.start_byte..copy.end_byte, node.byte_range());
        assert_eq!(copy.start_row, node.start_position().row);
        assert_eq!(copy.end_row, node.end_position().row);
        let mut named = Vec::new();
        for k in 0..node.named_child_count() {
            named.push(place(&nodes, node.named_child(k).unwrap()));
        }
        assert_eq!(tree.named_children(i), named);
        let idents: Vec<usize> =
            named.iter().filter(|c| nodes[**c].kind() == "identifier").cloned().collect();
        assert_eq!(tree.children_of_kind(i, "identifier"), idents);
        for f in &fields {
            let expected = node.child_by_field_name(f.as_str()).map(|c| place(&nodes, c));
            assert_eq!(tree.child_by_field_name(i, f), expected, "field {} of {}", f, node.kind());
        }
        let sibling = node.prev_named_sibling().map(|s| place(&nodes, s));
        assert_eq!(tree.prev_named_sibling(i), sibling);
        assert_eq!(tree.text(source, i), &source[node.byte_range()]);
        assert!(tree.is_kind(i, node.kind()));
        assert!(!tree.is_kind(i, "no such kind"));
    }
    assert!(tree.fits(source, &line_starts(source)));
}

#[test]
fn a_captured_tree_is_the_parsed_tree() {
    same_tree(PLAYER);
    same_tree(MATCH);
    same_tree("");
    same_tree("# only a comment\n");
    same_tree("var a = 1; var b = func(): pass\n");
    same_tree("class_name A, \"res://icon.svg\" extends \"res://b.gd\"\r\n\r\nvar a:\r\n\tget(): return 1\r\n\tset(v): a = v\r\n");
    same_tree("var a:\n    get(x):\n        return foo()\n    set(v):\n        a = v\n");
    same_tree("var a:\n    get(x, y: int = 2):\n        return $\"b\\tc\"\nvar d = ^\"e\"\n");
    same_tree("\u{feff}class A extends B.C:\n    extends r'x'\n    var s = \"\"\"é\n😀\"\"\"\n");
}

#[test]
fn captured_roots_are_sources() {
    let tree = captured("class_name A\n");
    assert_eq!(tree.nodes[0].kind, "source");
    assert_eq!(tree.nodes[0].depth, 0);
    assert_eq!(tree.nodes[0].field, None);
    assert!(tree.nodes[0].named);
    let name = tree.child_by_field_name(1, "name").unwrap();
    assert_eq!(tree.nodes[name].field, Some("name".to_string()));
    assert_eq!(tree.nodes[name].depth, 2);
    assert_eq!(tree.text("class_name A\n", name), "A");
}

#[test]
fn broken_texts_have_no_tree() {
    assert!(matches!(parse("func ("), Parsed::Broken));
    assert!(matches!(parse("class_name\n= = =\n"), Parsed::Broken));
    assert!(matches!(parse("pass\n"), Parsed::Tree(_)));
}

#[test]
fn trees_of_other_texts_do_not_fit() {
    let tree = captured("var health = 100\n");
    assert!(tree.fits("var health = 100\n", &line_starts("var health = 100\n")));
    assert!(tree.fits("var weight = 100\n", &line_starts("var weight = 100\n")));
    assert!(!tree.fits("var x\n", &line_starts("var x\n")));
    assert!(!tree.fits("var hééth = 100\n", &line_starts("var hééth = 100\n")));
}
