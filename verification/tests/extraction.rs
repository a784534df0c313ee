use gdscript_graph::buffers::EmitOut;
use gdscript_graph::gdscript::extract;

/// Check if the arena contains a given substring.
fn arena_contains(out: &EmitOut, needle: &str) -> bool {
    let arena_str = std::str::from_utf8(&out.arena).unwrap_or("");
    arena_str.contains(needle)
}

fn extract_test(source: &str) -> EmitOut {
    extract("test.gd", source).expect("extract should succeed")
}

#[test]
fn test_class_name() {
    let out = extract_test("class_name MyPlayer\n");
    assert!(arena_contains(&out, "MyPlayer"), "should extract class_name MyPlayer");
}

#[test]
fn test_function_extraction() {
    let source = "func _ready() -> void:\n    pass\n";
    let out = extract_test(source);
    assert!(arena_contains(&out, "_ready"), "should extract _ready function");
}

#[test]
fn test_variable_extraction() {
    let source = "var health: int = 100\n";
    let out = extract_test(source);
    assert!(arena_contains(&out, "health"), "should extract health variable");
}

#[test]
fn test_const_extraction() {
    let source = "const MAX_SPEED = 300.0\n";
    let out = extract_test(source);
    assert!(arena_contains(&out, "MAX_SPEED"), "should extract MAX_SPEED constant");
}

#[test]
fn test_signal_extraction() {
    let source = "signal player_died\n";
    let out = extract_test(source);
    assert!(arena_contains(&out, "player_died"), "should extract player_died signal");
}

#[test]
fn test_enum_extraction() {
    let source = "enum Direction {\n    UP,\n    DOWN,\n}\n";
    let out = extract_test(source);
    assert!(arena_contains(&out, "Direction"), "should extract Direction enum");
}

#[test]
fn test_full_script() {
    let source = r##"class_name MyPlayer
extends CharacterBody2D

const MAX_SPEED = 300.0
var health: int = 100
@export var speed: float = 200.0
signal player_died

enum Direction { UP, DOWN }

func _ready() -> void:
    _initialize()

func _process(delta: float) -> void:
    pass

static func create() -> MyPlayer:
    return MyPlayer.new()

func _initialize() -> void:
    pass
"##;
    let out = extract_test(source);

    assert!(arena_contains(&out, "MyPlayer"), "should have MyPlayer");
    assert!(arena_contains(&out, "MAX_SPEED"), "should have MAX_SPEED");
    assert!(arena_contains(&out, "health"), "should have health");
    assert!(arena_contains(&out, "_ready"), "should have _ready");
    assert!(arena_contains(&out, "Direction"), "should have Direction");
}
