use gdscript_graph::buffers::{
    build_meta, none_str, opt_str, Arena, BoolFlags, EdgeRow, NodeRow, RefRow, StrRef, Tables,
    FLAG_IS_EXPORTED, NONE,
};

fn node(name: StrRef) -> NodeRow {
    NodeRow {
        kind: 2,
        visibility: 0,
        flags: BoolFlags::default(),
        start_line: 1,
        end_line: 2,
        start_column: 0,
        end_column: 3,
        name,
        qualified_name: name,
        id: name,
        docstring: none_str(),
        signature: none_str(),
        decorators: none_str(),
        type_parameters: none_str(),
        return_type: none_str(),
        extra_json: none_str(),
    }
}

#[test]
fn the_arena_appends_and_resolves() {
    let mut arena = Arena::default();
    assert_eq!(arena.len(), 0);
    let a = arena.put("ab");
    let b = arena.put("é");
    let c = arena.put("");
    assert_eq!(a, StrRef { offset: 0, len: 2 });
    assert_eq!(b, StrRef { offset: 2, len: 2 });
    assert_eq!(c, StrRef { offset: 4, len: 0 });
    assert_eq!(arena.len(), 4);
    assert_eq!(arena.into_vec(), "abé".as_bytes().to_vec());
}

#[test]
fn absent_and_empty_strings_are_not_stored() {
    let mut arena = Arena::default();
    assert_eq!(opt_str(&mut arena, None), none_str());
    assert_eq!(opt_str(&mut arena, Some("")), none_str());
    assert_eq!(arena.len(), 0);
    assert_eq!(opt_str(&mut arena, Some("x")), StrRef { offset: 0, len: 1 });
    assert_eq!(arena.len(), 1);
}

#[test]
fn the_missing_string_is_told_apart_from_empty_ones() {
    assert_eq!(none_str(), StrRef { offset: usize::MAX, len: 0 });
    let mut arena = Arena::default();
    assert_ne!(arena.put(""), none_str());
    assert_eq!(NONE, u32::MAX);
}

#[test]
fn flags_are_unknown_until_set() {
    let mut flags = BoolFlags::default();
    assert_eq!(flags, BoolFlags { known: 0, value: 0 });
    flags.set(FLAG_IS_EXPORTED, true);
    assert_eq!(flags, BoolFlags { known: 1, value: 1 });
    flags.set(2, false);
    assert_eq!(flags, BoolFlags { known: 3, value: 1 });
    flags.set(FLAG_IS_EXPORTED, false);
    assert_eq!(flags, BoolFlags { known: 3, value: 0 });
}

#[test]
fn rows_are_numbered_in_order() {
    let mut arena = Arena::default();
    let name = arena.put("n");
    let mut tables = Tables::default();
    assert_eq!(tables.push_node(&node(name)), 0);
    assert_eq!(tables.push_node(&node(none_str())), 1);
    let edge = EdgeRow {
        source_idx: 0,
        target_idx: 1,
        kind: 0,
        provenance: 0,
        line: NONE,
        column: NONE,
        metadata_json: none_str(),
        source_id_str: none_str(),
        target_id_str: none_str(),
    };
    tables.push_edge(&edge);
    let reference = RefRow {
        from_idx: 1,
        kind: 4,
        line: 3,
        column: 5,
        reference_name: name,
        candidates: none_str(),
        from_id_str: none_str(),
    };
    tables.push_ref(&reference);
    tables.push_ref(&reference);
    assert_eq!(tables.nodes, vec![node(name), node(none_str())]);
    assert_eq!(tables.edges, vec![edge]);
    assert_eq!(tables.refs, vec![reference, reference]);
    let meta = build_meta(&tables, arena.len(), name);
    assert_eq!(meta.node_count, 2);
    assert_eq!(meta.edge_count, 1);
    assert_eq!(meta.ref_count, 2);
    assert_eq!(meta.arena_len, 1);
    assert_eq!(meta.message, name);
}
