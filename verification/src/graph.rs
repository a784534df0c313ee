//! The graph under construction, as a mathematical value, and what each event of
//! a walk does to it.

use vstd::prelude::*;
use crate::buffers::{
    arena_put, arena_put_opt, no_flags, none_str, put_opt_ref, put_ref, with_flag, BoolFlags,
    EdgeRow, EmitOut, NodeRow, RefRow, FLAG_IS_EXPORTED, NONE,
};
use crate::ids::{declaration_id, file_id};
use crate::kinds::{
    class_like, edge_code, node_code, value_host, EdgeKind, NodeKind, FUNCTION_REF_CODE,
};
use crate::textutil::{base_name_of, distinctive, join_of, newline_count, simple_name, utf16_units};
use vstd::utf8::encode_utf8;

verus! {

/// A scope that is open while its contents are walked.
#[verifier::ext_equal]
pub struct ScopeModel {
    pub row: u32,
    pub kind: NodeKind,
    pub name: Seq<char>,
}

/// The kind and name of a node row.
#[verifier::ext_equal]
pub struct MetaModel {
    pub kind: NodeKind,
    pub name: Seq<char>,
}

/// A name that may turn out to mention a function.
#[verifier::ext_equal]
pub struct CandidateModel {
    pub from: u32,
    pub name: Seq<char>,
    pub line: u32,
    pub column_byte: int,
    pub row: int,
}

/// A declaration whose name is searched for in the whole file.
#[verifier::ext_equal]
pub struct ValueScopeModel {
    pub row: u32,
    pub node: int,
    pub name: Seq<char>,
}

/// The graph under construction.
#[verifier::ext_equal]
pub struct Graph {
    /// The path of the file.
    pub path: Seq<char>,
    pub arena: Seq<u8>,
    pub nodes: Seq<NodeRow>,
    pub edges: Seq<EdgeRow>,
    pub refs: Seq<RefRow>,
    /// The open scopes, innermost last.
    pub stack: Seq<ScopeModel>,
    /// The kind and name of each node row.
    pub metas: Seq<MetaModel>,
    /// The identifier of each node row.
    pub ids: Seq<Seq<char>>,
    /// The names of the functions and methods declared.
    pub defined: Set<Seq<char>>,
    /// The simple names imported.
    pub imported: Set<Seq<char>>,
    pub candidates: Seq<CandidateModel>,
    /// The values that the whole file can look up, with their rows.
    pub values: Map<Seq<char>, u32>,
    /// How often each such name was declared, modulo 2^32.
    pub value_counts: Map<Seq<char>, u32>,
    pub value_scopes: Seq<ValueScopeModel>,
    /// The row of the class that the file as a whole is declared to be.
    pub script_class: Option<u32>,
    /// The base classes named in the file while it is not declared to be a class.
    pub waiting: Seq<Mention>,
}

/// What a declaration adds to its name and place.
#[verifier::ext_equal]
pub struct ExtraModel {
    pub docstring: Option<Seq<char>>,
    pub signature: Option<Seq<char>>,
    pub is_exported: Option<bool>,
    pub return_type: Option<Seq<char>>,
    pub qualified_name: Option<Seq<char>>,
}

/// A declaration found in the source.
#[verifier::ext_equal]
pub struct Declaration {
    pub kind: NodeKind,
    pub name: Seq<char>,
    /// The syntax node that declares it.
    pub node: int,
    pub start_line: u32,
    pub end_line: u32,
    pub start_column: u32,
    pub end_column: u32,
    pub extra: ExtraModel,
}

/// A name written in the source, with its place.
#[verifier::ext_equal]
pub struct Mention {
    pub name: Seq<char>,
    pub line: u32,
    pub column: u32,
    pub byte: int,
}

/// What a walk over the source comes upon.
pub enum Event {
    /// A declaration of a known kind.
    Declare(Declaration),
    /// A declaration of a function, or of a method where the scope makes it one;
    /// the kind it carries is not looked at.
    DeclareCallable(Declaration),
    /// The latest declaration is that of the class that the file as a whole is.
    NameScript,
    /// The base classes that the latest declaration names.
    Inherit(Seq<Mention>),
    /// The start of the body of the latest declaration.
    Enter(NodeKind, Seq<char>),
    /// The start of the initializer of the latest declaration.
    EnterInitializer,
    /// The end of the innermost open scope.
    Leave,
    /// A call of a named function.
    Call(Mention),
    /// A statement by which a class, or the file as a class, names its base class.
    Extend(Mention),
    /// A name passed as an argument.
    Argument(Mention),
}

/// The row of the innermost open scope.
pub open spec fn top_row(stack: Seq<ScopeModel>) -> u32 {
    if stack.len() > 0 {
        stack.last().row
    } else {
        0
    }
}

/// Whether the innermost open scope makes functions methods.
pub open spec fn in_class_like(stack: Seq<ScopeModel>) -> bool {
    stack.len() > 0 && class_like(stack.last().kind)
}

/// The kind of a function declared in the innermost open scope.
pub open spec fn callable_kind(stack: Seq<ScopeModel>) -> NodeKind {
    if in_class_like(stack) {
        NodeKind::Method
    } else {
        NodeKind::Function
    }
}

/// The row of the innermost open class.
pub open spec fn nearest_class(stack: Seq<ScopeModel>) -> Option<u32>
    decreases stack.len(),
{
    if stack.len() == 0 {
        None
    } else if stack.last().kind == NodeKind::Class {
        Some(stack.last().row)
    } else {
        nearest_class(stack.drop_last())
    }
}

/// The row of the class that an `extends` statement speaks of: the innermost open
/// class, else the class that the file as a whole was declared to be.
pub open spec fn extending_class(g: Graph) -> Option<u32> {
    match nearest_class(g.stack) {
        Some(row) => Some(row),
        None => g.script_class,
    }
}

/// The names of the open scopes inside the file, outermost first.
pub open spec fn scope_names(stack: Seq<ScopeModel>) -> Seq<Seq<char>>
    decreases stack.len(),
{
    if stack.len() == 0 {
        seq![]
    } else if stack.last().kind == NodeKind::File {
        scope_names(stack.drop_last())
    } else {
        scope_names(stack.drop_last()).push(stack.last().name)
    }
}

/// The name of a declaration after the names of the scopes that hold it.
pub open spec fn qualified_name_of(stack: Seq<ScopeModel>, name: Seq<char>) -> Seq<char> {
    let path = join_of(scope_names(stack), "::"@);
    if path.len() == 0 {
        name
    } else {
        path + "::"@ + name
    }
}

/// The row of the node added last.
pub open spec fn latest_row(g: Graph) -> u32 {
    (g.nodes.len() - 1) as u32
}

/// The qualified name of a declaration.
pub open spec fn declared_qualified(g: Graph, d: Declaration) -> Seq<char> {
    match d.extra.qualified_name {
        Some(q) => q,
        None => qualified_name_of(g.stack, d.name),
    }
}

/// The identifier of a declaration.
pub open spec fn declared_id(g: Graph, d: Declaration) -> Seq<char> {
    declaration_id(g.path, d.kind, d.name, d.start_line)
}

/// The flags of a declaration.
pub open spec fn declared_flags(d: Declaration) -> BoolFlags {
    match d.extra.is_exported {
        Some(v) => with_flag(no_flags(), FLAG_IS_EXPORTED, v),
        None => no_flags(),
    }
}

/// The arena and row of a declaration: its strings are stored in the order name,
/// qualified name, identifier, documentation, signature, return type.
pub open spec fn declared_row(g: Graph, d: Declaration) -> (Seq<u8>, NodeRow) {
    let a1 = arena_put(g.arena, d.name);
    let a2 = arena_put(a1, declared_qualified(g, d));
    let a3 = arena_put(a2, declared_id(g, d));
    let a4 = arena_put_opt(a3, d.extra.docstring);
    let a5 = arena_put_opt(a4, d.extra.signature);
    let a6 = arena_put_opt(a5, d.extra.return_type);
    (
        a6,
        NodeRow {
            kind: node_code(d.kind),
            visibility: 0,
            flags: declared_flags(d),
            start_line: d.start_line,
            end_line: d.end_line,
            start_column: d.start_column,
            end_column: d.end_column,
            name: put_ref(g.arena, d.name),
            qualified_name: put_ref(a1, declared_qualified(g, d)),
            id: put_ref(a2, declared_id(g, d)),
            docstring: put_opt_ref(a3, d.extra.docstring),
            signature: put_opt_ref(a4, d.extra.signature),
            decorators: none_str(),
            type_parameters: none_str(),
            return_type: put_opt_ref(a5, d.extra.return_type),
            extra_json: none_str(),
        },
    )
}

/// The edge by which a scope contains a node.
pub open spec fn contains_edge(parent: u32, child: u32) -> EdgeRow {
    EdgeRow {
        source_idx: parent,
        target_idx: child,
        kind: edge_code(EdgeKind::Contains),
        provenance: 0,
        line: NONE,
        column: NONE,
        metadata_json: none_str(),
        source_id_str: none_str(),
        target_id_str: none_str(),
    }
}

/// The edge by which a class names a base class that is not resolved yet.
pub open spec fn extends_edge(class_row: u32, m: Mention) -> EdgeRow {
    EdgeRow {
        source_idx: class_row,
        target_idx: 0,
        kind: edge_code(EdgeKind::Extends),
        provenance: 0,
        line: m.line,
        column: m.column,
        metadata_json: none_str(),
        source_id_str: none_str(),
        target_id_str: none_str(),
    }
}

/// Whether nodes of this kind can be called.
pub open spec fn is_callable(kind: NodeKind) -> bool {
    kind == NodeKind::Function || kind == NodeKind::Method
}

/// Whether nodes of this kind hold a value.
pub open spec fn is_value(kind: NodeKind) -> bool {
    kind == NodeKind::Constant || kind == NodeKind::Variable
}

/// Whether the whole file can look a declaration up as a value: a constant or
/// variable with a distinctive name of at least three UTF-16 code units, directly
/// in a file, class, module, struct or enum.
pub open spec fn is_shared_value(stack: Seq<ScopeModel>, kind: NodeKind, name: Seq<char>) -> bool {
    &&& is_value(kind)
    &&& utf16_units(name) >= 3
    &&& distinctive(name)
    &&& stack.len() > 0
    &&& value_host(stack.last().kind)
}

/// The counts after one more declaration of `name`.
pub open spec fn count_one(counts: Map<Seq<char>, u32>, name: Seq<char>) -> Map<Seq<char>, u32> {
    let before: u32 = if counts.contains_key(name) {
        counts[name]
    } else {
        0
    };
    counts.insert(name, before.wrapping_add(1))
}

/// The graph after a declaration.
pub open spec fn declare(g: Graph, d: Declaration) -> Graph {
    let row = g.nodes.len() as u32;
    let (arena, node) = declared_row(g, d);
    let shared = is_shared_value(g.stack, d.kind, d.name);
    Graph {
        arena,
        nodes: g.nodes.push(node),
        metas: g.metas.push(MetaModel { kind: d.kind, name: d.name }),
        ids: g.ids.push(declared_id(g, d)),
        edges: g.edges.push(contains_edge(top_row(g.stack), row)),
        defined: if is_callable(d.kind) {
            g.defined.insert(d.name)
        } else {
            g.defined
        },
        values: if shared {
            g.values.insert(d.name, row)
        } else {
            g.values
        },
        value_counts: if shared {
            count_one(g.value_counts, d.name)
        } else {
            g.value_counts
        },
        value_scopes: if is_callable(d.kind) || is_value(d.kind) {
            g.value_scopes.push(ValueScopeModel { row, node: d.node, name: d.name })
        } else {
            g.value_scopes
        },
        ..g
    }
}

/// The row of a reference whose name is stored at the end of `arena`.
pub open spec fn ref_row(
    arena: Seq<u8>,
    from: u32,
    name: Seq<char>,
    kind: u8,
    line: u32,
    column: u32,
) -> RefRow {
    RefRow {
        from_idx: from,
        kind,
        line,
        column,
        reference_name: put_ref(arena, name),
        candidates: none_str(),
        from_id_str: none_str(),
    }
}

/// The graph after a reference from the row `from`.
pub open spec fn add_ref(g: Graph, from: u32, kind: u8, m: Mention) -> Graph {
    Graph {
        arena: arena_put(g.arena, m.name),
        refs: g.refs.push(ref_row(g.arena, from, m.name, kind, m.line, m.column)),
        imported: if kind == edge_code(EdgeKind::Imports) && simple_name(m.name) {
            g.imported.insert(m.name)
        } else {
            g.imported
        },
        ..g
    }
}

/// The graph after references to all of `mentions`, in order.
pub open spec fn add_refs(g: Graph, from: u32, kind: u8, mentions: Seq<Mention>) -> Graph
    decreases mentions.len(),
{
    if mentions.len() == 0 {
        g
    } else {
        add_ref(add_refs(g, from, kind, mentions.drop_last()), from, kind, mentions.last())
    }
}

/// The graph after the class in the row `row` named its base class: an edge that is
/// not resolved yet, and a reference.
pub open spec fn extend_from(g: Graph, row: u32, m: Mention) -> Graph {
    add_ref(
        Graph { edges: g.edges.push(extends_edge(row, m)), ..g },
        row,
        edge_code(EdgeKind::Extends),
        m,
    )
}

/// The graph after the class in the row `row` named all of `mentions`, in order.
pub open spec fn extend_all(g: Graph, row: u32, mentions: Seq<Mention>) -> Graph
    decreases mentions.len(),
{
    if mentions.len() == 0 {
        g
    } else {
        extend_from(extend_all(g, row, mentions.drop_last()), row, mentions.last())
    }
}

/// The graph after an `extends` statement. Where there is no class yet, the base class
/// waits for the file to be declared one.
pub open spec fn extend(g: Graph, m: Mention) -> Graph {
    match extending_class(g) {
        Some(row) => extend_from(g, row, m),
        None => Graph { waiting: g.waiting.push(m), ..g },
    }
}

/// The graph after the row added last was declared to be the class that the file is:
/// the base classes that waited for it are its own.
pub open spec fn name_script(g: Graph) -> Graph {
    extend_all(
        Graph { script_class: Some(latest_row(g)), waiting: seq![], ..g },
        latest_row(g),
        g.waiting,
    )
}

/// The graph with one more open scope.
pub open spec fn enter(g: Graph, scope: ScopeModel) -> Graph {
    Graph { stack: g.stack.push(scope), ..g }
}

/// The graph after the innermost scope was closed.
pub open spec fn leave(g: Graph) -> Graph {
    if g.stack.len() > 0 {
        Graph { stack: g.stack.drop_last(), ..g }
    } else {
        g
    }
}

/// The graph after one event.
pub open spec fn apply(g: Graph, e: Event) -> Graph {
    match e {
        Event::Declare(d) => declare(g, d),
        Event::DeclareCallable(d) => declare(g, Declaration { kind: callable_kind(g.stack), ..d }),
        Event::NameScript => name_script(g),
        Event::Inherit(ms) => add_refs(g, latest_row(g), edge_code(EdgeKind::Extends), ms),
        Event::Enter(kind, name) => enter(g, ScopeModel { row: latest_row(g), kind, name }),
        Event::EnterInitializer => enter(
            g,
            ScopeModel {
                row: latest_row(g),
                kind: NodeKind::Variable,
                name: g.metas[latest_row(g) as int].name,
            },
        ),
        Event::Leave => leave(g),
        Event::Call(m) => if g.stack.len() > 0 {
            add_ref(g, top_row(g.stack), FUNCTION_REF_CODE, m)
        } else {
            g
        },
        Event::Extend(m) => extend(g, m),
        Event::Argument(m) => Graph {
            candidates: g.candidates.push(
                CandidateModel {
                    from: top_row(g.stack),
                    name: m.name,
                    line: m.line,
                    column_byte: m.byte,
                    row: 0,
                },
            ),
            ..g
        },
    }
}

/// The graph after a sequence of events.
#[verifier::opaque]
pub open spec fn run(g: Graph, events: Seq<Event>) -> Graph
    decreases events.len(),
{
    if events.len() == 0 {
        g
    } else {
        apply(run(g, events.drop_last()), events.last())
    }
}

/// Whether a candidate names a function that the file declares or imports.
pub open spec fn is_known(g: Graph, name: Seq<char>) -> bool {
    g.defined.contains(name) || g.imported.contains(name)
}

/// The graph after the first `n` candidates became references where their names
/// are known; these references have no column.
pub open spec fn flush_candidates(g: Graph, n: int) -> Graph
    decreases n,
{
    if n <= 0 {
        g
    } else {
        let before = flush_candidates(g, n - 1);
        let c = g.candidates[n - 1];
        if is_known(g, c.name) {
            Graph {
                arena: arena_put(before.arena, c.name),
                refs: before.refs.push(
                    ref_row(before.arena, c.from, c.name, FUNCTION_REF_CODE, c.line, 0),
                ),
                ..before
            }
        } else {
            before
        }
    }
}

/// The graph of a file before anything in it was walked: the node of the file,
/// with the file as the one open scope.
pub open spec fn file_graph(path: Seq<char>, src: Seq<char>) -> Graph {
    let base = base_name_of(path);
    let a1 = arena_put(Seq::<u8>::empty(), file_id(path));
    let a2 = arena_put(a1, base);
    let a3 = arena_put(a2, path);
    Graph {
        path,
        arena: a3,
        nodes: seq![
            NodeRow {
                kind: node_code(NodeKind::File),
                visibility: 0,
                flags: no_flags(),
                start_line: 1,
                end_line: (newline_count(encode_utf8(src)) as u32).wrapping_add(1),
                start_column: 0,
                end_column: 0,
                name: put_ref(a1, base),
                qualified_name: put_ref(a2, path),
                id: put_ref(Seq::<u8>::empty(), file_id(path)),
                docstring: none_str(),
                signature: none_str(),
                decorators: none_str(),
                type_parameters: none_str(),
                return_type: none_str(),
                extra_json: none_str(),
            },
        ],
        edges: seq![],
        refs: seq![],
        stack: seq![ScopeModel { row: 0, kind: NodeKind::File, name: base }],
        metas: seq![MetaModel { kind: NodeKind::File, name: base }],
        ids: seq![file_id(path)],
        defined: Set::empty(),
        imported: Set::empty(),
        candidates: seq![],
        values: Map::empty(),
        value_counts: Map::empty(),
        value_scopes: seq![],
        script_class: None,
        waiting: seq![],
    }
}

/// Whether `out` is the output of the graph `g`.
pub open spec fn is_output(out: EmitOut, g: Graph) -> bool {
    &&& out.nodes@ == g.nodes
    &&& out.edges@ == g.edges
    &&& out.refs@ == g.refs
    &&& out.arena@ == g.arena
    &&& out.meta.node_count == g.nodes.len()
    &&& out.meta.edge_count == g.edges.len()
    &&& out.meta.ref_count == g.refs.len()
    &&& out.meta.arena_len == g.arena.len()
    &&& out.meta.message == none_str()
}

/// No events.
pub proof fn lemma_run_none(g: Graph)
    ensures
        run(g, seq![]) == g,
{
    reveal(run);
}

/// Events after events are the events one after the other.
pub proof fn lemma_run_concat(g: Graph, a: Seq<Event>, b: Seq<Event>)
    ensures
        run(g, a + b) == run(run(g, a), b),
    decreases b.len(),
{
    reveal(run);
    if b.len() == 0 {
        assert(a + b =~= a);
    } else {
        lemma_run_concat(g, a, b.drop_last());
        assert((a + b).drop_last() =~= a + b.drop_last());
        assert((a + b).last() == b.last());
    }
}

/// A single event.
pub proof fn lemma_run_one(g: Graph, e: Event)
    ensures
        run(g, seq![e]) == apply(g, e),
{
    reveal(run);
    assert(seq![e].drop_last() =~= Seq::<Event>::empty());
    assert(run(g, Seq::<Event>::empty()) == g);
}

/// References after references are the references one after the other.
pub proof fn lemma_add_refs_concat(
    g: Graph,
    from: u32,
    kind: u8,
    a: Seq<Mention>,
    b: Seq<Mention>,
)
    ensures
        add_refs(g, from, kind, a + b) == add_refs(add_refs(g, from, kind, a), from, kind, b),
    decreases b.len(),
{
    if b.len() == 0 {
        assert(a + b =~= a);
    } else {
        lemma_add_refs_concat(g, from, kind, a, b.drop_last());
        assert((a + b).drop_last() =~= a + b.drop_last());
        assert((a + b).last() == b.last());
    }
}

/// Base classes change the edges, the references and the arena alone.
pub proof fn lemma_extend_all_keeps(g: Graph, row: u32, mentions: Seq<Mention>)
    ensures
        extend_all(g, row, mentions) == (Graph {
            arena: extend_all(g, row, mentions).arena,
            edges: extend_all(g, row, mentions).edges,
            refs: extend_all(g, row, mentions).refs,
            ..g
        }),
    decreases mentions.len(),
{
    if mentions.len() > 0 {
        lemma_extend_all_keeps(g, row, mentions.drop_last());
    }
}

/// References add no nodes and open no scopes.
pub proof fn lemma_add_refs_keeps_nodes(g: Graph, from: u32, kind: u8, mentions: Seq<Mention>)
    ensures
        add_refs(g, from, kind, mentions).nodes == g.nodes,
        add_refs(g, from, kind, mentions).metas == g.metas,
        add_refs(g, from, kind, mentions).stack == g.stack,
    decreases mentions.len(),
{
    if mentions.len() > 0 {
        lemma_add_refs_keeps_nodes(g, from, kind, mentions.drop_last());
    }
}

} // verus!
