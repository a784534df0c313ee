//! What holds of every extraction.

use vstd::prelude::*;
use vstd::utf8::encode_utf8;
use crate::buffers::{arena_put, arena_put_opt};
use crate::events::{
    argument_list, enumerator_events, flush_values, uses_of, visit_events, whole_graph,
};
use crate::graph::{
    add_ref, add_refs, apply, callable_kind, declare, declared_id, declared_qualified, extend_all,
    extend_from, extending_class, extends_edge, file_graph, flush_candidates, is_callable,
    is_known, is_value, latest_row, run, top_row, Declaration, Event, Graph, Mention,
};
use crate::kinds::{edge_code, node_code, EdgeKind, NodeKind, FUNCTION_REF_CODE};
use crate::syntax::NodeModel;

verus! {

/// Whether `a` is an initial part of `b`.
pub open spec fn begins<T>(b: Seq<T>, a: Seq<T>) -> bool {
    a.len() <= b.len() && b.take(a.len() as int) == a
}

/// Whether `b` holds all that `a` holds, at the same places.
pub open spec fn grows(a: Graph, b: Graph) -> bool {
    &&& a.path == b.path
    &&& begins(b.arena, a.arena)
    &&& begins(b.nodes, a.nodes)
    &&& begins(b.edges, a.edges)
    &&& begins(b.refs, a.refs)
    &&& begins(b.metas, a.metas)
    &&& begins(b.ids, a.ids)
    &&& begins(b.candidates, a.candidates)
    &&& begins(b.value_scopes, a.value_scopes)
    &&& a.defined.subset_of(b.defined)
    &&& a.imported.subset_of(b.imported)
    &&& a.values.dom().subset_of(b.values.dom())
    &&& a.script_class is Some ==> b.script_class is Some
}

proof fn lemma_begins_index<T>(b: Seq<T>, a: Seq<T>)
    requires
        begins(b, a),
    ensures
        forall|k: int| 0 <= k < a.len() ==> #[trigger] b[k] == a[k],
{
    assert forall|k: int| 0 <= k < a.len() implies #[trigger] b[k] == a[k] by {
        assert(b.take(a.len() as int)[k] == a[k]);
    }
}

proof fn lemma_begins_trans<T>(c: Seq<T>, b: Seq<T>, a: Seq<T>)
    requires
        begins(c, b),
        begins(b, a),
    ensures
        begins(c, a),
{
    lemma_begins_index(c, b);
    lemma_begins_index(b, a);
    assert(c.take(a.len() as int) =~= a);
}

/// What is recorded stays recorded through any two stages.
pub proof fn lemma_grows_trans(a: Graph, b: Graph, c: Graph)
    requires
        grows(a, b),
        grows(b, c),
    ensures
        grows(a, c),
{
    lemma_begins_trans(c.arena, b.arena, a.arena);
    lemma_begins_trans(c.nodes, b.nodes, a.nodes);
    lemma_begins_trans(c.edges, b.edges, a.edges);
    lemma_begins_trans(c.refs, b.refs, a.refs);
    lemma_begins_trans(c.metas, b.metas, a.metas);
    lemma_begins_trans(c.ids, b.ids, a.ids);
    lemma_begins_trans(c.candidates, b.candidates, a.candidates);
    lemma_begins_trans(c.value_scopes, b.value_scopes, a.value_scopes);
}

proof fn lemma_begins_self<T>(a: Seq<T>)
    ensures
        begins(a, a),
{
    assert(a.take(a.len() as int) =~= a);
}

proof fn lemma_begins_push<T>(a: Seq<T>, x: T)
    ensures
        begins(a.push(x), a),
{
    assert(a.push(x).take(a.len() as int) =~= a);
}

proof fn lemma_begins_add<T>(a: Seq<T>, x: Seq<T>)
    ensures
        begins(a + x, a),
{
    assert((a + x).take(a.len() as int) =~= a);
}

proof fn lemma_grows_self(g: Graph)
    ensures
        grows(g, g),
{
    lemma_begins_self(g.arena);
    lemma_begins_self(g.nodes);
    lemma_begins_self(g.edges);
    lemma_begins_self(g.refs);
    lemma_begins_self(g.metas);
    lemma_begins_self(g.ids);
    lemma_begins_self(g.candidates);
    lemma_begins_self(g.value_scopes);
}

proof fn lemma_put_opt_begins(a: Seq<u8>, s: Option<Seq<char>>)
    ensures
        begins(arena_put_opt(a, s), a),
{
    lemma_begins_self(a);
    if let Some(x) = s {
        lemma_begins_add(a, encode_utf8(x));
    }
}

proof fn lemma_declare_grows(g: Graph, d: Declaration)
    ensures
        grows(g, declare(g, d)),
{
    let a1 = arena_put(g.arena, d.name);
    let a2 = arena_put(a1, declared_qualified(g, d));
    let a3 = arena_put(a2, declared_id(g, d));
    let a4 = arena_put_opt(a3, d.extra.docstring);
    let a5 = arena_put_opt(a4, d.extra.signature);
    let a6 = arena_put_opt(a5, d.extra.return_type);
    lemma_begins_add(g.arena, encode_utf8(d.name));
    lemma_begins_add(a1, encode_utf8(declared_qualified(g, d)));
    lemma_begins_add(a2, encode_utf8(declared_id(g, d)));
    lemma_put_opt_begins(a3, d.extra.docstring);
    lemma_put_opt_begins(a4, d.extra.signature);
    lemma_put_opt_begins(a5, d.extra.return_type);
    lemma_begins_trans(a2, a1, g.arena);
    lemma_begins_trans(a3, a2, g.arena);
    lemma_begins_trans(a4, a3, g.arena);
    lemma_begins_trans(a5, a4, g.arena);
    lemma_begins_trans(a6, a5, g.arena);
    let h = declare(g, d);
    lemma_grows_self(g);
    lemma_begins_push(g.nodes, h.nodes.last());
    lemma_begins_push(g.edges, h.edges.last());
    lemma_begins_push(g.metas, h.metas.last());
    lemma_begins_push(g.ids, h.ids.last());
    if is_callable(d.kind) || is_value(d.kind) {
        lemma_begins_push(g.value_scopes, h.value_scopes.last());
    }
}

proof fn lemma_add_ref_grows(g: Graph, from: u32, kind: u8, m: Mention)
    ensures
        grows(g, add_ref(g, from, kind, m)),
{
    lemma_grows_self(g);
    lemma_begins_add(g.arena, encode_utf8(m.name));
    lemma_begins_push(g.refs, add_ref(g, from, kind, m).refs.last());
}

/// References take back nothing.
pub proof fn lemma_add_refs_grows(g: Graph, from: u32, kind: u8, mentions: Seq<Mention>)
    ensures
        grows(g, add_refs(g, from, kind, mentions)),
    decreases mentions.len(),
{
    lemma_grows_self(g);
    if mentions.len() > 0 {
        let before = add_refs(g, from, kind, mentions.drop_last());
        lemma_add_refs_grows(g, from, kind, mentions.drop_last());
        lemma_add_ref_grows(before, from, kind, mentions.last());
        lemma_grows_trans(g, before, add_refs(g, from, kind, mentions));
    }
}

proof fn lemma_extend_from_grows(g: Graph, row: u32, m: Mention)
    ensures
        grows(g, extend_from(g, row, m)),
{
    let h = Graph { edges: g.edges.push(extends_edge(row, m)), ..g };
    lemma_grows_self(g);
    lemma_begins_push(g.edges, h.edges.last());
    lemma_add_ref_grows(h, row, edge_code(EdgeKind::Extends), m);
    lemma_grows_trans(g, h, extend_from(g, row, m));
}

/// Base classes take back nothing.
pub proof fn lemma_extend_all_grows(g: Graph, row: u32, mentions: Seq<Mention>)
    ensures
        grows(g, extend_all(g, row, mentions)),
    decreases mentions.len(),
{
    lemma_grows_self(g);
    if mentions.len() > 0 {
        let before = extend_all(g, row, mentions.drop_last());
        lemma_extend_all_grows(g, row, mentions.drop_last());
        lemma_extend_from_grows(before, row, mentions.last());
        lemma_grows_trans(g, before, extend_all(g, row, mentions));
    }
}

/// No event takes back or changes anything recorded before it.
pub proof fn law_event_only_adds(g: Graph, e: Event)
    ensures
        grows(g, apply(g, e)),
{
    lemma_grows_self(g);
    match e {
        Event::Declare(d) => lemma_declare_grows(g, d),
        Event::DeclareCallable(d) => lemma_declare_grows(
            g,
            Declaration { kind: callable_kind(g.stack), ..d },
        ),
        Event::Inherit(ms) => lemma_add_refs_grows(
            g,
            latest_row(g),
            edge_code(EdgeKind::Extends),
            ms,
        ),
        Event::Call(m) => lemma_add_ref_grows(g, top_row(g.stack), FUNCTION_REF_CODE, m),
        Event::Extend(m) => if let Some(row) = extending_class(g) {
            lemma_extend_from_grows(g, row, m);
        },
        Event::NameScript => {
            let h = Graph { script_class: Some(latest_row(g)), waiting: seq![], ..g };
            lemma_extend_all_grows(h, latest_row(g), g.waiting);
            lemma_grows_trans(g, h, apply(g, e));
        },
        Event::Argument(m) => lemma_begins_push(g.candidates, apply(g, e).candidates.last()),
        _ => {},
    }
}

/// No sequence of events takes back or changes anything recorded before it.
pub proof fn law_walk_only_adds(g: Graph, events: Seq<Event>)
    ensures
        grows(g, run(g, events)),
    decreases events.len(),
{
    reveal(run);
    lemma_grows_self(g);
    if events.len() > 0 {
        let before = run(g, events.drop_last());
        law_walk_only_adds(g, events.drop_last());
        law_event_only_adds(before, events.last());
        lemma_grows_trans(g, before, run(g, events));
    }
}

/// Resolving the noted arguments takes back nothing, and adds no nodes and edges.
pub proof fn law_candidates_only_add(g: Graph, n: int)
    requires
        n <= g.candidates.len(),
    ensures
        grows(g, flush_candidates(g, n)),
        flush_candidates(g, n).nodes == g.nodes,
        flush_candidates(g, n).edges == g.edges,
        flush_candidates(g, n).metas == g.metas,
        flush_candidates(g, n).candidates == g.candidates,
        flush_candidates(g, n).value_scopes == g.value_scopes,
        flush_candidates(g, n).values == g.values,
    decreases n,
{
    lemma_grows_self(g);
    if n > 0 {
        law_candidates_only_add(g, n - 1);
        let before = flush_candidates(g, n - 1);
        let after = flush_candidates(g, n);
        let c = g.candidates[n - 1];
        lemma_grows_self(before);
        if is_known(g, c.name) {
            lemma_begins_add(before.arena, encode_utf8(c.name));
            lemma_begins_push(before.refs, after.refs.last());
            assert(grows(before, after));
        }
        lemma_grows_trans(g, before, after);
    }
}

/// Searching for the uses of shared values takes back nothing, and adds no nodes
/// and edges.
pub proof fn law_values_only_add(g: Graph, src: Seq<char>, t: Seq<NodeModel>, n: int)
    requires
        n <= g.value_scopes.len(),
    ensures
        grows(g, flush_values(g, src, t, n)),
        flush_values(g, src, t, n).nodes == g.nodes,
        flush_values(g, src, t, n).edges == g.edges,
        flush_values(g, src, t, n).metas == g.metas,
    decreases n,
{
    lemma_grows_self(g);
    if n > 0 {
        law_values_only_add(g, src, t, n - 1);
        let before = flush_values(g, src, t, n - 1);
        let scope = g.value_scopes[n - 1];
        if g.values.contains_key(scope.name) {
            let uses = uses_of(src, t, 0, scope.name);
            lemma_add_refs_grows(before, scope.row, FUNCTION_REF_CODE, uses);
            lemma_add_refs_keeps(before, scope.row, FUNCTION_REF_CODE, uses);
            lemma_grows_trans(g, before, flush_values(g, src, t, n));
        }
    }
}

/// References of a kind other than import change the references and the arena alone.
pub proof fn lemma_add_refs_keeps(g: Graph, from: u32, kind: u8, mentions: Seq<Mention>)
    requires
        kind != edge_code(EdgeKind::Imports),
    ensures
        add_refs(g, from, kind, mentions) == (Graph {
            arena: add_refs(g, from, kind, mentions).arena,
            refs: add_refs(g, from, kind, mentions).refs,
            ..g
        }),
    decreases mentions.len(),
{
    if mentions.len() > 0 {
        lemma_add_refs_keeps(g, from, kind, mentions.drop_last());
    }
}

/// The extraction of a file begins with the record of the file itself and takes
/// nothing of it back.
pub proof fn law_file_comes_first(path: Seq<char>, src: Seq<char>, t: Seq<NodeModel>)
    ensures
        grows(file_graph(path, src), whole_graph(path, src, t)),
        whole_graph(path, src, t).nodes[0].kind == node_code(NodeKind::File),
{
    let g0 = file_graph(path, src);
    let g1 = run(g0, visit_events(src, t, 0));
    let g2 = flush_candidates(g1, g1.candidates.len() as int);
    let g3 = whole_graph(path, src, t);
    law_walk_only_adds(g0, visit_events(src, t, 0));
    law_candidates_only_add(g1, g1.candidates.len() as int);
    law_values_only_add(g2, src, t, g2.value_scopes.len() as int);
    lemma_grows_trans(g0, g1, g2);
    lemma_grows_trans(g0, g2, g3);
    lemma_begins_index(g3.nodes, g0.nodes);
    assert(g3.nodes[0] == g0.nodes[0]);
}

/// Every event of a list of arguments is an argument.
pub proof fn lemma_argument_list_flat(src: Seq<char>, t: Seq<NodeModel>, list: Seq<int>)
    ensures
        forall|k: int|
            0 <= k < argument_list(src, t, list).len() ==> #[trigger] argument_list(
                src,
                t,
                list,
            )[k] is Argument,
    decreases list.len(),
{
    if list.len() > 0 {
        lemma_argument_list_flat(src, t, list.drop_last());
    }
}

/// Every event of a list of enum values is a declaration that its place names.
pub proof fn lemma_enumerators_flat(src: Seq<char>, t: Seq<NodeModel>, list: Seq<int>)
    ensures
        forall|k: int|
            0 <= k < enumerator_events(src, t, list).len() ==> ((#[trigger] enumerator_events(
                src,
                t,
                list,
            )[k]) matches Event::Declare(d) && d.extra.qualified_name is None),
    decreases list.len(),
{
    if list.len() > 0 {
        lemma_enumerators_flat(src, t, list.drop_last());
    }
}

} // verus!
