//! What the syntax tree mentions, and the references that the graph holds to it.

use vstd::prelude::*;
use vstd::utf8::{encode_utf8, encode_utf8_decode_utf8};
use crate::balance::{
    balanced, lemma_balanced_arguments, lemma_balanced_flat, lemma_open_scopes_stay, rise,
};
use crate::buffers::{none_str, resolves_to, RefRow};
use crate::events::{
    argument_events, argument_list, body_each, call_events, mention_of, visit_each, visit_events,
    whole_graph,
};
use crate::graph::{
    apply, file_graph, flush_candidates, is_callable, is_known, lemma_run_concat, lemma_run_one,
    ref_row, top_row, CandidateModel, Event, Graph, Mention, ScopeModel,
};
use crate::kinds::{node_code, NodeKind, FUNCTION_REF_CODE};
use crate::laws::{
    law_candidates_only_add, law_values_only_add, law_walk_only_adds, lemma_argument_list_flat,
};
use crate::nesting::{describes, is_column, is_line, walked};
use crate::outline::{
    is_code_in, is_named_child, is_statement_in, lemma_code_node, lemma_open_node, lemma_sorts,
};
use crate::placement::{in_scope, lemma_code_home, lemma_listed, lemma_statement_home, opened_by};
use crate::recorded::{law_calls_refer_from_their_scope, law_walk_imports_nothing, lemma_part_stays};
use crate::soundness::{
    declares_callable, law_extraction_is_sound, law_texts_stay, law_walk_keeps_sound,
    lemma_file_graph_sound, row_resolves, within_limits,
};
use crate::syntax::{children_of_kind, field_child, named_children, node_text, NodeModel};

verus! {

/// Whether the row `from` of `g` is that of the declaration `o`, or of the file where
/// there is none.
pub open spec fn is_home(
    path: Seq<char>,
    src: Seq<char>,
    t: Seq<NodeModel>,
    g: Graph,
    o: Option<int>,
    from: u32,
) -> bool {
    match o {
        None => from == 0,
        Some(c) => exists|kind: NodeKind, name: Seq<char>| #[trigger]
            describes(path, src, t, g, from as int, c, kind, name),
    }
}

/// Whether `j` stands directly in the declaration `o`, as a statement or as code, or in
/// the file where there is none.
pub open spec fn is_met_in(src: Seq<char>, t: Seq<NodeModel>, o: Option<int>, j: int) -> bool {
    ||| is_statement_in(src, t, o, j)
    ||| o matches Some(c) && is_code_in(src, t, c, j)
}

/// Whether `r` is a reference of the given kind from the row `from` to `text`, at the place
/// of the node `n`.
pub open spec fn refers_at(
    src: Seq<char>,
    arena: Seq<u8>,
    r: RefRow,
    from: u32,
    kind: u8,
    n: NodeModel,
    text: Seq<char>,
) -> bool {
    &&& r.from_idx == from
    &&& r.kind == kind
    &&& is_line(n.start_row, r.line)
    &&& is_column(src, n.start_row, n.start_byte, r.column)
    &&& resolves_to(arena, r.reference_name, text)
    &&& r.candidates == none_str()
    &&& r.from_id_str == none_str()
}

/// The innermost open scope is that of the declaration around.
pub proof fn lemma_is_home(
    path: Seq<char>,
    src: Seq<char>,
    t: Seq<NodeModel>,
    g: Graph,
    stack: Seq<ScopeModel>,
    o: Option<int>,
)
    requires
        in_scope(path, src, t, g, stack, o),
    ensures
        stack.len() > 0,
        is_home(path, src, t, g, o, top_row(stack)),
{
    if let Some(c) = o {
        let (kind, name) = choose|kind: NodeKind, name: Seq<char>| #[trigger]
            opened_by(path, src, t, g, stack, c, kind, name);
        assert(opened_by(path, src, t, g, stack, c, kind, name));
        assert(describes(path, src, t, g, stack.last().row as int, c, kind, name));
    }
}

/// The walk of a file comes to each node that is met in a declaration while that is
/// innermost; of a call it first notes the arguments, then what is called.
pub proof fn lemma_call_home(
    path: Seq<char>,
    src: Seq<char>,
    t: Seq<NodeModel>,
    o: Option<int>,
    j: int,
) -> (r: (Seq<Event>, Seq<Event>))
    requires
        is_met_in(src, t, o, j),
        t[j].kind == "call"@,
        within_limits(whole_graph(path, src, t)),
    ensures
        visit_events(src, t, 0) == r.0 + argument_events(src, t, j) + call_events(src, t, j) + r.1,
        in_scope(path, src, t, whole_graph(path, src, t), walked(path, src, r.0).stack, o),
{
    lemma_sorts(t[j].kind);
    let args = argument_events(src, t, j);
    let own = call_events(src, t, j);
    if is_statement_in(src, t, o, j) {
        let (a, b) = lemma_statement_home(path, src, t, o, j);
        let rest = visit_each(src, t, j, named_children(t, j).len() as int);
        lemma_open_node(src, t, j);
        lemma_call_pieces(a, args, own, rest, b);
        (a, rest + b)
    } else {
        let (a, b) = lemma_code_home(path, src, t, o->0, j);
        let rest = body_each(src, t, j, named_children(t, j).len() as int);
        lemma_code_node(src, t, j);
        lemma_call_pieces(a, args, own, rest, b);
        (a, rest + b)
    }
}

proof fn lemma_call_pieces(
    a: Seq<Event>,
    args: Seq<Event>,
    own: Seq<Event>,
    rest: Seq<Event>,
    b: Seq<Event>,
)
    ensures
        a + (args + own + rest) + b == a + args + own + (rest + b),
{
    assert(a + (args + own + rest) + b =~= a + args + own + (rest + b));
}

/// Whether `c` is what the call `j` calls: the child in its `function` field, or, without
/// one, its first named child, where that is not its arguments.
pub open spec fn is_callee(t: Seq<NodeModel>, j: int, c: int) -> bool {
    match field_child(t, j, "function"@) {
        Some(f) => c == f,
        None => {
            &&& named_children(t, j).len() > 0
            &&& c == named_children(t, j)[0]
            &&& field_child(t, j, "arguments"@) != Some(c)
        },
    }
}

/// Every call in a file, a class or code leaves a reference to what it calls, at the place
/// where that is named, from the row of the declaration that the call stands in.
pub proof fn law_calls_are_placed(
    path: Seq<char>,
    src: Seq<char>,
    t: Seq<NodeModel>,
    o: Option<int>,
    j: int,
    c: int,
)
    requires
        is_met_in(src, t, o, j),
        t[j].kind == "call"@,
        is_callee(t, j, c),
        node_text(src, t[c]).len() > 0,
        within_limits(whole_graph(path, src, t)),
    ensures
        exists|n: int, from: u32|
            {
                &&& 0 <= n < whole_graph(path, src, t).refs.len()
                &&& #[trigger] is_home(path, src, t, whole_graph(path, src, t), o, from)
                &&& refers_at(
                    src,
                    whole_graph(path, src, t).arena,
                    #[trigger] whole_graph(path, src, t).refs[n],
                    from,
                    FUNCTION_REF_CODE,
                    t[c],
                    node_text(src, t[c]),
                )
            },
{
    let g = whole_graph(path, src, t);
    let (a, b) = lemma_call_home(path, src, t, o, j);
    let args = argument_events(src, t, j);
    let m = mention_of(src, t[c]);
    let e = Event::Call(m);
    lemma_is_home(path, src, t, g, walked(path, src, a).stack, o);
    lemma_balanced_arguments(src, t, j);
    lemma_run_concat(file_graph(path, src), a, args);
    lemma_open_scopes_stay(walked(path, src, a), args, 0);
    let h = walked(path, src, a + args);
    assert(call_events(src, t, j) =~= seq![e]);
    law_calls_refer_from_their_scope(path, src, t, a + args, m, b);
    let n = h.refs.len() as int;
    assert(h.stack == walked(path, src, a).stack);
    lemma_call_row(path, src, t, a + args, m, b);
    assert(refers_at(
        src,
        g.arena,
        g.refs[n],
        top_row(h.stack),
        FUNCTION_REF_CODE,
        t[c],
        node_text(src, t[c]),
    ));
}

/// The row of the reference that a call leaves.
pub proof fn lemma_call_row(
    path: Seq<char>,
    src: Seq<char>,
    t: Seq<NodeModel>,
    a: Seq<Event>,
    m: Mention,
    b: Seq<Event>,
)
    requires
        visit_events(src, t, 0) == a + seq![Event::Call(m)] + b,
        walked(path, src, a).stack.len() > 0,
    ensures
        ({
            let h = walked(path, src, a);
            let n = h.refs.len() as int;
            &&& n < whole_graph(path, src, t).refs.len()
            &&& whole_graph(path, src, t).refs[n] == ref_row(
                h.arena,
                top_row(h.stack),
                m.name,
                FUNCTION_REF_CODE,
                m.line,
                m.column,
            )
        }),
{
    let e = Event::Call(m);
    let h = walked(path, src, a);
    let g = whole_graph(path, src, t);
    lemma_run_concat(file_graph(path, src), a, seq![e]);
    lemma_run_one(h, e);
    let after = apply(h, e);
    lemma_part_stays(path, src, t, a + seq![e], b);
    let n = h.refs.len() as int;
    assert(g.refs.take(after.refs.len() as int)[n] == after.refs[n]);
}

/// What the walk notes among arguments before and after one of them.
proof fn lemma_argument_split(src: Seq<char>, t: Seq<NodeModel>, list: Seq<int>, m: int) -> (r: (
    Seq<Event>,
    Seq<Event>,
))
    requires
        list.contains(m),
        node_text(src, t[m]).len() > 0,
    ensures
        argument_list(src, t, list) == r.0 + seq![Event::Argument(mention_of(src, t[m]))] + r.1,
        balanced(r.0),
    decreases list.len(),
{
    let front = list.drop_last();
    let e = Event::Argument(mention_of(src, t[m]));
    let all = argument_list(src, t, list);
    let before = argument_list(src, t, front);
    if list.last() == m {
        lemma_argument_list_flat(src, t, front);
        assert forall|k: int| 0 <= k < before.len() implies rise(#[trigger] before[k]) == 0 by {
            assert(before[k] is Argument);
        }
        lemma_balanced_flat(before);
        let none = Seq::<Event>::empty();
        assert(all =~= before + seq![e] + none);
        (before, none)
    } else {
        let n = choose|n: int| 0 <= n < list.len() && list[n] == m;
        assert(front[n] == m);
        let (x, y) = lemma_argument_split(src, t, front, m);
        let rest = all.skip(before.len() as int);
        assert(all =~= before + rest);
        assert(all =~= x + seq![e] + (y + rest));
        (x, y + rest)
    }
}

/// Whether `c` is a noted argument from the row `from` that reads the node `n`.
pub open spec fn notes(src: Seq<char>, c: CandidateModel, from: u32, n: NodeModel) -> bool {
    &&& c.from == from
    &&& c.name == node_text(src, n)
    &&& is_line(n.start_row, c.line)
    &&& c.column_byte == n.start_byte
}

/// The noted argument of a call, by its number.
proof fn lemma_argument_noted(
    path: Seq<char>,
    src: Seq<char>,
    t: Seq<NodeModel>,
    o: Option<int>,
    j: int,
    args: int,
    m: int,
) -> (r: (int, u32))
    requires
        is_met_in(src, t, o, j),
        t[j].kind == "call"@,
        field_child(t, j, "arguments"@) == Some(args),
        is_named_child(t, args, m),
        t[m].kind == "identifier"@,
        node_text(src, t[m]).len() > 0,
        within_limits(whole_graph(path, src, t)),
    ensures
        0 <= r.0 < walked(path, src, visit_events(src, t, 0)).candidates.len(),
        is_home(path, src, t, whole_graph(path, src, t), o, r.1),
        notes(
            src,
            walked(path, src, visit_events(src, t, 0)).candidates[r.0],
            r.1,
            t[m],
        ),
{
    let g = whole_graph(path, src, t);
    let g0 = file_graph(path, src);
    let all = visit_events(src, t, 0);
    let (a, b) = lemma_call_home(path, src, t, o, j);
    lemma_listed(t, named_children(t, args), "identifier"@, m);
    let (x, y) = lemma_argument_split(src, t, children_of_kind(t, args, "identifier"@), m);
    let e = Event::Argument(mention_of(src, t[m]));
    let own = call_events(src, t, j);
    let tail = y + own + b;
    assert(a + argument_events(src, t, j) + own + b =~= a + x + seq![e] + tail);
    lemma_is_home(path, src, t, g, walked(path, src, a).stack, o);
    lemma_run_concat(g0, a, x);
    lemma_open_scopes_stay(walked(path, src, a), x, 0);
    let h = walked(path, src, a + x);
    lemma_run_concat(g0, a + x, seq![e]);
    lemma_run_one(h, e);
    let after = apply(h, e);
    lemma_run_concat(g0, a + x + seq![e], tail);
    law_walk_only_adds(after, tail);
    let k = h.candidates.len() as int;
    let end = walked(path, src, all);
    assert(end.candidates.take(after.candidates.len() as int)[k] == after.candidates[k]);
    (k, top_row(h.stack))
}

/// Every identifier that a call in a file, a class or code passes as an argument, in
/// whatever position, is noted with its text and line, from the row of the declaration
/// that the call stands in.
pub proof fn law_arguments_are_noted(
    path: Seq<char>,
    src: Seq<char>,
    t: Seq<NodeModel>,
    o: Option<int>,
    j: int,
    args: int,
    m: int,
)
    requires
        is_met_in(src, t, o, j),
        t[j].kind == "call"@,
        field_child(t, j, "arguments"@) == Some(args),
        is_named_child(t, args, m),
        t[m].kind == "identifier"@,
        node_text(src, t[m]).len() > 0,
        within_limits(whole_graph(path, src, t)),
    ensures
        exists|k: int, from: u32|
            {
                &&& 0 <= k < walked(path, src, visit_events(src, t, 0)).candidates.len()
                &&& #[trigger] is_home(path, src, t, whole_graph(path, src, t), o, from)
                &&& notes(
                    src,
                    #[trigger] walked(path, src, visit_events(src, t, 0)).candidates[k],
                    from,
                    t[m],
                )
            },
{
    let (k, from) = lemma_argument_noted(path, src, t, o, j, args, m);
    assert(notes(
        src,
        walked(path, src, visit_events(src, t, 0)).candidates[k],
        from,
        t[m],
    ));
}

/// Whether a row of `g` is that of a function or method called `name`.
pub open spec fn has_function(g: Graph, name: Seq<char>) -> bool {
    exists|k: int|
        {
            &&& 0 <= k < g.nodes.len()
            &&& (#[trigger] g.nodes[k]).kind == node_code(NodeKind::Function) || g.nodes[k].kind
                == node_code(NodeKind::Method)
            &&& resolves_to(g.arena, g.nodes[k].name, name)
        }
}

/// A function that has a row is known.
pub proof fn lemma_function_known(
    path: Seq<char>,
    src: Seq<char>,
    t: Seq<NodeModel>,
    name: Seq<char>,
)
    requires
        within_limits(whole_graph(path, src, t)),
    ensures
        has_function(whole_graph(path, src, t), name) <==> is_known(
            walked(path, src, visit_events(src, t, 0)),
            name,
        ),
{
    let g = whole_graph(path, src, t);
    let g1 = walked(path, src, visit_events(src, t, 0));
    let g2 = flush_candidates(g1, g1.candidates.len() as int);
    law_extraction_is_sound(path, src, t);
    law_walk_imports_nothing(file_graph(path, src), visit_events(src, t, 0));
    assert(visit_events(src, t, 0) + Seq::<Event>::empty() =~= visit_events(src, t, 0));
    lemma_part_stays(path, src, t, visit_events(src, t, 0), Seq::<Event>::empty());
    law_walk_only_adds(file_graph(path, src), visit_events(src, t, 0));
    lemma_file_graph_sound(path, src);
    law_walk_keeps_sound(file_graph(path, src), visit_events(src, t, 0));
    law_candidates_only_add(g1, g1.candidates.len() as int);
    law_values_only_add(g2, src, t, g2.value_scopes.len() as int);
    assert(g.metas == g1.metas);
    assert(g1.defined.contains(name) <==> declares_callable(g1.metas, name));
    if has_function(g, name) {
        let k = choose|k: int|
            {
                &&& 0 <= k < g.nodes.len()
                &&& (#[trigger] g.nodes[k]).kind == node_code(NodeKind::Function)
                    || g.nodes[k].kind == node_code(NodeKind::Method)
                &&& resolves_to(g.arena, g.nodes[k].name, name)
            };
        assert(row_resolves(g.arena, g.nodes[k], g.metas[k], g.ids[k]));
        encode_utf8_decode_utf8(name);
        encode_utf8_decode_utf8(g.metas[k].name);
        assert(is_callable(g.metas[k].kind));
    }
    if g1.defined.contains(name) {
        let k = choose|k: int|
            0 <= k < g.metas.len() && is_callable((#[trigger] g.metas[k]).kind) && g.metas[k].name
                == name;
        assert(row_resolves(g.arena, g.nodes[k], g.metas[k], g.ids[k]));
    }
}

/// Where a file declares a function, every identifier of its name that a call passes as an
/// argument, in whatever position, leaves a reference to it on its line and without a
/// column, from the row of the declaration that the call stands in.
pub proof fn law_passed_functions_are_placed(
    path: Seq<char>,
    src: Seq<char>,
    t: Seq<NodeModel>,
    o: Option<int>,
    j: int,
    args: int,
    m: int,
)
    requires
        is_met_in(src, t, o, j),
        t[j].kind == "call"@,
        field_child(t, j, "arguments"@) == Some(args),
        is_named_child(t, args, m),
        t[m].kind == "identifier"@,
        node_text(src, t[m]).len() > 0,
        has_function(whole_graph(path, src, t), node_text(src, t[m])),
        within_limits(whole_graph(path, src, t)),
    ensures
        exists|n: int, from: u32|
            {
                &&& 0 <= n < whole_graph(path, src, t).refs.len()
                &&& #[trigger] is_home(path, src, t, whole_graph(path, src, t), o, from)
                &&& passes(
                    src,
                    whole_graph(path, src, t).arena,
                    #[trigger] whole_graph(path, src, t).refs[n],
                    from,
                    t[m],
                )
            },
{
    let g = whole_graph(path, src, t);
    let g1 = walked(path, src, visit_events(src, t, 0));
    let (k, from) = lemma_argument_noted(path, src, t, o, j, args, m);
    lemma_function_known(path, src, t, node_text(src, t[m]));
    let len = g1.candidates.len() as int;
    let g2 = flush_candidates(g1, len);
    law_candidates_only_add(g1, len);
    law_values_only_add(g2, src, t, g2.value_scopes.len() as int);
    lemma_candidate_ref(g1, len, k);
    let c = g1.candidates[k];
    let n = choose|n: int| 0 <= n < g2.refs.len() && #[trigger] is_candidate_ref(g2, n, c);
    assert(g.refs.take(g2.refs.len() as int)[n] == g2.refs[n]);
    law_texts_stay(g2.arena, g.arena, g2.refs[n].reference_name, c.name);
    assert(passes(src, g.arena, g.refs[n], from, t[m]));
}

/// Whether `r` is a reference from the row `from` to the function that the node `n` passes.
pub open spec fn passes(
    src: Seq<char>,
    arena: Seq<u8>,
    r: RefRow,
    from: u32,
    n: NodeModel,
) -> bool {
    &&& r.from_idx == from
    &&& r.kind == FUNCTION_REF_CODE
    &&& is_line(n.start_row, r.line)
    &&& r.column == 0
    &&& resolves_to(arena, r.reference_name, node_text(src, n))
    &&& r.candidates == none_str()
    &&& r.from_id_str == none_str()
}

/// Whether the reference `n` of `g` is that of the noted argument `c`.
pub open spec fn is_candidate_ref(g: Graph, n: int, c: CandidateModel) -> bool {
    let r = g.refs[n];
    &&& r.from_idx == c.from
    &&& r.kind == FUNCTION_REF_CODE
    &&& r.line == c.line
    &&& r.column == 0
    &&& resolves_to(g.arena, r.reference_name, c.name)
    &&& r.candidates == none_str()
    &&& r.from_id_str == none_str()
}

/// Every noted argument that is known becomes a reference.
proof fn lemma_candidate_ref(g: Graph, n: int, k: int)
    requires
        0 <= k < n <= g.candidates.len(),
        is_known(g, g.candidates[k].name),
        flush_candidates(g, n).arena.len() <= usize::MAX,
    ensures
        exists|i: int|
            0 <= i < flush_candidates(g, n).refs.len() && #[trigger] is_candidate_ref(
                flush_candidates(g, n),
                i,
                g.candidates[k],
            ),
    decreases n,
{
    let before = flush_candidates(g, n - 1);
    let after = flush_candidates(g, n);
    let last = g.candidates[n - 1];
    law_candidates_only_add(g, n - 1);
    if is_known(g, last.name) {
        assert(after.arena.subrange(before.arena.len() as int, after.arena.len() as int)
            =~= encode_utf8(last.name));
        assert(after.arena.take(before.arena.len() as int) =~= before.arena);
    }
    if k == n - 1 {
        assert(is_candidate_ref(after, before.refs.len() as int, last));
    } else {
        lemma_candidate_ref(g, n - 1, k);
        let i = choose|i: int|
            0 <= i < before.refs.len() && #[trigger] is_candidate_ref(before, i, g.candidates[k]);
        if is_known(g, last.name) {
            law_texts_stay(
                before.arena,
                after.arena,
                before.refs[i].reference_name,
                g.candidates[k].name,
            );
        }
        assert(is_candidate_ref(after, i, g.candidates[k]));
    }
}

} // verus!
