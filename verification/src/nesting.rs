//! Where the rows of a graph come from: for every declaration in the syntax tree, its row
//! and the row of the declaration around it.

use vstd::prelude::*;
use vstd::utf8::encode_utf8;
use crate::balance::{balanced, law_children_are_balanced, lemma_open_scopes_stay};
use crate::buffers::{
    none_str, resolves_to, BoolFlags, EdgeRow, NodeRow, StrRef, FLAG_IS_EXPORTED, NONE,
};
use crate::docstring::docstring_of;
use crate::events::{
    argument_events, body_events, class_events, declared_name, documented, end_column_of,
    end_line_of, enumerator_declaration, function_declaration, function_events, inherited,
    lambda_declaration, lambda_events, lambda_name, start_column_of, start_line_of,
    value_declaration, variable_events, visit_each, visit_events, whole_graph,
};
use crate::graph::{
    apply, callable_kind, contains_edge, declare, declared_id, declared_qualified, declared_row,
    file_graph, latest_row, lemma_add_refs_keeps_nodes, lemma_run_concat, lemma_run_one, run,
    top_row, Declaration, Event, Graph, MetaModel, ScopeModel,
};
use crate::kinds::{edge_code, kind_word, node_code, EdgeKind, NodeKind};
use crate::laws::grows;
use crate::naming::{law_walks_place_rows, placed, scope_nests};
use crate::outline::{
    bears_name, class_body, code_body, holds_code, is_code, is_function_kind, is_member,
    is_named_child, is_nested_statement, is_statement, is_statement_of, law_names,
    lemma_code_path_split, lemma_each_split, lemma_inner_part, lemma_sorts, lemma_statement_split,
};
use crate::recorded::{lemma_part_stays, scopes_named};
use crate::soundness::{
    law_declared_texts, law_texts_stay, lemma_opt_stays, opt_resolves_to, within_limits,
};
use crate::syntax::{
    field_child, law_field_child, lemma_named_child_range, named_children, node_text, NodeModel,
};
use crate::textutil::{
    decimal, init_signature_of, law_prefix_within, line_starts_of, prefix_within, slice_of,
    utf16_units,
};

verus! {

/// The walk of a file after its first `a` events, as a graph.
pub open spec fn walked(path: Seq<char>, src: Seq<char>, a: Seq<Event>) -> Graph {
    run(file_graph(path, src), a)
}

/// What a declaring event declares, in the state `h`.
pub open spec fn event_declares(h: Graph, e: Event) -> Option<Declaration> {
    match e {
        Event::Declare(d) => Some(d),
        Event::DeclareCallable(d) => Some(Declaration { kind: callable_kind(h.stack), ..d }),
        _ => None,
    }
}

/// Whether the row `k` of `g` is that of the declaration `d` made in the state `h`.
pub open spec fn holds_row(g: Graph, k: int, h: Graph, d: Declaration) -> bool {
    let row = declared_row(h, d).1;
    &&& k == h.nodes.len()
    &&& 0 <= k < g.nodes.len()
    &&& g.nodes[k] == row
    &&& k < g.metas.len()
    &&& g.metas[k] == (MetaModel { kind: d.kind, name: d.name })
    &&& g.edges.contains(contains_edge(top_row(h.stack), k as u32))
    &&& resolves_to(g.arena, row.name, d.name)
    &&& resolves_to(g.arena, row.qualified_name, declared_qualified(h, d))
    &&& resolves_to(g.arena, row.id, declared_id(h, d))
    &&& opt_resolves_to(g.arena, row.docstring, d.extra.docstring)
    &&& opt_resolves_to(g.arena, row.signature, d.extra.signature)
    &&& opt_resolves_to(g.arena, row.return_type, d.extra.return_type)
}

/// The row of a declaration stays where it is, and its texts can be read back.
proof fn lemma_row_kept(g: Graph, h: Graph, d: Declaration)
    requires
        grows(declare(h, d), g),
        h.metas.len() == h.nodes.len(),
        g.arena.len() <= usize::MAX,
    ensures
        holds_row(g, h.nodes.len() as int, h, d),
{
    let after = declare(h, d);
    let k = h.nodes.len() as int;
    let row = declared_row(h, d).1;
    assert(after.arena == declared_row(h, d).0);
    assert(after.arena.len() <= g.arena.len());
    law_declared_texts(h, d);
    law_texts_stay(after.arena, g.arena, row.name, d.name);
    law_texts_stay(after.arena, g.arena, row.qualified_name, declared_qualified(h, d));
    law_texts_stay(after.arena, g.arena, row.id, declared_id(h, d));
    lemma_opt_stays(after.arena, g.arena, row.docstring, d.extra.docstring);
    lemma_opt_stays(after.arena, g.arena, row.signature, d.extra.signature);
    lemma_opt_stays(after.arena, g.arena, row.return_type, d.extra.return_type);
    assert(after.nodes == h.nodes.push(row));
    assert(g.nodes.take(after.nodes.len() as int)[k] == row);
    assert(after.metas == h.metas.push(MetaModel { kind: d.kind, name: d.name }));
    assert(g.metas.take(after.metas.len() as int)[k] == after.metas[k]);
    let edge = contains_edge(top_row(h.stack), k as u32);
    let n = h.edges.len() as int;
    assert(after.edges == h.edges.push(edge));
    assert(g.edges.take(after.edges.len() as int)[n] == edge);
    assert(g.edges[n] == edge);
}

/// What is declared while a file is walked has its row in the graph of the file.
pub proof fn lemma_declared_here(
    path: Seq<char>,
    src: Seq<char>,
    t: Seq<NodeModel>,
    a: Seq<Event>,
    e: Event,
    b: Seq<Event>,
    d: Declaration,
)
    requires
        visit_events(src, t, 0) == a + seq![e] + b,
        event_declares(walked(path, src, a), e) == Some(d),
        within_limits(whole_graph(path, src, t)),
    ensures
        holds_row(
            whole_graph(path, src, t),
            walked(path, src, a).nodes.len() as int,
            walked(path, src, a),
            d,
        ),
        walked(path, src, a).nodes.len() < u32::MAX,
        walked(path, src, a + seq![e]) == declare(walked(path, src, a), d),
{
    let h = walked(path, src, a);
    lemma_run_concat(file_graph(path, src), a, seq![e]);
    lemma_run_one(h, e);
    assert(apply(h, e) == declare(h, d));
    lemma_part_stays(path, src, t, a + seq![e], b);
    assert(a + seq![e] + b =~= a + (seq![e] + b));
    lemma_metas_parallel(path, src, t, a, seq![e] + b);
    assert(declare(h, d).nodes.len() == h.nodes.len() + 1);
    lemma_row_kept(whole_graph(path, src, t), h, d);
}

/// While a file is walked, its rows are named and its scopes nested.
pub proof fn lemma_metas_parallel(
    path: Seq<char>,
    src: Seq<char>,
    t: Seq<NodeModel>,
    a: Seq<Event>,
    b: Seq<Event>,
)
    requires
        visit_events(src, t, 0) == a + b,
        within_limits(whole_graph(path, src, t)),
    ensures
        placed(walked(path, src, a)),
        walked(path, src, a).metas.len() == walked(path, src, a).nodes.len(),
        scopes_named(walked(path, src, a).stack),
        grows(walked(path, src, a), whole_graph(path, src, t)),
{
    let h = walked(path, src, a);
    lemma_part_stays(path, src, t, a, b);
    assert((a + b).take(a.len() as int) =~= a);
    law_walks_place_rows(path, src, t, a.len() as int);
    assert forall|k: int|
        0 <= k < h.stack.len() && (#[trigger] h.stack[k]).kind
            != NodeKind::File implies h.stack[k].name.len() > 0 by {
        assert(scope_nests(h, k));
    }
}

/// After the declaration of something, the start of its body and any balanced events,
/// the innermost open scope is that of the declaration.
pub proof fn lemma_inside(
    path: Seq<char>,
    src: Seq<char>,
    t: Seq<NodeModel>,
    a: Seq<Event>,
    e: Event,
    enter: Event,
    x: Seq<Event>,
    y: Seq<Event>,
    d: Declaration,
)
    requires
        visit_events(src, t, 0) == a + seq![e] + seq![enter] + x + y,
        event_declares(walked(path, src, a), e) == Some(d),
        enter matches Event::Enter(_, _) || enter is EnterInitializer,
        balanced(x),
        within_limits(whole_graph(path, src, t)),
    ensures
        walked(path, src, a + seq![e] + seq![enter] + x).stack == walked(path, src, a).stack.push(
            ScopeModel {
                row: walked(path, src, a).nodes.len() as u32,
                kind: match enter {
                    Event::Enter(kind, _) => kind,
                    _ => NodeKind::Variable,
                },
                name: match enter {
                    Event::Enter(_, name) => name,
                    _ => d.name,
                },
            },
        ),
{
    let g0 = file_graph(path, src);
    let h = walked(path, src, a);
    let rest = seq![enter] + x + y;
    assert(visit_events(src, t, 0) =~= a + seq![e] + rest);
    lemma_declared_here(path, src, t, a, e, rest, d);
    let declared = declare(h, d);
    lemma_run_concat(g0, a + seq![e], seq![enter]);
    lemma_run_one(declared, enter);
    let opened = apply(declared, enter);
    lemma_run_concat(g0, a + seq![e] + seq![enter], x);
    lemma_open_scopes_stay(opened, x, 0);
    assert(visit_events(src, t, 0) =~= a + (seq![e] + rest));
    lemma_metas_parallel(path, src, t, a, seq![e] + rest);
    assert(latest_row(declared) == h.nodes.len() as u32);
}

/// As [`lemma_inside`], where the base classes of a class come before its body.
pub proof fn lemma_inside_class(
    path: Seq<char>,
    src: Seq<char>,
    t: Seq<NodeModel>,
    a: Seq<Event>,
    e: Event,
    bases: Event,
    enter: Event,
    x: Seq<Event>,
    y: Seq<Event>,
    d: Declaration,
)
    requires
        visit_events(src, t, 0) == a + seq![e] + seq![bases] + seq![enter] + x + y,
        event_declares(walked(path, src, a), e) == Some(d),
        bases is Inherit,
        enter is Enter,
        balanced(x),
        within_limits(whole_graph(path, src, t)),
    ensures
        walked(path, src, a + seq![e] + seq![bases] + seq![enter] + x).stack == walked(
            path,
            src,
            a,
        ).stack.push(
            ScopeModel {
                row: walked(path, src, a).nodes.len() as u32,
                kind: enter->Enter_0,
                name: enter->Enter_1,
            },
        ),
{
    let h = walked(path, src, a);
    let rest = seq![bases] + seq![enter] + x + y;
    assert(visit_events(src, t, 0) =~= a + seq![e] + rest);
    lemma_declared_here(path, src, t, a, e, rest, d);
    let declared = declare(h, d);
    lemma_walked_step(path, src, a + seq![e], bases);
    lemma_walked_step(path, src, a + seq![e] + seq![bases], enter);
    lemma_class_stack(h, d, bases, enter);
    let opened = walked(path, src, a + seq![e] + seq![bases] + seq![enter]);
    lemma_run_concat(file_graph(path, src), a + seq![e] + seq![bases] + seq![enter], x);
    lemma_open_scopes_stay(opened, x, 0);
}

/// One more event of a walk.
pub proof fn lemma_walked_step(path: Seq<char>, src: Seq<char>, a: Seq<Event>, e: Event)
    ensures
        walked(path, src, a + seq![e]) == apply(walked(path, src, a), e),
{
    lemma_run_concat(file_graph(path, src), a, seq![e]);
    lemma_run_one(walked(path, src, a), e);
}

/// The scopes that are open in the body of a class.
proof fn lemma_class_stack(h: Graph, d: Declaration, bases: Event, enter: Event)
    requires
        bases is Inherit,
        enter is Enter,
    ensures
        apply(apply(declare(h, d), bases), enter).stack == h.stack.push(
            ScopeModel {
                row: h.nodes.len() as u32,
                kind: enter->Enter_0,
                name: enter->Enter_1,
            },
        ),
{
    let declared = declare(h, d);
    lemma_add_refs_keeps_nodes(
        declared,
        latest_row(declared),
        edge_code(EdgeKind::Extends),
        bases->Inherit_0,
    );
    assert(declared.nodes.len() == h.nodes.len() + 1);
}

/// What the walk comes upon at a class with a name and a body.
pub proof fn lemma_class_opens(
    src: Seq<char>,
    t: Seq<NodeModel>,
    c: int,
    name: Seq<char>,
    body: int,
)
    requires
        0 <= c < t.len(),
        t[c].kind == "class_definition"@,
        bears_name(src, t, c, name),
        field_child(t, c, "body"@) == Some(body),
    ensures
        visit_events(src, t, c) == seq![Event::Declare(documented(src, t, c, NodeKind::Class))]
            + seq![Event::Inherit(inherited(src, t, c))] + seq![
            Event::Enter(NodeKind::Class, name),
        ] + visit_each(src, t, body, named_children(t, body).len() as int) + seq![Event::Leave],
{
    lemma_sorts(t[c].kind);
    law_names(src, t, c, name);
    lemma_no_arguments(src, t, c);
    assert(visit_events(src, t, c) =~= class_events(src, t, c));
    assert(class_events(src, t, c) =~= seq![
        Event::Declare(documented(src, t, c, NodeKind::Class)),
    ] + seq![Event::Inherit(inherited(src, t, c))] + seq![Event::Enter(NodeKind::Class, name)]
        + visit_each(src, t, body, named_children(t, body).len() as int) + seq![Event::Leave]);
}

/// Only a call passes arguments.
pub proof fn lemma_no_arguments(src: Seq<char>, t: Seq<NodeModel>, i: int)
    requires
        t[i].kind != "call"@,
    ensures
        argument_events(src, t, i) == Seq::<Event>::empty(),
{
}

/// Where `j` is a statement of `i` or of a class there, the walk of `i` comes to it.
pub proof fn lemma_nested_split(src: Seq<char>, t: Seq<NodeModel>, i: int, j: int) -> (r: (
    Seq<Event>,
    Seq<Event>,
))
    requires
        0 <= i < t.len(),
        is_nested_statement(src, t, i, j),
    ensures
        visit_events(src, t, i) == r.0 + visit_events(src, t, j) + r.1,
        i <= j < t.len(),
    decreases t.len() - i,
{
    if is_statement_of(t, i, j) {
        lemma_statement_split(src, t, i, j)
    } else {
        let (c, m) = choose|c: int, m: int|
            i < m < t.len() && is_statement_of(t, i, c) && #[trigger] is_member(src, t, c, m)
                && is_nested_statement(src, t, m, j);
        let (x, y) = lemma_statement_split(src, t, i, c);
        let (p, q) = lemma_member_split(src, t, c, m);
        let (v, w) = lemma_nested_split(src, t, m, j);
        lemma_inner_part(x, visit_events(src, t, c), y, p, visit_events(src, t, m), q);
        lemma_inner_part(x + p, visit_events(src, t, m), q + y, v, visit_events(src, t, j), w);
        (x + p + v, w + (q + y))
    }
}

/// The walk of a class comes to each of its members.
proof fn lemma_member_split(src: Seq<char>, t: Seq<NodeModel>, c: int, m: int) -> (r: (
    Seq<Event>,
    Seq<Event>,
))
    requires
        is_member(src, t, c, m),
    ensures
        visit_events(src, t, c) == r.0 + visit_events(src, t, m) + r.1,
{
    let name = choose|name: Seq<char>| bears_name(src, t, c, name);
    let body = class_body(src, t, c)->0;
    let (before, after) = lemma_among_members(src, t, body, m);
    lemma_class_opens(src, t, c, name, body);
    let head = seq![Event::Declare(documented(src, t, c, NodeKind::Class))] + seq![
        Event::Inherit(inherited(src, t, c)),
    ] + seq![Event::Enter(NodeKind::Class, name)];
    assert(visit_events(src, t, c) =~= (head + before) + visit_events(src, t, m) + (after + seq![
        Event::Leave,
    ]));
    (head + before, after + seq![Event::Leave])
}

/// The walk of a body comes to each of its members, with as many open scopes as it
/// started with.
pub proof fn lemma_among_members(src: Seq<char>, t: Seq<NodeModel>, body: int, m: int) -> (r: (
    Seq<Event>,
    Seq<Event>,
))
    requires
        is_named_child(t, body, m),
    ensures
        visit_each(src, t, body, named_children(t, body).len() as int) == r.0 + visit_events(
            src,
            t,
            m,
        ) + r.1,
        balanced(r.0),
        body < m < t.len(),
{
    let kids = named_children(t, body);
    let n = choose|n: int| 0 <= n < kids.len() && kids[n] == m;
    lemma_named_child_range(t, body, n);
    law_children_are_balanced(src, t, body, n);
    let after = lemma_each_split(src, t, body, n, kids.len() as int);
    (visit_each(src, t, body, n), after)
}

/// The event by which an owner of code is declared.
pub open spec fn owner_event(src: Seq<char>, t: Seq<NodeModel>, o: int) -> Event {
    if is_function_kind(t[o].kind) {
        Event::DeclareCallable(function_declaration(src, t, o))
    } else if t[o].kind == "lambda"@ {
        Event::Declare(lambda_declaration(src, t, o))
    } else {
        Event::Declare(value_declaration(src, t, o, NodeKind::Variable))
    }
}

/// The event by which the code of an owner starts.
pub open spec fn owner_enter(src: Seq<char>, t: Seq<NodeModel>, o: int) -> Event {
    if is_function_kind(t[o].kind) {
        Event::Enter(NodeKind::Function, declared_name(src, t, o))
    } else if t[o].kind == "lambda"@ {
        Event::Enter(NodeKind::Function, lambda_name(start_line_of(t[o])))
    } else {
        Event::EnterInitializer
    }
}

/// What the walk comes upon at an owner of code.
pub proof fn lemma_owner_opens(src: Seq<char>, t: Seq<NodeModel>, o: int) -> (r: Seq<Event>)
    requires
        code_body(src, t, o) is Some,
    ensures
        visit_events(src, t, o) == seq![owner_event(src, t, o)] + seq![owner_enter(src, t, o)]
            + body_events(src, t, code_body(src, t, o)->0) + r,
        is_function_kind(t[o].kind) ==> body_events(src, t, o) == visit_events(src, t, o),
        o < code_body(src, t, o)->0 < t.len(),
{
    let b = code_body(src, t, o)->0;
    law_field_child(t, o, "body"@);
    law_field_child(t, o, "value"@);
    lemma_sorts(t[o].kind);
    lemma_no_arguments(src, t, o);
    let e = owner_event(src, t, o);
    let enter = owner_enter(src, t, o);
    let none = Seq::<Event>::empty();
    let inner = body_events(src, t, b);
    if t[o].kind == "lambda"@ {
        assert(visit_events(src, t, o) =~= lambda_events(src, t, o));
        assert(lambda_events(src, t, o) =~= seq![e] + seq![enter] + inner + seq![Event::Leave]);
        seq![Event::Leave]
    } else {
        let name = choose|name: Seq<char>| bears_name(src, t, o, name);
        law_names(src, t, o, name);
        if is_function_kind(t[o].kind) {
            assert(visit_events(src, t, o) =~= function_events(src, t, o));
            assert(body_events(src, t, o) =~= function_events(src, t, o));
            assert(function_events(src, t, o) =~= seq![e] + seq![enter] + inner + seq![
                Event::Leave,
            ]);
            seq![Event::Leave]
        } else {
            let rest = visit_each(src, t, o, named_children(t, o).len() as int);
            assert(visit_events(src, t, o) =~= variable_events(src, t, o) + rest);
            assert(variable_events(src, t, o) + rest =~= seq![e] + seq![enter] + inner + (seq![
                Event::Leave,
            ] + rest));
            seq![Event::Leave] + rest
        }
    }
}

/// The walk of a file comes to the code of each of its functions, lambdas and variables.
pub proof fn lemma_code_met(src: Seq<char>, t: Seq<NodeModel>, j: int) -> (r: (
    Seq<Event>,
    Seq<Event>,
))
    requires
        is_code(src, t, j),
    ensures
        visit_events(src, t, 0) == r.0 + body_events(src, t, j) + r.1,
    decreases j, 0int,
{
    let o = choose|o: int|
        {
            &&& 0 <= o < j < t.len()
            &&& #[trigger] holds_code(src, t, o, j)
            &&& is_statement(src, t, o) || (is_function_kind(t[o].kind) && is_code(src, t, o))
        };
    let (x, y) = lemma_owner_met(src, t, o);
    let b = code_body(src, t, o)->0;
    let head = x + seq![owner_event(src, t, o)] + seq![owner_enter(src, t, o)];
    lemma_owner_opens(src, t, o);
    let (p, q) = lemma_code_path_split(src, t, b, j);
    lemma_inner_part(head, body_events(src, t, b), y, p, body_events(src, t, j), q);
    (head + p, q + y)
}

/// The walk of a file comes to each owner of code in it.
pub proof fn lemma_owner_met(src: Seq<char>, t: Seq<NodeModel>, o: int) -> (r: (
    Seq<Event>,
    Seq<Event>,
))
    requires
        code_body(src, t, o) is Some,
        is_statement(src, t, o) || (is_function_kind(t[o].kind) && is_code(src, t, o)),
    ensures
        visit_events(src, t, 0) == r.0 + seq![owner_event(src, t, o)] + seq![
            owner_enter(src, t, o),
        ] + body_events(src, t, code_body(src, t, o)->0) + r.1,
    decreases o, 1int,
{
    let rest = lemma_owner_opens(src, t, o);
    let (x, y) = if is_statement(src, t, o) {
        lemma_nested_split(src, t, 0, o)
    } else {
        lemma_code_met(src, t, o)
    };
    lemma_owner_pieces(
        x,
        owner_event(src, t, o),
        owner_enter(src, t, o),
        body_events(src, t, code_body(src, t, o)->0),
        rest,
        y,
    );
    (x, rest + y)
}

proof fn lemma_owner_pieces(
    x: Seq<Event>,
    e: Event,
    enter: Event,
    inner: Seq<Event>,
    rest: Seq<Event>,
    y: Seq<Event>,
)
    ensures
        x + (seq![e] + seq![enter] + inner + rest) + y == x + seq![e] + seq![enter] + inner + (rest
            + y),
{
    assert(x + (seq![e] + seq![enter] + inner + rest) + y =~= x + seq![e] + seq![enter] + inner + (
    rest + y));
}

/// Whether `line` is the line with the number `row`, counted from 1.
pub open spec fn is_line(row: int, line: u32) -> bool {
    0 <= row < u32::MAX ==> line == row + 1
}

/// Whether `column` is the column of `byte` on the line with the number `row`: the number
/// of UTF-16 code units between the start of the line and it.
pub open spec fn is_column(src: Seq<char>, row: int, byte: int, column: u32) -> bool {
    let start = line_starts_of(encode_utf8(src))[row];
    utf16_units(slice_of(src, start, byte)) <= u32::MAX ==> column == utf16_units(
        slice_of(src, start, byte),
    )
}

/// Whether a row says where the node `n` starts and ends.
pub open spec fn lies_at(src: Seq<char>, row: NodeRow, n: NodeModel) -> bool {
    &&& is_line(n.start_row, row.start_line)
    &&& is_line(n.end_row, row.end_line)
    &&& is_column(src, n.start_row, n.start_byte, row.start_column)
    &&& is_column(src, n.end_row, n.end_byte, row.end_column)
}

/// Whether the reference `r` reads `text`; an empty text has no reference.
pub open spec fn reads(arena: Seq<u8>, r: StrRef, text: Seq<char>) -> bool {
    if text.len() > 0 {
        resolves_to(arena, r, text)
    } else {
        r == none_str()
    }
}

/// Whether a syntax node of this kind may be recorded as a row of the kind `kind`.
pub open spec fn recorded_as(raw: Seq<char>, kind: NodeKind) -> bool {
    ||| (raw == "class_name_statement"@ || raw == "class_definition"@) && kind == NodeKind::Class
    ||| is_function_kind(raw) && (kind == NodeKind::Function || kind == NodeKind::Method)
    ||| raw == "lambda"@ && kind == NodeKind::Function
    ||| (raw == "variable_statement"@ || raw == "signal_statement"@) && kind == NodeKind::Variable
    ||| (raw == "const_statement"@ || raw == "enumerator"@) && kind == NodeKind::Constant
    ||| raw == "enum_definition"@ && kind == NodeKind::Enum
}

/// Whether `name` is what the declaration `j` is called: a lambda by its line, everything
/// else by the name that it bears.
pub open spec fn is_called(src: Seq<char>, t: Seq<NodeModel>, j: int, name: Seq<char>) -> bool {
    if t[j].kind == "lambda"@ {
        exists|line: u32| #[trigger]
            is_line(t[j].start_row, line) && name == "lambda@"@ + decimal(line as nat)
    } else {
        bears_name(src, t, j, name)
    }
}

/// Whether `s` shows the initializer `text`: all of it where it takes less than 100 UTF-16
/// code units, else as many characters as fit in 100 of them, and an ellipsis.
pub open spec fn shows_value(s: Seq<char>, text: Seq<char>) -> bool {
    if utf16_units(text) < 100 {
        s == "= "@ + text
    } else {
        exists|n: int|
            {
                &&& 0 <= n <= text.len()
                &&& s == "= "@ + #[trigger] text.take(n) + "..."@
                &&& utf16_units(text.take(n)) <= 100
                &&& n < text.len() ==> utf16_units(text.take(n + 1)) > 100
            }
    }
}

/// Whether `r` reads the signature of the declaration `j`: of a function its parameters
/// and return type, of a variable or constant the start of its initializer.
pub open spec fn shows_signature(
    src: Seq<char>,
    t: Seq<NodeModel>,
    j: int,
    arena: Seq<u8>,
    r: StrRef,
) -> bool {
    if is_function_kind(t[j].kind) || t[j].kind == "lambda"@ {
        match field_child(t, j, "parameters"@) {
            Some(p) => match field_child(t, j, "return_type"@) {
                Some(q) => resolves_to(
                    arena,
                    r,
                    node_text(src, t[p]) + " -> "@ + node_text(src, t[q]),
                ),
                None => reads(arena, r, node_text(src, t[p])),
            },
            None => r == none_str(),
        }
    } else if t[j].kind == "variable_statement"@ || t[j].kind == "const_statement"@ {
        match field_child(t, j, "value"@) {
            Some(v) => exists|s: Seq<char>| #[trigger]
                shows_value(s, node_text(src, t[v])) && resolves_to(arena, r, s),
            None => r == none_str(),
        }
    } else {
        r == none_str()
    }
}

/// Whether `r` reads the return type that the declaration `j` states.
pub open spec fn shows_return_type(
    src: Seq<char>,
    t: Seq<NodeModel>,
    j: int,
    arena: Seq<u8>,
    r: StrRef,
) -> bool {
    if is_function_kind(t[j].kind) || t[j].kind == "lambda"@ {
        match field_child(t, j, "return_type"@) {
            Some(q) => reads(arena, r, node_text(src, t[q])),
            None => r == none_str(),
        }
    } else {
        r == none_str()
    }
}

/// Whether `r` reads the documentation of the declaration `j`; lambdas and the values of
/// an enum have none.
pub open spec fn shows_documentation(
    src: Seq<char>,
    t: Seq<NodeModel>,
    j: int,
    arena: Seq<u8>,
    r: StrRef,
) -> bool {
    if t[j].kind == "lambda"@ || t[j].kind == "enumerator"@ {
        r == none_str()
    } else {
        match docstring_of(src, t, j) {
            Some(s) => reads(arena, r, s),
            None => r == none_str(),
        }
    }
}

/// Whether `flags` say that a declaration of this kind is exported, as all are but
/// lambdas, and nothing else.
pub open spec fn shows_export(raw: Seq<char>, flags: BoolFlags) -> bool {
    if raw == "lambda"@ {
        flags.known == 0 && flags.value == 0
    } else {
        flags.known == FLAG_IS_EXPORTED && flags.value == FLAG_IS_EXPORTED
    }
}

/// Whether the row `k` of `g` is that of the declaration `j` of the file `path`, as a
/// `kind` called `name`.
pub open spec fn describes(
    path: Seq<char>,
    src: Seq<char>,
    t: Seq<NodeModel>,
    g: Graph,
    k: int,
    j: int,
    kind: NodeKind,
    name: Seq<char>,
) -> bool {
    let row = g.nodes[k];
    &&& 0 <= k < g.nodes.len()
    &&& recorded_as(t[j].kind, kind)
    &&& is_called(src, t, j, name)
    &&& row.kind == node_code(kind)
    &&& row.visibility == 0
    &&& shows_export(t[j].kind, row.flags)
    &&& lies_at(src, row, t[j])
    &&& resolves_to(g.arena, row.name, name)
    &&& resolves_to(
        g.arena,
        row.id,
        kind_word(kind) + ":"@ + path + ":"@ + name + ":"@ + decimal(row.start_line as nat),
    )
    &&& shows_documentation(src, t, j, g.arena, row.docstring)
    &&& shows_signature(src, t, j, g.arena, row.signature)
    &&& shows_return_type(src, t, j, g.arena, row.return_type)
    &&& row.decorators == none_str()
    &&& row.type_parameters == none_str()
    &&& row.extra_json == none_str()
}

/// Whether `e` says that the row `r` contains the row `k`, and nothing else.
pub open spec fn is_containment(e: EdgeRow, r: int, k: int) -> bool {
    &&& e.source_idx == r
    &&& e.target_idx == k
    &&& e.kind == edge_code(EdgeKind::Contains)
    &&& e.provenance == 0
    &&& e.line == NONE
    &&& e.column == NONE
    &&& e.metadata_json == none_str()
    &&& e.source_id_str == none_str()
    &&& e.target_id_str == none_str()
}

/// Whether the row `r` of `g` contains the row `k`.
pub open spec fn has_containment(g: Graph, r: int, k: int) -> bool {
    exists|n: int| 0 <= n < g.edges.len() && is_containment(#[trigger] g.edges[n], r, k)
}

/// Whether the qualified name of the row `k` is that of the row `r`, and `name` after it.
pub open spec fn extends_name(g: Graph, r: int, k: int, name: Seq<char>) -> bool {
    exists|q: Seq<char>| #[trigger]
        resolves_to(g.arena, g.nodes[r].qualified_name, q) && resolves_to(
            g.arena,
            g.nodes[k].qualified_name,
            q + "::"@ + name,
        )
}

/// Whether the row `k`, called `name`, is contained in the row of the declaration `o`, or
/// in that of the file where there is none, and its qualified name says so.
pub open spec fn stands_in(
    path: Seq<char>,
    src: Seq<char>,
    t: Seq<NodeModel>,
    g: Graph,
    o: Option<int>,
    k: int,
    name: Seq<char>,
) -> bool {
    match o {
        None => has_containment(g, 0, k) && resolves_to(
            g.arena,
            g.nodes[k].qualified_name,
            name,
        ),
        Some(c) => exists|r: int, kind: NodeKind, outer: Seq<char>| #[trigger]
            describes(path, src, t, g, r, c, kind, outer) && has_containment(g, r, k)
                && extends_name(g, r, k, name),
    }
}

/// The declaration that the declaring node `j` makes, as a `kind`.
pub open spec fn made_by(src: Seq<char>, t: Seq<NodeModel>, j: int, kind: NodeKind) -> Declaration {
    if is_function_kind(t[j].kind) {
        Declaration { kind, ..function_declaration(src, t, j) }
    } else if t[j].kind == "lambda"@ {
        lambda_declaration(src, t, j)
    } else if t[j].kind == "variable_statement"@ || t[j].kind == "const_statement"@ {
        value_declaration(src, t, j, kind)
    } else if t[j].kind == "enumerator"@ {
        enumerator_declaration(src, t, j)
    } else {
        documented(src, t, j, kind)
    }
}

proof fn lemma_shows_value(text: Seq<char>)
    ensures
        shows_value(init_signature_of(text), text),
{
    let n = prefix_within(text, 100) as int;
    law_prefix_within(text, 100);
    let head = text.take(n);
    if utf16_units(text) < 100 {
        if n < text.len() {
            lemma_units_of_take(text, n + 1);
        }
        assert(head =~= text);
    } else {
        assert(init_signature_of(text) == "= "@ + text.take(n) + "..."@);
    }
}

/// A part of a text takes no more UTF-16 code units than the whole.
proof fn lemma_units_of_take(s: Seq<char>, n: int)
    requires
        0 <= n <= s.len(),
    ensures
        utf16_units(s.take(n)) <= utf16_units(s),
    decreases s.len(),
{
    if n > 0 {
        lemma_units_of_take(s.drop_first(), n - 1);
        assert(s.take(n).drop_first() =~= s.drop_first().take(n - 1));
    }
}

proof fn lemma_lies_at(src: Seq<char>, row: NodeRow, n: NodeModel)
    requires
        row.start_line == start_line_of(n),
        row.end_line == end_line_of(n),
        row.start_column == start_column_of(src, n),
        row.end_column == end_column_of(src, n),
    ensures
        lies_at(src, row, n),
{
}

proof fn lemma_shows_signature(
    src: Seq<char>,
    t: Seq<NodeModel>,
    j: int,
    kind: NodeKind,
    arena: Seq<u8>,
    row: NodeRow,
)
    requires
        opt_resolves_to(arena, row.signature, made_by(src, t, j, kind).extra.signature),
        opt_resolves_to(arena, row.return_type, made_by(src, t, j, kind).extra.return_type),
        opt_resolves_to(arena, row.docstring, made_by(src, t, j, kind).extra.docstring),
    ensures
        shows_signature(src, t, j, arena, row.signature),
        shows_return_type(src, t, j, arena, row.return_type),
        shows_documentation(src, t, j, arena, row.docstring),
{
    lemma_kinds_differ();
    reveal_strlit(" -> ");
    reveal_strlit("= ");
    if t[j].kind == "variable_statement"@ || t[j].kind == "const_statement"@ {
        if let Some(v) = field_child(t, j, "value"@) {
            let s = init_signature_of(node_text(src, t[v]));
            lemma_shows_value(node_text(src, t[v]));
            assert(s.len() > 0);
            assert(shows_value(s, node_text(src, t[v])) && resolves_to(arena, row.signature, s));
        }
    }
}

/// The kinds of declaring nodes are different.
pub proof fn lemma_kinds_differ()
    ensures
        !is_function_kind("lambda"@),
        !is_function_kind("enumerator"@),
        !is_function_kind("variable_statement"@),
        !is_function_kind("const_statement"@),
        "lambda"@ != "variable_statement"@,
        "lambda"@ != "const_statement"@,
        "enumerator"@ != "variable_statement"@,
        "enumerator"@ != "const_statement"@,
        "enumerator"@ != "lambda"@,
{
    reveal_strlit("lambda");
    reveal_strlit("enumerator");
    reveal_strlit("variable_statement");
    reveal_strlit("const_statement");
    reveal_strlit("function_definition");
    reveal_strlit("static_function_definition");
    assert("lambda"@.len() == 6);
    assert("enumerator"@.len() == 10);
    assert("variable_statement"@.len() == 18);
    assert("const_statement"@.len() == 15);
    assert("function_definition"@.len() == 19);
    assert("static_function_definition"@.len() == 26);
}

/// The row of a declaration describes the node that makes it.
pub proof fn lemma_describes(
    path: Seq<char>,
    src: Seq<char>,
    t: Seq<NodeModel>,
    g: Graph,
    h: Graph,
    j: int,
    kind: NodeKind,
    name: Seq<char>,
)
    requires
        holds_row(g, h.nodes.len() as int, h, made_by(src, t, j, kind)),
        made_by(src, t, j, kind).kind == kind,
        made_by(src, t, j, kind).name == name,
        h.path == path,
        recorded_as(t[j].kind, kind),
        is_called(src, t, j, name),
    ensures
        describes(path, src, t, g, h.nodes.len() as int, j, kind, name),
{
    let d = made_by(src, t, j, kind);
    let k = h.nodes.len() as int;
    lemma_kinds_differ();
    lemma_lies_at(src, g.nodes[k], t[j]);
    lemma_shows_signature(src, t, j, kind, g.arena, g.nodes[k]);
    assert(0u8 | 1u8 == 1u8) by (bit_vector);
}

} // verus!
