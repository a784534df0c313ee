//! The declarations around each part of a file: what is recorded there, and from where.

use vstd::prelude::*;
use crate::balance::{
    balanced, lemma_balanced_concat, lemma_balanced_flat, lemma_open_scopes_stay, rise,
};
use crate::buffers::resolves_to;
use crate::events::{
    body_events, documented, enum_events, enumerator_declaration, enumerator_events,
    function_declaration, inherited, lambda_declaration, lambda_name, plain_declaration,
    start_line_of, visit_events, whole_graph,
};
use crate::graph::{
    callable_kind, contains_edge, file_graph, qualified_name_of, scope_names, top_row, Declaration,
    Event, Graph, ScopeModel,
};
use crate::kinds::NodeKind;
use crate::laws::{law_walk_only_adds, lemma_enumerators_flat};
use crate::nesting::{
    describes, event_declares, extends_name, has_containment, holds_row, is_called, is_containment,
    is_line, lemma_among_members, lemma_class_opens, lemma_declared_here, lemma_describes,
    lemma_inside, lemma_inside_class, lemma_kinds_differ, lemma_metas_parallel, lemma_nested_split,
    lemma_no_arguments, lemma_owner_met, lemma_owner_opens, made_by, owner_enter, owner_event,
    recorded_as, stands_in, walked,
};
use crate::outline::{
    bears_name, class_body, code_body, is_code_in, is_function_kind, is_member, is_named,
    is_named_child, is_statement, is_statement_in, is_statement_of, law_names,
    lemma_code_path_split, lemma_inner_part, lemma_sorts, lemma_statement_split,
};
use crate::recorded::{law_qualified_names_nest, scopes_named, statement_event};
use crate::soundness::within_limits;
use crate::syntax::{children_of_kind, field_child, named_children, of_kind, NodeModel};

verus! {

/// The kind of the scope that a declaration of this kind opens.
pub open spec fn scope_kind(raw: Seq<char>) -> NodeKind {
    if raw == "class_definition"@ {
        NodeKind::Class
    } else if raw == "enum_definition"@ {
        NodeKind::Enum
    } else if raw == "variable_statement"@ {
        NodeKind::Variable
    } else {
        NodeKind::Function
    }
}

/// Whether the innermost of the open scopes `stack` is that of the declaration `o`, whose
/// row in `g` describes it, and whose qualified name is that of its place.
pub open spec fn opened_by(
    path: Seq<char>,
    src: Seq<char>,
    t: Seq<NodeModel>,
    g: Graph,
    stack: Seq<ScopeModel>,
    o: int,
    kind: NodeKind,
    name: Seq<char>,
) -> bool {
    let r = stack.last().row as int;
    &&& stack.len() > 0
    &&& stack.last().name == name
    &&& stack.last().kind == scope_kind(t[o].kind)
    &&& describes(path, src, t, g, r, o, kind, name)
    &&& resolves_to(
        g.arena,
        g.nodes[r].qualified_name,
        qualified_name_of(stack.drop_last(), name),
    )
}

/// Whether the innermost of the open scopes `stack` is that of the declaration `o`, or the
/// file where there is none.
pub open spec fn in_scope(
    path: Seq<char>,
    src: Seq<char>,
    t: Seq<NodeModel>,
    g: Graph,
    stack: Seq<ScopeModel>,
    o: Option<int>,
) -> bool {
    match o {
        None => stack == file_graph(path, src).stack,
        Some(c) => exists|kind: NodeKind, name: Seq<char>| #[trigger]
            opened_by(path, src, t, g, stack, c, kind, name),
    }
}

/// The scope that a declaration opened is its own.
pub proof fn lemma_in_scope(
    path: Seq<char>,
    src: Seq<char>,
    t: Seq<NodeModel>,
    g: Graph,
    stack: Seq<ScopeModel>,
    o: int,
    kind: NodeKind,
    name: Seq<char>,
)
    requires
        opened_by(path, src, t, g, stack, o, kind, name),
    ensures
        in_scope(path, src, t, g, stack, Some(o)),
{
    let c = Some(o);
    assert(c->0 == o);
}

/// The path is the same throughout.
pub proof fn lemma_path(path: Seq<char>, src: Seq<char>, a: Seq<Event>)
    ensures
        walked(path, src, a).path == path,
{
    law_walk_only_adds(file_graph(path, src), a);
}

/// The row of the declaration `o`, made at some point of the walk, and the scope that it
/// opens.
pub proof fn lemma_opened(
    path: Seq<char>,
    src: Seq<char>,
    t: Seq<NodeModel>,
    a: Seq<Event>,
    e: Event,
    rest: Seq<Event>,
    o: int,
    kind: NodeKind,
    name: Seq<char>,
    stack: Seq<ScopeModel>,
)
    requires
        visit_events(src, t, 0) == a + seq![e] + rest,
        event_declares(walked(path, src, a), e) == Some(made_by(src, t, o, kind)),
        made_by(src, t, o, kind).kind == kind,
        made_by(src, t, o, kind).name == name,
        recorded_as(t[o].kind, kind),
        is_called(src, t, o, name),
        within_limits(whole_graph(path, src, t)),
        stack == walked(path, src, a).stack.push(
            ScopeModel {
                row: walked(path, src, a).nodes.len() as u32,
                kind: scope_kind(t[o].kind),
                name,
            },
        ),
    ensures
        opened_by(path, src, t, whole_graph(path, src, t), stack, o, kind, name),
{
    let h = walked(path, src, a);
    let d = made_by(src, t, o, kind);
    lemma_declared_here(path, src, t, a, e, rest, d);
    lemma_path(path, src, a);
    lemma_describes(path, src, t, whole_graph(path, src, t), h, o, kind, name);
    assert(stack.drop_last() =~= h.stack);
}

/// The walk of a file comes to each statement directly in one of its classes while the
/// scope of that class is innermost.
proof fn lemma_class_home(
    path: Seq<char>,
    src: Seq<char>,
    t: Seq<NodeModel>,
    c: int,
    m: int,
    j: int,
) -> (r: (Seq<Event>, Seq<Event>))
    requires
        is_statement(src, t, c),
        is_member(src, t, c, m),
        is_statement_of(t, m, j),
        within_limits(whole_graph(path, src, t)),
    ensures
        visit_events(src, t, 0) == r.0 + visit_events(src, t, j) + r.1,
        in_scope(
            path,
            src,
            t,
            whole_graph(path, src, t),
            walked(path, src, r.0).stack,
            Some(c),
        ),
{
    let g = whole_graph(path, src, t);
    let name = choose|name: Seq<char>| bears_name(src, t, c, name);
    let body = class_body(src, t, c)->0;
    let (x, y) = lemma_nested_split(src, t, 0, c);
    let (p, q) = lemma_among_members(src, t, body, m);
    let (v, w) = lemma_statement_split(src, t, m, j);
    lemma_balanced_concat(p, v);
    lemma_class_opens(src, t, c, name, body);
    law_names(src, t, c, name);
    lemma_sorts(t[c].kind);
    let d = documented(src, t, c, NodeKind::Class);
    let e = Event::Declare(d);
    let bases = Event::Inherit(inherited(src, t, c));
    let enter = Event::Enter(NodeKind::Class, name);
    let at = visit_events(src, t, j);
    let all = visit_events(src, t, 0);
    let tail = w + q + seq![Event::Leave] + y;
    let a = x + seq![e] + seq![bases] + seq![enter] + (p + v);
    lemma_class_pieces(x, e, bases, enter, p, v, at, w, q, y);
    assert(all == a + at + tail);
    assert(a + at + tail =~= a + (at + tail));
    lemma_inside_class(path, src, t, x, e, bases, enter, p + v, at + tail, d);
    let rest = seq![bases] + seq![enter] + (p + v) + (at + tail);
    assert(all =~= x + seq![e] + rest);
    lemma_made_by_class(src, t, c);
    lemma_opened(
        path,
        src,
        t,
        x,
        e,
        rest,
        c,
        NodeKind::Class,
        name,
        walked(path, src, a).stack,
    );
    lemma_in_scope(path, src, t, g, walked(path, src, a).stack, c, NodeKind::Class, name);
    (a, tail)
}

/// What a class declares.
pub proof fn lemma_made_by_class(src: Seq<char>, t: Seq<NodeModel>, c: int)
    requires
        t[c].kind == "class_definition"@,
    ensures
        made_by(src, t, c, NodeKind::Class) == documented(src, t, c, NodeKind::Class),
        t[c].kind != "lambda"@,
        t[c].kind != "enum_definition"@,
        t[c].kind != "variable_statement"@,
{
    lemma_sorts(t[c].kind);
    reveal_strlit("class_definition");
    reveal_strlit("enumerator");
    assert("class_definition"@.len() == 16);
    assert("enumerator"@.len() == 10);
}

proof fn lemma_class_pieces(
    x: Seq<Event>,
    e: Event,
    bases: Event,
    enter: Event,
    p: Seq<Event>,
    v: Seq<Event>,
    at: Seq<Event>,
    w: Seq<Event>,
    q: Seq<Event>,
    y: Seq<Event>,
)
    ensures
        x + (seq![e] + seq![bases] + seq![enter] + (p + (v + at + w) + q) + seq![Event::Leave]) + y
            == x + seq![e] + seq![bases] + seq![enter] + (p + v) + at + (w + q + seq![Event::Leave]
            + y),
{
    assert(x + (seq![e] + seq![bases] + seq![enter] + (p + (v + at + w) + q) + seq![Event::Leave])
        + y =~= x + seq![e] + seq![bases] + seq![enter] + (p + v) + at + (w + q + seq![
        Event::Leave,
    ] + y));
}

/// The walk of a file comes to each of its statements while the declaration around it is
/// innermost.
pub proof fn lemma_statement_home(
    path: Seq<char>,
    src: Seq<char>,
    t: Seq<NodeModel>,
    o: Option<int>,
    j: int,
) -> (r: (Seq<Event>, Seq<Event>))
    requires
        is_statement_in(src, t, o, j),
        within_limits(whole_graph(path, src, t)),
    ensures
        visit_events(src, t, 0) == r.0 + visit_events(src, t, j) + r.1,
        in_scope(path, src, t, whole_graph(path, src, t), walked(path, src, r.0).stack, o),
{
    match o {
        None => {
            let (x, y) = lemma_statement_split(src, t, 0, j);
            lemma_open_scopes_stay(file_graph(path, src), x, 0);
            (x, y)
        },
        Some(c) => {
            let m = choose|m: int| #[trigger]
                is_member(src, t, c, m) && is_statement_of(t, m, j);
            lemma_class_home(path, src, t, c, m, j)
        },
    }
}

/// The declaration by which an owner of code opens its scope.
pub proof fn lemma_owner_made(src: Seq<char>, t: Seq<NodeModel>, h: Graph, o: int) -> (r: (
    NodeKind,
    Seq<char>,
))
    requires
        code_body(src, t, o) is Some,
    ensures
        event_declares(h, owner_event(src, t, o)) == Some(made_by(src, t, o, r.0)),
        made_by(src, t, o, r.0).kind == r.0,
        made_by(src, t, o, r.0).name == r.1,
        recorded_as(t[o].kind, r.0),
        is_called(src, t, o, r.1),
        match owner_enter(src, t, o) {
            Event::Enter(kind, name) => kind == scope_kind(t[o].kind) && name == r.1,
            Event::EnterInitializer => scope_kind(t[o].kind) == NodeKind::Variable,
            _ => false,
        },
{
    lemma_kinds_differ();
    lemma_sorts(t[o].kind);
    if is_function_kind(t[o].kind) {
        let name = choose|name: Seq<char>| bears_name(src, t, o, name);
        law_names(src, t, o, name);
        (callable_kind(h.stack), name)
    } else if t[o].kind == "lambda"@ {
        let line = start_line_of(t[o]);
        assert(is_line(t[o].start_row, line));
        (NodeKind::Function, lambda_name(line))
    } else {
        let name = choose|name: Seq<char>| bears_name(src, t, o, name);
        law_names(src, t, o, name);
        (NodeKind::Variable, name)
    }
}

/// The walk of a file comes to the code of each of its declarations while that
/// declaration is innermost.
pub proof fn lemma_code_home(
    path: Seq<char>,
    src: Seq<char>,
    t: Seq<NodeModel>,
    o: int,
    j: int,
) -> (r: (Seq<Event>, Seq<Event>))
    requires
        is_code_in(src, t, o, j),
        within_limits(whole_graph(path, src, t)),
    ensures
        visit_events(src, t, 0) == r.0 + body_events(src, t, j) + r.1,
        in_scope(
            path,
            src,
            t,
            whole_graph(path, src, t),
            walked(path, src, r.0).stack,
            Some(o),
        ),
{
    let g = whole_graph(path, src, t);
    let b = code_body(src, t, o)->0;
    let e = owner_event(src, t, o);
    let enter = owner_enter(src, t, o);
    let (x, y) = lemma_owner_met(src, t, o);
    lemma_owner_opens(src, t, o);
    let (p, q) = lemma_code_path_split(src, t, b, j);
    let h = walked(path, src, x);
    let (kind, name) = lemma_owner_made(src, t, h, o);
    let d = made_by(src, t, o, kind);
    let at = body_events(src, t, j);
    let all = visit_events(src, t, 0);
    let a = x + seq![e] + seq![enter] + p;
    lemma_inner_part(x + seq![e] + seq![enter], body_events(src, t, b), y, p, at, q);
    assert(a + at + (q + y) =~= a + (at + (q + y)));
    lemma_inside(path, src, t, x, e, enter, p, at + (q + y), d);
    let rest = seq![enter] + p + (at + (q + y));
    assert(all =~= x + seq![e] + rest);
    lemma_opened(path, src, t, x, e, rest, o, kind, name, walked(path, src, a).stack);
    lemma_in_scope(path, src, t, g, walked(path, src, a).stack, o, kind, name);
    (a, q + y)
}

/// What is declared in the innermost scope is contained in its row, and its qualified
/// name says so.
pub proof fn lemma_stands_in(
    path: Seq<char>,
    src: Seq<char>,
    t: Seq<NodeModel>,
    g: Graph,
    h: Graph,
    d: Declaration,
    o: Option<int>,
)
    requires
        holds_row(g, h.nodes.len() as int, h, d),
        h.nodes.len() < u32::MAX,
        in_scope(path, src, t, g, h.stack, o),
        scopes_named(h.stack),
        d.extra.qualified_name is None,
    ensures
        stands_in(path, src, t, g, o, h.nodes.len() as int, d.name),
{
    let k = h.nodes.len() as int;
    let edge = contains_edge(top_row(h.stack), k as u32);
    let n = choose|n: int| 0 <= n < g.edges.len() && g.edges[n] == edge;
    match o {
        None => {
            let top = h.stack.last();
            assert(h.stack =~= seq![top]);
            assert(h.stack.drop_last() =~= Seq::<ScopeModel>::empty());
            assert(scope_names(h.stack.drop_last()) =~= Seq::<Seq<char>>::empty());
            assert(scope_names(h.stack) =~= Seq::<Seq<char>>::empty());
            assert(qualified_name_of(h.stack, d.name) == d.name);
            assert(is_containment(g.edges[n], 0, k));
        },
        Some(c) => {
            let (kind, name) = choose|kind: NodeKind, name: Seq<char>| #[trigger]
                opened_by(path, src, t, g, h.stack, c, kind, name);
            let top = h.stack.last();
            let outer = h.stack.drop_last();
            let r = top.row as int;
            assert(outer.push(top) =~= h.stack);
            law_qualified_names_nest(outer, top, d.name);
            let q = qualified_name_of(outer, name);
            assert(resolves_to(g.arena, g.nodes[r].qualified_name, q));
            assert(resolves_to(g.arena, g.nodes[k].qualified_name, q + "::"@ + d.name));
            assert(extends_name(g, r, k, d.name));
            assert(is_containment(g.edges[n], r, k));
            assert(has_containment(g, r, k));
            assert(describes(path, src, t, g, r, c, kind, name));
        },
    }
}

/// Whether a statement of this kind declares something.
pub open spec fn declares(raw: Seq<char>) -> bool {
    ||| raw == "class_name_statement"@
    ||| raw == "class_definition"@
    ||| is_function_kind(raw)
    ||| raw == "variable_statement"@
    ||| raw == "const_statement"@
    ||| raw == "signal_statement"@
    ||| raw == "enum_definition"@
    ||| raw == "lambda"@
}

/// A declaring statement is neither a value of an enum nor a call.
pub proof fn lemma_not_enumerator(raw: Seq<char>)
    requires
        declares(raw),
    ensures
        raw != "enumerator"@,
        raw != "call"@,
{
    lemma_sorts(raw);
    reveal_strlit("class_name_statement");
    reveal_strlit("class_definition");
    reveal_strlit("function_definition");
    reveal_strlit("static_function_definition");
    reveal_strlit("variable_statement");
    reveal_strlit("const_statement");
    reveal_strlit("signal_statement");
    reveal_strlit("enum_definition");
    reveal_strlit("lambda");
    reveal_strlit("enumerator");
    assert("class_name_statement"@.len() == 20);
    assert("class_definition"@.len() == 16);
    assert("function_definition"@.len() == 19);
    assert("static_function_definition"@.len() == 26);
    assert("variable_statement"@.len() == 18);
    assert("const_statement"@.len() == 15);
    assert("signal_statement"@.len() == 16);
    assert("enum_definition"@.len() == 15);
    assert("lambda"@.len() == 6);
    assert("enumerator"@.len() == 10);
}

/// The event by which a declaring statement starts.
pub proof fn lemma_statement_declares(
    src: Seq<char>,
    t: Seq<NodeModel>,
    h: Graph,
    j: int,
    name: Seq<char>,
) -> (r: (Event, Seq<Event>, NodeKind))
    requires
        0 <= j < t.len(),
        declares(t[j].kind),
        if t[j].kind == "lambda"@ {
            name == lambda_name(start_line_of(t[j]))
        } else {
            bears_name(src, t, j, name)
        },
    ensures
        visit_events(src, t, j) == seq![r.0] + r.1,
        is_called(src, t, j, name),
        event_declares(h, r.0) == Some(made_by(src, t, j, r.2)),
        made_by(src, t, j, r.2).kind == r.2,
        made_by(src, t, j, r.2).name == name,
        made_by(src, t, j, r.2).extra.qualified_name is None,
        recorded_as(t[j].kind, r.2),
        is_function_kind(t[j].kind) ==> r.2 == callable_kind(h.stack),
{
    let all = visit_events(src, t, j);
    lemma_sorts(t[j].kind);
    lemma_kinds_differ();
    lemma_not_enumerator(t[j].kind);
    lemma_no_arguments(src, t, j);
    let e = if t[j].kind == "lambda"@ {
        Event::Declare(lambda_declaration(src, t, j))
    } else {
        law_names(src, t, j, name);
        statement_event(src, t, j)
    };
    assert(is_line(t[j].start_row, start_line_of(t[j])));
    assert(all.len() > 0 && all[0] == e);
    assert(all =~= seq![e] + all.skip(1));
    let kind = match event_declares(h, e) {
        Some(d) => d.kind,
        None => NodeKind::File,
    };
    (e, all.skip(1), kind)
}

/// Every declaring statement of a file or of one of its classes has a row that describes
/// it, as a method where it is a function directly in a class. The row is contained in
/// that of the class, or of the file, and its qualified name is its name after the
/// qualified name of the class.
pub proof fn law_statements_are_placed(
    path: Seq<char>,
    src: Seq<char>,
    t: Seq<NodeModel>,
    o: Option<int>,
    j: int,
    name: Seq<char>,
)
    requires
        is_statement_in(src, t, o, j),
        declares(t[j].kind),
        t[j].kind != "lambda"@,
        bears_name(src, t, j, name),
        within_limits(whole_graph(path, src, t)),
    ensures
        exists|k: int, kind: NodeKind|
            {
                &&& #[trigger] describes(
                    path,
                    src,
                    t,
                    whole_graph(path, src, t),
                    k,
                    j,
                    kind,
                    name,
                )
                &&& is_function_kind(t[j].kind) ==> kind == (if o is Some {
                    NodeKind::Method
                } else {
                    NodeKind::Function
                })
                &&& stands_in(path, src, t, whole_graph(path, src, t), o, k, name)
            },
{
    let (k, kind) = lemma_statement_row(path, src, t, o, j, name);
}

/// The row of a declaring statement.
proof fn lemma_statement_row(
    path: Seq<char>,
    src: Seq<char>,
    t: Seq<NodeModel>,
    o: Option<int>,
    j: int,
    name: Seq<char>,
) -> (r: (int, NodeKind))
    requires
        is_statement_in(src, t, o, j),
        declares(t[j].kind),
        if t[j].kind == "lambda"@ {
            name == lambda_name(start_line_of(t[j]))
        } else {
            bears_name(src, t, j, name)
        },
        within_limits(whole_graph(path, src, t)),
    ensures
        describes(path, src, t, whole_graph(path, src, t), r.0, j, r.1, name),
        is_function_kind(t[j].kind) ==> r.1 == (if o is Some {
            NodeKind::Method
        } else {
            NodeKind::Function
        }),
        stands_in(path, src, t, whole_graph(path, src, t), o, r.0, name),
{
    let g = whole_graph(path, src, t);
    let (a, b) = lemma_statement_home(path, src, t, o, j);
    let h = walked(path, src, a);
    let (e, rest, kind) = lemma_statement_declares(src, t, h, j, name);
    let d = made_by(src, t, j, kind);
    assert(a + (seq![e] + rest) + b =~= a + seq![e] + (rest + b));
    lemma_declared_here(path, src, t, a, e, rest + b, d);
    lemma_path(path, src, a);
    lemma_describes(path, src, t, g, h, j, kind, name);
    assert(a + seq![e] + (rest + b) =~= a + (seq![e] + rest + b));
    lemma_metas_parallel(path, src, t, a, seq![e] + rest + b);
    lemma_stands_in(path, src, t, g, h, d, o);
    lemma_home_kind(path, src, t, g, h.stack, o);
    (h.nodes.len() as int, kind)
}

/// The kind of the scope around a statement.
pub proof fn lemma_home_kind(
    path: Seq<char>,
    src: Seq<char>,
    t: Seq<NodeModel>,
    g: Graph,
    stack: Seq<ScopeModel>,
    o: Option<int>,
)
    requires
        in_scope(path, src, t, g, stack, o),
    ensures
        stack.len() > 0,
        o is None ==> stack.last().kind == NodeKind::File && stack.last().row == 0,
        o is Some ==> stack.last().kind == scope_kind(t[o->0].kind),
{
    if let Some(c) = o {
        let (kind, name) = choose|kind: NodeKind, name: Seq<char>| #[trigger]
            opened_by(path, src, t, g, stack, c, kind, name);
        assert(opened_by(path, src, t, g, stack, c, kind, name));
    }
}

/// Every lambda that stands as a statement of a file or of one of its classes has a row
/// that describes it, called by its line, contained in that of the class or of the file.
pub proof fn law_lambdas_are_placed(
    path: Seq<char>,
    src: Seq<char>,
    t: Seq<NodeModel>,
    o: Option<int>,
    j: int,
)
    requires
        is_statement_in(src, t, o, j),
        t[j].kind == "lambda"@,
        within_limits(whole_graph(path, src, t)),
    ensures
        exists|k: int, name: Seq<char>| #[trigger]
            describes(
                path,
                src,
                t,
                whole_graph(path, src, t),
                k,
                j,
                NodeKind::Function,
                name,
            ) && stands_in(path, src, t, whole_graph(path, src, t), o, k, name),
{
    let name = lambda_name(start_line_of(t[j]));
    let (k, kind) = lemma_statement_row(path, src, t, o, j, name);
    lemma_kinds_differ();
    lemma_lambda_kind(t[j].kind, kind);
    assert(describes(
        path,
        src,
        t,
        whole_graph(path, src, t),
        k,
        j,
        NodeKind::Function,
        name,
    ));
}

proof fn lemma_lambda_kind(raw: Seq<char>, kind: NodeKind)
    requires
        raw == "lambda"@,
        recorded_as(raw, kind),
    ensures
        kind == NodeKind::Function,
{
    lemma_sorts(raw);
    lemma_kinds_differ();
}

/// Every function with a name inside the code of another function, of a lambda or of an
/// initializer has a row that describes it as a function, contained in that of the
/// declaration whose code it stands in, with its name after that one's qualified name.
pub proof fn law_nested_functions_are_placed(
    path: Seq<char>,
    src: Seq<char>,
    t: Seq<NodeModel>,
    o: int,
    j: int,
    name: Seq<char>,
)
    requires
        is_code_in(src, t, o, j),
        is_function_kind(t[j].kind),
        bears_name(src, t, j, name),
        within_limits(whole_graph(path, src, t)),
    ensures
        exists|k: int| #[trigger]
            describes(
                path,
                src,
                t,
                whole_graph(path, src, t),
                k,
                j,
                NodeKind::Function,
                name,
            ) && stands_in(path, src, t, whole_graph(path, src, t), Some(o), k, name),
{
    let g = whole_graph(path, src, t);
    let (a, b) = lemma_code_home(path, src, t, o, j);
    let h = walked(path, src, a);
    lemma_home_kind(path, src, t, g, h.stack, Some(o));
    lemma_owner_scope(src, t, o);
    let e = Event::DeclareCallable(function_declaration(src, t, j));
    let d = made_by(src, t, j, NodeKind::Function);
    let all = body_events(src, t, j);
    law_names(src, t, j, name);
    lemma_sorts(t[j].kind);
    assert(all.len() > 0 && all[0] == e);
    let rest = all.skip(1);
    assert(all =~= seq![e] + rest);
    assert(a + all + b =~= a + seq![e] + (rest + b));
    lemma_declared_here(path, src, t, a, e, rest + b, d);
    lemma_path(path, src, a);
    lemma_kinds_differ();
    lemma_describes(path, src, t, g, h, j, NodeKind::Function, name);
    assert(a + seq![e] + (rest + b) =~= a + (seq![e] + rest + b));
    lemma_metas_parallel(path, src, t, a, seq![e] + rest + b);
    lemma_stands_in(path, src, t, g, h, d, Some(o));
}

/// Functions in code are not methods.
pub proof fn lemma_owner_scope(src: Seq<char>, t: Seq<NodeModel>, o: int)
    requires
        code_body(src, t, o) is Some,
    ensures
        scope_kind(t[o].kind) == NodeKind::Function || scope_kind(t[o].kind) == NodeKind::Variable,
{
    lemma_sorts(t[o].kind);
}

/// What the walk comes upon among the values of an enum before and after one of them.
proof fn lemma_value_split(
    src: Seq<char>,
    t: Seq<NodeModel>,
    list: Seq<int>,
    m: int,
    name: Seq<char>,
) -> (r: (Seq<Event>, Seq<Event>))
    requires
        list.contains(m),
        bears_name(src, t, m, name),
    ensures
        enumerator_events(src, t, list) == r.0 + seq![
            Event::Declare(enumerator_declaration(src, t, m)),
        ] + r.1,
        balanced(r.0),
    decreases list.len(),
{
    law_names(src, t, m, name);
    let front = list.drop_last();
    let e = Event::Declare(enumerator_declaration(src, t, m));
    let all = enumerator_events(src, t, list);
    let before = enumerator_events(src, t, front);
    let last = plain_declaration(enumerator_declaration(src, t, list.last()));
    assert(all == before + last);
    if list.last() == m {
        lemma_enumerators_flat(src, t, front);
        assert forall|k: int| 0 <= k < before.len() implies rise(#[trigger] before[k]) == 0 by {
            assert(before[k] is Declare);
        }
        lemma_balanced_flat(before);
        let none = Seq::<Event>::empty();
        assert(all =~= before + seq![e] + none);
        (before, none)
    } else {
        let n = choose|n: int| 0 <= n < list.len() && list[n] == m;
        assert(front[n] == m);
        let (x, y) = lemma_value_split(src, t, front, m, name);
        assert(all =~= x + seq![e] + (y + last));
        (x, y + last)
    }
}

/// Whether `m` is a value of the enum `o`, which has a name and stands as a statement.
pub open spec fn is_enum_value(src: Seq<char>, t: Seq<NodeModel>, o: int, m: int) -> bool {
    &&& is_statement(src, t, o)
    &&& t[o].kind == "enum_definition"@
    &&& is_named(src, t, o)
    &&& field_child(t, o, "body"@) matches Some(body) && is_named_child(t, body, m)
    &&& t[m].kind == "enumerator"@
}

/// The walk of a file comes to each named value of an enum while the enum is innermost.
pub proof fn lemma_enum_value_home(
    path: Seq<char>,
    src: Seq<char>,
    t: Seq<NodeModel>,
    o: int,
    m: int,
    name: Seq<char>,
) -> (r: (Seq<Event>, Seq<Event>))
    requires
        is_enum_value(src, t, o, m),
        bears_name(src, t, m, name),
        within_limits(whole_graph(path, src, t)),
    ensures
        visit_events(src, t, 0) == r.0 + seq![Event::Declare(enumerator_declaration(src, t, m))]
            + r.1,
        in_scope(
            path,
            src,
            t,
            whole_graph(path, src, t),
            walked(path, src, r.0).stack,
            Some(o),
        ),
{
    let g = whole_graph(path, src, t);
    let body = field_child(t, o, "body"@)->0;
    let outer = choose|outer: Seq<char>| bears_name(src, t, o, outer);
    let (a, b) = lemma_nested_split(src, t, 0, o);
    let d = documented(src, t, o, NodeKind::Enum);
    let e = Event::Declare(d);
    let enter = Event::Enter(NodeKind::Enum, outer);
    let list = children_of_kind(t, body, "enumerator"@);
    lemma_listed(t, named_children(t, body), "enumerator"@, m);
    let values = enumerator_events(src, t, list);
    let (x, y) = lemma_value_split(src, t, list, m, name);
    let at = Event::Declare(enumerator_declaration(src, t, m));
    lemma_enum_opens(src, t, o, outer, body);
    law_names(src, t, o, outer);
    let before = a + seq![e] + seq![enter] + x;
    let tail = y + seq![Event::Leave] + b;
    assert(a + (seq![e] + seq![enter] + values + seq![Event::Leave]) + b =~= before + seq![at]
        + tail);
    assert(before + seq![at] + tail =~= before + (seq![at] + tail));
    lemma_inside(path, src, t, a, e, enter, x, seq![at] + tail, d);
    let rest = seq![enter] + x + (seq![at] + tail);
    assert(visit_events(src, t, 0) =~= a + seq![e] + rest);
    lemma_enum_made(src, t, o);
    let h = walked(path, src, before);
    lemma_opened(path, src, t, a, e, rest, o, NodeKind::Enum, outer, h.stack);
    lemma_in_scope(path, src, t, g, h.stack, o, NodeKind::Enum, outer);
    (before, tail)
}

/// Every named value of an enum that stands as a statement has a row that describes it as
/// a constant, contained in that of the enum, with its name after the enum's qualified
/// name.
pub proof fn law_enum_values_are_placed(
    path: Seq<char>,
    src: Seq<char>,
    t: Seq<NodeModel>,
    o: int,
    m: int,
    name: Seq<char>,
)
    requires
        is_enum_value(src, t, o, m),
        bears_name(src, t, m, name),
        within_limits(whole_graph(path, src, t)),
    ensures
        exists|k: int| #[trigger]
            describes(
                path,
                src,
                t,
                whole_graph(path, src, t),
                k,
                m,
                NodeKind::Constant,
                name,
            ) && stands_in(path, src, t, whole_graph(path, src, t), Some(o), k, name),
{
    let g = whole_graph(path, src, t);
    let (before, tail) = lemma_enum_value_home(path, src, t, o, m, name);
    let value = enumerator_declaration(src, t, m);
    let at = Event::Declare(value);
    let h = walked(path, src, before);
    law_names(src, t, m, name);
    lemma_kinds_differ();
    lemma_declared_here(path, src, t, before, at, tail, value);
    lemma_path(path, src, before);
    lemma_describes(path, src, t, g, h, m, NodeKind::Constant, name);
    assert(before + seq![at] + tail =~= before + (seq![at] + tail));
    lemma_metas_parallel(path, src, t, before, seq![at] + tail);
    lemma_stands_in(path, src, t, g, h, value, Some(o));
}

/// The nodes of a kind among a list.
pub proof fn lemma_listed(t: Seq<NodeModel>, list: Seq<int>, kind: Seq<char>, m: int)
    ensures
        of_kind(t, list, kind).contains(m) <==> list.contains(m) && t[m].kind == kind,
    decreases list.len(),
{
    if list.len() > 0 {
        let front = list.drop_last();
        let last = list.last();
        lemma_listed(t, front, kind, m);
        assert(list =~= front.push(last));
        if list.contains(m) && m != last {
            let n = choose|n: int| 0 <= n < list.len() && list[n] == m;
            assert(front[n] == m);
        }
        if front.contains(m) {
            let n = choose|n: int| 0 <= n < front.len() && front[n] == m;
            assert(list[n] == m);
        }
        if m == last {
            assert(list[list.len() - 1] == m);
        }
        let some = of_kind(t, front, kind);
        let all = of_kind(t, list, kind);
        if t[last].kind == kind {
            assert(all == some.push(last));
            assert(all[all.len() - 1] == last);
            if some.contains(m) {
                let n = choose|n: int| 0 <= n < some.len() && some[n] == m;
                assert(all[n] == m);
            }
            if all.contains(m) && m != last {
                let n = choose|n: int| 0 <= n < all.len() && all[n] == m;
                assert(some[n] == m);
            }
        }
    }
}

/// What an enum declares.
pub proof fn lemma_enum_made(src: Seq<char>, t: Seq<NodeModel>, o: int)
    requires
        t[o].kind == "enum_definition"@,
    ensures
        made_by(src, t, o, NodeKind::Enum) == documented(src, t, o, NodeKind::Enum),
        scope_kind(t[o].kind) == NodeKind::Enum,
        t[o].kind != "lambda"@,
{
    lemma_sorts(t[o].kind);
    lemma_not_enumerator(t[o].kind);
}

/// What the walk comes upon at an enum with a name and a body.
pub proof fn lemma_enum_opens(src: Seq<char>, t: Seq<NodeModel>, o: int, name: Seq<char>, body: int)
    requires
        0 <= o < t.len(),
        t[o].kind == "enum_definition"@,
        bears_name(src, t, o, name),
        field_child(t, o, "body"@) == Some(body),
    ensures
        visit_events(src, t, o) == seq![Event::Declare(documented(src, t, o, NodeKind::Enum))]
            + seq![Event::Enter(NodeKind::Enum, name)] + enumerator_events(
            src,
            t,
            children_of_kind(t, body, "enumerator"@),
        ) + seq![Event::Leave],
{
    lemma_sorts(t[o].kind);
    law_names(src, t, o, name);
    lemma_not_enumerator(t[o].kind);
    lemma_no_arguments(src, t, o);
    let values = enumerator_events(src, t, children_of_kind(t, body, "enumerator"@));
    assert(visit_events(src, t, o) =~= enum_events(src, t, o));
    assert(enum_events(src, t, o) =~= seq![Event::Declare(documented(src, t, o, NodeKind::Enum))]
        + seq![Event::Enter(NodeKind::Enum, name)] + values + seq![Event::Leave]);
}

} // verus!
