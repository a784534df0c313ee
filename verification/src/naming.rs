//! Qualified names: every node is named by the nodes that contain it.

use vstd::prelude::*;
use crate::buffers::resolves_to;
use crate::events::{
    argument_events, body_each, body_events, call_events, class_events, declared_name, documented,
    enum_events, enumerator_events, extends_events, function_declaration, function_events,
    inherited, lambda_declaration, lambda_events, lambda_name, plain_declaration, scoped,
    script_declaration, start_line_of, syntax_kind, value_declaration, variable_events, visit_each,
    visit_events, whole_graph, SyntaxKind,
};
use crate::graph::{
    apply, callable_kind, contains_edge, declare, extending_class, extends_edge, file_graph,
    flush_candidates, latest_row, lemma_extend_all_keeps, qualified_name_of, run, scope_names,
    top_row, Declaration, Event, Graph,
};
use crate::kinds::{edge_code, EdgeKind, NodeKind};
use crate::laws::{
    begins, grows, law_candidates_only_add, law_event_only_adds, law_values_only_add,
    law_walk_only_adds, lemma_add_refs_keeps, lemma_argument_list_flat, lemma_enumerators_flat,
    lemma_grows_trans,
};
use crate::recorded::{law_qualified_names_nest, scopes_named};
use crate::soundness::{
    containments, law_declared_texts, law_event_keeps_sound, law_texts_stay,
    lemma_containments_push, lemma_extend_all_sound, lemma_file_graph_sound, sound, within_limits,
};
use crate::syntax::{
    children_of_kind, field_child, law_field_child, lemma_named_child_range, named_children,
    NodeModel,
};

verus! {

/// The row that contains the row `k`.
pub open spec fn container(g: Graph, k: int) -> int {
    containments(g.edges)[k - 1].source_idx as int
}

/// The name of the row `k` after the names of the rows that contain it, the file
/// aside.
pub open spec fn full_name(g: Graph, k: int) -> Seq<char>
    decreases k,
{
    if 0 < container(g, k) < k {
        full_name(g, container(g, k)) + "::"@ + g.metas[k].name
    } else {
        g.metas[k].name
    }
}

/// Whether the open scope number `i` is the file, or a named node inside the scope
/// around it.
pub open spec fn scope_nests(g: Graph, i: int) -> bool {
    let s = g.stack[i];
    if s.kind == NodeKind::File {
        i == 0 && s.row == 0
    } else {
        &&& 1 <= s.row < g.nodes.len()
        &&& s.name.len() > 0
        &&& s.name == g.metas[s.row as int].name
        &&& container(g, s.row as int) == (if i > 0 {
            g.stack[i - 1].row
        } else {
            0
        })
    }
}

/// Whether each open scope lies in the one around it.
pub open spec fn scopes_nest(g: Graph) -> bool {
    forall|i: int| 0 <= i < g.stack.len() ==> #[trigger] scope_nests(g, i)
}

/// Whether the row `k` refers to its full name.
pub open spec fn row_named(g: Graph, k: int) -> bool {
    resolves_to(g.arena, g.nodes[k].qualified_name, full_name(g, k))
}

/// Whether every node but the file has its full name as its qualified name.
pub open spec fn rows_named(g: Graph) -> bool {
    forall|k: int| 1 <= k < g.nodes.len() ==> #[trigger] row_named(g, k)
}

/// The name that an event declares.
pub open spec fn declared_by(e: Event) -> Option<Seq<char>> {
    match e {
        Event::Declare(d) => Some(d.name),
        Event::DeclareCallable(d) => Some(d.name),
        _ => None,
    }
}

/// The name that the event just before number `n` declares, base classes aside.
pub open spec fn latest_name(events: Seq<Event>, n: int) -> Option<Seq<char>> {
    if n >= 2 && events[n - 1] is Inherit {
        declared_by(events[n - 2])
    } else if n >= 1 {
        declared_by(events[n - 1])
    } else {
        None
    }
}

/// Whether an event leaves the qualified name to the place of the declaration.
pub open spec fn named_by_place(e: Event) -> bool {
    match e {
        Event::Declare(d) => d.extra.qualified_name is None,
        Event::DeclareCallable(d) => d.extra.qualified_name is None,
        _ => true,
    }
}

/// Whether the event number `k`, where it opens a scope, opens that of a named
/// declaration just before it, and where it names the script, does so by a class
/// declared just before it.
pub open spec fn opens_latest(events: Seq<Event>, k: int) -> bool {
    match events[k] {
        Event::Enter(kind, name) => {
            &&& kind != NodeKind::File
            &&& name.len() > 0
            &&& latest_name(events, k) == Some(name)
        },
        Event::EnterInitializer => latest_name(events, k) matches Some(name) && name.len() > 0,
        Event::NameScript => k >= 1 && (events[k - 1] matches Event::Declare(d) && d.kind
            == NodeKind::Class),
        _ => true,
    }
}

/// Whether scopes are only opened and scripts only named right after the declarations
/// they belong to, and declarations are named by their places.
pub open spec fn in_order(events: Seq<Event>) -> bool {
    forall|k: int|
        0 <= k < events.len() ==> #[trigger] opens_latest(events, k) && named_by_place(events[k])
}

proof fn lemma_order_concat(a: Seq<Event>, b: Seq<Event>)
    requires
        in_order(a),
        in_order(b),
    ensures
        in_order(a + b),
{
    assert forall|k: int| 0 <= k < (a + b).len() implies #[trigger] opens_latest(a + b, k)
        && named_by_place((a + b)[k]) by {
        if k < a.len() {
            assert(opens_latest(a, k));
        } else {
            assert(opens_latest(b, k - a.len()));
        }
    }
}

proof fn lemma_order_flat(events: Seq<Event>)
    requires
        forall|k: int|
            0 <= k < events.len() ==> !(#[trigger] events[k] is Enter)
                && !(events[k] is EnterInitializer) && !(events[k] is NameScript)
                && named_by_place(events[k]),
    ensures
        in_order(events),
{
}

/// A named declaration, whose body opens a scope.
proof fn lemma_order_scoped(head: Seq<Event>, open: Event, inner: Seq<Event>)
    requires
        in_order(head),
        latest_name(head, head.len() as int) matches Some(name) && name.len() > 0,
        match open {
            Event::Enter(kind, name) => kind != NodeKind::File && latest_name(
                head,
                head.len() as int,
            ) == Some(name),
            _ => open is EnterInitializer,
        },
        in_order(inner),
    ensures
        in_order(head + scoped(open, inner)),
{
    let opened = head.push(open);
    assert(in_order(opened)) by {
        assert forall|k: int| 0 <= k < opened.len() implies #[trigger] opens_latest(opened, k)
            && named_by_place(opened[k]) by {
            if k < head.len() {
                assert(opens_latest(head, k));
            }
        }
    }
    let end = seq![Event::Leave];
    lemma_order_flat(end);
    lemma_order_concat(opened, inner);
    lemma_order_concat(opened + inner, end);
    assert(head + scoped(open, inner) =~= opened + inner + end);
}

proof fn lemma_order_arguments(src: Seq<char>, t: Seq<NodeModel>, i: int)
    ensures
        in_order(argument_events(src, t, i)),
{
    if let Some(a) = field_child(t, i, "arguments"@) {
        lemma_argument_list_flat(src, t, children_of_kind(t, a, "identifier"@));
    }
    lemma_order_flat(argument_events(src, t, i));
}

proof fn lemma_order_body(src: Seq<char>, t: Seq<NodeModel>, i: int)
    ensures
        in_order(body_events(src, t, i)),
    decreases t.len() - i, 2int, 0int,
{
    if 0 <= i < t.len() {
        let args = argument_events(src, t, i);
        let n = named_children(t, i).len() as int;
        lemma_order_arguments(src, t, i);
        match syntax_kind(t[i].kind) {
            SyntaxKind::FunctionDefinition | SyntaxKind::StaticFunctionDefinition => {
                lemma_order_function(src, t, i);
                lemma_order_concat(args, function_events(src, t, i));
            },
            SyntaxKind::Call => {
                let call = call_events(src, t, i);
                lemma_order_flat(call);
                lemma_order_body_each(src, t, i, n);
                lemma_order_concat(call, body_each(src, t, i, n));
                lemma_order_concat(args, call + body_each(src, t, i, n));
            },
            _ => {
                lemma_order_body_each(src, t, i, n);
                lemma_order_concat(args, body_each(src, t, i, n));
            },
        }
    }
}

proof fn lemma_order_body_each(src: Seq<char>, t: Seq<NodeModel>, p: int, n: int)
    ensures
        in_order(body_each(src, t, p, n)),
    decreases t.len() - p, 0int, n,
{
    if !(p < 0 || p >= t.len() || n <= 0 || n > named_children(t, p).len()) {
        lemma_named_child_range(t, p, n - 1);
        lemma_order_body_each(src, t, p, n - 1);
        lemma_order_body(src, t, named_children(t, p)[n - 1]);
        lemma_order_concat(
            body_each(src, t, p, n - 1),
            body_events(src, t, named_children(t, p)[n - 1]),
        );
    }
}

proof fn lemma_order_function(src: Seq<char>, t: Seq<NodeModel>, i: int)
    ensures
        in_order(function_events(src, t, i)),
    decreases t.len() - i, 1int, 0int,
{
    let name = declared_name(src, t, i);
    if !(i < 0 || i >= t.len() || name.len() == 0) {
        law_field_child(t, i, "body"@);
        let head = seq![Event::DeclareCallable(function_declaration(src, t, i))];
        lemma_order_flat(head);
        match field_child(t, i, "body"@) {
            Some(b) => {
                lemma_order_body(src, t, b);
                lemma_order_scoped(
                    head,
                    Event::Enter(NodeKind::Function, name),
                    body_events(src, t, b),
                );
            },
            None => {
                assert(function_events(src, t, i) =~= head);
            },
        }
    }
}

proof fn lemma_order_visit(src: Seq<char>, t: Seq<NodeModel>, i: int)
    ensures
        in_order(visit_events(src, t, i)),
    decreases t.len() - i, 2int, 0int,
{
    if 0 <= i < t.len() {
        let args = argument_events(src, t, i);
        let n = named_children(t, i).len() as int;
        lemma_order_arguments(src, t, i);
        match syntax_kind(t[i].kind) {
            SyntaxKind::ClassDefinition => {
                lemma_order_class(src, t, i);
                lemma_order_concat(args, class_events(src, t, i));
            },
            SyntaxKind::FunctionDefinition | SyntaxKind::StaticFunctionDefinition => {
                lemma_order_function(src, t, i);
                lemma_order_concat(args, function_events(src, t, i));
            },
            SyntaxKind::EnumDefinition => {
                lemma_order_enum(src, t, i);
                lemma_order_concat(args, enum_events(src, t, i));
            },
            SyntaxKind::Lambda => {
                lemma_order_lambda(src, t, i);
                lemma_order_concat(args, lambda_events(src, t, i));
            },
            SyntaxKind::VariableStatement => {
                lemma_order_variable(src, t, i);
                lemma_order_with_children(src, t, i, args, variable_events(src, t, i), n);
            },
            SyntaxKind::ClassNameStatement => {
                let own = script_declaration(documented(src, t, i, NodeKind::Class));
                assert forall|k: int| 0 <= k < own.len() implies #[trigger] opens_latest(own, k)
                    && named_by_place(own[k]) by {}
                lemma_order_with_children(src, t, i, args, own, n);
            },
            SyntaxKind::ConstStatement => {
                let own = plain_declaration(value_declaration(src, t, i, NodeKind::Constant));
                lemma_order_flat(own);
                lemma_order_with_children(src, t, i, args, own, n);
            },
            SyntaxKind::SignalStatement => {
                let own = plain_declaration(documented(src, t, i, NodeKind::Variable));
                lemma_order_flat(own);
                lemma_order_with_children(src, t, i, args, own, n);
            },
            SyntaxKind::Call => {
                lemma_order_flat(call_events(src, t, i));
                lemma_order_with_children(src, t, i, args, call_events(src, t, i), n);
            },
            SyntaxKind::ExtendsStatement => {
                lemma_order_flat(extends_events(src, t, i));
                lemma_order_with_children(src, t, i, args, extends_events(src, t, i), n);
            },
            SyntaxKind::Other => {
                lemma_order_visit_each(src, t, i, n);
                lemma_order_concat(args, visit_each(src, t, i, n));
            },
        }
    }
}

/// What a node declares itself, between its arguments and its children.
proof fn lemma_order_with_children(
    src: Seq<char>,
    t: Seq<NodeModel>,
    i: int,
    args: Seq<Event>,
    own: Seq<Event>,
    n: int,
)
    requires
        in_order(args),
        in_order(own),
        n <= named_children(t, i).len(),
    ensures
        in_order(args + (own + visit_each(src, t, i, n))),
    decreases t.len() - i, 1int, 0int,
{
    lemma_order_visit_each(src, t, i, n);
    lemma_order_concat(own, visit_each(src, t, i, n));
    lemma_order_concat(args, own + visit_each(src, t, i, n));
}

proof fn lemma_order_visit_each(src: Seq<char>, t: Seq<NodeModel>, p: int, n: int)
    ensures
        in_order(visit_each(src, t, p, n)),
    decreases t.len() - p, 0int, n,
{
    if !(p < 0 || p >= t.len() || n <= 0 || n > named_children(t, p).len()) {
        lemma_named_child_range(t, p, n - 1);
        lemma_order_visit_each(src, t, p, n - 1);
        lemma_order_visit(src, t, named_children(t, p)[n - 1]);
        lemma_order_concat(
            visit_each(src, t, p, n - 1),
            visit_events(src, t, named_children(t, p)[n - 1]),
        );
    }
}

proof fn lemma_order_class(src: Seq<char>, t: Seq<NodeModel>, i: int)
    ensures
        in_order(class_events(src, t, i)),
    decreases t.len() - i, 1int, 0int,
{
    let name = declared_name(src, t, i);
    if !(i < 0 || i >= t.len() || name.len() == 0) {
        law_field_child(t, i, "body"@);
        let head = seq![
            Event::Declare(documented(src, t, i, NodeKind::Class)),
            Event::Inherit(inherited(src, t, i)),
        ];
        lemma_order_flat(head);
        match field_child(t, i, "body"@) {
            Some(b) => {
                let m = named_children(t, b).len() as int;
                lemma_order_visit_each(src, t, b, m);
                lemma_order_scoped(
                    head,
                    Event::Enter(NodeKind::Class, name),
                    visit_each(src, t, b, m),
                );
            },
            None => {
                assert(class_events(src, t, i) =~= head);
            },
        }
    }
}

proof fn lemma_order_enum(src: Seq<char>, t: Seq<NodeModel>, i: int)
    ensures
        in_order(enum_events(src, t, i)),
{
    let name = declared_name(src, t, i);
    if name.len() > 0 {
        let head = seq![Event::Declare(documented(src, t, i, NodeKind::Enum))];
        lemma_order_flat(head);
        match field_child(t, i, "body"@) {
            Some(b) => {
                let values = enumerator_events(src, t, children_of_kind(t, b, "enumerator"@));
                lemma_enumerators_flat(src, t, children_of_kind(t, b, "enumerator"@));
                lemma_order_flat(values);
                lemma_order_scoped(head, Event::Enter(NodeKind::Enum, name), values);
            },
            None => {
                assert(enum_events(src, t, i) =~= head);
            },
        }
    }
}

proof fn lemma_order_lambda(src: Seq<char>, t: Seq<NodeModel>, i: int)
    ensures
        in_order(lambda_events(src, t, i)),
{
    if 0 <= i < t.len() {
        let name = lambda_name(start_line_of(t[i]));
        let head = seq![Event::Declare(lambda_declaration(src, t, i))];
        reveal_strlit("lambda@");
        lemma_order_flat(head);
        match field_child(t, i, "body"@) {
            Some(b) => {
                lemma_order_body(src, t, b);
                lemma_order_scoped(
                    head,
                    Event::Enter(NodeKind::Function, name),
                    body_events(src, t, b),
                );
            },
            None => {
                assert(lambda_events(src, t, i) =~= head);
            },
        }
    }
}

proof fn lemma_order_variable(src: Seq<char>, t: Seq<NodeModel>, i: int)
    ensures
        in_order(variable_events(src, t, i)),
{
    if !(i < 0 || i >= t.len() || declared_name(src, t, i).len() == 0) {
        let head = seq![Event::Declare(value_declaration(src, t, i, NodeKind::Variable))];
        lemma_order_flat(head);
        match field_child(t, i, "value"@) {
            Some(v) => {
                lemma_order_body(src, t, v);
                lemma_order_scoped(head, Event::EnterInitializer, body_events(src, t, v));
            },
            None => {
                assert(variable_events(src, t, i) =~= head);
            },
        }
    }
}

/// The full name of a row depends on what is recorded up to it.
proof fn lemma_full_name_stays(g: Graph, h: Graph, k: int)
    requires
        sound(g),
        begins(containments(h.edges), containments(g.edges)),
        begins(h.metas, g.metas),
        1 <= k < g.nodes.len(),
    ensures
        full_name(h, k) == full_name(g, k),
        container(h, k) == container(g, k),
        h.metas[k] == g.metas[k],
    decreases k,
{
    let c = containments(g.edges);
    assert(containments(h.edges).take(c.len() as int)[k - 1] == c[k - 1]);
    assert(h.metas.take(g.metas.len() as int)[k] == g.metas[k]);
    assert(c[k - 1].source_idx <= k - 1);
    if container(g, k) > 0 {
        lemma_full_name_stays(g, h, container(g, k));
    }
}

/// In nested scopes, a declaration is named by the innermost one.
proof fn lemma_qualified_in_scope(g: Graph, name: Seq<char>)
    requires
        sound(g),
        scopes_nest(g),
    ensures
        qualified_name_of(g.stack, name) == (if top_row(g.stack) > 0 {
            full_name(g, top_row(g.stack) as int) + "::"@ + name
        } else {
            name
        }),
    decreases g.stack.len(),
{
    if g.stack.len() > 0 {
        let top = g.stack.last();
        let outer = Graph { stack: g.stack.drop_last(), ..g };
        assert(scope_nests(g, g.stack.len() - 1));
        if top.kind == NodeKind::File {
            assert(scope_names(g.stack.drop_last()).len() == 0);
        } else {
            assert forall|i: int| 0 <= i < outer.stack.len() implies #[trigger] scope_nests(
                outer,
                i,
            ) by {
                assert(scope_nests(g, i));
            }
            lemma_same_rows(g, outer, top.row as int);
            assert(scopes_named(g.stack)) by {
                assert forall|k: int|
                    0 <= k < g.stack.len() && (#[trigger] g.stack[k]).kind
                        != NodeKind::File implies g.stack[k].name.len() > 0 by {
                    assert(scope_nests(g, k));
                }
            }
            assert(g.stack.drop_last().push(top) =~= g.stack);
            law_qualified_names_nest(g.stack.drop_last(), top, name);
            lemma_qualified_in_scope(outer, top.name);
            assert(containments(g.edges)[top.row - 1].source_idx <= top.row - 1);
            if top_row(outer.stack) > 0 {
                lemma_same_rows(g, outer, top_row(outer.stack) as int);
            }
            assert(full_name(g, top.row as int) == qualified_name_of(outer.stack, top.name));
        }
    }
}

/// Names do not depend on the open scopes.
proof fn lemma_same_rows(g: Graph, h: Graph, k: int)
    requires
        h.edges == g.edges,
        h.metas == g.metas,
    ensures
        full_name(h, k) == full_name(g, k),
    decreases k,
{
    if 0 < container(g, k) < k {
        lemma_same_rows(g, h, container(g, k));
    }
}

/// Whether the file, where it is declared to be a class, is so by a class node.
pub open spec fn script_is_class(g: Graph) -> bool {
    g.script_class matches Some(row) ==> 1 <= row < g.metas.len() && g.metas[row as int].kind
        == NodeKind::Class
}

/// Whether the rows and open scopes of a graph are named and nested, and the class
/// that the file is, is a class.
pub open spec fn placed(g: Graph) -> bool {
    sound(g) && scopes_nest(g) && rows_named(g) && script_is_class(g)
}

/// Whether the row added last is called `name` and lies in the innermost scope.
pub open spec fn latest_is(g: Graph, name: Seq<char>) -> bool {
    &&& g.nodes.len() >= 2
    &&& g.metas.last().name == name
    &&& container(g, g.nodes.len() - 1) == top_row(g.stack)
}

/// What keeps the rows and the containment keeps the names, whatever becomes of the
/// arena beyond its present end.
proof fn lemma_rows_stay_named(g: Graph, h: Graph)
    requires
        sound(g),
        rows_named(g),
        grows(g, h),
        h.nodes == g.nodes,
        containments(h.edges) == containments(g.edges),
    ensures
        rows_named(h),
        forall|k: int| 1 <= k < g.nodes.len() ==> #[trigger] container(h, k) == container(g, k),
{
    let c = containments(g.edges);
    assert(c.take(c.len() as int) =~= c);
    assert forall|k: int| 1 <= k < h.nodes.len() implies #[trigger] row_named(h, k) by {
        assert(row_named(g, k));
        lemma_full_name_stays(g, h, k);
        law_texts_stay(g.arena, h.arena, g.nodes[k].qualified_name, full_name(g, k));
    }
}

proof fn lemma_declare_placed(g: Graph, d: Declaration)
    requires
        placed(g),
        d.extra.qualified_name is None,
        within_limits(declare(g, d)),
        sound(declare(g, d)),
    ensures
        placed(declare(g, d)),
        latest_is(declare(g, d), d.name),
{
    let h = declare(g, d);
    let row = g.nodes.len() as int;
    let c = containments(g.edges);
    let e = contains_edge(top_row(g.stack), row as u32);
    law_event_only_adds(g, Event::Declare(d));
    lemma_containments_push(g.edges, e);
    assert(containments(h.edges) == c.push(e));
    assert(c.push(e).take(c.len() as int) =~= c);
    assert(container(h, row) == top_row(g.stack));
    law_declared_texts(g, d);
    lemma_qualified_in_scope(g, d.name);
    assert forall|k: int| 1 <= k < h.nodes.len() implies #[trigger] row_named(h, k) by {
        if k < row {
            assert(row_named(g, k));
            lemma_full_name_stays(g, h, k);
            law_texts_stay(g.arena, h.arena, g.nodes[k].qualified_name, full_name(g, k));
        } else if top_row(g.stack) > 0 {
            assert(g.stack[g.stack.len() - 1].row < g.nodes.len());
            lemma_full_name_stays(g, h, top_row(g.stack) as int);
        }
    }
    assert forall|i: int| 0 <= i < h.stack.len() implies #[trigger] scope_nests(h, i) by {
        assert(scope_nests(g, i));
        if g.stack[i].kind != NodeKind::File {
            lemma_full_name_stays(g, h, g.stack[i].row as int);
        }
    }
}

/// What changes neither the rows, nor the containment, nor the open scopes.
proof fn lemma_rest_placed(g: Graph, h: Graph)
    requires
        placed(g),
        sound(h),
        grows(g, h),
        h.nodes == g.nodes,
        h.metas == g.metas,
        h.stack == g.stack,
        script_is_class(h),
        containments(h.edges) == containments(g.edges),
    ensures
        placed(h),
        forall|name: Seq<char>| #[trigger] latest_is(g, name) ==> latest_is(h, name),
{
    lemma_rows_stay_named(g, h);
    assert forall|i: int| 0 <= i < h.stack.len() implies #[trigger] scope_nests(h, i) by {
        assert(scope_nests(g, i));
    }
}

proof fn lemma_enter_placed(g: Graph, e: Event, name: Seq<char>)
    requires
        placed(g),
        latest_is(g, name),
        name.len() > 0,
        within_limits(g),
        match e {
            Event::Enter(kind, n) => kind != NodeKind::File && n == name,
            _ => e is EnterInitializer,
        },
        sound(apply(g, e)),
    ensures
        placed(apply(g, e)),
{
    let h = apply(g, e);
    law_event_only_adds(g, e);
    lemma_rows_stay_named(g, h);
    assert forall|i: int| 0 <= i < h.stack.len() implies #[trigger] scope_nests(h, i) by {
        if i < g.stack.len() {
            assert(scope_nests(g, i));
        } else {
            assert(latest_row(g) == g.nodes.len() - 1);
        }
    }
}

proof fn lemma_leave_placed(g: Graph)
    requires
        placed(g),
        sound(apply(g, Event::Leave)),
    ensures
        placed(apply(g, Event::Leave)),
{
    let h = apply(g, Event::Leave);
    law_event_only_adds(g, Event::Leave);
    lemma_rows_stay_named(g, h);
    assert forall|i: int| 0 <= i < h.stack.len() implies #[trigger] scope_nests(h, i) by {
        assert(scope_nests(g, i));
    }
}

proof fn lemma_walk_placed(g: Graph, events: Seq<Event>, n: int)
    requires
        placed(g),
        in_order(events),
        0 <= n <= events.len(),
        within_limits(run(g, events.take(n))),
    ensures
        placed(run(g, events.take(n))),
        latest_name(events, n) matches Some(name) ==> latest_is(run(g, events.take(n)), name),
        n >= 1 && events[n - 1] is Declare ==> run(g, events.take(n)).metas.last().kind == (
        events[n - 1]->Declare_0).kind,
    decreases n,
{
    reveal(run);
    if n == 0 {
        assert(events.take(0) =~= Seq::<Event>::empty());
    } else {
        let e = events[n - 1];
        let g1 = run(g, events.take(n - 1));
        let g2 = apply(g1, e);
        assert(events.take(n).drop_last() =~= events.take(n - 1));
        assert(run(g, events.take(n)) == g2);
        law_event_only_adds(g1, e);
        assert(within_limits(g1));
        lemma_walk_placed(g, events, n - 1);
        law_event_keeps_sound(g1, e);
        assert(opens_latest(events, n - 1));
        match e {
            Event::Declare(d) => lemma_declare_placed(g1, d),
            Event::DeclareCallable(d) => lemma_declare_placed(
                g1,
                Declaration { kind: callable_kind(g1.stack), ..d },
            ),
            Event::Inherit(ms) => {
                lemma_add_refs_keeps(g1, latest_row(g1), edge_code(EdgeKind::Extends), ms);
                lemma_rest_placed(g1, g2);
            },
            Event::Enter(kind, name) => lemma_enter_placed(g1, e, name),
            Event::EnterInitializer => lemma_enter_placed(
                g1,
                e,
                latest_name(events, n - 1)->0,
            ),
            Event::Leave => lemma_leave_placed(g1),
            Event::Call(m) => lemma_rest_placed(g1, g2),
            Event::Extend(m) => {
                if let Some(row) = extending_class(g1) {
                    lemma_containments_push(g1.edges, extends_edge(row, m));
                }
                lemma_rest_placed(g1, g2);
            },
            Event::Argument(m) => lemma_rest_placed(g1, g2),
            Event::NameScript => {
                let named = Graph { script_class: Some(latest_row(g1)), waiting: seq![], ..g1 };
                lemma_extend_all_keeps(named, latest_row(g1), g1.waiting);
                lemma_extend_all_sound(named, latest_row(g1), g1.waiting);
                lemma_rest_placed(g1, g2);
            },
        }
    }
}

/// The name of the class that the file is declared to be by the latest of `events` that
/// does so, which is what a `class_name` statement gives rise to.
pub open spec fn script_name(events: Seq<Event>) -> Option<Seq<char>>
    decreases events.len(),
{
    if events.len() == 0 {
        None
    } else if events.last() is NameScript {
        latest_name(events, events.len() - 1)
    } else {
        script_name(events.drop_last())
    }
}

/// Whether the file is declared to be a class of the given name, or to be none.
pub open spec fn script_named(g: Graph, name: Option<Seq<char>>) -> bool {
    match (g.script_class, name) {
        (Some(row), Some(n)) => row < g.metas.len() && g.metas[row as int].name == n,
        (None, None) => true,
        _ => false,
    }
}

/// Only the declaration of the file's class changes which class the file is.
pub proof fn lemma_event_keeps_script(g: Graph, e: Event)
    requires
        !(e is NameScript),
    ensures
        apply(g, e).script_class == g.script_class,
{
    if let Event::Inherit(ms) = e {
        lemma_add_refs_keeps(g, latest_row(g), edge_code(EdgeKind::Extends), ms);
    }
}

proof fn lemma_script_named(g: Graph, events: Seq<Event>, n: int)
    requires
        placed(g),
        g.script_class is None,
        in_order(events),
        0 <= n <= events.len(),
        within_limits(run(g, events.take(n))),
    ensures
        script_named(run(g, events.take(n)), script_name(events.take(n))),
    decreases n,
{
    reveal(run);
    if n == 0 {
        assert(events.take(0) =~= Seq::<Event>::empty());
    } else {
        let e = events[n - 1];
        let g1 = run(g, events.take(n - 1));
        assert(events.take(n).drop_last() =~= events.take(n - 1));
        let g2 = apply(g1, e);
        law_event_only_adds(g1, e);
        assert(within_limits(g1));
        lemma_walk_placed(g, events, n - 1);
        lemma_script_named(g, events, n - 1);
        assert(opens_latest(events, n - 1));
        if e is NameScript {
            let named = Graph { script_class: Some(latest_row(g1)), waiting: seq![], ..g1 };
            lemma_extend_all_keeps(named, latest_row(g1), g1.waiting);
            assert(latest_name(events.take(n), n - 1) == latest_name(events, n - 1));
            assert(latest_is(g1, latest_name(events, n - 1)->0));
        } else {
            lemma_event_keeps_script(g1, e);
            if let Some(row) = g1.script_class {
                assert(g2.metas.take(g1.metas.len() as int)[row as int] == g1.metas[row as int]);
            }
        }
    }
}

/// Until the file is declared to be a class anew, the latest declaration stands.
pub proof fn law_script_name(a: Seq<Event>, d: Declaration, b: Seq<Event>)
    requires
        d.name.len() > 0,
        forall|k: int| 0 <= k < b.len() ==> !(#[trigger] b[k] is NameScript),
    ensures
        script_name(a + script_declaration(d) + b) == Some(d.name),
    decreases b.len(),
{
    let front = a + script_declaration(d);
    if b.len() == 0 {
        assert(front + b =~= front);
        assert(front[front.len() - 2] == Event::Declare(d));
    } else {
        assert forall|k: int| 0 <= k < b.drop_last().len() implies !(#[trigger] b.drop_last()[k]
            is NameScript) by {
            assert(b.drop_last()[k] == b[k]);
        }
        law_script_name(a, d, b.drop_last());
        assert((front + b).drop_last() =~= front + b.drop_last());
        assert((front + b).last() == b[b.len() - 1]);
    }
}

/// A walk of a whole file, up to any point, leaves the rows named and the scopes
/// nested; and where it was declared to be a class, it is so by a class node, with the
/// name that it was last declared to have.
pub proof fn law_walks_place_rows(path: Seq<char>, src: Seq<char>, t: Seq<NodeModel>, n: int)
    requires
        0 <= n <= visit_events(src, t, 0).len(),
        within_limits(run(file_graph(path, src), visit_events(src, t, 0).take(n))),
    ensures
        placed(run(file_graph(path, src), visit_events(src, t, 0).take(n))),
        script_named(
            run(file_graph(path, src), visit_events(src, t, 0).take(n)),
            script_name(visit_events(src, t, 0).take(n)),
        ),
{
    let events = visit_events(src, t, 0);
    let g0 = file_graph(path, src);
    law_walk_only_adds(g0, events.take(n));
    lemma_file_graph_sound(path, src);
    assert(scopes_nest(g0)) by {
        assert forall|i: int| 0 <= i < g0.stack.len() implies #[trigger] scope_nests(g0, i) by {}
    }
    lemma_order_visit(src, t, 0);
    lemma_walk_placed(g0, events, n);
    lemma_script_named(g0, events, n);
}

/// Every node but the file has as its qualified name its own name after the names of
/// the nodes that contain it, outermost first and the file aside.
pub proof fn law_names_nest(path: Seq<char>, src: Seq<char>, t: Seq<NodeModel>)
    requires
        within_limits(whole_graph(path, src, t)),
    ensures
        rows_named(whole_graph(path, src, t)),
{
    let events = visit_events(src, t, 0);
    let g0 = file_graph(path, src);
    let g1 = run(g0, events);
    let g2 = flush_candidates(g1, g1.candidates.len() as int);
    let g3 = whole_graph(path, src, t);
    law_walk_only_adds(g0, events);
    law_candidates_only_add(g1, g1.candidates.len() as int);
    law_values_only_add(g2, src, t, g2.value_scopes.len() as int);
    lemma_grows_trans(g1, g2, g3);
    assert(events.take(events.len() as int) =~= events);
    law_walks_place_rows(path, src, t, events.len() as int);
    lemma_rows_stay_named(g1, g3);
}

} // verus!
