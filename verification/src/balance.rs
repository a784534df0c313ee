//! Scopes are opened and closed in pairs, so that what was open before a walk stays
//! open throughout it.

use vstd::prelude::*;
use crate::events::{
    argument_events, body_each, body_events, call_events, class_events, declared_name, documented,
    enum_events, enumerator_events, extends_events, function_declaration, function_events,
    inherited, lambda_declaration, lambda_events, lambda_name, plain_declaration, scoped,
    script_declaration, start_line_of, syntax_kind, value_declaration, variable_events, visit_each,
    visit_events, SyntaxKind,
};
use crate::graph::{
    apply, latest_row, lemma_add_refs_keeps_nodes, lemma_extend_all_keeps, run, Event, Graph,
};
use crate::kinds::{edge_code, EdgeKind, NodeKind};
use crate::laws::{begins, lemma_argument_list_flat, lemma_enumerators_flat};
use crate::syntax::{
    children_of_kind, field_child, law_field_child, lemma_named_child_range, named_children,
    NodeModel,
};

verus! {

/// By how much an event changes the number of open scopes.
pub open spec fn rise(e: Event) -> int {
    match e {
        Event::Enter(..) => 1,
        Event::EnterInitializer => 1,
        Event::Leave => -1,
        _ => 0,
    }
}

/// By how much events change the number of open scopes.
pub open spec fn level(events: Seq<Event>) -> int
    decreases events.len(),
{
    if events.len() == 0 {
        0
    } else {
        level(events.drop_last()) + rise(events.last())
    }
}

/// Whether events close only scopes that they opened.
pub open spec fn never_below(events: Seq<Event>) -> bool {
    forall|n: int| 0 <= n <= events.len() ==> level(#[trigger] events.take(n)) >= 0
}

/// Whether events close exactly the scopes that they opened.
pub open spec fn balanced(events: Seq<Event>) -> bool {
    level(events) == 0 && never_below(events)
}

proof fn lemma_level_concat(a: Seq<Event>, b: Seq<Event>)
    ensures
        level(a + b) == level(a) + level(b),
    decreases b.len(),
{
    if b.len() == 0 {
        assert(a + b =~= a);
    } else {
        lemma_level_concat(a, b.drop_last());
        assert((a + b).drop_last() =~= a + b.drop_last());
    }
}

/// Balanced events after balanced events are balanced.
pub proof fn lemma_balanced_concat(a: Seq<Event>, b: Seq<Event>)
    requires
        balanced(a),
        balanced(b),
    ensures
        balanced(a + b),
{
    lemma_level_concat(a, b);
    assert forall|n: int| 0 <= n <= (a + b).len() implies level(#[trigger] (a + b).take(n))
        >= 0 by {
        if n <= a.len() {
            assert((a + b).take(n) =~= a.take(n));
        } else {
            assert((a + b).take(n) =~= a + b.take(n - a.len()));
            lemma_level_concat(a, b.take(n - a.len()));
        }
    }
}

proof fn lemma_level_flat(events: Seq<Event>)
    requires
        forall|k: int| 0 <= k < events.len() ==> rise(#[trigger] events[k]) == 0,
    ensures
        level(events) == 0,
    decreases events.len(),
{
    if events.len() > 0 {
        assert forall|k: int| 0 <= k < events.drop_last().len() implies rise(
            #[trigger] events.drop_last()[k],
        ) == 0 by {
            assert(events.drop_last()[k] == events[k]);
        }
        lemma_level_flat(events.drop_last());
        assert(rise(events[events.len() - 1]) == 0);
    }
}

/// Events that open and close nothing are balanced.
pub proof fn lemma_balanced_flat(events: Seq<Event>)
    requires
        forall|k: int| 0 <= k < events.len() ==> rise(#[trigger] events[k]) == 0,
    ensures
        balanced(events),
{
    lemma_level_flat(events);
    assert forall|n: int| 0 <= n <= events.len() implies level(#[trigger] events.take(n)) >= 0 by {
        assert forall|k: int| 0 <= k < n implies rise(#[trigger] events.take(n)[k]) == 0 by {
            assert(events.take(n)[k] == events[k]);
        }
        lemma_level_flat(events.take(n));
    }
}

proof fn lemma_balanced_scoped(open: Event, inner: Seq<Event>)
    requires
        rise(open) == 1,
        balanced(inner),
    ensures
        balanced(scoped(open, inner)),
{
    let start = seq![open];
    let end = seq![Event::Leave];
    let all = scoped(open, inner);
    assert(start.drop_last() =~= Seq::<Event>::empty());
    assert(end.drop_last() =~= Seq::<Event>::empty());
    assert(level(Seq::<Event>::empty()) == 0);
    assert(level(start) == 1);
    assert(level(end) == -1);
    lemma_level_concat(start, inner);
    lemma_level_concat(start + inner, end);
    assert forall|n: int| 0 <= n <= all.len() implies level(#[trigger] all.take(n)) >= 0 by {
        if n == 0 {
            assert(all.take(n) =~= Seq::<Event>::empty());
        } else if n < all.len() {
            assert(all.take(n) =~= start + inner.take(n - 1));
            lemma_level_concat(start, inner.take(n - 1));
        } else {
            assert(all.take(n) =~= all);
        }
    }
}

/// The arguments of a call are balanced.
pub proof fn lemma_balanced_arguments(src: Seq<char>, t: Seq<NodeModel>, i: int)
    ensures
        balanced(argument_events(src, t, i)),
{
    if let Some(a) = field_child(t, i, "arguments"@) {
        lemma_argument_list_flat(src, t, children_of_kind(t, a, "identifier"@));
    }
    lemma_balanced_flat(argument_events(src, t, i));
}

/// What a walk of code comes upon closes the scopes that it opens, and no others.
pub proof fn law_body_is_balanced(src: Seq<char>, t: Seq<NodeModel>, i: int)
    ensures
        balanced(body_events(src, t, i)),
    decreases t.len() - i, 2int, 0int,
{
    if 0 <= i < t.len() {
        let args = argument_events(src, t, i);
        let n = named_children(t, i).len() as int;
        lemma_balanced_arguments(src, t, i);
        match syntax_kind(t[i].kind) {
            SyntaxKind::FunctionDefinition | SyntaxKind::StaticFunctionDefinition => {
                lemma_balanced_function(src, t, i);
                lemma_balanced_concat(args, function_events(src, t, i));
            },
            SyntaxKind::Call => {
                let call = call_events(src, t, i);
                lemma_balanced_flat(call);
                lemma_balanced_body_each(src, t, i, n);
                lemma_balanced_concat(call, body_each(src, t, i, n));
                lemma_balanced_concat(args, call + body_each(src, t, i, n));
            },
            _ => {
                lemma_balanced_body_each(src, t, i, n);
                lemma_balanced_concat(args, body_each(src, t, i, n));
            },
        }
    } else {
        lemma_balanced_flat(body_events(src, t, i));
    }
}

/// The code of the first children of a node is balanced.
pub proof fn lemma_balanced_body_each(src: Seq<char>, t: Seq<NodeModel>, p: int, n: int)
    ensures
        balanced(body_each(src, t, p, n)),
    decreases t.len() - p, 0int, n,
{
    if !(p < 0 || p >= t.len() || n <= 0 || n > named_children(t, p).len()) {
        lemma_named_child_range(t, p, n - 1);
        lemma_balanced_body_each(src, t, p, n - 1);
        law_body_is_balanced(src, t, named_children(t, p)[n - 1]);
        lemma_balanced_concat(
            body_each(src, t, p, n - 1),
            body_events(src, t, named_children(t, p)[n - 1]),
        );
    } else {
        lemma_balanced_flat(body_each(src, t, p, n));
    }
}

/// A declaration, and a body where it has one.
proof fn lemma_balanced_declared(head: Seq<Event>, body: Seq<Event>)
    requires
        forall|k: int| 0 <= k < head.len() ==> rise(#[trigger] head[k]) == 0,
        balanced(body),
    ensures
        balanced(head + body),
{
    lemma_balanced_flat(head);
    lemma_balanced_concat(head, body);
}

proof fn lemma_balanced_function(src: Seq<char>, t: Seq<NodeModel>, i: int)
    ensures
        balanced(function_events(src, t, i)),
    decreases t.len() - i, 1int, 0int,
{
    let name = declared_name(src, t, i);
    let none = Seq::<Event>::empty();
    lemma_balanced_flat(none);
    if !(i < 0 || i >= t.len() || name.len() == 0) {
        law_field_child(t, i, "body"@);
        let head = seq![Event::DeclareCallable(function_declaration(src, t, i))];
        match field_child(t, i, "body"@) {
            Some(b) => {
                let open = Event::Enter(NodeKind::Function, name);
                law_body_is_balanced(src, t, b);
                lemma_balanced_scoped(open, body_events(src, t, b));
                lemma_balanced_declared(head, scoped(open, body_events(src, t, b)));
            },
            None => lemma_balanced_declared(head, none),
        }
    }
}

/// What a walk comes upon closes the scopes that it opens, and no others.
pub proof fn law_visit_is_balanced(src: Seq<char>, t: Seq<NodeModel>, i: int)
    ensures
        balanced(visit_events(src, t, i)),
    decreases t.len() - i, 2int, 0int,
{
    if 0 <= i < t.len() {
        let args = argument_events(src, t, i);
        let n = named_children(t, i).len() as int;
        lemma_balanced_arguments(src, t, i);
        match syntax_kind(t[i].kind) {
            SyntaxKind::ClassDefinition => {
                lemma_balanced_class(src, t, i);
                lemma_balanced_concat(args, class_events(src, t, i));
            },
            SyntaxKind::FunctionDefinition | SyntaxKind::StaticFunctionDefinition => {
                lemma_balanced_function(src, t, i);
                lemma_balanced_concat(args, function_events(src, t, i));
            },
            SyntaxKind::EnumDefinition => {
                lemma_balanced_enum(src, t, i);
                lemma_balanced_concat(args, enum_events(src, t, i));
            },
            SyntaxKind::Lambda => {
                lemma_balanced_lambda(src, t, i);
                lemma_balanced_concat(args, lambda_events(src, t, i));
            },
            SyntaxKind::VariableStatement => {
                lemma_balanced_variable(src, t, i);
                lemma_balanced_with_children(src, t, i, args, variable_events(src, t, i), n);
            },
            SyntaxKind::ClassNameStatement => {
                let own = script_declaration(documented(src, t, i, NodeKind::Class));
                lemma_balanced_flat(own);
                lemma_balanced_with_children(src, t, i, args, own, n);
            },
            SyntaxKind::ConstStatement => {
                let own = plain_declaration(value_declaration(src, t, i, NodeKind::Constant));
                lemma_balanced_flat(own);
                lemma_balanced_with_children(src, t, i, args, own, n);
            },
            SyntaxKind::SignalStatement => {
                let own = plain_declaration(documented(src, t, i, NodeKind::Variable));
                lemma_balanced_flat(own);
                lemma_balanced_with_children(src, t, i, args, own, n);
            },
            SyntaxKind::Call => {
                lemma_balanced_flat(call_events(src, t, i));
                lemma_balanced_with_children(src, t, i, args, call_events(src, t, i), n);
            },
            SyntaxKind::ExtendsStatement => {
                lemma_balanced_flat(extends_events(src, t, i));
                lemma_balanced_with_children(src, t, i, args, extends_events(src, t, i), n);
            },
            SyntaxKind::Other => {
                law_children_are_balanced(src, t, i, n);
                lemma_balanced_concat(args, visit_each(src, t, i, n));
            },
        }
    } else {
        lemma_balanced_flat(visit_events(src, t, i));
    }
}

/// What a node declares itself, between its arguments and its children.
proof fn lemma_balanced_with_children(
    src: Seq<char>,
    t: Seq<NodeModel>,
    i: int,
    args: Seq<Event>,
    own: Seq<Event>,
    n: int,
)
    requires
        balanced(args),
        balanced(own),
        n <= named_children(t, i).len(),
    ensures
        balanced(args + (own + visit_each(src, t, i, n))),
    decreases t.len() - i, 1int, 0int,
{
    law_children_are_balanced(src, t, i, n);
    lemma_balanced_concat(own, visit_each(src, t, i, n));
    lemma_balanced_concat(args, own + visit_each(src, t, i, n));
}

/// What a walk comes upon in the first children of a node closes the scopes that it
/// opens, and no others.
pub proof fn law_children_are_balanced(src: Seq<char>, t: Seq<NodeModel>, p: int, n: int)
    ensures
        balanced(visit_each(src, t, p, n)),
    decreases t.len() - p, 0int, n,
{
    if !(p < 0 || p >= t.len() || n <= 0 || n > named_children(t, p).len()) {
        lemma_named_child_range(t, p, n - 1);
        law_children_are_balanced(src, t, p, n - 1);
        law_visit_is_balanced(src, t, named_children(t, p)[n - 1]);
        lemma_balanced_concat(
            visit_each(src, t, p, n - 1),
            visit_events(src, t, named_children(t, p)[n - 1]),
        );
    } else {
        lemma_balanced_flat(visit_each(src, t, p, n));
    }
}

proof fn lemma_balanced_class(src: Seq<char>, t: Seq<NodeModel>, i: int)
    ensures
        balanced(class_events(src, t, i)),
    decreases t.len() - i, 1int, 0int,
{
    let name = declared_name(src, t, i);
    let none = Seq::<Event>::empty();
    lemma_balanced_flat(none);
    if !(i < 0 || i >= t.len() || name.len() == 0) {
        law_field_child(t, i, "body"@);
        let head = seq![
            Event::Declare(documented(src, t, i, NodeKind::Class)),
            Event::Inherit(inherited(src, t, i)),
        ];
        match field_child(t, i, "body"@) {
            Some(b) => {
                let open = Event::Enter(NodeKind::Class, name);
                let inner = visit_each(src, t, b, named_children(t, b).len() as int);
                law_children_are_balanced(src, t, b, named_children(t, b).len() as int);
                lemma_balanced_scoped(open, inner);
                lemma_balanced_declared(head, scoped(open, inner));
            },
            None => lemma_balanced_declared(head, none),
        }
    }
}

proof fn lemma_balanced_enum(src: Seq<char>, t: Seq<NodeModel>, i: int)
    ensures
        balanced(enum_events(src, t, i)),
{
    let name = declared_name(src, t, i);
    let none = Seq::<Event>::empty();
    lemma_balanced_flat(none);
    if name.len() > 0 {
        let head = seq![Event::Declare(documented(src, t, i, NodeKind::Enum))];
        match field_child(t, i, "body"@) {
            Some(b) => {
                let open = Event::Enter(NodeKind::Enum, name);
                let values = enumerator_events(src, t, children_of_kind(t, b, "enumerator"@));
                lemma_enumerators_flat(src, t, children_of_kind(t, b, "enumerator"@));
                lemma_balanced_flat(values);
                lemma_balanced_scoped(open, values);
                lemma_balanced_declared(head, scoped(open, values));
            },
            None => lemma_balanced_declared(head, none),
        }
    }
}

proof fn lemma_balanced_lambda(src: Seq<char>, t: Seq<NodeModel>, i: int)
    ensures
        balanced(lambda_events(src, t, i)),
{
    let none = Seq::<Event>::empty();
    lemma_balanced_flat(none);
    if 0 <= i < t.len() {
        let head = seq![Event::Declare(lambda_declaration(src, t, i))];
        match field_child(t, i, "body"@) {
            Some(b) => {
                let open = Event::Enter(NodeKind::Function, lambda_name(start_line_of(t[i])));
                law_body_is_balanced(src, t, b);
                lemma_balanced_scoped(open, body_events(src, t, b));
                lemma_balanced_declared(head, scoped(open, body_events(src, t, b)));
            },
            None => lemma_balanced_declared(head, none),
        }
    }
}

/// A variable and its initializer are balanced.
pub proof fn lemma_balanced_variable(src: Seq<char>, t: Seq<NodeModel>, i: int)
    ensures
        balanced(variable_events(src, t, i)),
{
    let none = Seq::<Event>::empty();
    lemma_balanced_flat(none);
    if !(i < 0 || i >= t.len() || declared_name(src, t, i).len() == 0) {
        let head = seq![Event::Declare(value_declaration(src, t, i, NodeKind::Variable))];
        match field_child(t, i, "value"@) {
            Some(v) => {
                let open = Event::EnterInitializer;
                law_body_is_balanced(src, t, v);
                lemma_balanced_scoped(open, body_events(src, t, v));
                lemma_balanced_declared(head, scoped(open, body_events(src, t, v)));
            },
            None => lemma_balanced_declared(head, none),
        }
    }
}

proof fn lemma_stack_level(g: Graph, events: Seq<Event>)
    requires
        never_below(events),
    ensures
        begins(run(g, events).stack, g.stack),
        run(g, events).stack.len() == g.stack.len() + level(events),
    decreases events.len(),
{
    reveal(run);
    if events.len() == 0 {
        assert(g.stack.take(g.stack.len() as int) =~= g.stack);
    } else {
        let front = events.drop_last();
        let g1 = run(g, front);
        let e = events.last();
        assert forall|n: int| 0 <= n <= front.len() implies level(#[trigger] front.take(n))
            >= 0 by {
            assert(front.take(n) =~= events.take(n));
        }
        lemma_stack_level(g, front);
        assert(events.take(events.len() as int) =~= events);
        if e is NameScript {
            let named = Graph { script_class: Some(latest_row(g1)), waiting: seq![], ..g1 };
            lemma_extend_all_keeps(named, latest_row(g1), g1.waiting);
        }
        if let Event::Inherit(ms) = e {
            lemma_add_refs_keeps_nodes(g1, latest_row(g1), edge_code(EdgeKind::Extends), ms);
        }
        let stack = apply(g1, e).stack;
        assert(stack.take(g.stack.len() as int) =~= g1.stack.take(g.stack.len() as int));
    }
}

/// Through balanced events, the scopes that were open before stay open.
pub proof fn lemma_open_scopes_stay(g: Graph, events: Seq<Event>, n: int)
    requires
        balanced(events),
        0 <= n <= events.len(),
    ensures
        begins(run(g, events.take(n)).stack, g.stack),
        run(g, events).stack == g.stack,
{
    let part = events.take(n);
    assert forall|m: int| 0 <= m <= part.len() implies level(#[trigger] part.take(m)) >= 0 by {
        assert(part.take(m) =~= events.take(m));
    }
    lemma_stack_level(g, part);
    lemma_stack_level(g, events);
    let end = run(g, events).stack;
    assert(end.take(g.stack.len() as int) =~= end);
}

/// While a node is walked, the scopes that were open before stay open below those
/// that the walk opens; and after it exactly they are open.
pub proof fn law_open_scopes_stay(g: Graph, src: Seq<char>, t: Seq<NodeModel>, i: int, n: int)
    requires
        0 <= n <= visit_events(src, t, i).len(),
    ensures
        begins(run(g, visit_events(src, t, i).take(n)).stack, g.stack),
        run(g, visit_events(src, t, i)).stack == g.stack,
{
    law_visit_is_balanced(src, t, i);
    lemma_open_scopes_stay(g, visit_events(src, t, i), n);
}

/// While code is walked, the scopes that were open before stay open below those that
/// the walk opens; and after it exactly they are open.
pub proof fn law_open_scopes_stay_in_code(
    g: Graph,
    src: Seq<char>,
    t: Seq<NodeModel>,
    i: int,
    n: int,
)
    requires
        0 <= n <= body_events(src, t, i).len(),
    ensures
        begins(run(g, body_events(src, t, i).take(n)).stack, g.stack),
        run(g, body_events(src, t, i)).stack == g.stack,
{
    law_body_is_balanced(src, t, i);
    lemma_open_scopes_stay(g, body_events(src, t, i), n);
}

} // verus!
