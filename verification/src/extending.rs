//! The edges to base classes: one for each `extends` statement, in the order of the file.

use vstd::prelude::*;
use crate::bases::base_reading;
use crate::buffers::EdgeRow;
use crate::events::{
    argument_events, base_mention, base_of, body_each, body_events, class_events, declared_name,
    documented, enum_events, enumerator_events, function_declaration, function_events, inherited,
    lambda_declaration, lambda_events, lambda_name, scoped, start_line_of, value_declaration,
    visit_each, visit_events, whole_graph,
};
use crate::graph::{
    apply, contains_edge, extend_all, extending_class, extends_edge, file_graph, flush_candidates,
    latest_row, lemma_run_concat, lemma_run_none, lemma_run_one, top_row, Event, Graph, Mention,
};
use crate::kinds::{edge_code, EdgeKind, NodeKind};
use crate::laws::{
    law_candidates_only_add, law_values_only_add, lemma_argument_list_flat, lemma_enumerators_flat,
};
use crate::nesting::{lemma_no_arguments, walked};
use crate::order::{
    climbs, climbs_in, increases, lemma_child_below, lemma_climbs_more, lemma_climbs_up,
};
use crate::origins::{is_base, lemma_first_base};
use crate::outline::{
    is_closed_kind, is_function_kind, lemma_code_node, lemma_open_node, lemma_sorts,
    own_code_events, own_events,
};
use crate::placement::lemma_not_enumerator;
use crate::sources::{lemma_event_edges, lemma_event_waiting};
use crate::syntax::{
    children_of_kind, field_child, law_field_child, lemma_named_child_range, named_children,
    NodeModel,
};
use crate::uses::mentions;

verus! {

/// What the `extends` statements among `events` name, in order.
pub open spec fn extended(events: Seq<Event>) -> Seq<Mention>
    decreases events.len(),
{
    if events.len() == 0 {
        seq![]
    } else {
        match events.last() {
            Event::Extend(m) => extended(events.drop_last()).push(m),
            _ => extended(events.drop_last()),
        }
    }
}

proof fn lemma_extended_concat(a: Seq<Event>, b: Seq<Event>)
    ensures
        extended(a + b) == extended(a) + extended(b),
    decreases b.len(),
{
    if b.len() == 0 {
        assert(a + b =~= a);
        assert(extended(a) + extended(b) =~= extended(a));
    } else {
        lemma_extended_concat(a, b.drop_last());
        assert((a + b).drop_last() =~= a + b.drop_last());
        assert((a + b).last() == b.last());
        assert(extended(a + b) =~= extended(a) + extended(b));
    }
}

proof fn lemma_extended_none(events: Seq<Event>)
    requires
        forall|k: int| 0 <= k < events.len() ==> !(#[trigger] events[k] is Extend),
    ensures
        extended(events) == Seq::<Mention>::empty(),
    decreases events.len(),
{
    if events.len() > 0 {
        let front = events.drop_last();
        assert forall|k: int| 0 <= k < front.len() implies !(#[trigger] front[k] is Extend) by {
            assert(front[k] == events[k]);
        }
        lemma_extended_none(front);
        assert(events[events.len() - 1] == events.last());
    }
}

/// Whether `ms` are the base classes that the `extends` statements of `list` name, one by
/// one.
pub open spec fn are_named_by(
    src: Seq<char>,
    t: Seq<NodeModel>,
    list: Seq<int>,
    ms: Seq<Mention>,
) -> bool {
    &&& ms.len() == list.len()
    &&& forall|n: int| 0 <= n < ms.len() ==> is_named_by(src, t, list[n], #[trigger] ms[n])
}

/// Whether `m` is the base class that the `extends` statement `j` names.
pub open spec fn is_named_by(src: Seq<char>, t: Seq<NodeModel>, j: int, m: Mention) -> bool {
    &&& t[j].kind == "extends_statement"@
    &&& exists|b: int| #[trigger]
        is_base(t, j, b) && mentions(src, m, t[b], base_reading(src, t[b]))
}

proof fn lemma_are_named_concat(
    src: Seq<char>,
    t: Seq<NodeModel>,
    a: Seq<int>,
    b: Seq<int>,
    x: Seq<Mention>,
    y: Seq<Mention>,
)
    requires
        are_named_by(src, t, a, x),
        are_named_by(src, t, b, y),
    ensures
        are_named_by(src, t, a + b, x + y),
{
    let ms = x + y;
    let list = a + b;
    assert forall|n: int| 0 <= n < ms.len() implies is_named_by(
        src,
        t,
        list[n],
        #[trigger] ms[n],
    ) by {
        if n < x.len() {
            assert(ms[n] == x[n] && list[n] == a[n]);
        } else {
            assert(ms[n] == y[n - x.len()] && list[n] == b[n - a.len()]);
        }
    }
}

proof fn lemma_no_extended_arguments(src: Seq<char>, t: Seq<NodeModel>, i: int)
    ensures
        extended(argument_events(src, t, i)) == Seq::<Mention>::empty(),
{
    let args = argument_events(src, t, i);
    if t[i].kind == "call"@ {
        if let Some(a) = field_child(t, i, "arguments"@) {
            lemma_argument_list_flat(src, t, children_of_kind(t, a, "identifier"@));
        }
    }
    assert forall|k: int| 0 <= k < args.len() implies !(#[trigger] args[k] is Extend) by {
        assert(args[k] is Argument);
    }
    lemma_extended_none(args);
}

proof fn lemma_scoped_extended(e: Event, enter: Event, inner: Seq<Event>)
    requires
        !(e is Extend),
        enter is Enter || enter is EnterInitializer,
    ensures
        extended(seq![e] + scoped(enter, inner)) == extended(inner),
{
    let none = Seq::<Mention>::empty();
    lemma_extended_none(seq![e]);
    lemma_extended_none(seq![enter]);
    lemma_extended_none(seq![Event::Leave]);
    lemma_extended_concat(seq![enter], inner);
    lemma_extended_concat(seq![enter] + inner, seq![Event::Leave]);
    lemma_extended_concat(seq![e], scoped(enter, inner));
    assert(none + (none + extended(inner) + none) =~= extended(inner));
}

/// Code names no base classes.
proof fn lemma_body_extends(src: Seq<char>, t: Seq<NodeModel>, i: int)
    requires
        0 <= i < t.len(),
    ensures
        extended(body_events(src, t, i)) == Seq::<Mention>::empty(),
    decreases t.len() - i, 2int, 0int,
{
    if is_function_kind(t[i].kind) {
        lemma_sorts(t[i].kind);
        lemma_no_arguments(src, t, i);
        assert(body_events(src, t, i) =~= function_events(src, t, i));
        lemma_function_extends(src, t, i);
    } else {
        let args = argument_events(src, t, i);
        let own = own_code_events(src, t, i);
        let len = named_children(t, i).len() as int;
        let rest = body_each(src, t, i, len);
        let none = Seq::<Mention>::empty();
        lemma_code_node(src, t, i);
        lemma_no_extended_arguments(src, t, i);
        lemma_extended_none(own);
        lemma_extended_concat(args, own);
        lemma_extended_concat(args + own, rest);
        lemma_body_each_extends(src, t, i, len);
        assert(none + none + none =~= none);
    }
}

proof fn lemma_body_each_extends(src: Seq<char>, t: Seq<NodeModel>, p: int, n: int)
    requires
        0 <= p < t.len(),
        0 <= n <= named_children(t, p).len(),
    ensures
        extended(body_each(src, t, p, n)) == Seq::<Mention>::empty(),
    decreases t.len() - p, 0int, n,
{
    if n > 0 {
        let c = named_children(t, p)[n - 1];
        let none = Seq::<Mention>::empty();
        lemma_named_child_range(t, p, n - 1);
        lemma_body_each_extends(src, t, p, n - 1);
        lemma_body_extends(src, t, c);
        lemma_extended_concat(body_each(src, t, p, n - 1), body_events(src, t, c));
        assert(none + none =~= none);
    }
}

proof fn lemma_function_extends(src: Seq<char>, t: Seq<NodeModel>, i: int)
    requires
        0 <= i < t.len(),
    ensures
        extended(function_events(src, t, i)) == Seq::<Mention>::empty(),
    decreases t.len() - i, 1int, 0int,
{
    let all = function_events(src, t, i);
    if declared_name(src, t, i).len() > 0 {
        let e = Event::DeclareCallable(function_declaration(src, t, i));
        if let Some(b) = field_child(t, i, "body"@) {
            let enter = Event::Enter(NodeKind::Function, declared_name(src, t, i));
            law_field_child(t, i, "body"@);
            lemma_body_extends(src, t, b);
            lemma_scoped_extended(e, enter, body_events(src, t, b));
            assert(all =~= seq![e] + scoped(enter, body_events(src, t, b)));
        } else {
            assert(all =~= seq![e]);
            lemma_extended_none(all);
        }
    }
}

/// What a statement that is not closed names itself.
proof fn lemma_own_extends(src: Seq<char>, t: Seq<NodeModel>, i: int) -> (own: Seq<int>)
    requires
        0 <= i < t.len(),
    ensures
        own == seq![i] || own == Seq::<int>::empty(),
        are_named_by(src, t, own, extended(own_events(src, t, i))),
{
    let all = own_events(src, t, i);
    lemma_sorts(t[i].kind);
    if t[i].kind == "extends_statement"@ {
        if base_of(t, i) is Some {
            let b = base_of(t, i)->0;
            let m = base_mention(src, t[b]);
            lemma_first_base(t, named_children(t, i), 0);
            assert(is_base(t, i, b) && mentions(src, m, t[b], base_reading(src, t[b])));
            assert(all.drop_last() =~= Seq::<Event>::empty());
            assert(all.last() == Event::Extend(m));
            assert(extended(all.drop_last()) =~= Seq::<Mention>::empty());
            assert(extended(all) =~= seq![m]);
            seq![i]
        } else {
            lemma_extended_none(all);
            seq![]
        }
    } else if t[i].kind == "variable_statement"@ && declared_name(src, t, i).len() > 0
        && field_child(t, i, "value"@) is Some {
        let e = Event::Declare(value_declaration(src, t, i, NodeKind::Variable));
        let v = field_child(t, i, "value"@)->0;
        law_field_child(t, i, "value"@);
        lemma_body_extends(src, t, v);
        lemma_scoped_extended(e, Event::EnterInitializer, body_events(src, t, v));
        seq![]
    } else {
        lemma_extended_none(all);
        seq![]
    }
}

/// The `extends` statements of a file come in the order of the tree.
proof fn lemma_visit_extends(src: Seq<char>, t: Seq<NodeModel>, i: int) -> (list: Seq<int>)
    requires
        0 <= i < t.len(),
    ensures
        climbs(t, i, list),
        are_named_by(src, t, list, extended(visit_events(src, t, i))),
    decreases t.len() - i, 2int, 0int,
{
    if is_closed_kind(t[i].kind) {
        lemma_closed_extends(src, t, i)
    } else {
        let args = argument_events(src, t, i);
        let own = own_events(src, t, i);
        let len = named_children(t, i).len() as int;
        let rest = visit_each(src, t, i, len);
        lemma_open_node(src, t, i);
        lemma_no_extended_arguments(src, t, i);
        lemma_extended_concat(args, own);
        lemma_extended_concat(args + own, rest);
        let first = lemma_own_extends(src, t, i);
        let s = lemma_each_extends(src, t, i, len);
        lemma_climbs_up(t, i, first, i, len, s);
        lemma_are_named_concat(src, t, first, s, extended(own), extended(rest));
        assert(extended(args + own + rest) =~= extended(own) + extended(rest));
        first + s
    }
}

proof fn lemma_each_extends(src: Seq<char>, t: Seq<NodeModel>, p: int, n: int) -> (list: Seq<int>)
    requires
        0 <= p < t.len(),
        0 <= n <= named_children(t, p).len(),
    ensures
        climbs_in(t, p, n, list),
        are_named_by(src, t, list, extended(visit_each(src, t, p, n))),
    decreases t.len() - p, 0int, n,
{
    if n > 0 {
        let c = named_children(t, p)[n - 1];
        lemma_named_child_range(t, p, n - 1);
        let a = lemma_each_extends(src, t, p, n - 1);
        let b = lemma_visit_extends(src, t, c);
        let before = visit_each(src, t, p, n - 1);
        let own = visit_events(src, t, c);
        lemma_extended_concat(before, own);
        lemma_climbs_more(t, p, n, a, b);
        lemma_are_named_concat(src, t, a, b, extended(before), extended(own));
        a + b
    } else {
        seq![]
    }
}

proof fn lemma_closed_extends(src: Seq<char>, t: Seq<NodeModel>, i: int) -> (list: Seq<int>)
    requires
        0 <= i < t.len(),
        is_closed_kind(t[i].kind),
    ensures
        climbs(t, i, list),
        are_named_by(src, t, list, extended(visit_events(src, t, i))),
    decreases t.len() - i, 1int, 0int,
{
    lemma_sorts(t[i].kind);
    lemma_not_enumerator(t[i].kind);
    lemma_no_arguments(src, t, i);
    let all = visit_events(src, t, i);
    if t[i].kind == "class_definition"@ {
        assert(all =~= class_events(src, t, i));
        lemma_class_extends(src, t, i)
    } else if is_function_kind(t[i].kind) {
        assert(all =~= function_events(src, t, i));
        lemma_function_extends(src, t, i);
        seq![]
    } else if t[i].kind == "enum_definition"@ {
        assert(all =~= enum_events(src, t, i));
        lemma_enum_extends(src, t, i);
        seq![]
    } else {
        assert(all =~= lambda_events(src, t, i));
        let e = Event::Declare(lambda_declaration(src, t, i));
        if let Some(b) = field_child(t, i, "body"@) {
            let enter = Event::Enter(NodeKind::Function, lambda_name(start_line_of(t[i])));
            law_field_child(t, i, "body"@);
            lemma_body_extends(src, t, b);
            lemma_scoped_extended(e, enter, body_events(src, t, b));
            assert(all =~= seq![e] + scoped(enter, body_events(src, t, b)));
        } else {
            assert(all =~= seq![e]);
            lemma_extended_none(all);
        }
        seq![]
    }
}

proof fn lemma_class_extends(src: Seq<char>, t: Seq<NodeModel>, i: int) -> (list: Seq<int>)
    requires
        0 <= i < t.len(),
    ensures
        climbs(t, i, list),
        are_named_by(src, t, list, extended(class_events(src, t, i))),
    decreases t.len() - i, 0int, 0int,
{
    let all = class_events(src, t, i);
    if declared_name(src, t, i).len() > 0 {
        let e = Event::Declare(documented(src, t, i, NodeKind::Class));
        let bases = Event::Inherit(inherited(src, t, i));
        lemma_extended_none(seq![e]);
        if field_child(t, i, "body"@) is Some {
            let b = field_child(t, i, "body"@)->0;
            let enter = Event::Enter(NodeKind::Class, declared_name(src, t, i));
            let len = named_children(t, b).len() as int;
            let inner = visit_each(src, t, b, len);
            law_field_child(t, i, "body"@);
            lemma_child_below(t, i, b);
            let s = lemma_each_extends(src, t, b, len);
            lemma_scoped_extended(bases, enter, inner);
            lemma_extended_concat(seq![e], seq![bases] + scoped(enter, inner));
            lemma_climbs_up(t, i, Seq::<int>::empty(), b, len, s);
            assert(Seq::<int>::empty() + s =~= s);
            assert(all =~= seq![e] + (seq![bases] + scoped(enter, inner)));
            assert(extended(all) =~= extended(inner));
            s
        } else {
            assert(all =~= seq![e] + seq![bases]);
            lemma_extended_none(all);
            seq![]
        }
    } else {
        seq![]
    }
}

proof fn lemma_enum_extends(src: Seq<char>, t: Seq<NodeModel>, i: int)
    ensures
        extended(enum_events(src, t, i)) == Seq::<Mention>::empty(),
{
    let all = enum_events(src, t, i);
    if let Some(b) = field_child(t, i, "body"@) {
        let list = children_of_kind(t, b, "enumerator"@);
        lemma_enumerators_flat(src, t, list);
        let inner = enumerator_events(src, t, list);
        assert forall|k: int| 0 <= k < all.len() implies !(#[trigger] all[k] is Extend) by {
            if 2 <= k < 2 + inner.len() {
                assert(all[k] == inner[k - 2]);
                assert(inner[k - 2] is Declare);
            }
        }
    }
    lemma_extended_none(all);
}

/// The edges to base classes among `edges`.
pub open spec fn extensions(edges: Seq<EdgeRow>) -> Seq<EdgeRow>
    decreases edges.len(),
{
    if edges.len() == 0 {
        seq![]
    } else if edges.last().kind == edge_code(EdgeKind::Extends) {
        extensions(edges.drop_last()).push(edges.last())
    } else {
        extensions(edges.drop_last())
    }
}

proof fn lemma_extensions_push(edges: Seq<EdgeRow>, e: EdgeRow)
    ensures
        extensions(edges.push(e)) == (if e.kind == edge_code(EdgeKind::Extends) {
            extensions(edges).push(e)
        } else {
            extensions(edges)
        }),
{
    assert(edges.push(e).drop_last() =~= edges);
}

/// The edges that a list of base classes leaves.
spec fn edges_to(row: u32, ms: Seq<Mention>) -> Seq<EdgeRow> {
    ms.map_values(|m: Mention| extends_edge(row, m))
}

proof fn lemma_extend_all_edges(g: Graph, row: u32, ms: Seq<Mention>)
    ensures
        extensions(extend_all(g, row, ms).edges) == extensions(g.edges) + edges_to(row, ms),
    decreases ms.len(),
{
    if ms.len() == 0 {
        assert(extensions(g.edges) + edges_to(row, ms) =~= extensions(g.edges));
    } else {
        let before = extend_all(g, row, ms.drop_last());
        lemma_extend_all_edges(g, row, ms.drop_last());
        lemma_extensions_push(before.edges, extends_edge(row, ms.last()));
        assert(edges_to(row, ms) =~= edges_to(row, ms.drop_last()).push(
            extends_edge(row, ms.last()),
        ));
        assert(extensions(extend_all(g, row, ms).edges) =~= extensions(g.edges) + edges_to(
            row,
            ms,
        ));
    }
}

/// What an event does to the edges to base classes and to the base classes that wait.
proof fn lemma_event_extensions(h: Graph, e: Event)
    ensures
        extensions(apply(h, e).edges).len() + apply(h, e).waiting.len() == extensions(
            h.edges,
        ).len() + h.waiting.len() + (if e is Extend {
            1int
        } else {
            0int
        }),
{
    lemma_event_waiting(h, e);
    lemma_event_edges(h, e);
    match e {
        Event::Declare(_) | Event::DeclareCallable(_) => lemma_extensions_push(
            h.edges,
            contains_edge(top_row(h.stack), h.nodes.len() as u32),
        ),
        Event::Extend(m) => if let Some(row) = extending_class(h) {
            lemma_extensions_push(h.edges, extends_edge(row, m));
        },
        Event::NameScript => {
            let named = Graph { script_class: Some(latest_row(h)), waiting: seq![], ..h };
            lemma_extend_all_edges(named, latest_row(h), h.waiting);
        },
        _ => {},
    }
}

proof fn lemma_walk_extensions(path: Seq<char>, src: Seq<char>, a: Seq<Event>)
    ensures
        extensions(walked(path, src, a).edges).len() + walked(path, src, a).waiting.len()
            == extended(a).len(),
    decreases a.len(),
{
    let g0 = file_graph(path, src);
    if a.len() == 0 {
        lemma_run_none(g0);
        assert(a =~= Seq::<Event>::empty());
    } else {
        let front = a.drop_last();
        let e = a.last();
        let h = walked(path, src, front);
        assert(a =~= front + seq![e]);
        lemma_walk_extensions(path, src, front);
        lemma_run_concat(g0, front, seq![e]);
        lemma_run_one(h, e);
        lemma_event_extensions(h, e);
    }
}

/// Every `extends` statement that names a base class leaves one edge, or waits for the file
/// to be declared a class; there are no other edges to base classes.
pub proof fn law_extensions_are_counted(path: Seq<char>, src: Seq<char>, t: Seq<NodeModel>)
    requires
        t.len() > 0,
    ensures
        exists|list: Seq<int>, ms: Seq<Mention>|
            {
                &&& increases(list)
                &&& #[trigger] are_named_by(src, t, list, ms)
                &&& list.len() == extensions(whole_graph(path, src, t).edges).len() + walked(
                    path,
                    src,
                    visit_events(src, t, 0),
                ).waiting.len()
            },
{
    let all = visit_events(src, t, 0);
    let g1 = walked(path, src, all);
    let g2 = flush_candidates(g1, g1.candidates.len() as int);
    let list = lemma_visit_extends(src, t, 0);
    lemma_walk_extensions(path, src, all);
    law_candidates_only_add(g1, g1.candidates.len() as int);
    law_values_only_add(g2, src, t, g2.value_scopes.len() as int);
    assert(are_named_by(src, t, list, extended(all)));
}

} // verus!
