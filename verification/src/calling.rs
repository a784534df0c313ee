//! The order of the references to called functions: that of the calls in the file, each
//! once.

use vstd::prelude::*;
use crate::balance::law_open_scopes_stay;
use crate::buffers::RefRow;
use crate::events::{
    argument_events, body_each, body_events, call_events, callee_of, class_events, declared_name,
    documented, enum_events, enumerator_events, function_declaration, function_events, inherited,
    lambda_declaration, lambda_events, lambda_name, mention_of, scoped, start_line_of,
    value_declaration, visit_each, visit_events,
};
use crate::graph::{
    add_refs, apply, extend_all, extending_class, file_graph, latest_row, lemma_run_concat,
    lemma_run_none, lemma_run_one, ref_row, top_row, Event, Graph, Mention,
};
use crate::kinds::{edge_code, EdgeKind, NodeKind, FUNCTION_REF_CODE};
use crate::laws::{lemma_argument_list_flat, lemma_enumerators_flat};
use crate::mentions::is_callee;
use crate::nesting::{is_column, is_line, lemma_no_arguments, walked};
use crate::order::{
    climbs, climbs_in, increases, is_value_code, is_within, lemma_child_below, lemma_climbs_more,
    lemma_climbs_up, lemma_within_child,
};
use crate::origins::lemma_code_step;
use crate::outline::{
    is_closed_kind, is_code_of, is_code_step, is_function_kind, lemma_code_node, lemma_open_node,
    lemma_sorts, own_code_events, own_events,
};
use crate::placement::lemma_not_enumerator;
use crate::syntax::{
    children_of_kind, field_child, is_below, law_field_child, lemma_named_child_range,
    named_children, node_text, NodeModel,
};
use crate::uses::mentions;

verus! {

/// What the calls among `events` mention, in order.
pub open spec fn called(events: Seq<Event>) -> Seq<Mention>
    decreases events.len(),
{
    if events.len() == 0 {
        seq![]
    } else {
        match events.last() {
            Event::Call(m) => called(events.drop_last()).push(m),
            _ => called(events.drop_last()),
        }
    }
}

proof fn lemma_called_concat(a: Seq<Event>, b: Seq<Event>)
    ensures
        called(a + b) == called(a) + called(b),
    decreases b.len(),
{
    if b.len() == 0 {
        assert(a + b =~= a);
        assert(called(a) + called(b) =~= called(a));
    } else {
        lemma_called_concat(a, b.drop_last());
        assert((a + b).drop_last() =~= a + b.drop_last());
        assert((a + b).last() == b.last());
        assert(called(a + b) =~= called(a) + called(b));
    }
}

proof fn lemma_called_none(events: Seq<Event>)
    requires
        forall|k: int| 0 <= k < events.len() ==> !(#[trigger] events[k] is Call),
    ensures
        called(events) == Seq::<Mention>::empty(),
    decreases events.len(),
{
    if events.len() > 0 {
        let front = events.drop_last();
        assert forall|k: int| 0 <= k < front.len() implies !(#[trigger] front[k] is Call) by {
            assert(front[k] == events[k]);
        }
        lemma_called_none(front);
        assert(events[events.len() - 1] == events.last());
    }
}

proof fn lemma_called_one(m: Mention)
    ensures
        called(seq![Event::Call(m)]) == seq![m],
{
    let s = seq![Event::Call(m)];
    assert(s.drop_last() =~= Seq::<Event>::empty());
    assert(s.last() == Event::Call(m));
    assert(called(s.drop_last()) =~= Seq::<Mention>::empty());
    assert(called(s) =~= seq![m]);
}

/// Whether `m` is what the call `j` calls.
pub open spec fn is_called_by(src: Seq<char>, t: Seq<NodeModel>, j: int, m: Mention) -> bool {
    &&& t[j].kind == "call"@
    &&& exists|c: int| #[trigger] is_callee(t, j, c) && mentions(src, m, t[c], node_text(src, t[c]))
}

/// Whether `ms` are what the calls of `list` call, one by one.
pub open spec fn are_called_by(
    src: Seq<char>,
    t: Seq<NodeModel>,
    list: Seq<int>,
    ms: Seq<Mention>,
) -> bool {
    &&& ms.len() == list.len()
    &&& forall|n: int| 0 <= n < ms.len() ==> is_called_by(src, t, list[n], #[trigger] ms[n])
}

proof fn lemma_are_called_concat(
    src: Seq<char>,
    t: Seq<NodeModel>,
    a: Seq<int>,
    b: Seq<int>,
    x: Seq<Mention>,
    y: Seq<Mention>,
)
    requires
        are_called_by(src, t, a, x),
        are_called_by(src, t, b, y),
    ensures
        are_called_by(src, t, a + b, x + y),
{
    let ms = x + y;
    let list = a + b;
    assert forall|n: int| 0 <= n < ms.len() implies is_called_by(
        src,
        t,
        list[n],
        #[trigger] ms[n],
    ) by {
        if n < x.len() {
            assert(ms[n] == x[n] && list[n] == a[n]);
        } else {
            assert(ms[n] == y[n - x.len()] && list[n] == b[n - a.len()]);
        }
    }
}

/// The call that a node is.
proof fn lemma_own_call(src: Seq<char>, t: Seq<NodeModel>, i: int) -> (own: Seq<int>)
    requires
        t[i].kind == "call"@,
    ensures
        own == seq![i] || own == Seq::<int>::empty(),
        are_called_by(src, t, own, called(call_events(src, t, i))),
{
    match callee_of(t, i) {
        Some(c) => if node_text(src, t[c]).len() > 0 {
            let m = mention_of(src, t[c]);
            lemma_called_one(m);
            assert(is_callee(t, i, c) && mentions(src, m, t[c], node_text(src, t[c])));
            seq![i]
        } else {
            seq![]
        },
        None => seq![],
    }
}

proof fn lemma_no_called_arguments(src: Seq<char>, t: Seq<NodeModel>, i: int)
    ensures
        called(argument_events(src, t, i)) == Seq::<Mention>::empty(),
{
    let args = argument_events(src, t, i);
    if t[i].kind == "call"@ {
        if let Some(a) = field_child(t, i, "arguments"@) {
            lemma_argument_list_flat(src, t, children_of_kind(t, a, "identifier"@));
        }
    }
    assert forall|k: int| 0 <= k < args.len() implies !(#[trigger] args[k] is Call) by {
        assert(args[k] is Argument);
    }
    lemma_called_none(args);
}

proof fn lemma_scoped_called(e: Event, enter: Event, inner: Seq<Event>)
    requires
        !(e is Call),
        enter is Enter || enter is EnterInitializer,
    ensures
        called(seq![e] + scoped(enter, inner)) == called(inner),
{
    let none = Seq::<Mention>::empty();
    lemma_called_none(seq![e]);
    lemma_called_none(seq![enter]);
    lemma_called_none(seq![Event::Leave]);
    lemma_called_concat(seq![enter], inner);
    lemma_called_concat(seq![enter] + inner, seq![Event::Leave]);
    lemma_called_concat(seq![e], scoped(enter, inner));
    assert(none + (none + called(inner) + none) =~= called(inner));
}

/// The calls in code come in the order of the tree.
proof fn lemma_body_calls(src: Seq<char>, t: Seq<NodeModel>, i: int) -> (list: Seq<int>)
    requires
        0 <= i < t.len(),
    ensures
        climbs(t, i, list),
        are_called_by(src, t, list, called(body_events(src, t, i))),
    decreases t.len() - i, 2int, 0int,
{
    if is_function_kind(t[i].kind) {
        lemma_sorts(t[i].kind);
        lemma_no_arguments(src, t, i);
        assert(body_events(src, t, i) =~= function_events(src, t, i));
        lemma_function_calls(src, t, i)
    } else {
        let args = argument_events(src, t, i);
        let own = own_code_events(src, t, i);
        let len = named_children(t, i).len() as int;
        let rest = body_each(src, t, i, len);
        let none = Seq::<Mention>::empty();
        lemma_code_node(src, t, i);
        lemma_no_called_arguments(src, t, i);
        lemma_called_concat(args, own);
        lemma_called_concat(args + own, rest);
        let s = lemma_body_each_calls(src, t, i, len);
        let first = if t[i].kind == "call"@ {
            lemma_own_call(src, t, i)
        } else {
            lemma_called_none(own);
            seq![]
        };
        lemma_climbs_up(t, i, first, i, len, s);
        lemma_are_called_concat(src, t, first, s, called(own), called(rest));
        assert(called(args + own + rest) =~= called(own) + called(rest));
        first + s
    }
}

proof fn lemma_body_each_calls(src: Seq<char>, t: Seq<NodeModel>, p: int, n: int) -> (list: Seq<
    int,
>)
    requires
        0 <= p < t.len(),
        0 <= n <= named_children(t, p).len(),
    ensures
        climbs_in(t, p, n, list),
        are_called_by(src, t, list, called(body_each(src, t, p, n))),
    decreases t.len() - p, 0int, n,
{
    if n > 0 {
        let c = named_children(t, p)[n - 1];
        lemma_named_child_range(t, p, n - 1);
        let a = lemma_body_each_calls(src, t, p, n - 1);
        let b = lemma_body_calls(src, t, c);
        let before = body_each(src, t, p, n - 1);
        let own = body_events(src, t, c);
        lemma_called_concat(before, own);
        lemma_climbs_more(t, p, n, a, b);
        lemma_are_called_concat(src, t, a, b, called(before), called(own));
        a + b
    } else {
        seq![]
    }
}

proof fn lemma_function_calls(src: Seq<char>, t: Seq<NodeModel>, i: int) -> (list: Seq<int>)
    requires
        0 <= i < t.len(),
    ensures
        climbs(t, i, list),
        are_called_by(src, t, list, called(function_events(src, t, i))),
    decreases t.len() - i, 1int, 0int,
{
    let all = function_events(src, t, i);
    if declared_name(src, t, i).len() > 0 {
        let e = Event::DeclareCallable(function_declaration(src, t, i));
        if field_child(t, i, "body"@) is Some {
            let b = field_child(t, i, "body"@)->0;
            let enter = Event::Enter(NodeKind::Function, declared_name(src, t, i));
            law_field_child(t, i, "body"@);
            lemma_child_below(t, i, b);
            let s = lemma_body_calls(src, t, b);
            lemma_scoped_called(e, enter, body_events(src, t, b));
            lemma_climbs_lift(t, i, b, s);
            assert(all =~= seq![e] + scoped(enter, body_events(src, t, b)));
            s
        } else {
            assert(all =~= seq![e]);
            lemma_called_none(all);
            seq![]
        }
    } else {
        seq![]
    }
}

/// What increases within a child increases within its parent.
pub proof fn lemma_climbs_lift(t: Seq<NodeModel>, i: int, c: int, s: Seq<int>)
    requires
        is_below(t, i, c),
        climbs(t, c, s),
    ensures
        climbs(t, i, s),
{
    assert forall|n: int| 0 <= n < s.len() implies is_within(t, i, #[trigger] s[n]) by {
        assert(is_within(t, c, s[n]));
        lemma_within_child(t, i, c, s[n]);
    }
}

/// Whether no initializer of a variable calls or defines a function.
pub open spec fn initializers_are_silent(t: Seq<NodeModel>) -> bool {
    forall|v: int, x: int, j: int|
        0 <= v < t.len() && t[v].kind == "variable_statement"@ && field_child(t, v, "value"@)
            == Some(x) && #[trigger] is_value_code(t, v, x, j) ==> !is_function_kind(t[j].kind)
            && t[j].kind != "call"@
}

/// Code without calls and functions calls nothing.
proof fn lemma_silent_body(src: Seq<char>, t: Seq<NodeModel>, r: int, i: int)
    requires
        0 <= r < t.len(),
        0 <= i < t.len(),
        is_code_of(t, r, i),
        forall|j: int| #[trigger]
            is_code_of(t, r, j) ==> !is_function_kind(t[j].kind) && t[j].kind != "call"@,
    ensures
        called(body_events(src, t, i)) == Seq::<Mention>::empty(),
    decreases t.len() - i, 1int, 0int,
{
    let args = argument_events(src, t, i);
    let own = own_code_events(src, t, i);
    let len = named_children(t, i).len() as int;
    let rest = body_each(src, t, i, len);
    let none = Seq::<Mention>::empty();
    lemma_code_node(src, t, i);
    lemma_no_called_arguments(src, t, i);
    lemma_called_none(own);
    lemma_called_concat(args, own);
    lemma_called_concat(args + own, rest);
    lemma_silent_body_each(src, t, r, i, len);
    assert(none + none + none =~= none);
}

proof fn lemma_silent_body_each(src: Seq<char>, t: Seq<NodeModel>, r: int, p: int, n: int)
    requires
        0 <= r < t.len(),
        0 <= p < t.len(),
        0 <= n <= named_children(t, p).len(),
        is_code_of(t, r, p),
        forall|j: int| #[trigger]
            is_code_of(t, r, j) ==> !is_function_kind(t[j].kind) && t[j].kind != "call"@,
    ensures
        called(body_each(src, t, p, n)) == Seq::<Mention>::empty(),
    decreases t.len() - p, 0int, n,
{
    if n > 0 {
        let c = named_children(t, p)[n - 1];
        let none = Seq::<Mention>::empty();
        lemma_named_child_range(t, p, n - 1);
        assert(is_code_step(t, p, c));
        lemma_code_step(t, r, p, c);
        lemma_silent_body_each(src, t, r, p, n - 1);
        lemma_silent_body(src, t, r, c);
        lemma_called_concat(body_each(src, t, p, n - 1), body_events(src, t, c));
        assert(none + none =~= none);
    }
}

/// What a statement that is not closed calls itself.
proof fn lemma_own_calls(src: Seq<char>, t: Seq<NodeModel>, i: int) -> (own: Seq<int>)
    requires
        0 <= i < t.len(),
        initializers_are_silent(t),
    ensures
        own == seq![i] || own == Seq::<int>::empty(),
        are_called_by(src, t, own, called(own_events(src, t, i))),
{
    let all = own_events(src, t, i);
    lemma_sorts(t[i].kind);
    if t[i].kind == "call"@ {
        lemma_own_call(src, t, i)
    } else if t[i].kind == "variable_statement"@ {
        let e = Event::Declare(value_declaration(src, t, i, NodeKind::Variable));
        if declared_name(src, t, i).len() > 0 {
            if field_child(t, i, "value"@) is Some {
                let v = field_child(t, i, "value"@)->0;
                law_field_child(t, i, "value"@);
                assert forall|j: int| #[trigger] is_code_of(t, v, j) implies !is_function_kind(
                    t[j].kind,
                ) && t[j].kind != "call"@ by {
                    assert(is_value_code(t, i, v, j));
                }
                assert(is_code_of(t, v, v));
                lemma_silent_body(src, t, v, v);
                lemma_scoped_called(e, Event::EnterInitializer, body_events(src, t, v));
            } else {
                assert(all =~= seq![e]);
                lemma_called_none(all);
            }
        }
        seq![]
    } else {
        lemma_called_none(all);
        seq![]
    }
}

/// The calls in a file come in the order of the tree.
proof fn lemma_visit_calls(src: Seq<char>, t: Seq<NodeModel>, i: int) -> (list: Seq<int>)
    requires
        0 <= i < t.len(),
        initializers_are_silent(t),
    ensures
        climbs(t, i, list),
        are_called_by(src, t, list, called(visit_events(src, t, i))),
    decreases t.len() - i, 2int, 0int,
{
    if is_closed_kind(t[i].kind) {
        lemma_closed_calls(src, t, i)
    } else {
        let args = argument_events(src, t, i);
        let own = own_events(src, t, i);
        let len = named_children(t, i).len() as int;
        let rest = visit_each(src, t, i, len);
        lemma_open_node(src, t, i);
        lemma_no_called_arguments(src, t, i);
        lemma_called_concat(args, own);
        lemma_called_concat(args + own, rest);
        let first = lemma_own_calls(src, t, i);
        let s = lemma_each_calls(src, t, i, len);
        lemma_climbs_up(t, i, first, i, len, s);
        lemma_are_called_concat(src, t, first, s, called(own), called(rest));
        assert(called(args + own + rest) =~= called(own) + called(rest));
        first + s
    }
}

proof fn lemma_each_calls(src: Seq<char>, t: Seq<NodeModel>, p: int, n: int) -> (list: Seq<int>)
    requires
        0 <= p < t.len(),
        0 <= n <= named_children(t, p).len(),
        initializers_are_silent(t),
    ensures
        climbs_in(t, p, n, list),
        are_called_by(src, t, list, called(visit_each(src, t, p, n))),
    decreases t.len() - p, 0int, n,
{
    if n > 0 {
        let c = named_children(t, p)[n - 1];
        lemma_named_child_range(t, p, n - 1);
        let a = lemma_each_calls(src, t, p, n - 1);
        let b = lemma_visit_calls(src, t, c);
        let before = visit_each(src, t, p, n - 1);
        let own = visit_events(src, t, c);
        lemma_called_concat(before, own);
        lemma_climbs_more(t, p, n, a, b);
        lemma_are_called_concat(src, t, a, b, called(before), called(own));
        a + b
    } else {
        seq![]
    }
}

proof fn lemma_closed_calls(src: Seq<char>, t: Seq<NodeModel>, i: int) -> (list: Seq<int>)
    requires
        0 <= i < t.len(),
        is_closed_kind(t[i].kind),
        initializers_are_silent(t),
    ensures
        climbs(t, i, list),
        are_called_by(src, t, list, called(visit_events(src, t, i))),
    decreases t.len() - i, 1int, 0int,
{
    lemma_sorts(t[i].kind);
    lemma_not_enumerator(t[i].kind);
    lemma_no_arguments(src, t, i);
    let all = visit_events(src, t, i);
    if is_function_kind(t[i].kind) {
        assert(all =~= function_events(src, t, i));
        lemma_function_calls(src, t, i)
    } else if t[i].kind == "class_definition"@ {
        assert(all =~= class_events(src, t, i));
        lemma_class_calls(src, t, i)
    } else if t[i].kind == "enum_definition"@ {
        assert(all =~= enum_events(src, t, i));
        lemma_enum_calls(src, t, i);
        seq![]
    } else {
        assert(all =~= lambda_events(src, t, i));
        let e = Event::Declare(lambda_declaration(src, t, i));
        if field_child(t, i, "body"@) is Some {
            let b = field_child(t, i, "body"@)->0;
            let enter = Event::Enter(NodeKind::Function, lambda_name(start_line_of(t[i])));
            law_field_child(t, i, "body"@);
            lemma_child_below(t, i, b);
            let s = lemma_body_calls(src, t, b);
            lemma_scoped_called(e, enter, body_events(src, t, b));
            lemma_climbs_lift(t, i, b, s);
            assert(all =~= seq![e] + scoped(enter, body_events(src, t, b)));
            s
        } else {
            assert(all =~= seq![e]);
            lemma_called_none(all);
            seq![]
        }
    }
}

proof fn lemma_class_calls(src: Seq<char>, t: Seq<NodeModel>, i: int) -> (list: Seq<int>)
    requires
        0 <= i < t.len(),
        initializers_are_silent(t),
    ensures
        climbs(t, i, list),
        are_called_by(src, t, list, called(class_events(src, t, i))),
    decreases t.len() - i, 0int, 0int,
{
    let all = class_events(src, t, i);
    let none = Seq::<Mention>::empty();
    if declared_name(src, t, i).len() > 0 {
        let e = Event::Declare(documented(src, t, i, NodeKind::Class));
        let bases = Event::Inherit(inherited(src, t, i));
        lemma_called_none(seq![e]);
        if field_child(t, i, "body"@) is Some {
            let b = field_child(t, i, "body"@)->0;
            let enter = Event::Enter(NodeKind::Class, declared_name(src, t, i));
            let len = named_children(t, b).len() as int;
            let inner = visit_each(src, t, b, len);
            law_field_child(t, i, "body"@);
            lemma_child_below(t, i, b);
            let s = lemma_each_calls(src, t, b, len);
            lemma_scoped_called(bases, enter, inner);
            lemma_called_concat(seq![e], seq![bases] + scoped(enter, inner));
            lemma_climbs_up(t, i, Seq::<int>::empty(), b, len, s);
            assert(Seq::<int>::empty() + s =~= s);
            assert(all =~= seq![e] + (seq![bases] + scoped(enter, inner)));
            assert(called(all) =~= called(inner));
            s
        } else {
            assert(all =~= seq![e] + seq![bases]);
            lemma_called_none(all);
            seq![]
        }
    } else {
        seq![]
    }
}

proof fn lemma_enum_calls(src: Seq<char>, t: Seq<NodeModel>, i: int)
    ensures
        called(enum_events(src, t, i)) == Seq::<Mention>::empty(),
{
    let all = enum_events(src, t, i);
    if let Some(b) = field_child(t, i, "body"@) {
        let list = children_of_kind(t, b, "enumerator"@);
        lemma_enumerators_flat(src, t, list);
        let inner = enumerator_events(src, t, list);
        assert forall|k: int| 0 <= k < all.len() implies !(#[trigger] all[k] is Call) by {
            if 2 <= k < 2 + inner.len() {
                assert(all[k] == inner[k - 2]);
                assert(inner[k - 2] is Declare);
            }
        }
    }
    lemma_called_none(all);
}

/// The references to called functions among `refs`.
pub open spec fn function_refs(refs: Seq<RefRow>) -> Seq<RefRow>
    decreases refs.len(),
{
    if refs.len() == 0 {
        seq![]
    } else if refs.last().kind == FUNCTION_REF_CODE {
        function_refs(refs.drop_last()).push(refs.last())
    } else {
        function_refs(refs.drop_last())
    }
}

proof fn lemma_function_refs_push(refs: Seq<RefRow>, r: RefRow)
    ensures
        function_refs(refs.push(r)) == (if r.kind == FUNCTION_REF_CODE {
            function_refs(refs).push(r)
        } else {
            function_refs(refs)
        }),
{
    assert(refs.push(r).drop_last() =~= refs);
}

/// References of another kind are none to functions.
proof fn lemma_other_refs(g: Graph, from: u32, kind: u8, ms: Seq<Mention>)
    requires
        kind != FUNCTION_REF_CODE,
    ensures
        function_refs(add_refs(g, from, kind, ms).refs) == function_refs(g.refs),
    decreases ms.len(),
{
    if ms.len() > 0 {
        let before = add_refs(g, from, kind, ms.drop_last());
        lemma_other_refs(g, from, kind, ms.drop_last());
        lemma_function_refs_push(
            before.refs,
            ref_row(
                before.arena,
                from,
                ms.last().name,
                kind,
                ms.last().line,
                ms.last().column,
            ),
        );
    }
}

proof fn lemma_other_bases(g: Graph, row: u32, ms: Seq<Mention>)
    ensures
        function_refs(extend_all(g, row, ms).refs) == function_refs(g.refs),
    decreases ms.len(),
{
    if ms.len() > 0 {
        let before = extend_all(g, row, ms.drop_last());
        lemma_other_bases(g, row, ms.drop_last());
        lemma_function_refs_push(
            before.refs,
            ref_row(
                before.arena,
                row,
                ms.last().name,
                edge_code(EdgeKind::Extends),
                ms.last().line,
                ms.last().column,
            ),
        );
    }
}

/// Whether `rs` are references at the places of `ms`, one by one.
spec fn are_refs_to(rs: Seq<RefRow>, ms: Seq<Mention>) -> bool {
    &&& rs.len() == ms.len()
    &&& forall|n: int|
        0 <= n < rs.len() ==> (#[trigger] rs[n]).line == ms[n].line && rs[n].column == ms[n].column
}

/// The references to called functions that a walk leaves are those of its calls.
proof fn lemma_walk_calls(path: Seq<char>, src: Seq<char>, t: Seq<NodeModel>, a: Seq<Event>, b: Seq<
    Event,
>)
    requires
        visit_events(src, t, 0) == a + b,
    ensures
        are_refs_to(function_refs(walked(path, src, a).refs), called(a)),
    decreases a.len(),
{
    let g0 = file_graph(path, src);
    if a.len() == 0 {
        lemma_run_none(g0);
        assert(a =~= Seq::<Event>::empty());
    } else {
        let front = a.drop_last();
        let e = a.last();
        let h = walked(path, src, front);
        assert(a =~= front + seq![e]);
        assert(a + b =~= front + (seq![e] + b));
        lemma_walk_calls(path, src, t, front, seq![e] + b);
        lemma_run_concat(g0, front, seq![e]);
        lemma_run_one(h, e);
        law_open_scopes_stay(g0, src, t, 0, front.len() as int);
        assert(visit_events(src, t, 0).take(front.len() as int) =~= front);
        lemma_event_calls(h, e);
        let before = function_refs(h.refs);
        let after = function_refs(walked(path, src, a).refs);
        if let Event::Call(m) = e {
            let ms = called(front);
            assert(called(a) == ms.push(m));
            assert forall|n: int| 0 <= n < after.len() implies (#[trigger] after[n]).line == called(
                a,
            )[n].line && after[n].column == called(a)[n].column by {
                if n < before.len() {
                    assert(after[n] == before[n]);
                }
            }
        } else {
            assert(called(a) == called(front));
        }
    }
}

/// What an event does to the references to called functions.
proof fn lemma_event_calls(h: Graph, e: Event)
    requires
        h.stack.len() > 0,
    ensures
        match e {
            Event::Call(m) => {
                let after = function_refs(apply(h, e).refs);
                &&& after.len() == function_refs(h.refs).len() + 1
                &&& after.drop_last() == function_refs(h.refs)
                &&& after.last().line == m.line
                &&& after.last().column == m.column
            },
            _ => function_refs(apply(h, e).refs) == function_refs(h.refs),
        },
{
    match e {
        Event::Call(m) => {
            let r = ref_row(
                h.arena,
                top_row(h.stack),
                m.name,
                FUNCTION_REF_CODE,
                m.line,
                m.column,
            );
            lemma_function_refs_push(h.refs, r);
            assert(function_refs(h.refs).push(r).drop_last() =~= function_refs(h.refs));
        },
        Event::Inherit(ms) => lemma_other_refs(
            h,
            latest_row(h),
            edge_code(EdgeKind::Extends),
            ms,
        ),
        Event::NameScript => lemma_other_bases(
            Graph { script_class: Some(latest_row(h)), waiting: seq![], ..h },
            latest_row(h),
            h.waiting,
        ),
        Event::Extend(m) => if let Some(row) = extending_class(h) {
            lemma_function_refs_push(
                h.refs,
                ref_row(
                    h.arena,
                    row,
                    m.name,
                    edge_code(EdgeKind::Extends),
                    m.line,
                    m.column,
                ),
            );
        },
        _ => {},
    }
}

/// Whether `r` stands at the place of what the call `j` calls.
pub open spec fn is_placed_by(src: Seq<char>, t: Seq<NodeModel>, j: int, r: RefRow) -> bool {
    &&& t[j].kind == "call"@
    &&& exists|c: int|
        {
            &&& #[trigger] is_callee(t, j, c)
            &&& is_line(t[c].start_row, r.line)
            &&& is_column(src, t[c].start_row, t[c].start_byte, r.column)
        }
}

/// Where no initializer of a variable calls or defines a function, the references to called
/// functions that the walk of a file leaves are those of its calls in the order of the
/// tree, and no call has two.
pub proof fn law_calls_are_in_order(path: Seq<char>, src: Seq<char>, t: Seq<NodeModel>)
    requires
        t.len() > 0,
        initializers_are_silent(t),
    ensures
        ({
            let rs = function_refs(walked(path, src, visit_events(src, t, 0)).refs);
            exists|list: Seq<int>| #[trigger]
                increases(list) && list.len() == rs.len() && forall|n: int|
                    0 <= n < rs.len() ==> is_placed_by(src, t, list[n], #[trigger] rs[n])
        }),
{
    let all = visit_events(src, t, 0);
    let none = Seq::<Event>::empty();
    let rs = function_refs(walked(path, src, all).refs);
    let ms = called(all);
    assert(all + none =~= all);
    let list = lemma_visit_calls(src, t, 0);
    lemma_walk_calls(path, src, t, all, none);
    assert forall|n: int| 0 <= n < rs.len() implies is_placed_by(
        src,
        t,
        list[n],
        #[trigger] rs[n],
    ) by {
        assert(is_called_by(src, t, list[n], ms[n]));
        let c = choose|c: int| #[trigger]
            is_callee(t, list[n], c) && mentions(src, ms[n], t[c], node_text(src, t[c]));
        assert(is_callee(t, list[n], c));
    }
    assert(increases(list));
}

} // verus!
