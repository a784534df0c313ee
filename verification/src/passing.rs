//! The order of the noted arguments: that of the calls in the file, each once.

use vstd::prelude::*;
use crate::calling::{initializers_are_silent, lemma_climbs_lift};
use crate::events::{
    argument_events, body_each, body_events, class_events, declared_name, documented, enum_events,
    enumerator_events, function_declaration, function_events, inherited, lambda_declaration,
    lambda_events, lambda_name, scoped, start_line_of, value_declaration, visit_each, visit_events,
};
use crate::graph::{
    file_graph, lemma_run_concat, lemma_run_none, lemma_run_one, CandidateModel, Event, Mention,
};
use crate::kinds::NodeKind;
use crate::laws::lemma_enumerators_flat;
use crate::nesting::{lemma_no_arguments, walked};
use crate::order::{
    climbs, climbs_in, increases, is_value_code, lemma_child_below, lemma_climbs_more,
    lemma_climbs_up,
};
use crate::origins::lemma_code_step;
use crate::outline::{
    is_closed_kind, is_code_of, is_code_step, is_function_kind, lemma_code_node, lemma_open_node,
    lemma_sorts, own_code_events, own_events,
};
use crate::placement::lemma_not_enumerator;
use crate::sources::lemma_event_candidates;
use crate::syntax::{
    children_of_kind, field_child, law_field_child, lemma_named_child_range, named_children,
    NodeModel,
};

verus! {

/// What the noted arguments among `events` mention, in order.
pub open spec fn noted(events: Seq<Event>) -> Seq<Mention>
    decreases events.len(),
{
    if events.len() == 0 {
        seq![]
    } else {
        match events.last() {
            Event::Argument(m) => noted(events.drop_last()).push(m),
            _ => noted(events.drop_last()),
        }
    }
}

proof fn lemma_noted_concat(a: Seq<Event>, b: Seq<Event>)
    ensures
        noted(a + b) == noted(a) + noted(b),
    decreases b.len(),
{
    if b.len() == 0 {
        assert(a + b =~= a);
        assert(noted(a) + noted(b) =~= noted(a));
    } else {
        lemma_noted_concat(a, b.drop_last());
        assert((a + b).drop_last() =~= a + b.drop_last());
        assert((a + b).last() == b.last());
        assert(noted(a + b) =~= noted(a) + noted(b));
    }
}

proof fn lemma_noted_none(events: Seq<Event>)
    requires
        forall|k: int| 0 <= k < events.len() ==> !(#[trigger] events[k] is Argument),
    ensures
        noted(events) == Seq::<Mention>::empty(),
    decreases events.len(),
{
    if events.len() > 0 {
        let front = events.drop_last();
        assert forall|k: int| 0 <= k < front.len() implies !(#[trigger] front[k] is Argument) by {
            assert(front[k] == events[k]);
        }
        lemma_noted_none(front);
        assert(events[events.len() - 1] == events.last());
    }
}

/// What the calls of `list` pass, call by call.
pub open spec fn passed_by(src: Seq<char>, t: Seq<NodeModel>, list: Seq<int>) -> Seq<Mention>
    decreases list.len(),
{
    if list.len() == 0 {
        seq![]
    } else {
        passed_by(src, t, list.drop_last()) + noted(argument_events(src, t, list.last()))
    }
}

proof fn lemma_passed_concat(src: Seq<char>, t: Seq<NodeModel>, a: Seq<int>, b: Seq<int>)
    ensures
        passed_by(src, t, a + b) == passed_by(src, t, a) + passed_by(src, t, b),
    decreases b.len(),
{
    if b.len() == 0 {
        assert(a + b =~= a);
        assert(passed_by(src, t, a) + passed_by(src, t, b) =~= passed_by(src, t, a));
    } else {
        lemma_passed_concat(src, t, a, b.drop_last());
        assert((a + b).drop_last() =~= a + b.drop_last());
        assert((a + b).last() == b.last());
        assert(passed_by(src, t, a + b) =~= passed_by(src, t, a) + passed_by(src, t, b));
    }
}

/// What a node itself passes, as a call or not at all.
proof fn lemma_own_passed(src: Seq<char>, t: Seq<NodeModel>, i: int) -> (own: Seq<int>)
    ensures
        own == seq![i] || own == Seq::<int>::empty(),
        own.len() > 0 ==> t[i].kind == "call"@,
        noted(argument_events(src, t, i)) == passed_by(src, t, own),
{
    if t[i].kind == "call"@ {
        let own = seq![i];
        assert(own.drop_last() =~= Seq::<int>::empty());
        assert(passed_by(src, t, own.drop_last()) =~= Seq::<Mention>::empty());
        assert(passed_by(src, t, own) =~= noted(argument_events(src, t, i)));
        own
    } else {
        assert(argument_events(src, t, i) =~= Seq::<Event>::empty());
        seq![]
    }
}

/// Whether every node of `list` is a call.
pub open spec fn all_calls(t: Seq<NodeModel>, list: Seq<int>) -> bool {
    forall|n: int| 0 <= n < list.len() ==> t[#[trigger] list[n]].kind == "call"@
}

proof fn lemma_all_calls_concat(t: Seq<NodeModel>, a: Seq<int>, b: Seq<int>)
    requires
        all_calls(t, a),
        all_calls(t, b),
    ensures
        all_calls(t, a + b),
{
    let list = a + b;
    assert forall|n: int| 0 <= n < list.len() implies t[#[trigger] list[n]].kind == "call"@ by {
        if n < a.len() {
            assert(list[n] == a[n]);
        } else {
            assert(list[n] == b[n - a.len()]);
        }
    }
}

proof fn lemma_scoped_noted(e: Event, enter: Event, inner: Seq<Event>)
    requires
        !(e is Argument),
        enter is Enter || enter is EnterInitializer,
    ensures
        noted(seq![e] + scoped(enter, inner)) == noted(inner),
{
    let none = Seq::<Mention>::empty();
    lemma_noted_none(seq![e]);
    lemma_noted_none(seq![enter]);
    lemma_noted_none(seq![Event::Leave]);
    lemma_noted_concat(seq![enter], inner);
    lemma_noted_concat(seq![enter] + inner, seq![Event::Leave]);
    lemma_noted_concat(seq![e], scoped(enter, inner));
    assert(none + (none + noted(inner) + none) =~= noted(inner));
}

/// The calls that pass something in code come in the order of the tree.
proof fn lemma_body_passes(src: Seq<char>, t: Seq<NodeModel>, i: int) -> (list: Seq<int>)
    requires
        0 <= i < t.len(),
    ensures
        climbs(t, i, list),
        all_calls(t, list),
        noted(body_events(src, t, i)) == passed_by(src, t, list),
    decreases t.len() - i, 2int, 0int,
{
    if is_function_kind(t[i].kind) {
        lemma_sorts(t[i].kind);
        lemma_no_arguments(src, t, i);
        assert(body_events(src, t, i) =~= function_events(src, t, i));
        lemma_function_passes(src, t, i)
    } else {
        let args = argument_events(src, t, i);
        let own = own_code_events(src, t, i);
        let len = named_children(t, i).len() as int;
        let rest = body_each(src, t, i, len);
        let none = Seq::<Mention>::empty();
        lemma_code_node(src, t, i);
        lemma_noted_none(own);
        lemma_noted_concat(args, own);
        lemma_noted_concat(args + own, rest);
        let s = lemma_body_each_passes(src, t, i, len);
        let first = lemma_own_passed(src, t, i);
        lemma_climbs_up(t, i, first, i, len, s);
        lemma_passed_concat(src, t, first, s);
        lemma_all_calls_concat(t, first, s);
        assert(noted(args + own + rest) =~= noted(args) + noted(rest));
        first + s
    }
}

proof fn lemma_body_each_passes(src: Seq<char>, t: Seq<NodeModel>, p: int, n: int) -> (list: Seq<
    int,
>)
    requires
        0 <= p < t.len(),
        0 <= n <= named_children(t, p).len(),
    ensures
        climbs_in(t, p, n, list),
        all_calls(t, list),
        noted(body_each(src, t, p, n)) == passed_by(src, t, list),
    decreases t.len() - p, 0int, n,
{
    if n > 0 {
        let c = named_children(t, p)[n - 1];
        lemma_named_child_range(t, p, n - 1);
        let a = lemma_body_each_passes(src, t, p, n - 1);
        let b = lemma_body_passes(src, t, c);
        let before = body_each(src, t, p, n - 1);
        let own = body_events(src, t, c);
        lemma_noted_concat(before, own);
        lemma_climbs_more(t, p, n, a, b);
        lemma_passed_concat(src, t, a, b);
        lemma_all_calls_concat(t, a, b);
        a + b
    } else {
        seq![]
    }
}

proof fn lemma_function_passes(src: Seq<char>, t: Seq<NodeModel>, i: int) -> (list: Seq<int>)
    requires
        0 <= i < t.len(),
    ensures
        climbs(t, i, list),
        all_calls(t, list),
        noted(function_events(src, t, i)) == passed_by(src, t, list),
    decreases t.len() - i, 1int, 0int,
{
    let all = function_events(src, t, i);
    if declared_name(src, t, i).len() > 0 {
        let e = Event::DeclareCallable(function_declaration(src, t, i));
        if field_child(t, i, "body"@) is Some {
            let b = field_child(t, i, "body"@)->0;
            let enter = Event::Enter(NodeKind::Function, declared_name(src, t, i));
            law_field_child(t, i, "body"@);
            lemma_child_below(t, i, b);
            let s = lemma_body_passes(src, t, b);
            lemma_scoped_noted(e, enter, body_events(src, t, b));
            lemma_climbs_lift(t, i, b, s);
            assert(all =~= seq![e] + scoped(enter, body_events(src, t, b)));
            s
        } else {
            assert(all =~= seq![e]);
            lemma_noted_none(all);
            seq![]
        }
    } else {
        seq![]
    }
}

/// Code without calls and functions notes nothing.
proof fn lemma_silent_code(src: Seq<char>, t: Seq<NodeModel>, r: int, i: int)
    requires
        0 <= r < t.len(),
        0 <= i < t.len(),
        is_code_of(t, r, i),
        forall|j: int| #[trigger]
            is_code_of(t, r, j) ==> !is_function_kind(t[j].kind) && t[j].kind != "call"@,
    ensures
        noted(body_events(src, t, i)) == Seq::<Mention>::empty(),
    decreases t.len() - i, 1int, 0int,
{
    let args = argument_events(src, t, i);
    let own = own_code_events(src, t, i);
    let len = named_children(t, i).len() as int;
    let rest = body_each(src, t, i, len);
    let none = Seq::<Mention>::empty();
    lemma_code_node(src, t, i);
    assert(args =~= Seq::<Event>::empty());
    lemma_noted_none(args);
    lemma_noted_none(own);
    lemma_noted_concat(args, own);
    lemma_noted_concat(args + own, rest);
    lemma_silent_code_each(src, t, r, i, len);
    assert(none + none + none =~= none);
}

proof fn lemma_silent_code_each(src: Seq<char>, t: Seq<NodeModel>, r: int, p: int, n: int)
    requires
        0 <= r < t.len(),
        0 <= p < t.len(),
        0 <= n <= named_children(t, p).len(),
        is_code_of(t, r, p),
        forall|j: int| #[trigger]
            is_code_of(t, r, j) ==> !is_function_kind(t[j].kind) && t[j].kind != "call"@,
    ensures
        noted(body_each(src, t, p, n)) == Seq::<Mention>::empty(),
    decreases t.len() - p, 0int, n,
{
    if n > 0 {
        let c = named_children(t, p)[n - 1];
        let none = Seq::<Mention>::empty();
        lemma_named_child_range(t, p, n - 1);
        assert(is_code_step(t, p, c));
        lemma_code_step(t, r, p, c);
        lemma_silent_code_each(src, t, r, p, n - 1);
        lemma_silent_code(src, t, r, c);
        lemma_noted_concat(body_each(src, t, p, n - 1), body_events(src, t, c));
        assert(none + none =~= none);
    }
}

/// A statement that is not closed notes nothing beyond its arguments.
proof fn lemma_own_quiet(src: Seq<char>, t: Seq<NodeModel>, i: int)
    requires
        0 <= i < t.len(),
        initializers_are_silent(t),
    ensures
        noted(own_events(src, t, i)) == Seq::<Mention>::empty(),
{
    let all = own_events(src, t, i);
    lemma_sorts(t[i].kind);
    if t[i].kind == "variable_statement"@ && declared_name(src, t, i).len() > 0 && field_child(
        t,
        i,
        "value"@,
    ) is Some {
        let e = Event::Declare(value_declaration(src, t, i, NodeKind::Variable));
        let v = field_child(t, i, "value"@)->0;
        law_field_child(t, i, "value"@);
        assert forall|j: int| #[trigger] is_code_of(t, v, j) implies !is_function_kind(t[j].kind)
            && t[j].kind != "call"@ by {
            assert(is_value_code(t, i, v, j));
        }
        assert(is_code_of(t, v, v));
        lemma_silent_code(src, t, v, v);
        lemma_scoped_noted(e, Event::EnterInitializer, body_events(src, t, v));
    } else {
        lemma_noted_none(all);
    }
}

/// The calls that pass something in a file come in the order of the tree.
proof fn lemma_visit_passes(src: Seq<char>, t: Seq<NodeModel>, i: int) -> (list: Seq<int>)
    requires
        0 <= i < t.len(),
        initializers_are_silent(t),
    ensures
        climbs(t, i, list),
        all_calls(t, list),
        noted(visit_events(src, t, i)) == passed_by(src, t, list),
    decreases t.len() - i, 2int, 0int,
{
    if is_closed_kind(t[i].kind) {
        lemma_closed_passes(src, t, i)
    } else {
        let args = argument_events(src, t, i);
        let own = own_events(src, t, i);
        let len = named_children(t, i).len() as int;
        let rest = visit_each(src, t, i, len);
        lemma_open_node(src, t, i);
        lemma_own_quiet(src, t, i);
        lemma_noted_concat(args, own);
        lemma_noted_concat(args + own, rest);
        let first = lemma_own_passed(src, t, i);
        let s = lemma_each_passes(src, t, i, len);
        lemma_climbs_up(t, i, first, i, len, s);
        lemma_passed_concat(src, t, first, s);
        lemma_all_calls_concat(t, first, s);
        assert(noted(args + own + rest) =~= noted(args) + noted(rest));
        first + s
    }
}

proof fn lemma_each_passes(src: Seq<char>, t: Seq<NodeModel>, p: int, n: int) -> (list: Seq<int>)
    requires
        0 <= p < t.len(),
        0 <= n <= named_children(t, p).len(),
        initializers_are_silent(t),
    ensures
        climbs_in(t, p, n, list),
        all_calls(t, list),
        noted(visit_each(src, t, p, n)) == passed_by(src, t, list),
    decreases t.len() - p, 0int, n,
{
    if n > 0 {
        let c = named_children(t, p)[n - 1];
        lemma_named_child_range(t, p, n - 1);
        let a = lemma_each_passes(src, t, p, n - 1);
        let b = lemma_visit_passes(src, t, c);
        let before = visit_each(src, t, p, n - 1);
        let own = visit_events(src, t, c);
        lemma_noted_concat(before, own);
        lemma_climbs_more(t, p, n, a, b);
        lemma_passed_concat(src, t, a, b);
        lemma_all_calls_concat(t, a, b);
        a + b
    } else {
        seq![]
    }
}

proof fn lemma_closed_passes(src: Seq<char>, t: Seq<NodeModel>, i: int) -> (list: Seq<int>)
    requires
        0 <= i < t.len(),
        is_closed_kind(t[i].kind),
        initializers_are_silent(t),
    ensures
        climbs(t, i, list),
        all_calls(t, list),
        noted(visit_events(src, t, i)) == passed_by(src, t, list),
    decreases t.len() - i, 1int, 0int,
{
    lemma_sorts(t[i].kind);
    lemma_not_enumerator(t[i].kind);
    lemma_no_arguments(src, t, i);
    let all = visit_events(src, t, i);
    if is_function_kind(t[i].kind) {
        assert(all =~= function_events(src, t, i));
        lemma_function_passes(src, t, i)
    } else if t[i].kind == "class_definition"@ {
        assert(all =~= class_events(src, t, i));
        lemma_class_passes(src, t, i)
    } else if t[i].kind == "enum_definition"@ {
        assert(all =~= enum_events(src, t, i));
        lemma_enum_passes(src, t, i);
        seq![]
    } else {
        assert(all =~= lambda_events(src, t, i));
        let e = Event::Declare(lambda_declaration(src, t, i));
        if field_child(t, i, "body"@) is Some {
            let b = field_child(t, i, "body"@)->0;
            let enter = Event::Enter(NodeKind::Function, lambda_name(start_line_of(t[i])));
            law_field_child(t, i, "body"@);
            lemma_child_below(t, i, b);
            let s = lemma_body_passes(src, t, b);
            lemma_scoped_noted(e, enter, body_events(src, t, b));
            lemma_climbs_lift(t, i, b, s);
            assert(all =~= seq![e] + scoped(enter, body_events(src, t, b)));
            s
        } else {
            assert(all =~= seq![e]);
            lemma_noted_none(all);
            seq![]
        }
    }
}

proof fn lemma_class_passes(src: Seq<char>, t: Seq<NodeModel>, i: int) -> (list: Seq<int>)
    requires
        0 <= i < t.len(),
        initializers_are_silent(t),
    ensures
        climbs(t, i, list),
        all_calls(t, list),
        noted(class_events(src, t, i)) == passed_by(src, t, list),
    decreases t.len() - i, 0int, 0int,
{
    let all = class_events(src, t, i);
    let none = Seq::<Mention>::empty();
    if declared_name(src, t, i).len() > 0 {
        let e = Event::Declare(documented(src, t, i, NodeKind::Class));
        let bases = Event::Inherit(inherited(src, t, i));
        lemma_noted_none(seq![e]);
        if field_child(t, i, "body"@) is Some {
            let b = field_child(t, i, "body"@)->0;
            let enter = Event::Enter(NodeKind::Class, declared_name(src, t, i));
            let len = named_children(t, b).len() as int;
            let inner = visit_each(src, t, b, len);
            law_field_child(t, i, "body"@);
            lemma_child_below(t, i, b);
            let s = lemma_each_passes(src, t, b, len);
            lemma_scoped_noted(bases, enter, inner);
            lemma_noted_concat(seq![e], seq![bases] + scoped(enter, inner));
            lemma_climbs_up(t, i, Seq::<int>::empty(), b, len, s);
            assert(Seq::<int>::empty() + s =~= s);
            assert(all =~= seq![e] + (seq![bases] + scoped(enter, inner)));
            assert(noted(all) =~= noted(inner));
            s
        } else {
            assert(all =~= seq![e] + seq![bases]);
            lemma_noted_none(all);
            seq![]
        }
    } else {
        seq![]
    }
}

proof fn lemma_enum_passes(src: Seq<char>, t: Seq<NodeModel>, i: int)
    ensures
        noted(enum_events(src, t, i)) == Seq::<Mention>::empty(),
{
    let all = enum_events(src, t, i);
    if let Some(b) = field_child(t, i, "body"@) {
        let list = children_of_kind(t, b, "enumerator"@);
        lemma_enumerators_flat(src, t, list);
        let inner = enumerator_events(src, t, list);
        assert forall|k: int| 0 <= k < all.len() implies !(#[trigger] all[k] is Argument) by {
            if 2 <= k < 2 + inner.len() {
                assert(all[k] == inner[k - 2]);
                assert(inner[k - 2] is Declare);
            }
        }
    }
    lemma_noted_none(all);
}

/// Whether `cs` are the noted arguments that `ms` mention, one by one.
pub open spec fn are_notes_of(cs: Seq<CandidateModel>, ms: Seq<Mention>) -> bool {
    &&& cs.len() == ms.len()
    &&& forall|n: int|
        0 <= n < cs.len() ==> (#[trigger] cs[n]).name == ms[n].name && cs[n].line == ms[n].line
}

/// What a walk notes is what its events say.
proof fn lemma_walk_notes(path: Seq<char>, src: Seq<char>, a: Seq<Event>)
    ensures
        are_notes_of(walked(path, src, a).candidates, noted(a)),
    decreases a.len(),
{
    let g0 = file_graph(path, src);
    if a.len() == 0 {
        lemma_run_none(g0);
        assert(a =~= Seq::<Event>::empty());
    } else {
        let front = a.drop_last();
        let e = a.last();
        let h = walked(path, src, front);
        assert(a =~= front + seq![e]);
        lemma_walk_notes(path, src, front);
        lemma_run_concat(g0, front, seq![e]);
        lemma_run_one(h, e);
        lemma_event_candidates(h, e);
        let cs = walked(path, src, a).candidates;
        let ms = noted(a);
        assert forall|n: int| 0 <= n < cs.len() implies (#[trigger] cs[n]).name == ms[n].name
            && cs[n].line == ms[n].line by {
            if n < h.candidates.len() {
                assert(cs[n] == h.candidates[n]);
                assert(ms[n] == noted(front)[n]);
            }
        }
    }
}

/// Where no initializer of a variable calls or defines a function, the arguments that the
/// walk of a file notes are those that its calls pass, call by call in the order of the
/// tree, and no call is counted twice.
pub proof fn law_arguments_are_in_order(path: Seq<char>, src: Seq<char>, t: Seq<NodeModel>)
    requires
        t.len() > 0,
        initializers_are_silent(t),
    ensures
        exists|list: Seq<int>|
            {
                &&& increases(list)
                &&& all_calls(t, list)
                &&& are_notes_of(
                    walked(path, src, visit_events(src, t, 0)).candidates,
                    #[trigger] passed_by(src, t, list),
                )
            },
{
    let all = visit_events(src, t, 0);
    let list = lemma_visit_passes(src, t, 0);
    lemma_walk_notes(path, src, all);
    assert(are_notes_of(walked(path, src, all).candidates, passed_by(src, t, list)));
}

} // verus!
