//! The order of the rows of a graph: that of the declarations in the file, each once.

use vstd::prelude::*;
use crate::events::{
    argument_events, body_each, body_events, class_events, declared_name, documented, enum_events,
    enumerator_declaration, enumerator_events, function_declaration, function_events, inherited,
    lambda_declaration, lambda_events, lambda_name, plain_declaration, scoped, start_line_of,
    syntax_kind, value_declaration, visit_each, visit_events, whole_graph, SyntaxKind,
};
use crate::graph::{
    file_graph, flush_candidates, lemma_run_concat, lemma_run_none, lemma_run_one, Event, Graph,
};
use crate::kinds::NodeKind;
use crate::laws::{law_candidates_only_add, law_values_only_add, lemma_argument_list_flat};
use crate::nesting::{
    describes, event_declares, lemma_declared_here, lemma_describes, lemma_no_arguments, walked,
};
use crate::origins::{declares_at, lemma_code_step};
use crate::outline::{
    is_closed_kind, is_code_of, is_code_step, is_function_kind, lemma_code_node, lemma_open_node,
    lemma_sorts, own_code_events, own_events,
};
use crate::placement::{in_scope, lemma_listed, lemma_not_enumerator, lemma_path};
use crate::soundness::within_limits;
use crate::sources::{lemma_event_nodes, lemma_event_origin, lemma_row_event};
use crate::syntax::{
    children_of_kind, field_child, is_below, is_child, is_found, law_field_child,
    law_named_children, lemma_named_child_range, named_children, of_kind, NodeModel,
};
use crate::uses::lemma_found_apart;

verus! {

/// The nodes that the declarations among `events` are made by, in order.
pub open spec fn declared_nodes(events: Seq<Event>) -> Seq<int>
    decreases events.len(),
{
    if events.len() == 0 {
        seq![]
    } else {
        match events.last() {
            Event::Declare(d) => declared_nodes(events.drop_last()).push(d.node),
            Event::DeclareCallable(d) => declared_nodes(events.drop_last()).push(d.node),
            _ => declared_nodes(events.drop_last()),
        }
    }
}

proof fn lemma_declared_concat(a: Seq<Event>, b: Seq<Event>)
    ensures
        declared_nodes(a + b) == declared_nodes(a) + declared_nodes(b),
    decreases b.len(),
{
    if b.len() == 0 {
        assert(a + b =~= a);
        assert(declared_nodes(a) + declared_nodes(b) =~= declared_nodes(a));
    } else {
        lemma_declared_concat(a, b.drop_last());
        assert((a + b).drop_last() =~= a + b.drop_last());
        assert((a + b).last() == b.last());
        assert(declared_nodes(a + b) =~= declared_nodes(a) + declared_nodes(b));
    }
}

proof fn lemma_declared_one(e: Event)
    ensures
        declared_nodes(seq![e]) == (match e {
            Event::Declare(d) => seq![d.node],
            Event::DeclareCallable(d) => seq![d.node],
            _ => Seq::<int>::empty(),
        }),
{
    assert(seq![e].drop_last() =~= Seq::<Event>::empty());
    assert(seq![e].last() == e);
    assert(declared_nodes(Seq::<Event>::empty()) =~= Seq::<int>::empty());
    assert(declared_nodes(seq![e]) =~= (match e {
        Event::Declare(d) => seq![d.node],
        Event::DeclareCallable(d) => seq![d.node],
        _ => Seq::<int>::empty(),
    }));
}

/// Events without a declaration.
proof fn lemma_declared_none(events: Seq<Event>)
    requires
        forall|k: int|
            0 <= k < events.len() ==> !(#[trigger] events[k] is Declare) && !(
            events[k] is DeclareCallable),
    ensures
        declared_nodes(events) == Seq::<int>::empty(),
    decreases events.len(),
{
    if events.len() > 0 {
        let front = events.drop_last();
        assert forall|k: int| 0 <= k < front.len() implies !(#[trigger] front[k] is Declare) && !(
        front[k] is DeclareCallable) by {
            assert(front[k] == events[k]);
        }
        lemma_declared_none(front);
        assert(events[events.len() - 1] == events.last());
    }
}

/// Whether `x` is `i` or lies below it.
pub open spec fn is_within(t: Seq<NodeModel>, i: int, x: int) -> bool {
    x == i || is_below(t, i, x)
}

/// Whether `s` increases.
pub open spec fn increases(s: Seq<int>) -> bool {
    forall|a: int, b: int| 0 <= a < b < s.len() ==> s[a] < s[b]
}

/// Whether `s` increases within `i`.
pub open spec fn climbs(t: Seq<NodeModel>, i: int, s: Seq<int>) -> bool {
    &&& increases(s)
    &&& forall|n: int| 0 <= n < s.len() ==> is_within(t, i, #[trigger] s[n])
}

/// Whether `s` increases within the first `n` named children of `p`.
pub open spec fn climbs_in(t: Seq<NodeModel>, p: int, n: int, s: Seq<int>) -> bool {
    &&& increases(s)
    &&& forall|k: int| 0 <= k < s.len() ==> in_first(t, p, n, #[trigger] s[k])
}

/// Whether `x` lies within one of the first `n` named children of `p`.
pub open spec fn in_first(t: Seq<NodeModel>, p: int, n: int, x: int) -> bool {
    exists|m: int| 0 <= m < n && is_within(t, #[trigger] named_children(t, p)[m], x)
}

/// What lies within a child lies below its parent.
pub proof fn lemma_within_child(t: Seq<NodeModel>, p: int, c: int, x: int)
    requires
        is_below(t, p, c),
        is_within(t, c, x),
    ensures
        is_below(t, p, x),
{
    if x != c {
        assert forall|k: int| p < k <= x implies #[trigger] t[k].depth > t[p].depth by {
            if k > c {
                assert(t[k].depth > t[c].depth);
            }
        }
    }
}

/// A child lies below its parent.
pub proof fn lemma_child_below(t: Seq<NodeModel>, p: int, c: int)
    requires
        is_child(t, p, c),
    ensures
        is_below(t, p, c),
{
    assert forall|k: int| p < k <= c implies #[trigger] t[k].depth > t[p].depth by {}
}

/// What lies within an earlier child comes before what lies within a later one.
pub proof fn lemma_within_apart(t: Seq<NodeModel>, p: int, m: int, n: int, x: int, y: int)
    requires
        0 <= p < t.len(),
        0 <= m < n < named_children(t, p).len(),
        is_within(t, named_children(t, p)[m], x),
        is_within(t, named_children(t, p)[n], y),
    ensures
        x < y,
{
    let kids = named_children(t, p);
    law_named_children(t, p);
    assert(is_found(t, p, kids[m]) && is_found(t, p, kids[n]));
    lemma_found_apart(t, p, kids[m], kids[n]);
    if x >= kids[n] {
        assert(is_below(t, kids[m], kids[n])) by {
            assert forall|k: int| kids[m] < k <= kids[n] implies #[trigger] t[k].depth
                > t[kids[m]].depth by {}
        }
    }
}

/// One more child.
pub proof fn lemma_climbs_more(t: Seq<NodeModel>, p: int, n: int, a: Seq<int>, b: Seq<int>)
    requires
        0 <= p < t.len(),
        0 < n <= named_children(t, p).len(),
        climbs_in(t, p, n - 1, a),
        climbs(t, named_children(t, p)[n - 1], b),
    ensures
        climbs_in(t, p, n, a + b),
{
    let s = a + b;
    let c = named_children(t, p)[n - 1];
    assert forall|k: int| 0 <= k < s.len() implies in_first(t, p, n, #[trigger] s[k]) by {
        if k < a.len() {
            assert(s[k] == a[k]);
            assert(in_first(t, p, n - 1, a[k]));
            let m = choose|m: int|
                0 <= m < n - 1 && is_within(t, #[trigger] named_children(t, p)[m], a[k]);
            assert(is_within(t, named_children(t, p)[m], s[k]));
        } else {
            assert(is_within(t, c, b[k - a.len()]));
            assert(is_within(t, named_children(t, p)[n - 1], s[k]));
        }
    }
    assert forall|x: int, y: int| 0 <= x < y < s.len() implies s[x] < s[y] by {
        if y < a.len() {
            assert(a[x] < a[y]);
        } else if x >= a.len() {
            assert(b[x - a.len()] < b[y - a.len()]);
        } else {
            assert(in_first(t, p, n - 1, a[x]));
            let m = choose|m: int|
                0 <= m < n - 1 && is_within(t, #[trigger] named_children(t, p)[m], a[x]);
            assert(is_within(t, c, b[y - a.len()]));
            lemma_within_apart(t, p, m, n - 1, a[x], b[y - a.len()]);
        }
    }
}

/// What increases within the children of `p`, after `p` itself or after nothing.
pub proof fn lemma_climbs_up(t: Seq<NodeModel>, i: int, own: Seq<int>, p: int, n: int, s: Seq<int>)
    requires
        0 <= i < t.len(),
        own == seq![i] || own == Seq::<int>::empty(),
        p == i || is_below(t, i, p),
        0 <= p < t.len(),
        0 <= n <= named_children(t, p).len(),
        climbs_in(t, p, n, s),
    ensures
        climbs(t, i, own + s),
{
    let all = own + s;
    assert forall|k: int| 0 <= k < s.len() implies is_below(t, i, #[trigger] s[k]) by {
        assert(in_first(t, p, n, s[k]));
        let m = choose|m: int| 0 <= m < n && is_within(t, #[trigger] named_children(t, p)[m], s[k]);
        law_named_children(t, p);
        let c = named_children(t, p)[m];
        assert(is_below(t, p, c));
        lemma_within_child(t, p, c, s[k]);
        if p != i {
            lemma_within_child(t, i, p, s[k]);
        }
    }
    assert forall|k: int| 0 <= k < all.len() implies is_within(t, i, #[trigger] all[k]) by {
        if k >= own.len() {
            assert(all[k] == s[k - own.len()]);
        }
    }
    assert forall|x: int, y: int| 0 <= x < y < all.len() implies all[x] < all[y] by {
        if x >= own.len() {
            assert(s[x - own.len()] < s[y - own.len()]);
        } else {
            assert(is_below(t, i, s[y - own.len()]));
        }
    }
}

/// What increases within a child, after the parent.
proof fn lemma_climbs_under(t: Seq<NodeModel>, i: int, c: int, s: Seq<int>)
    requires
        0 <= i < t.len(),
        is_below(t, i, c),
        climbs(t, c, s),
    ensures
        climbs(t, i, seq![i] + s),
{
    let all = seq![i] + s;
    assert forall|k: int| 0 <= k < s.len() implies is_below(t, i, #[trigger] s[k]) by {
        assert(is_within(t, c, s[k]));
        lemma_within_child(t, i, c, s[k]);
    }
    assert forall|k: int| 0 <= k < all.len() implies is_within(t, i, #[trigger] all[k]) by {
        if k >= 1 {
            assert(all[k] == s[k - 1]);
        }
    }
    assert forall|x: int, y: int| 0 <= x < y < all.len() implies all[x] < all[y] by {
        if x >= 1 {
            assert(s[x - 1] < s[y - 1]);
        } else {
            assert(is_below(t, i, s[y - 1]));
        }
    }
}

proof fn lemma_no_declared_arguments(src: Seq<char>, t: Seq<NodeModel>, i: int)
    ensures
        declared_nodes(argument_events(src, t, i)) == Seq::<int>::empty(),
{
    let args = argument_events(src, t, i);
    if t[i].kind == "call"@ {
        if let Some(a) = field_child(t, i, "arguments"@) {
            lemma_argument_list_flat(src, t, children_of_kind(t, a, "identifier"@));
        }
    }
    assert forall|k: int| 0 <= k < args.len() implies !(#[trigger] args[k] is Declare) && !(
    args[k] is DeclareCallable) by {
        assert(args[k] is Argument);
    }
    lemma_declared_none(args);
}

/// The declarations in code come in the order of the tree.
proof fn lemma_body_climbs(src: Seq<char>, t: Seq<NodeModel>, i: int)
    requires
        0 <= i < t.len(),
    ensures
        climbs(t, i, declared_nodes(body_events(src, t, i))),
    decreases t.len() - i, 2int, 0int,
{
    if is_function_kind(t[i].kind) {
        lemma_sorts(t[i].kind);
        lemma_no_arguments(src, t, i);
        assert(body_events(src, t, i) =~= function_events(src, t, i));
        lemma_function_climbs(src, t, i);
    } else {
        let args = argument_events(src, t, i);
        let own = own_code_events(src, t, i);
        let len = named_children(t, i).len() as int;
        let rest = body_each(src, t, i, len);
        let none = Seq::<int>::empty();
        lemma_code_node(src, t, i);
        lemma_no_declared_arguments(src, t, i);
        lemma_declared_none(own);
        lemma_declared_concat(args, own);
        lemma_declared_concat(args + own, rest);
        lemma_body_each_climbs(src, t, i, len);
        let s = declared_nodes(rest);
        lemma_climbs_up(t, i, none, i, len, s);
        assert(declared_nodes(args + own + rest) =~= none + s);
    }
}

proof fn lemma_body_each_climbs(src: Seq<char>, t: Seq<NodeModel>, p: int, n: int)
    requires
        0 <= p < t.len(),
        0 <= n <= named_children(t, p).len(),
    ensures
        climbs_in(t, p, n, declared_nodes(body_each(src, t, p, n))),
    decreases t.len() - p, 0int, n,
{
    if n > 0 {
        let c = named_children(t, p)[n - 1];
        lemma_named_child_range(t, p, n - 1);
        lemma_body_each_climbs(src, t, p, n - 1);
        lemma_body_climbs(src, t, c);
        let before = body_each(src, t, p, n - 1);
        lemma_declared_concat(before, body_events(src, t, c));
        lemma_climbs_more(
            t,
            p,
            n,
            declared_nodes(before),
            declared_nodes(body_events(src, t, c)),
        );
    }
}

proof fn lemma_function_climbs(src: Seq<char>, t: Seq<NodeModel>, i: int)
    requires
        0 <= i < t.len(),
    ensures
        climbs(t, i, declared_nodes(function_events(src, t, i))),
    decreases t.len() - i, 1int, 0int,
{
    let all = function_events(src, t, i);
    if declared_name(src, t, i).len() > 0 {
        let e = Event::DeclareCallable(function_declaration(src, t, i));
        lemma_declared_one(e);
        if let Some(b) = field_child(t, i, "body"@) {
            let enter = Event::Enter(NodeKind::Function, declared_name(src, t, i));
            law_field_child(t, i, "body"@);
            lemma_child_below(t, i, b);
            lemma_body_climbs(src, t, b);
            lemma_owned_climbs(t, i, e, enter, b, body_events(src, t, b));
            assert(all =~= seq![e] + scoped(enter, body_events(src, t, b)));
        } else {
            assert(all =~= seq![e]);
        }
    }
}

/// A declaration and what happens in its scope.
proof fn lemma_owned_climbs(
    t: Seq<NodeModel>,
    i: int,
    e: Event,
    enter: Event,
    c: int,
    inner: Seq<Event>,
)
    requires
        0 <= i < t.len(),
        declared_nodes(seq![e]) == seq![i],
        enter is Enter || enter is EnterInitializer,
        is_below(t, i, c),
        climbs(t, c, declared_nodes(inner)),
    ensures
        climbs(t, i, declared_nodes(seq![e] + scoped(enter, inner))),
        declared_nodes(seq![e] + scoped(enter, inner)) == seq![i] + declared_nodes(inner),
{
    lemma_scoped_nodes(e, enter, inner);
    lemma_climbs_under(t, i, c, declared_nodes(inner));
}

proof fn lemma_scoped_nodes(e: Event, enter: Event, inner: Seq<Event>)
    requires
        enter is Enter || enter is EnterInitializer,
    ensures
        declared_nodes(seq![e] + scoped(enter, inner)) == declared_nodes(seq![e]) + declared_nodes(
            inner,
        ),
{
    let none = Seq::<int>::empty();
    lemma_declared_one(enter);
    lemma_declared_one(Event::Leave);
    lemma_declared_concat(seq![enter], inner);
    lemma_declared_concat(seq![enter] + inner, seq![Event::Leave]);
    lemma_declared_concat(seq![e], scoped(enter, inner));
    assert(none + declared_nodes(inner) + none =~= declared_nodes(inner));
}

/// Whether no function is defined in the initializer of a variable.
pub open spec fn initializers_are_plain(t: Seq<NodeModel>) -> bool {
    forall|v: int, x: int, j: int|
        0 <= v < t.len() && t[v].kind == "variable_statement"@ && field_child(t, v, "value"@)
            == Some(x) && #[trigger] is_value_code(t, v, x, j) ==> !is_function_kind(t[j].kind)
}

/// Whether `j` is code of the initializer `x` of the variable `v`.
pub open spec fn is_value_code(t: Seq<NodeModel>, v: int, x: int, j: int) -> bool {
    v < x && is_code_of(t, x, j)
}

/// Code without functions declares nothing.
proof fn lemma_plain_body(src: Seq<char>, t: Seq<NodeModel>, r: int, i: int)
    requires
        0 <= r < t.len(),
        0 <= i < t.len(),
        is_code_of(t, r, i),
        forall|j: int| #[trigger] is_code_of(t, r, j) ==> !is_function_kind(t[j].kind),
    ensures
        declared_nodes(body_events(src, t, i)) == Seq::<int>::empty(),
    decreases t.len() - i, 1int, 0int,
{
    let args = argument_events(src, t, i);
    let own = own_code_events(src, t, i);
    let len = named_children(t, i).len() as int;
    let rest = body_each(src, t, i, len);
    let none = Seq::<int>::empty();
    lemma_code_node(src, t, i);
    lemma_no_declared_arguments(src, t, i);
    lemma_declared_none(own);
    lemma_declared_concat(args, own);
    lemma_declared_concat(args + own, rest);
    lemma_plain_body_each(src, t, r, i, len);
    assert(none + none + none =~= none);
}

proof fn lemma_plain_body_each(src: Seq<char>, t: Seq<NodeModel>, r: int, p: int, n: int)
    requires
        0 <= r < t.len(),
        0 <= p < t.len(),
        0 <= n <= named_children(t, p).len(),
        is_code_of(t, r, p),
        forall|j: int| #[trigger] is_code_of(t, r, j) ==> !is_function_kind(t[j].kind),
    ensures
        declared_nodes(body_each(src, t, p, n)) == Seq::<int>::empty(),
    decreases t.len() - p, 0int, n,
{
    if n > 0 {
        let c = named_children(t, p)[n - 1];
        let none = Seq::<int>::empty();
        lemma_named_child_range(t, p, n - 1);
        assert(is_code_step(t, p, c));
        lemma_code_step(t, r, p, c);
        lemma_plain_body_each(src, t, r, p, n - 1);
        lemma_plain_body(src, t, r, c);
        lemma_declared_concat(body_each(src, t, p, n - 1), body_events(src, t, c));
        assert(none + none =~= none);
    }
}

/// What a statement that is not closed declares itself.
proof fn lemma_own_nodes(src: Seq<char>, t: Seq<NodeModel>, i: int)
    requires
        0 <= i < t.len(),
        initializers_are_plain(t),
    ensures
        ({
            let own = declared_nodes(own_events(src, t, i));
            own == seq![i] || own == Seq::<int>::empty()
        }),
{
    let all = own_events(src, t, i);
    lemma_sorts(t[i].kind);
    match syntax_kind(t[i].kind) {
        SyntaxKind::ClassNameStatement => {
            let d = documented(src, t, i, NodeKind::Class);
            if d.name.len() > 0 {
                lemma_declared_one(Event::Declare(d));
                lemma_declared_one(Event::NameScript);
                lemma_declared_concat(seq![Event::Declare(d)], seq![Event::NameScript]);
                assert(all =~= seq![Event::Declare(d)] + seq![Event::NameScript]);
                assert(declared_nodes(all) =~= seq![i]);
            }
        },
        SyntaxKind::VariableStatement => {
            let e = Event::Declare(value_declaration(src, t, i, NodeKind::Variable));
            if declared_name(src, t, i).len() > 0 {
                lemma_declared_one(e);
                if let Some(v) = field_child(t, i, "value"@) {
                    law_field_child(t, i, "value"@);
                    assert forall|j: int| #[trigger] is_code_of(t, v, j) implies !is_function_kind(
                        t[j].kind,
                    ) by {
                        assert(is_value_code(t, i, v, j));
                    }
                    assert(is_code_of(t, v, v));
                    lemma_plain_body(src, t, v, v);
                    lemma_scoped_nodes(e, Event::EnterInitializer, body_events(src, t, v));
                    assert(declared_nodes(all) =~= seq![i]);
                } else {
                    assert(all =~= seq![e]);
                }
            }
        },
        SyntaxKind::ConstStatement => {
            let d = value_declaration(src, t, i, NodeKind::Constant);
            lemma_declared_one(Event::Declare(d));
        },
        SyntaxKind::SignalStatement => {
            let d = documented(src, t, i, NodeKind::Variable);
            lemma_declared_one(Event::Declare(d));
        },
        _ => {
            lemma_declared_none(all);
        },
    }
}

/// The declarations in a file come in the order of the tree.
proof fn lemma_visit_climbs(src: Seq<char>, t: Seq<NodeModel>, i: int)
    requires
        0 <= i < t.len(),
        initializers_are_plain(t),
    ensures
        climbs(t, i, declared_nodes(visit_events(src, t, i))),
    decreases t.len() - i, 2int, 0int,
{
    if is_closed_kind(t[i].kind) {
        lemma_closed_climbs(src, t, i);
    } else {
        let args = argument_events(src, t, i);
        let own = own_events(src, t, i);
        let len = named_children(t, i).len() as int;
        let rest = visit_each(src, t, i, len);
        lemma_open_node(src, t, i);
        lemma_no_declared_arguments(src, t, i);
        lemma_own_nodes(src, t, i);
        lemma_declared_concat(args, own);
        lemma_declared_concat(args + own, rest);
        lemma_each_climbs(src, t, i, len);
        let s = declared_nodes(rest);
        lemma_climbs_up(t, i, declared_nodes(own), i, len, s);
        assert(declared_nodes(args + own + rest) =~= declared_nodes(own) + s);
    }
}

proof fn lemma_each_climbs(src: Seq<char>, t: Seq<NodeModel>, p: int, n: int)
    requires
        0 <= p < t.len(),
        0 <= n <= named_children(t, p).len(),
        initializers_are_plain(t),
    ensures
        climbs_in(t, p, n, declared_nodes(visit_each(src, t, p, n))),
    decreases t.len() - p, 0int, n,
{
    if n > 0 {
        let c = named_children(t, p)[n - 1];
        lemma_named_child_range(t, p, n - 1);
        lemma_each_climbs(src, t, p, n - 1);
        lemma_visit_climbs(src, t, c);
        let before = visit_each(src, t, p, n - 1);
        lemma_declared_concat(before, visit_events(src, t, c));
        lemma_climbs_more(
            t,
            p,
            n,
            declared_nodes(before),
            declared_nodes(visit_events(src, t, c)),
        );
    }
}

proof fn lemma_closed_climbs(src: Seq<char>, t: Seq<NodeModel>, i: int)
    requires
        0 <= i < t.len(),
        is_closed_kind(t[i].kind),
        initializers_are_plain(t),
    ensures
        climbs(t, i, declared_nodes(visit_events(src, t, i))),
    decreases t.len() - i, 1int, 0int,
{
    lemma_sorts(t[i].kind);
    lemma_not_enumerator(t[i].kind);
    lemma_no_arguments(src, t, i);
    let all = visit_events(src, t, i);
    if is_function_kind(t[i].kind) {
        assert(all =~= function_events(src, t, i));
        lemma_function_climbs(src, t, i);
    } else if t[i].kind == "class_definition"@ {
        assert(all =~= class_events(src, t, i));
        if declared_name(src, t, i).len() > 0 {
            lemma_class_climbs(src, t, i);
        }
    } else if t[i].kind == "enum_definition"@ {
        assert(all =~= enum_events(src, t, i));
        if declared_name(src, t, i).len() > 0 {
            lemma_enum_climbs(src, t, i);
        }
    } else {
        assert(all =~= lambda_events(src, t, i));
        let e = Event::Declare(lambda_declaration(src, t, i));
        lemma_declared_one(e);
        if let Some(b) = field_child(t, i, "body"@) {
            let enter = Event::Enter(NodeKind::Function, lambda_name(start_line_of(t[i])));
            law_field_child(t, i, "body"@);
            lemma_child_below(t, i, b);
            lemma_body_climbs(src, t, b);
            lemma_owned_climbs(t, i, e, enter, b, body_events(src, t, b));
            assert(all =~= seq![e] + scoped(enter, body_events(src, t, b)));
        } else {
            assert(all =~= seq![e]);
        }
    }
}

proof fn lemma_class_climbs(src: Seq<char>, t: Seq<NodeModel>, i: int)
    requires
        0 <= i < t.len(),
        initializers_are_plain(t),
        declared_name(src, t, i).len() > 0,
    ensures
        climbs(t, i, declared_nodes(class_events(src, t, i))),
    decreases t.len() - i, 0int, 0int,
{
    let all = class_events(src, t, i);
    let e = Event::Declare(documented(src, t, i, NodeKind::Class));
    let bases = Event::Inherit(inherited(src, t, i));
    let none = Seq::<int>::empty();
    lemma_declared_one(e);
    lemma_declared_one(bases);
    lemma_declared_concat(seq![e], seq![bases]);
    if let Some(b) = field_child(t, i, "body"@) {
        let enter = Event::Enter(NodeKind::Class, declared_name(src, t, i));
        let len = named_children(t, b).len() as int;
        let inner = visit_each(src, t, b, len);
        law_field_child(t, i, "body"@);
        lemma_child_below(t, i, b);
        lemma_each_climbs(src, t, b, len);
        lemma_scoped_nodes(bases, enter, inner);
        lemma_declared_concat(seq![e], seq![bases] + scoped(enter, inner));
        lemma_climbs_up(t, i, seq![i], b, len, declared_nodes(inner));
        assert(all =~= seq![e] + (seq![bases] + scoped(enter, inner)));
        assert(declared_nodes(all) =~= seq![i] + declared_nodes(inner));
    } else {
        assert(all =~= seq![e] + seq![bases]);
        assert(declared_nodes(all) =~= seq![i]);
    }
}

/// The values of an enum come in order.
proof fn lemma_values_climb(src: Seq<char>, t: Seq<NodeModel>, list: Seq<int>)
    requires
        increases(list),
    ensures
        increases(declared_nodes(enumerator_events(src, t, list))),
        forall|n: int|
            0 <= n < declared_nodes(enumerator_events(src, t, list)).len() ==> list.contains(
                #[trigger] declared_nodes(enumerator_events(src, t, list))[n],
            ),
    decreases list.len(),
{
    if list.len() > 0 {
        let front = list.drop_last();
        let c = list.last();
        assert forall|a: int, b: int| 0 <= a < b < front.len() implies front[a] < front[b] by {
            assert(list[a] < list[b]);
        }
        lemma_values_climb(src, t, front);
        let before = enumerator_events(src, t, front);
        let d = enumerator_declaration(src, t, c);
        let last = plain_declaration(d);
        lemma_declared_one(Event::Declare(d));
        lemma_declared_concat(before, last);
        let s = declared_nodes(before);
        let all = declared_nodes(enumerator_events(src, t, list));
        assert(d.name.len() > 0 ==> all =~= s.push(c));
        assert(d.name.len() == 0 ==> all =~= s);
        assert forall|n: int| 0 <= n < all.len() implies list.contains(#[trigger] all[n]) by {
            if n < s.len() {
                assert(front.contains(s[n]));
                let k = choose|k: int| 0 <= k < front.len() && front[k] == s[n];
                assert(list[k] == all[n]);
            } else {
                assert(list[list.len() - 1] == c);
            }
        }
        assert forall|a: int, b: int| 0 <= a < b < all.len() implies all[a] < all[b] by {
            if b < s.len() {
                assert(s[a] < s[b]);
            } else {
                assert(front.contains(s[a]));
                let k = choose|k: int| 0 <= k < front.len() && front[k] == s[a];
                assert(list[k] < list[list.len() - 1]);
            }
        }
    }
}

/// The nodes of a kind among an increasing list increase.
pub proof fn lemma_of_kind_increases(t: Seq<NodeModel>, list: Seq<int>, kind: Seq<char>)
    requires
        increases(list),
    ensures
        increases(of_kind(t, list, kind)),
    decreases list.len(),
{
    if list.len() > 0 {
        let front = list.drop_last();
        assert forall|a: int, b: int| 0 <= a < b < front.len() implies front[a] < front[b] by {
            assert(list[a] < list[b]);
        }
        lemma_of_kind_increases(t, front, kind);
        let some = of_kind(t, front, kind);
        let all = of_kind(t, list, kind);
        assert forall|a: int, b: int| 0 <= a < b < all.len() implies all[a] < all[b] by {
            if b < some.len() {
                assert(some[a] < some[b]);
            } else {
                assert(some.contains(some[a]));
                lemma_listed(t, front, kind, some[a]);
                let k = choose|k: int| 0 <= k < front.len() && front[k] == some[a];
                assert(list[k] < list[list.len() - 1]);
            }
        }
    }
}

proof fn lemma_enum_climbs(src: Seq<char>, t: Seq<NodeModel>, i: int)
    requires
        0 <= i < t.len(),
        declared_name(src, t, i).len() > 0,
    ensures
        climbs(t, i, declared_nodes(enum_events(src, t, i))),
{
    let all = enum_events(src, t, i);
    let e = Event::Declare(documented(src, t, i, NodeKind::Enum));
    lemma_declared_one(e);
    if let Some(b) = field_child(t, i, "body"@) {
        let enter = Event::Enter(NodeKind::Enum, declared_name(src, t, i));
        let kids = named_children(t, b);
        let list = children_of_kind(t, b, "enumerator"@);
        let inner = enumerator_events(src, t, list);
        let s = declared_nodes(inner);
        law_field_child(t, i, "body"@);
        lemma_child_below(t, i, b);
        law_named_children(t, b);
        lemma_of_kind_increases(t, kids, "enumerator"@);
        lemma_values_climb(src, t, list);
        assert forall|n: int| 0 <= n < s.len() implies is_within(t, b, #[trigger] s[n]) by {
            assert(list.contains(s[n]));
            lemma_listed(t, kids, "enumerator"@, s[n]);
            let k = choose|k: int| 0 <= k < kids.len() && kids[k] == s[n];
            assert(is_below(t, b, kids[k]));
        }
        lemma_owned_climbs(t, i, e, enter, b, inner);
        assert(all =~= seq![e] + scoped(enter, inner));
    } else {
        assert(all =~= seq![e]);
    }
}

/// How many rows a walk has added, and by which node each was declared.
proof fn lemma_rows_counted(path: Seq<char>, src: Seq<char>, a: Seq<Event>)
    ensures
        walked(path, src, a).nodes.len() == 1 + declared_nodes(a).len(),
    decreases a.len(),
{
    let g0 = file_graph(path, src);
    if a.len() == 0 {
        lemma_run_none(g0);
        assert(a =~= Seq::<Event>::empty());
    } else {
        let front = a.drop_last();
        let e = a.last();
        lemma_rows_counted(path, src, front);
        assert(a =~= front + seq![e]);
        lemma_run_concat(g0, front, seq![e]);
        lemma_run_one(walked(path, src, front), e);
        lemma_event_nodes(walked(path, src, front), e);
    }
}

/// Whether `nodes` are the nodes of the rows of `g` after the first, row by row.
pub open spec fn are_row_nodes(
    path: Seq<char>,
    src: Seq<char>,
    t: Seq<NodeModel>,
    g: Graph,
    nodes: Seq<int>,
) -> bool {
    &&& nodes.len() + 1 == g.nodes.len()
    &&& forall|k: int|
        0 <= k < nodes.len() ==> describes_some(path, src, t, g, k + 1, #[trigger] nodes[k])
}

/// Whether the row `k` of `g` describes the declaration `j`.
pub open spec fn describes_some(
    path: Seq<char>,
    src: Seq<char>,
    t: Seq<NodeModel>,
    g: Graph,
    k: int,
    j: int,
) -> bool {
    exists|kind: NodeKind, name: Seq<char>| #[trigger]
        describes(path, src, t, g, k, j, kind, name)
}

/// Where no initializer of a variable defines a function, the rows after that of the file
/// are those of the declarations in the order of the tree, and no declaration has two.
pub proof fn law_rows_are_in_order(path: Seq<char>, src: Seq<char>, t: Seq<NodeModel>)
    requires
        t.len() > 0,
        initializers_are_plain(t),
        within_limits(whole_graph(path, src, t)),
    ensures
        exists|nodes: Seq<int>| #[trigger]
            are_row_nodes(path, src, t, whole_graph(path, src, t), nodes) && increases(nodes),
{
    let g = whole_graph(path, src, t);
    let all = visit_events(src, t, 0);
    let g1 = walked(path, src, all);
    let g2 = flush_candidates(g1, g1.candidates.len() as int);
    let nodes = declared_nodes(all);
    law_candidates_only_add(g1, g1.candidates.len() as int);
    law_values_only_add(g2, src, t, g2.value_scopes.len() as int);
    lemma_rows_counted(path, src, all);
    lemma_visit_climbs(src, t, 0);
    assert forall|k: int| 0 <= k < nodes.len() implies describes_some(
        path,
        src,
        t,
        g,
        k + 1,
        #[trigger] nodes[k],
    ) by {
        lemma_row_node(path, src, t, k);
    }
    assert(are_row_nodes(path, src, t, g, nodes));
}

/// The row number `k + 1` describes the node of the declaration number `k`.
proof fn lemma_row_node(path: Seq<char>, src: Seq<char>, t: Seq<NodeModel>, k: int)
    requires
        t.len() > 0,
        0 <= k < declared_nodes(visit_events(src, t, 0)).len(),
        within_limits(whole_graph(path, src, t)),
    ensures
        describes_some(
            path,
            src,
            t,
            whole_graph(path, src, t),
            k + 1,
            declared_nodes(visit_events(src, t, 0))[k],
        ),
{
    let g = whole_graph(path, src, t);
    let all = visit_events(src, t, 0);
    lemma_rows_counted(path, src, all);
    let n = lemma_row_event(path, src, all, k + 1);
    let a = all.take(n);
    let e = all[n];
    let b = all.skip(n + 1);
    let h = walked(path, src, a);
    assert(all =~= a + seq![e] + b);
    lemma_rows_counted(path, src, a);
    lemma_declared_concat(a, seq![e]);
    lemma_declared_concat(a + seq![e], b);
    lemma_declared_one(e);
    let d = event_declares(h, e)->0;
    assert(declared_nodes(all)[k] == d.node);
    lemma_event_origin(path, src, t, a, e, b);
    let (o, j) = choose|o: Option<int>, j: int| #[trigger]
        declares_at(src, t, h, o, j, e) && in_scope(path, src, t, g, h.stack, o);
    assert(declares_at(src, t, h, o, j, e));
    assert(d.node == j);
    lemma_declared_here(path, src, t, a, e, b, d);
    lemma_path(path, src, a);
    lemma_describes(path, src, t, g, h, j, d.kind, d.name);
}

} // verus!
