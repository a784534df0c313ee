//! Where everything that the walk comes upon stands in the syntax tree.

use vstd::prelude::*;
use crate::balance::{
    balanced, law_children_are_balanced, lemma_balanced_arguments, lemma_balanced_body_each,
    lemma_balanced_flat, lemma_open_scopes_stay, rise,
};
use crate::events::{
    argument_events, argument_list, base_mention, base_of, body_each, body_events, call_events,
    callee_of, class_events, declared_name, documented, enum_events, enumerator_declaration,
    enumerator_events, extends_events, first_base, function_declaration, function_events,
    inherited, lambda_declaration, lambda_events, mention_of, names_base, start_line_of,
    syntax_kind, value_declaration, visit_each, visit_events, whole_graph, SyntaxKind,
};
use crate::graph::{
    callable_kind, file_graph, lemma_run_concat, lemma_run_none, Event, Graph, Mention,
};
use crate::kinds::NodeKind;
use crate::laws::{lemma_argument_list_flat, lemma_enumerators_flat};
use crate::mentions::{is_callee, is_met_in};
use crate::nesting::{
    event_declares, is_called, is_line, lemma_class_opens, lemma_inside, lemma_inside_class,
    lemma_kinds_differ, lemma_no_arguments, lemma_owner_opens, made_by, owner_enter, owner_event,
    recorded_as, walked,
};
use crate::outline::{
    bears_name, class_body, code_body, holds_code, is_closed_kind, is_code, is_code_in, is_code_of,
    is_code_step, is_first_of_kind, is_function_kind, is_member, is_named, is_named_child,
    is_nested_statement, is_plain_step, is_statement, is_statement_in, is_statement_of,
    lemma_code_node, lemma_open_node, lemma_own_balanced, lemma_sorts, own_code_events, own_events,
};
use crate::placement::{
    declares, in_scope, is_enum_value, lemma_enum_made, lemma_enum_opens, lemma_in_scope,
    lemma_listed, lemma_made_by_class, lemma_not_enumerator, lemma_opened, lemma_owner_made,
};
use crate::soundness::within_limits;
use crate::syntax::{
    children_of_kind, field_child, law_field_child, lemma_named_child_range, named_children,
    node_text, of_kind, NodeModel,
};

verus! {

/// Whether `j` makes a declaration directly in the declaration `o`, or in the file where
/// there is none.
pub open spec fn is_declared_in(src: Seq<char>, t: Seq<NodeModel>, o: Option<int>, j: int) -> bool {
    ||| is_statement_in(src, t, o, j) && declares(t[j].kind)
    ||| o matches Some(c) && is_code_in(src, t, c, j) && is_function_kind(t[j].kind)
    ||| o matches Some(c) && is_enum_value(src, t, c, j)
}

/// Whether a node of this kind can name a base class.
pub open spec fn is_base_kind(kind: Seq<char>) -> bool {
    kind == "identifier"@ || kind == "type"@ || kind == "string"@
}

/// Whether the node `c` is the first named child of `i` by which a base class can be
/// named: an identifier, a type or a string.
pub open spec fn is_base(t: Seq<NodeModel>, i: int, c: int) -> bool {
    exists|n: int|
        {
            &&& 0 <= n < named_children(t, i).len()
            &&& #[trigger] named_children(t, i)[n] == c
            &&& is_base_kind(t[c].kind)
            &&& forall|m: int|
                0 <= m < n ==> !is_base_kind(t[#[trigger] named_children(t, i)[m]].kind)
        }
}

/// Whether the event `e` declares what the node `j` declares in `o`, in the state `h`.
pub open spec fn declares_at(
    src: Seq<char>,
    t: Seq<NodeModel>,
    h: Graph,
    o: Option<int>,
    j: int,
    e: Event,
) -> bool {
    &&& is_declared_in(src, t, o, j)
    &&& is_function_kind(t[j].kind) ==> e is DeclareCallable
    &&& event_declares(h, e) matches Some(d) && {
        &&& d == made_by(src, t, j, d.kind)
        &&& recorded_as(t[j].kind, d.kind)
        &&& is_called(src, t, j, d.name)
    }
}

/// Whether `m` is what the call `j` calls.
pub open spec fn calls_at(
    src: Seq<char>,
    t: Seq<NodeModel>,
    o: Option<int>,
    j: int,
    c: int,
    m: Mention,
) -> bool {
    &&& is_met_in(src, t, o, j)
    &&& t[j].kind == "call"@
    &&& is_callee(t, j, c)
    &&& m == mention_of(src, t[c])
}

/// Whether `m` is an identifier that the call `j` passes.
pub open spec fn passes_at(
    src: Seq<char>,
    t: Seq<NodeModel>,
    o: Option<int>,
    j: int,
    c: int,
    m: Mention,
) -> bool {
    &&& is_met_in(src, t, o, j)
    &&& t[j].kind == "call"@
    &&& field_child(t, j, "arguments"@) matches Some(a) && is_named_child(t, a, c)
    &&& t[c].kind == "identifier"@
    &&& m == mention_of(src, t[c])
}

/// Whether `m` is the base class that the `extends` statement `j` names.
pub open spec fn extends_at(
    src: Seq<char>,
    t: Seq<NodeModel>,
    o: Option<int>,
    j: int,
    c: int,
    m: Mention,
) -> bool {
    &&& is_statement_in(src, t, o, j)
    &&& t[j].kind == "extends_statement"@
    &&& is_base(t, j, c)
    &&& m == base_mention(src, t[c])
}

/// Whether the event `e`, after the events `a` of the walk of a file, comes from a node of
/// the tree, met while the declaration around that node is innermost.
pub open spec fn comes_from_tree(
    path: Seq<char>,
    src: Seq<char>,
    t: Seq<NodeModel>,
    a: Seq<Event>,
    e: Event,
) -> bool {
    let g = whole_graph(path, src, t);
    let h = walked(path, src, a);
    match e {
        Event::Declare(_) | Event::DeclareCallable(_) => exists|o: Option<int>, j: int| #[trigger]
            declares_at(src, t, h, o, j, e) && in_scope(path, src, t, g, h.stack, o),
        Event::Call(m) => exists|o: Option<int>, j: int, c: int| #[trigger]
            calls_at(src, t, o, j, c, m) && in_scope(path, src, t, g, h.stack, o),
        Event::Argument(m) => exists|o: Option<int>, j: int, c: int| #[trigger]
            passes_at(src, t, o, j, c, m) && in_scope(path, src, t, g, h.stack, o),
        Event::Extend(m) => exists|o: Option<int>, j: int, c: int| #[trigger]
            extends_at(src, t, o, j, c, m) && in_scope(path, src, t, g, h.stack, o),
        Event::Inherit(ms) => exists|c: int|
            {
                &&& 0 <= c < t.len()
                &&& t[c].kind == "class_definition"@
                &&& is_statement(src, t, c)
                &&& ms == #[trigger] inherited(src, t, c)
                &&& a.len() > 0
                &&& a.last() == Event::Declare(documented(src, t, c, NodeKind::Class))
            },
        Event::NameScript => exists|c: int|
            {
                &&& 0 <= c < t.len()
                &&& t[c].kind == "class_name_statement"@
                &&& is_statement(src, t, c)
                &&& a.len() > 0
                &&& a.last() == Event::Declare(#[trigger] documented(src, t, c, NodeKind::Class))
            },
        _ => true,
    }
}

/// Whether all of the events `s`, after the events `a`, come from the tree.
pub open spec fn all_from_tree(
    path: Seq<char>,
    src: Seq<char>,
    t: Seq<NodeModel>,
    a: Seq<Event>,
    s: Seq<Event>,
) -> bool {
    forall|n: int|
        0 <= n < s.len() ==> comes_from_tree(path, src, t, a + #[trigger] s.take(n), s[n])
}

proof fn lemma_from_tree_one(
    path: Seq<char>,
    src: Seq<char>,
    t: Seq<NodeModel>,
    a: Seq<Event>,
    e: Event,
)
    requires
        comes_from_tree(path, src, t, a, e),
    ensures
        all_from_tree(path, src, t, a, seq![e]),
{
    assert forall|n: int| 0 <= n < 1 implies comes_from_tree(
        path,
        src,
        t,
        a + #[trigger] seq![e].take(n),
        seq![e][n],
    ) by {
        assert(a + seq![e].take(n) =~= a);
    }
}

proof fn lemma_from_tree_concat(
    path: Seq<char>,
    src: Seq<char>,
    t: Seq<NodeModel>,
    a: Seq<Event>,
    x: Seq<Event>,
    y: Seq<Event>,
)
    requires
        all_from_tree(path, src, t, a, x),
        all_from_tree(path, src, t, a + x, y),
    ensures
        all_from_tree(path, src, t, a, x + y),
{
    let s = x + y;
    assert forall|n: int| 0 <= n < s.len() implies comes_from_tree(
        path,
        src,
        t,
        a + #[trigger] s.take(n),
        s[n],
    ) by {
        if n < x.len() {
            assert(s.take(n) =~= x.take(n));
        } else {
            let m = n - x.len();
            assert(a + s.take(n) =~= (a + x) + y.take(m));
            assert(s[n] == y[m]);
        }
    }
}

/// A named child of a plain statement is a statement too.
proof fn lemma_statement_step(t: Seq<NodeModel>, r: int, i: int, c: int)
    requires
        0 <= r < t.len(),
        is_statement_of(t, r, i),
        is_plain_step(t, i, c),
        i < c < t.len(),
    ensures
        is_statement_of(t, r, c),
    decreases t.len() - r,
{
    if r == i {
        assert(is_statement_of(t, c, c));
    } else {
        let m = choose|m: int|
            r < m < t.len() && #[trigger] is_plain_step(t, r, m) && is_statement_of(t, m, i);
        lemma_statement_step(t, m, i, c);
    }
}

proof fn lemma_statement_in_step(src: Seq<char>, t: Seq<NodeModel>, o: Option<int>, i: int, c: int)
    requires
        t.len() > 0,
        is_statement_in(src, t, o, i),
        is_plain_step(t, i, c),
        i < c < t.len(),
    ensures
        is_statement_in(src, t, o, c),
{
    match o {
        None => lemma_statement_step(t, 0, i, c),
        Some(k) => {
            let m = choose|m: int| #[trigger]
                is_member(src, t, k, m) && is_statement_of(t, m, i);
            lemma_member_range(src, t, k, m);
            lemma_statement_step(t, m, i, c);
            assert(is_member(src, t, k, m) && is_statement_of(t, m, c));
        },
    }
}

proof fn lemma_member_range(src: Seq<char>, t: Seq<NodeModel>, c: int, m: int)
    requires
        is_member(src, t, c, m),
    ensures
        0 <= c < m < t.len(),
{
    let body = class_body(src, t, c)->0;
    law_field_child(t, c, "body"@);
    let kids = named_children(t, body);
    let n = choose|n: int| 0 <= n < kids.len() && kids[n] == m;
    lemma_named_child_range(t, body, n);
}

/// Statements of a class of a file are statements of the file's classes.
proof fn lemma_nested_step(src: Seq<char>, t: Seq<NodeModel>, i: int, c: int, m: int, j: int)
    requires
        0 <= i < t.len(),
        is_nested_statement(src, t, i, c),
        is_member(src, t, c, m),
        is_nested_statement(src, t, m, j),
    ensures
        is_nested_statement(src, t, i, j),
    decreases t.len() - i,
{
    lemma_member_range(src, t, c, m);
    if is_statement_of(t, i, c) {
        lemma_statement_range(t, i, c);
        assert(i < m < t.len());
        assert(is_statement_of(t, i, c) && is_member(src, t, c, m) && is_nested_statement(
            src,
            t,
            m,
            j,
        ));
    } else {
        let (d, n) = choose|d: int, n: int|
            i < n < t.len() && is_statement_of(t, i, d) && #[trigger] is_member(src, t, d, n)
                && is_nested_statement(src, t, n, c);
        lemma_nested_step(src, t, n, c, m, j);
        assert(is_member(src, t, d, n) && is_nested_statement(src, t, n, j));
    }
}

proof fn lemma_statement_range(t: Seq<NodeModel>, i: int, j: int)
    requires
        0 <= i < t.len(),
        is_statement_of(t, i, j),
    ensures
        i <= j < t.len(),
    decreases t.len() - i,
{
    if i != j {
        let c = choose|c: int|
            i < c < t.len() && #[trigger] is_plain_step(t, i, c) && is_statement_of(t, c, j);
        lemma_statement_range(t, c, j);
    }
}

/// What stands in a class or file is a statement of the file.
pub proof fn lemma_in_file(src: Seq<char>, t: Seq<NodeModel>, o: Option<int>, j: int)
    requires
        t.len() > 0,
        is_statement_in(src, t, o, j),
    ensures
        is_statement(src, t, j),
{
    if let Some(c) = o {
        let m = choose|m: int| #[trigger] is_member(src, t, c, m) && is_statement_of(t, m, j);
        assert(is_nested_statement(src, t, m, j));
        lemma_nested_step(src, t, 0, c, m, j);
    }
}

/// A named child of code is code too.
pub proof fn lemma_code_step(t: Seq<NodeModel>, r: int, i: int, c: int)
    requires
        0 <= r < t.len(),
        is_code_of(t, r, i),
        is_code_step(t, i, c),
        i < c < t.len(),
    ensures
        is_code_of(t, r, c),
    decreases t.len() - r,
{
    if r == i {
        assert(is_code_of(t, c, c));
    } else {
        let m = choose|m: int|
            r < m < t.len() && #[trigger] is_code_step(t, r, m) && is_code_of(t, m, i);
        lemma_code_step(t, m, i, c);
    }
}

/// What is noted among arguments comes from the tree.
proof fn lemma_arguments_from_tree(
    path: Seq<char>,
    src: Seq<char>,
    t: Seq<NodeModel>,
    a: Seq<Event>,
    o: Option<int>,
    j: int,
    args: int,
    list: Seq<int>,
)
    requires
        in_scope(path, src, t, whole_graph(path, src, t), walked(path, src, a).stack, o),
        is_met_in(src, t, o, j),
        t[j].kind == "call"@,
        field_child(t, j, "arguments"@) == Some(args),
        forall|n: int|
            0 <= n < list.len() ==> is_named_child(t, args, #[trigger] list[n]) && t[list[n]].kind
                == "identifier"@,
    ensures
        all_from_tree(path, src, t, a, argument_list(src, t, list)),
    decreases list.len(),
{
    if list.len() > 0 {
        let front = list.drop_last();
        let c = list.last();
        assert(list[list.len() - 1] == c);
        assert forall|n: int| 0 <= n < front.len() implies is_named_child(
            t,
            args,
            #[trigger] front[n],
        ) && t[front[n]].kind == "identifier"@ by {
            assert(front[n] == list[n]);
        }
        lemma_arguments_from_tree(path, src, t, a, o, j, args, front);
        let before = argument_list(src, t, front);
        if node_text(src, t[c]).len() > 0 {
            let m = mention_of(src, t[c]);
            let e = Event::Argument(m);
            lemma_argument_list_flat(src, t, front);
            assert forall|k: int| 0 <= k < before.len() implies rise(#[trigger] before[k])
                == 0 by {
                assert(before[k] is Argument);
            }
            lemma_balanced_flat(before);
            lemma_scope_stays(path, src, a, before);
            assert(passes_at(src, t, o, j, c, m));
            assert(e->Argument_0 == m);
            lemma_from_tree_one(path, src, t, a + before, e);
            lemma_from_tree_concat(path, src, t, a, before, seq![e]);
            assert(before.push(e) =~= before + seq![e]);
        }
    }
}

/// Balanced events leave the open scopes as they are.
proof fn lemma_scope_stays(path: Seq<char>, src: Seq<char>, a: Seq<Event>, x: Seq<Event>)
    requires
        balanced(x),
    ensures
        walked(path, src, a + x).stack == walked(path, src, a).stack,
{
    lemma_run_concat(file_graph(path, src), a, x);
    lemma_open_scopes_stay(walked(path, src, a), x, 0);
}

/// The arguments that a node passes come from the tree.
proof fn lemma_own_arguments_from_tree(
    path: Seq<char>,
    src: Seq<char>,
    t: Seq<NodeModel>,
    a: Seq<Event>,
    o: Option<int>,
    j: int,
)
    requires
        in_scope(path, src, t, whole_graph(path, src, t), walked(path, src, a).stack, o),
        is_met_in(src, t, o, j),
    ensures
        all_from_tree(path, src, t, a, argument_events(src, t, j)),
{
    if t[j].kind == "call"@ {
        if let Some(args) = field_child(t, j, "arguments"@) {
            let list = children_of_kind(t, args, "identifier"@);
            assert forall|n: int| 0 <= n < list.len() implies is_named_child(
                t,
                args,
                #[trigger] list[n],
            ) && t[list[n]].kind == "identifier"@ by {
                assert(list.contains(list[n]));
                lemma_listed(t, named_children(t, args), "identifier"@, list[n]);
                lemma_met_range(src, t, o, j);
                law_field_child(t, j, "arguments"@);
            }
            lemma_arguments_from_tree(path, src, t, a, o, j, args, list);
        }
    }
}

proof fn lemma_met_range(src: Seq<char>, t: Seq<NodeModel>, o: Option<int>, j: int)
    requires
        is_met_in(src, t, o, j),
    ensures
        0 <= j < t.len(),
{
}

/// What a call calls comes from the tree.
proof fn lemma_call_from_tree(
    path: Seq<char>,
    src: Seq<char>,
    t: Seq<NodeModel>,
    a: Seq<Event>,
    o: Option<int>,
    j: int,
)
    requires
        in_scope(path, src, t, whole_graph(path, src, t), walked(path, src, a).stack, o),
        is_met_in(src, t, o, j),
        t[j].kind == "call"@,
    ensures
        all_from_tree(path, src, t, a, call_events(src, t, j)),
{
    if let Some(c) = callee_of(t, j) {
        let m = mention_of(src, t[c]);
        let e = Event::Call(m);
        assert(calls_at(src, t, o, j, c, m));
        assert(e->Call_0 == m);
        lemma_from_tree_one(path, src, t, a, e);
    }
}

/// The base class that a statement names comes from the tree.
proof fn lemma_extends_from_tree(
    path: Seq<char>,
    src: Seq<char>,
    t: Seq<NodeModel>,
    a: Seq<Event>,
    o: Option<int>,
    j: int,
)
    requires
        in_scope(path, src, t, whole_graph(path, src, t), walked(path, src, a).stack, o),
        is_statement_in(src, t, o, j),
        t[j].kind == "extends_statement"@,
    ensures
        all_from_tree(path, src, t, a, extends_events(src, t, j)),
{
    if let Some(c) = base_of(t, j) {
        let m = base_mention(src, t[c]);
        lemma_first_base(t, named_children(t, j), 0);
        assert(is_base(t, j, c));
        let e = Event::Extend(m);
        assert(extends_at(src, t, o, j, c, m));
        assert(e->Extend_0 == m);
        lemma_from_tree_one(path, src, t, a, e);
    }
}

/// The first node that names a base class, and that there is none.
pub proof fn lemma_first_base(t: Seq<NodeModel>, list: Seq<int>, k: int)
    requires
        0 <= k <= list.len(),
    ensures
        match first_base(t, list, k) {
            Some(c) => exists|n: int|
                {
                    &&& k <= n < list.len()
                    &&& #[trigger] list[n] == c
                    &&& names_base(t[c].kind)
                    &&& forall|m: int| k <= m < n ==> !names_base(t[#[trigger] list[m]].kind)
                },
            None => forall|m: int|
                k <= m < list.len() ==> !names_base(t[#[trigger] list[m]].kind),
        },
    decreases list.len() - k,
{
    if k < list.len() {
        if names_base(t[list[k]].kind) {
            assert(list[k] == first_base(t, list, k)->0);
        } else {
            lemma_first_base(t, list, k + 1);
        }
    }
}

/// A declaring event that comes from the tree.
proof fn lemma_declared_from_tree(
    path: Seq<char>,
    src: Seq<char>,
    t: Seq<NodeModel>,
    a: Seq<Event>,
    o: Option<int>,
    j: int,
    e: Event,
    kind: NodeKind,
)
    requires
        in_scope(path, src, t, whole_graph(path, src, t), walked(path, src, a).stack, o),
        is_declared_in(src, t, o, j),
        event_declares(walked(path, src, a), e) == Some(made_by(src, t, j, kind)),
        made_by(src, t, j, kind).kind == kind,
        recorded_as(t[j].kind, kind),
        is_called(src, t, j, made_by(src, t, j, kind).name),
        is_function_kind(t[j].kind) ==> e is DeclareCallable,
    ensures
        all_from_tree(path, src, t, a, seq![e]),
{
    let h = walked(path, src, a);
    assert(declares_at(src, t, h, o, j, e));
    assert(in_scope(path, src, t, whole_graph(path, src, t), h.stack, o));
    assert(comes_from_tree(path, src, t, a, e));
    lemma_from_tree_one(path, src, t, a, e);
}

/// What a node declares is a name that it bears.
pub proof fn lemma_bears_declared(src: Seq<char>, t: Seq<NodeModel>, i: int)
    requires
        declared_name(src, t, i).len() > 0,
    ensures
        bears_name(src, t, i, declared_name(src, t, i)),
        is_named(src, t, i),
{
    if field_child(t, i, "name"@) is None {
        let kids = named_children(t, i);
        lemma_first_listed(t, kids, "identifier"@);
        let ids = of_kind(t, kids, "identifier"@);
        assert(is_first_of_kind(t, i, "identifier"@, ids[0]));
    }
    assert(bears_name(src, t, i, declared_name(src, t, i)));
}

proof fn lemma_first_listed(t: Seq<NodeModel>, list: Seq<int>, kind: Seq<char>)
    ensures
        of_kind(t, list, kind).len() > 0 ==> exists|n: int|
            {
                &&& 0 <= n < list.len()
                &&& #[trigger] list[n] == of_kind(t, list, kind)[0]
                &&& t[list[n]].kind == kind
                &&& forall|m: int| 0 <= m < n ==> t[#[trigger] list[m]].kind != kind
            },
        of_kind(t, list, kind).len() == 0 ==> forall|m: int|
            0 <= m < list.len() ==> t[#[trigger] list[m]].kind != kind,
    decreases list.len(),
{
    if list.len() > 0 {
        let front = list.drop_last();
        lemma_first_listed(t, front, kind);
        let some = of_kind(t, front, kind);
        if some.len() > 0 {
            let n = choose|n: int|
                {
                    &&& 0 <= n < front.len()
                    &&& #[trigger] front[n] == some[0]
                    &&& t[front[n]].kind == kind
                    &&& forall|m: int| 0 <= m < n ==> t[#[trigger] front[m]].kind != kind
                };
            assert(list[n] == some[0]);
            assert forall|m: int| 0 <= m < n implies t[#[trigger] list[m]].kind != kind by {
                assert(front[m] == list[m]);
            }
            assert(of_kind(t, list, kind)[0] == some[0]);
        } else {
            let last = list.len() - 1;
            assert forall|m: int| 0 <= m < last implies t[#[trigger] list[m]].kind != kind by {
                assert(front[m] == list[m]);
            }
            if t[list[last]].kind == kind {
                assert(list[last] == of_kind(t, list, kind)[0]);
            }
        }
    }
}

/// An event that says nothing of the tree.
proof fn lemma_from_tree_bracket(
    path: Seq<char>,
    src: Seq<char>,
    t: Seq<NodeModel>,
    a: Seq<Event>,
    e: Event,
)
    requires
        e is Enter || e is EnterInitializer || e is Leave,
    ensures
        all_from_tree(path, src, t, a, seq![e]),
{
    lemma_from_tree_one(path, src, t, a, e);
}

/// What the walk of code comes upon comes from the tree.
proof fn lemma_body_from_tree(
    path: Seq<char>,
    src: Seq<char>,
    t: Seq<NodeModel>,
    a: Seq<Event>,
    i: int,
    b: Seq<Event>,
    o: int,
)
    requires
        visit_events(src, t, 0) == a + body_events(src, t, i) + b,
        in_scope(path, src, t, whole_graph(path, src, t), walked(path, src, a).stack, Some(o)),
        is_code_in(src, t, o, i),
        within_limits(whole_graph(path, src, t)),
    ensures
        all_from_tree(path, src, t, a, body_events(src, t, i)),
    decreases t.len() - i, 2int, 0int,
{
    let home = Some(o);
    assert(home->0 == o);
    if is_function_kind(t[i].kind) {
        lemma_sorts(t[i].kind);
        lemma_no_arguments(src, t, i);
        assert(body_events(src, t, i) =~= function_events(src, t, i));
        assert(is_declared_in(src, t, home, i));
        assert(is_code(src, t, i)) by {
            assert(holds_code(src, t, o, i));
        }
        lemma_function_from_tree(path, src, t, a, i, b, home);
    } else {
        let args = argument_events(src, t, i);
        let own = own_code_events(src, t, i);
        let len = named_children(t, i).len() as int;
        let rest = body_each(src, t, i, len);
        lemma_code_node(src, t, i);
        assert(is_met_in(src, t, home, i));
        lemma_own_arguments_from_tree(path, src, t, a, home, i);
        lemma_balanced_arguments(src, t, i);
        lemma_scope_stays(path, src, a, args);
        lemma_balanced_flat(own);
        lemma_scope_stays(path, src, a + args, own);
        if t[i].kind == "call"@ {
            lemma_call_from_tree(path, src, t, a + args, home, i);
        }
        lemma_from_tree_concat(path, src, t, a, args, own);
        assert(a + args + own =~= a + (args + own));
        assert(a + (args + own + rest) + b =~= a + (args + own) + rest + b);
        lemma_body_each_from_tree(path, src, t, a + (args + own), i, len, b, o);
        lemma_from_tree_concat(path, src, t, a, args + own, rest);
    }
}

proof fn lemma_body_each_from_tree(
    path: Seq<char>,
    src: Seq<char>,
    t: Seq<NodeModel>,
    a: Seq<Event>,
    p: int,
    n: int,
    b: Seq<Event>,
    o: int,
)
    requires
        visit_events(src, t, 0) == a + body_each(src, t, p, n) + b,
        in_scope(path, src, t, whole_graph(path, src, t), walked(path, src, a).stack, Some(o)),
        is_code_in(src, t, o, p),
        !is_function_kind(t[p].kind),
        0 <= n <= named_children(t, p).len(),
        within_limits(whole_graph(path, src, t)),
    ensures
        all_from_tree(path, src, t, a, body_each(src, t, p, n)),
    decreases t.len() - p, 0int, n,
{
    if n > 0 {
        let c = named_children(t, p)[n - 1];
        let before = body_each(src, t, p, n - 1);
        let own = body_events(src, t, c);
        lemma_named_child_range(t, p, n - 1);
        assert(a + (before + own) + b =~= a + before + (own + b));
        assert(a + (before + own) + b =~= (a + before) + own + b);
        lemma_body_each_from_tree(path, src, t, a, p, n - 1, own + b, o);
        lemma_balanced_body_each(src, t, p, n - 1);
        lemma_scope_stays(path, src, a, before);
        assert(is_code_step(t, p, c));
        let body = code_body(src, t, o)->0;
        lemma_owner_opens(src, t, o);
        lemma_code_step(t, body, p, c);
        lemma_body_from_tree(path, src, t, a + before, c, b, o);
        lemma_from_tree_concat(path, src, t, a, before, own);
    }
}

/// What the walk of a function comes upon comes from the tree.
proof fn lemma_function_from_tree(
    path: Seq<char>,
    src: Seq<char>,
    t: Seq<NodeModel>,
    a: Seq<Event>,
    i: int,
    b: Seq<Event>,
    home: Option<int>,
)
    requires
        0 <= i < t.len(),
        visit_events(src, t, 0) == a + function_events(src, t, i) + b,
        in_scope(path, src, t, whole_graph(path, src, t), walked(path, src, a).stack, home),
        is_declared_in(src, t, home, i),
        is_function_kind(t[i].kind),
        is_statement(src, t, i) || is_code(src, t, i),
        within_limits(whole_graph(path, src, t)),
    ensures
        all_from_tree(path, src, t, a, function_events(src, t, i)),
    decreases t.len() - i, 1int, 0int,
{
    let name = declared_name(src, t, i);
    if name.len() > 0 {
        let e = Event::DeclareCallable(function_declaration(src, t, i));
        let all = function_events(src, t, i);
        lemma_bears_declared(src, t, i);
        lemma_kinds_differ();
        if field_child(t, i, "body"@) is Some {
            let body = field_child(t, i, "body"@)->0;
            let enter = owner_enter(src, t, i);
            let head = seq![e] + seq![enter] + body_events(src, t, body);
            assert(all =~= head + seq![Event::Leave]);
            assert(a + all + b =~= a + head + (seq![Event::Leave] + b));
            lemma_owner_from_tree(path, src, t, a, i, seq![Event::Leave] + b, home);
            lemma_from_tree_bracket(path, src, t, a + head, Event::Leave);
            lemma_from_tree_concat(path, src, t, a, head, seq![Event::Leave]);
        } else {
            assert(all =~= seq![e]);
            let kind = callable_kind(walked(path, src, a).stack);
            lemma_declared_from_tree(path, src, t, a, home, i, e, kind);
        }
    }
}

/// What the walk of an owner of code comes upon comes from the tree.
proof fn lemma_owner_from_tree(
    path: Seq<char>,
    src: Seq<char>,
    t: Seq<NodeModel>,
    a: Seq<Event>,
    o: int,
    b: Seq<Event>,
    home: Option<int>,
)
    requires
        code_body(src, t, o) is Some,
        visit_events(src, t, 0) == a + (seq![owner_event(src, t, o)] + seq![
            owner_enter(src, t, o),
        ] + body_events(src, t, code_body(src, t, o)->0)) + b,
        in_scope(path, src, t, whole_graph(path, src, t), walked(path, src, a).stack, home),
        is_declared_in(src, t, home, o),
        is_statement(src, t, o) || (is_function_kind(t[o].kind) && is_code(src, t, o)),
        within_limits(whole_graph(path, src, t)),
    ensures
        all_from_tree(
            path,
            src,
            t,
            a,
            seq![owner_event(src, t, o)] + seq![owner_enter(src, t, o)] + body_events(
                src,
                t,
                code_body(src, t, o)->0,
            ),
        ),
    decreases t.len() - o, 0int, 0int,
{
    let g = whole_graph(path, src, t);
    let h = walked(path, src, a);
    let body = code_body(src, t, o)->0;
    let e = owner_event(src, t, o);
    let enter = owner_enter(src, t, o);
    let inner = body_events(src, t, body);
    let none = Seq::<Event>::empty();
    lemma_owner_opens(src, t, o);
    let (kind, name) = lemma_owner_made(src, t, h, o);
    let d = made_by(src, t, o, kind);
    lemma_balanced_flat(none);
    let all = visit_events(src, t, 0);
    assert(all =~= a + seq![e] + seq![enter] + none + (inner + b));
    lemma_inside(path, src, t, a, e, enter, none, inner + b, d);
    let rest = seq![enter] + (inner + b);
    assert(all =~= a + seq![e] + rest);
    let at = a + (seq![e] + seq![enter]);
    assert(a + seq![e] + seq![enter] + none =~= at);
    lemma_opened(path, src, t, a, e, rest, o, kind, name, walked(path, src, at).stack);
    lemma_in_scope(path, src, t, g, walked(path, src, at).stack, o, kind, name);
    lemma_declared_from_tree(path, src, t, a, home, o, e, kind);
    lemma_from_tree_bracket(path, src, t, a + seq![e], enter);
    lemma_from_tree_concat(path, src, t, a, seq![e], seq![enter]);
    assert(all =~= at + inner + b);
    assert(is_code_of(t, body, body));
    assert(is_code_in(src, t, o, body));
    lemma_body_from_tree(path, src, t, at, body, b, o);
    lemma_from_tree_concat(path, src, t, a, seq![e] + seq![enter], inner);
}

/// The declaration of a statement without code of its own comes from the tree.
proof fn lemma_plain_from_tree(
    path: Seq<char>,
    src: Seq<char>,
    t: Seq<NodeModel>,
    a: Seq<Event>,
    i: int,
    kind: NodeKind,
    o: Option<int>,
)
    requires
        in_scope(path, src, t, whole_graph(path, src, t), walked(path, src, a).stack, o),
        is_statement_in(src, t, o, i),
        declares(t[i].kind),
        t[i].kind != "lambda"@,
        !is_function_kind(t[i].kind),
        recorded_as(t[i].kind, kind),
        declared_name(src, t, i).len() > 0,
    ensures
        all_from_tree(path, src, t, a, seq![Event::Declare(made_by(src, t, i, kind))]),
{
    lemma_bears_declared(src, t, i);
    lemma_not_enumerator(t[i].kind);
    lemma_declared_from_tree(
        path,
        src,
        t,
        a,
        o,
        i,
        Event::Declare(made_by(src, t, i, kind)),
        kind,
    );
}

/// What a statement that is not closed gives rise to itself comes from the tree.
proof fn lemma_own_from_tree(
    path: Seq<char>,
    src: Seq<char>,
    t: Seq<NodeModel>,
    a: Seq<Event>,
    i: int,
    b: Seq<Event>,
    o: Option<int>,
)
    requires
        t.len() > 0,
        visit_events(src, t, 0) == a + own_events(src, t, i) + b,
        in_scope(path, src, t, whole_graph(path, src, t), walked(path, src, a).stack, o),
        is_statement_in(src, t, o, i),
        within_limits(whole_graph(path, src, t)),
    ensures
        all_from_tree(path, src, t, a, own_events(src, t, i)),
{
    lemma_sorts(t[i].kind);
    lemma_kinds_differ();
    lemma_in_file(src, t, o, i);
    let own = own_events(src, t, i);
    let named = declared_name(src, t, i).len() > 0;
    match syntax_kind(t[i].kind) {
        SyntaxKind::ClassNameStatement => if named {
            lemma_not_enumerator(t[i].kind);
            let d = documented(src, t, i, NodeKind::Class);
            let e = Event::Declare(d);
            lemma_plain_from_tree(path, src, t, a, i, NodeKind::Class, o);
            assert((a + seq![e]).last() == e);
            lemma_from_tree_one(path, src, t, a + seq![e], Event::NameScript);
            lemma_from_tree_concat(path, src, t, a, seq![e], seq![Event::NameScript]);
            assert(own =~= seq![e] + seq![Event::NameScript]);
        },
        SyntaxKind::VariableStatement => if named {
            let e = Event::Declare(value_declaration(src, t, i, NodeKind::Variable));
            lemma_bears_declared(src, t, i);
            if field_child(t, i, "value"@) is Some {
                let v = field_child(t, i, "value"@)->0;
                let head = seq![e] + seq![Event::EnterInitializer] + body_events(src, t, v);
                assert(own =~= head + seq![Event::Leave]);
                assert(a + own + b =~= a + head + (seq![Event::Leave] + b));
                lemma_owner_from_tree(path, src, t, a, i, seq![Event::Leave] + b, o);
                lemma_from_tree_bracket(path, src, t, a + head, Event::Leave);
                lemma_from_tree_concat(path, src, t, a, head, seq![Event::Leave]);
            } else {
                assert(own =~= seq![e]);
                lemma_plain_from_tree(path, src, t, a, i, NodeKind::Variable, o);
            }
        },
        SyntaxKind::ConstStatement => if named {
            lemma_plain_from_tree(path, src, t, a, i, NodeKind::Constant, o);
        },
        SyntaxKind::SignalStatement => if named {
            lemma_not_enumerator(t[i].kind);
            lemma_plain_from_tree(path, src, t, a, i, NodeKind::Variable, o);
        },
        SyntaxKind::Call => lemma_call_from_tree(path, src, t, a, o, i),
        SyntaxKind::ExtendsStatement => lemma_extends_from_tree(path, src, t, a, o, i),
        _ => {},
    }
}

/// What the walk of a statement comes upon comes from the tree.
proof fn lemma_visit_from_tree(
    path: Seq<char>,
    src: Seq<char>,
    t: Seq<NodeModel>,
    a: Seq<Event>,
    i: int,
    b: Seq<Event>,
    o: Option<int>,
)
    requires
        t.len() > 0,
        visit_events(src, t, 0) == a + visit_events(src, t, i) + b,
        in_scope(path, src, t, whole_graph(path, src, t), walked(path, src, a).stack, o),
        is_statement_in(src, t, o, i),
        within_limits(whole_graph(path, src, t)),
    ensures
        all_from_tree(path, src, t, a, visit_events(src, t, i)),
    decreases t.len() - i, 2int, 0int,
{
    if is_closed_kind(t[i].kind) {
        lemma_closed_from_tree(path, src, t, a, i, b, o);
    } else {
        let args = argument_events(src, t, i);
        let own = own_events(src, t, i);
        let len = named_children(t, i).len() as int;
        let rest = visit_each(src, t, i, len);
        lemma_open_node(src, t, i);
        lemma_own_arguments_from_tree(path, src, t, a, o, i);
        lemma_balanced_arguments(src, t, i);
        lemma_scope_stays(path, src, a, args);
        assert(a + (args + own + rest) + b =~= (a + args) + own + (rest + b));
        lemma_own_from_tree(path, src, t, a + args, i, rest + b, o);
        lemma_own_balanced(src, t, i);
        lemma_scope_stays(path, src, a + args, own);
        lemma_from_tree_concat(path, src, t, a, args, own);
        assert(a + args + own =~= a + (args + own));
        assert(a + (args + own + rest) + b =~= a + (args + own) + rest + b);
        assert forall|m: int| 0 <= m < len implies is_statement_in(
            src,
            t,
            o,
            #[trigger] named_children(t, i)[m],
        ) by {
            let c = named_children(t, i)[m];
            lemma_named_child_range(t, i, m);
            assert(is_plain_step(t, i, c));
            lemma_statement_in_step(src, t, o, i, c);
        }
        lemma_each_from_tree(path, src, t, a + (args + own), i, len, b, o);
        lemma_from_tree_concat(path, src, t, a, args + own, rest);
    }
}

proof fn lemma_each_from_tree(
    path: Seq<char>,
    src: Seq<char>,
    t: Seq<NodeModel>,
    a: Seq<Event>,
    p: int,
    n: int,
    b: Seq<Event>,
    o: Option<int>,
)
    requires
        t.len() > 0,
        0 <= p < t.len(),
        visit_events(src, t, 0) == a + visit_each(src, t, p, n) + b,
        in_scope(path, src, t, whole_graph(path, src, t), walked(path, src, a).stack, o),
        0 <= n <= named_children(t, p).len(),
        forall|m: int|
            0 <= m < n ==> is_statement_in(src, t, o, #[trigger] named_children(t, p)[m]),
        within_limits(whole_graph(path, src, t)),
    ensures
        all_from_tree(path, src, t, a, visit_each(src, t, p, n)),
    decreases t.len() - p, 0int, n,
{
    if n > 0 {
        let c = named_children(t, p)[n - 1];
        let before = visit_each(src, t, p, n - 1);
        let own = visit_events(src, t, c);
        lemma_named_child_range(t, p, n - 1);
        assert(a + (before + own) + b =~= a + before + (own + b));
        assert(a + (before + own) + b =~= (a + before) + own + b);
        lemma_each_from_tree(path, src, t, a, p, n - 1, own + b, o);
        law_children_are_balanced(src, t, p, n - 1);
        lemma_scope_stays(path, src, a, before);
        lemma_visit_from_tree(path, src, t, a + before, c, b, o);
        lemma_from_tree_concat(path, src, t, a, before, own);
    }
}

/// What the walk of a class, function, enum or lambda comes upon comes from the tree.
proof fn lemma_closed_from_tree(
    path: Seq<char>,
    src: Seq<char>,
    t: Seq<NodeModel>,
    a: Seq<Event>,
    i: int,
    b: Seq<Event>,
    o: Option<int>,
)
    requires
        t.len() > 0,
        visit_events(src, t, 0) == a + visit_events(src, t, i) + b,
        in_scope(path, src, t, whole_graph(path, src, t), walked(path, src, a).stack, o),
        is_statement_in(src, t, o, i),
        is_closed_kind(t[i].kind),
        within_limits(whole_graph(path, src, t)),
    ensures
        all_from_tree(path, src, t, a, visit_events(src, t, i)),
    decreases t.len() - i, 1int, 0int,
{
    lemma_sorts(t[i].kind);
    lemma_not_enumerator(t[i].kind);
    lemma_no_arguments(src, t, i);
    lemma_in_file(src, t, o, i);
    if is_function_kind(t[i].kind) {
        assert(visit_events(src, t, i) =~= function_events(src, t, i));
        lemma_function_from_tree(path, src, t, a, i, b, o);
    } else if t[i].kind == "class_definition"@ {
        assert(visit_events(src, t, i) =~= class_events(src, t, i));
        if declared_name(src, t, i).len() > 0 {
            lemma_class_from_tree(path, src, t, a, i, b, o);
        }
    } else if t[i].kind == "enum_definition"@ {
        assert(visit_events(src, t, i) =~= enum_events(src, t, i));
        if declared_name(src, t, i).len() > 0 {
            lemma_enum_from_tree(path, src, t, a, i, b, o);
        }
    } else {
        lemma_lambda_from_tree(path, src, t, a, i, b, o);
    }
}

proof fn lemma_lambda_from_tree(
    path: Seq<char>,
    src: Seq<char>,
    t: Seq<NodeModel>,
    a: Seq<Event>,
    i: int,
    b: Seq<Event>,
    o: Option<int>,
)
    requires
        t.len() > 0,
        visit_events(src, t, 0) == a + visit_events(src, t, i) + b,
        in_scope(path, src, t, whole_graph(path, src, t), walked(path, src, a).stack, o),
        is_statement_in(src, t, o, i),
        t[i].kind == "lambda"@,
        within_limits(whole_graph(path, src, t)),
    ensures
        all_from_tree(path, src, t, a, visit_events(src, t, i)),
{
    let all = visit_events(src, t, i);
    let e = Event::Declare(lambda_declaration(src, t, i));
    lemma_sorts(t[i].kind);
    lemma_kinds_differ();
    lemma_not_enumerator(t[i].kind);
    lemma_no_arguments(src, t, i);
    lemma_in_file(src, t, o, i);
    assert(all =~= lambda_events(src, t, i));
    if field_child(t, i, "body"@) is Some {
        let body = field_child(t, i, "body"@)->0;
        let enter = owner_enter(src, t, i);
        let head = seq![e] + seq![enter] + body_events(src, t, body);
        assert(all =~= head + seq![Event::Leave]);
        assert(a + all + b =~= a + head + (seq![Event::Leave] + b));
        lemma_owner_from_tree(path, src, t, a, i, seq![Event::Leave] + b, o);
        lemma_from_tree_bracket(path, src, t, a + head, Event::Leave);
        lemma_from_tree_concat(path, src, t, a, head, seq![Event::Leave]);
    } else {
        assert(all =~= seq![e]);
        assert(is_line(t[i].start_row, start_line_of(t[i])));
        lemma_declared_from_tree(path, src, t, a, o, i, e, NodeKind::Function);
    }
}

proof fn lemma_class_from_tree(
    path: Seq<char>,
    src: Seq<char>,
    t: Seq<NodeModel>,
    a: Seq<Event>,
    i: int,
    b: Seq<Event>,
    o: Option<int>,
)
    requires
        t.len() > 0,
        visit_events(src, t, 0) == a + visit_events(src, t, i) + b,
        in_scope(path, src, t, whole_graph(path, src, t), walked(path, src, a).stack, o),
        is_statement_in(src, t, o, i),
        t[i].kind == "class_definition"@,
        declared_name(src, t, i).len() > 0,
        within_limits(whole_graph(path, src, t)),
    ensures
        all_from_tree(path, src, t, a, visit_events(src, t, i)),
    decreases t.len() - i, 0int, 0int,
{
    let g = whole_graph(path, src, t);
    let name = declared_name(src, t, i);
    let d = documented(src, t, i, NodeKind::Class);
    let e = Event::Declare(d);
    let bases = Event::Inherit(inherited(src, t, i));
    let all = visit_events(src, t, i);
    lemma_sorts(t[i].kind);
    lemma_made_by_class(src, t, i);
    lemma_bears_declared(src, t, i);
    lemma_in_file(src, t, o, i);
    lemma_plain_from_tree(path, src, t, a, i, NodeKind::Class, o);
    assert((a + seq![e]).last() == e);
    lemma_from_tree_one(path, src, t, a + seq![e], bases);
    lemma_from_tree_concat(path, src, t, a, seq![e], seq![bases]);
    if field_child(t, i, "body"@) is Some {
        let body = field_child(t, i, "body"@)->0;
        let enter = Event::Enter(NodeKind::Class, name);
        let len = named_children(t, body).len() as int;
        let inner = visit_each(src, t, body, len);
        let none = Seq::<Event>::empty();
        let head = seq![e] + seq![bases] + seq![enter];
        law_field_child(t, i, "body"@);
        lemma_class_opens(src, t, i, name, body);
        lemma_from_tree_bracket(path, src, t, a + (seq![e] + seq![bases]), enter);
        lemma_from_tree_concat(path, src, t, a, seq![e] + seq![bases], seq![enter]);
        let at = a + head;
        let tail = seq![Event::Leave] + b;
        let whole = visit_events(src, t, 0);
        assert(whole =~= a + seq![e] + seq![bases] + seq![enter] + none + (inner + tail));
        lemma_balanced_flat(none);
        lemma_inside_class(path, src, t, a, e, bases, enter, none, inner + tail, d);
        assert(a + seq![e] + seq![bases] + seq![enter] + none =~= at);
        let rest = seq![bases] + seq![enter] + (inner + tail);
        assert(whole =~= a + seq![e] + rest);
        let stack = walked(path, src, at).stack;
        lemma_opened(path, src, t, a, e, rest, i, NodeKind::Class, name, stack);
        lemma_in_scope(path, src, t, g, stack, i, NodeKind::Class, name);
        assert(whole =~= at + inner + tail);
        assert forall|m: int| 0 <= m < len implies is_statement_in(
            src,
            t,
            Some(i),
            #[trigger] named_children(t, body)[m],
        ) by {
            lemma_member_statement(src, t, i, body, m);
        }
        lemma_each_from_tree(path, src, t, at, body, len, tail, Some(i));
        lemma_from_tree_concat(path, src, t, a, head, inner);
        assert(at + inner =~= a + (head + inner));
        lemma_from_tree_bracket(path, src, t, a + (head + inner), Event::Leave);
        lemma_from_tree_concat(path, src, t, a, head + inner, seq![Event::Leave]);
        assert(all =~= (head + inner) + seq![Event::Leave]);
    } else {
        lemma_no_arguments(src, t, i);
        assert(all =~= seq![e] + seq![bases]);
    }
}

proof fn lemma_member_statement(src: Seq<char>, t: Seq<NodeModel>, c: int, body: int, m: int)
    requires
        is_statement(src, t, c),
        t[c].kind == "class_definition"@,
        is_named(src, t, c),
        field_child(t, c, "body"@) == Some(body),
        0 <= m < named_children(t, body).len(),
    ensures
        is_statement_in(src, t, Some(c), named_children(t, body)[m]),
{
    let k = named_children(t, body)[m];
    law_field_child(t, c, "body"@);
    lemma_named_child_range(t, body, m);
    assert(is_named_child(t, body, k));
    assert(is_member(src, t, c, k));
    assert(is_statement_of(t, k, k));
}

/// What the walk of the values of an enum comes upon comes from the tree.
proof fn lemma_values_from_tree(
    path: Seq<char>,
    src: Seq<char>,
    t: Seq<NodeModel>,
    a: Seq<Event>,
    o: int,
    list: Seq<int>,
)
    requires
        in_scope(path, src, t, whole_graph(path, src, t), walked(path, src, a).stack, Some(o)),
        forall|n: int| 0 <= n < list.len() ==> is_enum_value(src, t, o, #[trigger] list[n]),
    ensures
        all_from_tree(path, src, t, a, enumerator_events(src, t, list)),
    decreases list.len(),
{
    if list.len() > 0 {
        let front = list.drop_last();
        let c = list.last();
        assert(list[list.len() - 1] == c);
        assert forall|n: int| 0 <= n < front.len() implies is_enum_value(
            src,
            t,
            o,
            #[trigger] front[n],
        ) by {
            assert(front[n] == list[n]);
        }
        lemma_values_from_tree(path, src, t, a, o, front);
        let before = enumerator_events(src, t, front);
        let d = enumerator_declaration(src, t, c);
        if d.name.len() > 0 {
            let e = Event::Declare(d);
            lemma_enumerators_flat(src, t, front);
            assert forall|k: int| 0 <= k < before.len() implies rise(#[trigger] before[k])
                == 0 by {
                assert(before[k] is Declare);
            }
            lemma_balanced_flat(before);
            lemma_scope_stays(path, src, a, before);
            lemma_bears_declared(src, t, c);
            lemma_kinds_differ();
            let home = Some(o);
            assert(home->0 == o);
            lemma_declared_from_tree(
                path,
                src,
                t,
                a + before,
                home,
                c,
                e,
                NodeKind::Constant,
            );
            lemma_from_tree_concat(path, src, t, a, before, seq![e]);
        } else {
            assert(before + Seq::<Event>::empty() =~= before);
        }
    }
}

proof fn lemma_enum_from_tree(
    path: Seq<char>,
    src: Seq<char>,
    t: Seq<NodeModel>,
    a: Seq<Event>,
    i: int,
    b: Seq<Event>,
    o: Option<int>,
)
    requires
        t.len() > 0,
        visit_events(src, t, 0) == a + visit_events(src, t, i) + b,
        in_scope(path, src, t, whole_graph(path, src, t), walked(path, src, a).stack, o),
        is_statement_in(src, t, o, i),
        t[i].kind == "enum_definition"@,
        declared_name(src, t, i).len() > 0,
        within_limits(whole_graph(path, src, t)),
    ensures
        all_from_tree(path, src, t, a, visit_events(src, t, i)),
{
    let g = whole_graph(path, src, t);
    let name = declared_name(src, t, i);
    let d = documented(src, t, i, NodeKind::Enum);
    let e = Event::Declare(d);
    let all = visit_events(src, t, i);
    lemma_sorts(t[i].kind);
    lemma_enum_made(src, t, i);
    lemma_not_enumerator(t[i].kind);
    lemma_no_arguments(src, t, i);
    lemma_bears_declared(src, t, i);
    lemma_in_file(src, t, o, i);
    lemma_plain_from_tree(path, src, t, a, i, NodeKind::Enum, o);
    if field_child(t, i, "body"@) is Some {
        let body = field_child(t, i, "body"@)->0;
        let enter = Event::Enter(NodeKind::Enum, name);
        let list = children_of_kind(t, body, "enumerator"@);
        let inner = enumerator_events(src, t, list);
        let none = Seq::<Event>::empty();
        let head = seq![e] + seq![enter];
        law_field_child(t, i, "body"@);
        lemma_enum_opens(src, t, i, name, body);
        lemma_from_tree_bracket(path, src, t, a + seq![e], enter);
        lemma_from_tree_concat(path, src, t, a, seq![e], seq![enter]);
        let at = a + head;
        let tail = seq![Event::Leave] + b;
        let whole = visit_events(src, t, 0);
        assert(whole =~= a + seq![e] + seq![enter] + none + (inner + tail));
        lemma_balanced_flat(none);
        lemma_inside(path, src, t, a, e, enter, none, inner + tail, d);
        assert(a + seq![e] + seq![enter] + none =~= at);
        let rest = seq![enter] + (inner + tail);
        assert(whole =~= a + seq![e] + rest);
        let stack = walked(path, src, at).stack;
        lemma_opened(path, src, t, a, e, rest, i, NodeKind::Enum, name, stack);
        lemma_in_scope(path, src, t, g, stack, i, NodeKind::Enum, name);
        assert forall|n: int| 0 <= n < list.len() implies is_enum_value(
            src,
            t,
            i,
            #[trigger] list[n],
        ) by {
            assert(list.contains(list[n]));
            lemma_listed(t, named_children(t, body), "enumerator"@, list[n]);
        }
        lemma_values_from_tree(path, src, t, at, i, list);
        lemma_from_tree_concat(path, src, t, a, head, inner);
        lemma_from_tree_bracket(path, src, t, a + (head + inner), Event::Leave);
        lemma_from_tree_concat(path, src, t, a, head + inner, seq![Event::Leave]);
        assert(all =~= (head + inner) + seq![Event::Leave]);
    } else {
        assert(all =~= seq![e]);
    }
}

/// Everything that the walk of a file comes upon comes from the tree.
pub proof fn lemma_walk_from_tree(path: Seq<char>, src: Seq<char>, t: Seq<NodeModel>)
    requires
        t.len() > 0,
        within_limits(whole_graph(path, src, t)),
    ensures
        all_from_tree(path, src, t, Seq::<Event>::empty(), visit_events(src, t, 0)),
{
    let none = Seq::<Event>::empty();
    lemma_run_none(file_graph(path, src));
    assert(visit_events(src, t, 0) =~= none + visit_events(src, t, 0) + none);
    assert(is_statement_of(t, 0, 0));
    lemma_visit_from_tree(path, src, t, none, 0, none, None);
}

} // verus!
