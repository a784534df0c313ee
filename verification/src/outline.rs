//! The outline of a file, read off its syntax tree: which nodes are statements, which
//! are code, and which declaration is the innermost around each.

use vstd::prelude::*;
use crate::balance::{
    balanced, law_children_are_balanced, lemma_balanced_arguments, lemma_balanced_body_each,
    lemma_balanced_concat, lemma_balanced_flat, lemma_balanced_variable,
};
use crate::events::{
    argument_events, body_each, body_events, call_events, declared_name, documented,
    extends_events, plain_declaration, script_declaration, syntax_kind, value_declaration,
    variable_events, visit_each, visit_events, SyntaxKind,
};
use crate::graph::Event;
use crate::kinds::NodeKind;
use crate::syntax::{field_child, named_children, node_text, of_kind, NodeModel};

verus! {

/// Whether `c` is one of the named children of `p`.
pub open spec fn is_named_child(t: Seq<NodeModel>, p: int, c: int) -> bool {
    0 <= p < t.len() && named_children(t, p).contains(c)
}

/// Whether `c` is the first named child of `p` of the given kind.
pub open spec fn is_first_of_kind(t: Seq<NodeModel>, p: int, kind: Seq<char>, c: int) -> bool {
    exists|n: int|
        {
            &&& 0 <= n < named_children(t, p).len()
            &&& #[trigger] named_children(t, p)[n] == c
            &&& t[c].kind == kind
            &&& forall|m: int| 0 <= m < n ==> t[#[trigger] named_children(t, p)[m]].kind != kind
        }
}

/// Whether `i` declares something called `name`, which is not empty: by the text of the
/// child in its `name` field, or, without one, by that of its first identifier.
pub open spec fn bears_name(src: Seq<char>, t: Seq<NodeModel>, i: int, name: Seq<char>) -> bool {
    &&& name.len() > 0
    &&& match field_child(t, i, "name"@) {
        Some(c) => name == node_text(src, t[c]),
        None => exists|c: int| #[trigger]
            is_first_of_kind(t, i, "identifier"@, c) && name == node_text(src, t[c]),
    }
}

/// Whether `i` declares something with a name.
pub open spec fn is_named(src: Seq<char>, t: Seq<NodeModel>, i: int) -> bool {
    exists|name: Seq<char>| bears_name(src, t, i, name)
}

/// Whether a node of this kind defines a function.
pub open spec fn is_function_kind(kind: Seq<char>) -> bool {
    kind == "function_definition"@ || kind == "static_function_definition"@
}

/// Whether the children of a node of this kind are no statements of what surrounds it.
pub open spec fn is_closed_kind(kind: Seq<char>) -> bool {
    kind == "class_definition"@ || is_function_kind(kind) || kind == "enum_definition"@ || kind
        == "lambda"@
}

/// Whether `c` is a named child of `i`, and statements of `i` are statements around it.
pub open spec fn is_plain_step(t: Seq<NodeModel>, i: int, c: int) -> bool {
    is_named_child(t, i, c) && !is_closed_kind(t[i].kind)
}

/// Whether `j` is a statement at or below `i`, with no class, function, enum or lambda
/// in between.
pub open spec fn is_statement_of(t: Seq<NodeModel>, i: int, j: int) -> bool
    decreases t.len() - i,
{
    ||| i == j
    ||| exists|c: int|
        i < c < t.len() && #[trigger] is_plain_step(t, i, c) && is_statement_of(t, c, j)
}

/// The body of a class definition with a name.
pub open spec fn class_body(src: Seq<char>, t: Seq<NodeModel>, c: int) -> Option<int> {
    if 0 <= c < t.len() && t[c].kind == "class_definition"@ && is_named(src, t, c) {
        field_child(t, c, "body"@)
    } else {
        None
    }
}

/// Whether `m` stands directly in the body of the class definition `c`.
pub open spec fn is_member(src: Seq<char>, t: Seq<NodeModel>, c: int, m: int) -> bool {
    class_body(src, t, c) matches Some(b) && is_named_child(t, b, m)
}

/// Whether `j` is a statement at or below `i`, or of a class there, or of a class in
/// such a class, and so on.
pub open spec fn is_nested_statement(src: Seq<char>, t: Seq<NodeModel>, i: int, j: int) -> bool
    decreases t.len() - i,
{
    ||| is_statement_of(t, i, j)
    ||| exists|c: int, m: int|
        i < m < t.len() && is_statement_of(t, i, c) && #[trigger] is_member(src, t, c, m)
            && is_nested_statement(src, t, m, j)
}

/// Whether `j` is a statement of the file or of one of its classes.
pub open spec fn is_statement(src: Seq<char>, t: Seq<NodeModel>, j: int) -> bool {
    0 <= j < t.len() && is_nested_statement(src, t, 0, j)
}

/// Whether `c` is a named child of `i`, and code of `i` is code around it.
pub open spec fn is_code_step(t: Seq<NodeModel>, i: int, c: int) -> bool {
    is_named_child(t, i, c) && !is_function_kind(t[i].kind)
}

/// Whether `j` is code at or below `i`, with no function in between.
pub open spec fn is_code_of(t: Seq<NodeModel>, i: int, j: int) -> bool
    decreases t.len() - i,
{
    ||| i == j
    ||| exists|c: int| i < c < t.len() && #[trigger] is_code_step(t, i, c) && is_code_of(t, c, j)
}

/// The code that belongs to a declaration: the body of a function with a name or of a
/// lambda, or the initializer of a variable with a name.
pub open spec fn code_body(src: Seq<char>, t: Seq<NodeModel>, o: int) -> Option<int> {
    if !(0 <= o < t.len()) {
        None
    } else if is_function_kind(t[o].kind) && is_named(src, t, o) {
        field_child(t, o, "body"@)
    } else if t[o].kind == "lambda"@ {
        field_child(t, o, "body"@)
    } else if t[o].kind == "variable_statement"@ && is_named(src, t, o) {
        field_child(t, o, "value"@)
    } else {
        None
    }
}

/// Whether `j` is code of a function, lambda or variable of the file.
pub open spec fn is_code(src: Seq<char>, t: Seq<NodeModel>, j: int) -> bool
    decreases j,
{
    exists|o: int|
        {
            &&& 0 <= o < j < t.len()
            &&& #[trigger] holds_code(src, t, o, j)
            &&& is_statement(src, t, o) || (is_function_kind(t[o].kind) && is_code(src, t, o))
        }
}

/// Whether `j` is code of the declaration `o`.
pub open spec fn holds_code(src: Seq<char>, t: Seq<NodeModel>, o: int, j: int) -> bool {
    code_body(src, t, o) matches Some(b) && is_code_of(t, b, j)
}

/// Whether the statement `j` stands directly in the file, or in the class `o` of it.
pub open spec fn is_statement_in(
    src: Seq<char>,
    t: Seq<NodeModel>,
    o: Option<int>,
    j: int,
) -> bool {
    &&& 0 <= j < t.len()
    &&& match o {
        None => is_statement_of(t, 0, j),
        Some(c) => is_statement(src, t, c) && exists|m: int| #[trigger]
            is_member(src, t, c, m) && is_statement_of(t, m, j),
    }
}

/// Whether the code `j` belongs to the declaration `o` of the file.
pub open spec fn is_code_in(src: Seq<char>, t: Seq<NodeModel>, o: int, j: int) -> bool {
    &&& 0 <= o < j < t.len()
    &&& holds_code(src, t, o, j)
    &&& is_statement(src, t, o) || (is_function_kind(t[o].kind) && is_code(src, t, o))
}

/// What the sorts of syntax nodes mean.
pub proof fn lemma_sorts(kind: Seq<char>)
    ensures
        kind == "class_name_statement"@ <==> syntax_kind(kind) == SyntaxKind::ClassNameStatement,
        kind == "class_definition"@ <==> syntax_kind(kind) == SyntaxKind::ClassDefinition,
        is_function_kind(kind) <==> (syntax_kind(kind) == SyntaxKind::FunctionDefinition
            || syntax_kind(kind) == SyntaxKind::StaticFunctionDefinition),
        kind == "variable_statement"@ <==> syntax_kind(kind) == SyntaxKind::VariableStatement,
        kind == "const_statement"@ <==> syntax_kind(kind) == SyntaxKind::ConstStatement,
        kind == "signal_statement"@ <==> syntax_kind(kind) == SyntaxKind::SignalStatement,
        kind == "enum_definition"@ <==> syntax_kind(kind) == SyntaxKind::EnumDefinition,
        kind == "lambda"@ <==> syntax_kind(kind) == SyntaxKind::Lambda,
        kind == "call"@ <==> syntax_kind(kind) == SyntaxKind::Call,
        kind == "extends_statement"@ <==> syntax_kind(kind) == SyntaxKind::ExtendsStatement,
{
    reveal_strlit("class_name_statement");
    reveal_strlit("class_definition");
    reveal_strlit("function_definition");
    reveal_strlit("static_function_definition");
    reveal_strlit("variable_statement");
    reveal_strlit("const_statement");
    reveal_strlit("signal_statement");
    reveal_strlit("enum_definition");
    reveal_strlit("lambda");
    reveal_strlit("call");
    reveal_strlit("extends_statement");
    assert("class_name_statement"@.len() == 20);
    assert("class_definition"@.len() == 16);
    assert("function_definition"@.len() == 19);
    assert("static_function_definition"@.len() == 26);
    assert("variable_statement"@.len() == 18);
    assert("const_statement"@.len() == 15);
    assert("signal_statement"@.len() == 16);
    assert("enum_definition"@.len() == 15);
    assert("lambda"@.len() == 6);
    assert("call"@.len() == 4);
    assert("extends_statement"@.len() == 17);
    assert("class_definition"@[0] == 'c');
    assert("signal_statement"@[0] == 's');
    assert("const_statement"@[0] == 'c');
    assert("enum_definition"@[0] == 'e');
}

proof fn lemma_first_of_kind(t: Seq<NodeModel>, list: Seq<int>, kind: Seq<char>, n: int)
    requires
        0 <= n < list.len(),
        t[list[n]].kind == kind,
        forall|m: int| 0 <= m < n ==> t[#[trigger] list[m]].kind != kind,
    ensures
        of_kind(t, list, kind).len() > 0,
        of_kind(t, list, kind)[0] == list[n],
    decreases list.len(),
{
    let front = list.drop_last();
    if n < list.len() - 1 {
        assert(front[n] == list[n]);
        assert forall|m: int| 0 <= m < n implies t[#[trigger] front[m]].kind != kind by {
            assert(front[m] == list[m]);
        }
        lemma_first_of_kind(t, front, kind, n);
    } else {
        assert forall|m: int| 0 <= m < front.len() implies t[#[trigger] front[m]].kind != kind by {
            assert(front[m] == list[m]);
        }
        lemma_none_of_kind(t, front, kind);
    }
}

proof fn lemma_none_of_kind(t: Seq<NodeModel>, list: Seq<int>, kind: Seq<char>)
    requires
        forall|m: int| 0 <= m < list.len() ==> t[#[trigger] list[m]].kind != kind,
    ensures
        of_kind(t, list, kind).len() == 0,
    decreases list.len(),
{
    if list.len() > 0 {
        let front = list.drop_last();
        assert forall|m: int| 0 <= m < front.len() implies t[#[trigger] front[m]].kind != kind by {
            assert(front[m] == list[m]);
        }
        lemma_none_of_kind(t, front, kind);
        assert(list[list.len() - 1] == list.last());
    }
}

/// A node bears at most one name, the one that it declares.
pub proof fn law_names(src: Seq<char>, t: Seq<NodeModel>, i: int, name: Seq<char>)
    requires
        bears_name(src, t, i, name),
    ensures
        declared_name(src, t, i) == name,
{
    if field_child(t, i, "name"@) is None {
        let c = choose|c: int| #[trigger]
            is_first_of_kind(t, i, "identifier"@, c) && name == node_text(src, t[c]);
        let kids = named_children(t, i);
        let n = choose|n: int|
            {
                &&& 0 <= n < named_children(t, i).len()
                &&& #[trigger] named_children(t, i)[n] == c
                &&& t[c].kind == "identifier"@
                &&& forall|m: int|
                    0 <= m < n ==> t[#[trigger] named_children(t, i)[m]].kind != "identifier"@
            };
        lemma_first_of_kind(t, kids, "identifier"@, n);
    }
}

/// What is met before and after the named child number `n` of `p`.
pub proof fn lemma_each_split(
    src: Seq<char>,
    t: Seq<NodeModel>,
    p: int,
    n: int,
    len: int,
) -> (r: Seq<Event>)
    requires
        0 <= p < t.len(),
        0 <= n < len <= named_children(t, p).len(),
    ensures
        visit_each(src, t, p, len) == visit_each(src, t, p, n) + visit_events(
            src,
            t,
            named_children(t, p)[n],
        ) + r,
    decreases len,
{
    let last = visit_events(src, t, named_children(t, p)[len - 1]);
    if n == len - 1 {
        let r = Seq::<Event>::empty();
        assert(visit_each(src, t, p, len) =~= visit_each(src, t, p, n) + last + r);
        r
    } else {
        let before = lemma_each_split(src, t, p, n, len - 1);
        let r = before + last;
        assert(visit_each(src, t, p, len) =~= visit_each(src, t, p, n) + visit_events(
            src,
            t,
            named_children(t, p)[n],
        ) + r);
        r
    }
}

/// What is met before and after the named child number `n` of `p`, in code.
pub proof fn lemma_code_split(
    src: Seq<char>,
    t: Seq<NodeModel>,
    p: int,
    n: int,
    len: int,
) -> (r: Seq<Event>)
    requires
        0 <= p < t.len(),
        0 <= n < len <= named_children(t, p).len(),
    ensures
        body_each(src, t, p, len) == body_each(src, t, p, n) + body_events(
            src,
            t,
            named_children(t, p)[n],
        ) + r,
    decreases len,
{
    let last = body_events(src, t, named_children(t, p)[len - 1]);
    if n == len - 1 {
        let r = Seq::<Event>::empty();
        assert(body_each(src, t, p, len) =~= body_each(src, t, p, n) + last + r);
        r
    } else {
        let before = lemma_code_split(src, t, p, n, len - 1);
        let r = before + last;
        assert(body_each(src, t, p, len) =~= body_each(src, t, p, n) + body_events(
            src,
            t,
            named_children(t, p)[n],
        ) + r);
        r
    }
}

/// What a node that is not closed gives rise to, before its children.
pub open spec fn own_events(src: Seq<char>, t: Seq<NodeModel>, i: int) -> Seq<Event> {
    match syntax_kind(t[i].kind) {
        SyntaxKind::ClassNameStatement => script_declaration(
            documented(src, t, i, NodeKind::Class),
        ),
        SyntaxKind::VariableStatement => variable_events(src, t, i),
        SyntaxKind::ConstStatement => plain_declaration(
            value_declaration(src, t, i, NodeKind::Constant),
        ),
        SyntaxKind::SignalStatement => plain_declaration(
            documented(src, t, i, NodeKind::Variable),
        ),
        SyntaxKind::Call => call_events(src, t, i),
        SyntaxKind::ExtendsStatement => extends_events(src, t, i),
        _ => seq![],
    }
}

/// What a node gives rise to itself is balanced.
pub proof fn lemma_own_balanced(src: Seq<char>, t: Seq<NodeModel>, i: int)
    ensures
        balanced(own_events(src, t, i)),
{
    match syntax_kind(t[i].kind) {
        SyntaxKind::VariableStatement => lemma_balanced_variable(src, t, i),
        _ => lemma_balanced_flat(own_events(src, t, i)),
    }
}

/// What a node that is not closed gives rise to: its arguments, itself, its children.
pub proof fn lemma_open_node(src: Seq<char>, t: Seq<NodeModel>, i: int)
    requires
        0 <= i < t.len(),
        !is_closed_kind(t[i].kind),
    ensures
        visit_events(src, t, i) == argument_events(src, t, i) + own_events(src, t, i)
            + visit_each(src, t, i, named_children(t, i).len() as int),
{
    lemma_sorts(t[i].kind);
    let rest = visit_each(src, t, i, named_children(t, i).len() as int);
    let args = argument_events(src, t, i);
    assert(visit_events(src, t, i) =~= args + own_events(src, t, i) + rest);
}

/// A part of a part is a part.
pub proof fn lemma_inner_part(
    x: Seq<Event>,
    outer: Seq<Event>,
    y: Seq<Event>,
    p: Seq<Event>,
    inner: Seq<Event>,
    q: Seq<Event>,
)
    requires
        outer == p + inner + q,
    ensures
        x + outer + y == (x + p) + inner + (q + y),
{
    assert(x + outer + y =~= (x + p) + inner + (q + y));
}

proof fn lemma_step_pieces(
    args: Seq<Event>,
    own: Seq<Event>,
    before: Seq<Event>,
    at: Seq<Event>,
    tail: Seq<Event>,
)
    ensures
        args + own + (before + at + tail) == args + own + before + at + tail,
{
    assert(args + own + (before + at + tail) =~= args + own + before + at + tail);
}

/// The walk of a statement that is not closed comes to each of its named children.
proof fn lemma_child_split(src: Seq<char>, t: Seq<NodeModel>, i: int, c: int) -> (r: (
    Seq<Event>,
    Seq<Event>,
))
    requires
        is_plain_step(t, i, c),
    ensures
        visit_events(src, t, i) == r.0 + visit_events(src, t, c) + r.1,
        balanced(r.0),
{
    let kids = named_children(t, i);
    let n = choose|n: int| 0 <= n < kids.len() && kids[n] == c;
    let tail = lemma_each_split(src, t, i, n, kids.len() as int);
    let args = argument_events(src, t, i);
    let own = own_events(src, t, i);
    let before = visit_each(src, t, i, n);
    lemma_open_node(src, t, i);
    lemma_balanced_arguments(src, t, i);
    lemma_own_balanced(src, t, i);
    law_children_are_balanced(src, t, i, n);
    lemma_balanced_concat(args, own);
    lemma_balanced_concat(args + own, before);
    lemma_step_pieces(args, own, before, visit_events(src, t, c), tail);
    (args + own + before, tail)
}

/// The walk of code that is not a function comes to each of its named children.
proof fn lemma_code_child_split(src: Seq<char>, t: Seq<NodeModel>, i: int, c: int) -> (r: (
    Seq<Event>,
    Seq<Event>,
))
    requires
        is_code_step(t, i, c),
    ensures
        body_events(src, t, i) == r.0 + body_events(src, t, c) + r.1,
        balanced(r.0),
{
    let kids = named_children(t, i);
    let n = choose|n: int| 0 <= n < kids.len() && kids[n] == c;
    let tail = lemma_code_split(src, t, i, n, kids.len() as int);
    let args = argument_events(src, t, i);
    let own = own_code_events(src, t, i);
    let before = body_each(src, t, i, n);
    lemma_code_node(src, t, i);
    lemma_balanced_arguments(src, t, i);
    lemma_balanced_flat(own);
    lemma_balanced_body_each(src, t, i, n);
    lemma_balanced_concat(args, own);
    lemma_balanced_concat(args + own, before);
    lemma_step_pieces(args, own, before, body_events(src, t, c), tail);
    (args + own + before, tail)
}

/// Where `j` is a statement of `i`, the walk of `i` comes to it with as many open scopes
/// as it started with.
pub proof fn lemma_statement_split(src: Seq<char>, t: Seq<NodeModel>, i: int, j: int) -> (r: (
    Seq<Event>,
    Seq<Event>,
))
    requires
        0 <= i < t.len(),
        is_statement_of(t, i, j),
    ensures
        visit_events(src, t, i) == r.0 + visit_events(src, t, j) + r.1,
        balanced(r.0),
        i <= j < t.len(),
    decreases t.len() - i,
{
    if i == j {
        let none = Seq::<Event>::empty();
        lemma_balanced_flat(none);
        assert(visit_events(src, t, i) =~= none + visit_events(src, t, j) + none);
        (none, none)
    } else {
        let c = choose|c: int|
            i < c < t.len() && #[trigger] is_plain_step(t, i, c) && is_statement_of(t, c, j);
        let (p, q) = lemma_child_split(src, t, i, c);
        let (x, y) = lemma_statement_split(src, t, c, j);
        lemma_balanced_concat(p, x);
        lemma_inner_part(p, visit_events(src, t, c), q, x, visit_events(src, t, j), y);
        (p + x, y + q)
    }
}

/// What a call calls, and nothing for any other node.
pub open spec fn own_code_events(src: Seq<char>, t: Seq<NodeModel>, i: int) -> Seq<Event> {
    if t[i].kind == "call"@ {
        call_events(src, t, i)
    } else {
        seq![]
    }
}

/// What a node of code that is not a function gives rise to: its arguments, itself, its
/// children.
pub proof fn lemma_code_node(src: Seq<char>, t: Seq<NodeModel>, i: int)
    requires
        0 <= i < t.len(),
        !is_function_kind(t[i].kind),
    ensures
        body_events(src, t, i) == argument_events(src, t, i) + own_code_events(src, t, i)
            + body_each(src, t, i, named_children(t, i).len() as int),
{
    lemma_sorts(t[i].kind);
    let rest = body_each(src, t, i, named_children(t, i).len() as int);
    let args = argument_events(src, t, i);
    assert(args + (own_code_events(src, t, i) + rest) =~= args + own_code_events(src, t, i)
        + rest);
    if t[i].kind != "call"@ {
        assert(own_code_events(src, t, i) + rest =~= rest);
    }
}

/// Where `j` is code of `i`, the walk of `i` as code comes to it with as many open scopes
/// as it started with.
pub proof fn lemma_code_path_split(src: Seq<char>, t: Seq<NodeModel>, i: int, j: int) -> (r: (
    Seq<Event>,
    Seq<Event>,
))
    requires
        0 <= i < t.len(),
        is_code_of(t, i, j),
    ensures
        body_events(src, t, i) == r.0 + body_events(src, t, j) + r.1,
        balanced(r.0),
        i <= j < t.len(),
    decreases t.len() - i,
{
    if i == j {
        let none = Seq::<Event>::empty();
        lemma_balanced_flat(none);
        assert(body_events(src, t, i) =~= none + body_events(src, t, j) + none);
        (none, none)
    } else {
        let c = choose|c: int|
            i < c < t.len() && #[trigger] is_code_step(t, i, c) && is_code_of(t, c, j);
        let (p, q) = lemma_code_child_split(src, t, i, c);
        let (x, y) = lemma_code_path_split(src, t, c, j);
        lemma_balanced_concat(p, x);
        lemma_inner_part(p, body_events(src, t, c), q, x, body_events(src, t, j), y);
        (p + x, y + q)
    }
}

} // verus!
