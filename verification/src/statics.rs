//! Whether a function is static makes no difference to the graph.

use vstd::prelude::*;
use crate::docstring::{comments_before, docstring_of};
use crate::events::{
    argument_events, argument_list, base_mention, base_of, body_each, body_events, call_events,
    callee_of, class_events, clause_mentions, declared_name, documented, enum_events,
    enumerator_declaration, enumerator_events, extends_events, field_base, first_base,
    flush_values, function_declaration, function_events, inherited, lambda_declaration,
    lambda_events, mention_of, mentions_of, return_type_of, signature_of, syntax_kind,
    uses_in_each, uses_of, value_declaration, value_signature, variable_events, visit_each,
    visit_events, whole_graph, SyntaxKind,
};
use crate::graph::{file_graph, flush_candidates, run, Graph};
use crate::kinds::NodeKind;
use crate::syntax::{
    children_of_kind, field_child, field_child_from, found_from, last_found, last_standing_from,
    law_field_child, law_prev_named, lemma_named_child_range, named_children, of_kind,
    own_named_from, prev_named, prev_standing_from, NodeModel,
};

verus! {

/// Whether nodes of this kind define functions, static or not.
pub open spec fn defines_function(kind: Seq<char>) -> bool {
    kind == "function_definition"@ || kind == "static_function_definition"@
}

/// Whether two nodes are the same, or differ in whether they define a static function.
pub open spec fn alike(a: NodeModel, b: NodeModel) -> bool {
    &&& b == (NodeModel { kind: b.kind, ..a })
    &&& a.kind == b.kind || (defines_function(a.kind) && defines_function(b.kind))
}

/// Whether two trees are the same up to which functions are static.
pub open spec fn same_but_static(t: Seq<NodeModel>, u: Seq<NodeModel>) -> bool {
    &&& t.len() == u.len()
    &&& forall|k: int| 0 <= k < t.len() ==> alike(#[trigger] t[k], u[k])
}

/// The kinds that the walk looks for define no functions.
proof fn lemma_other_kinds()
    ensures
        !defines_function("identifier"@),
        !defines_function("type"@),
        !defines_function("string"@),
        !defines_function("comment"@),
        !defines_function("call"@),
        !defines_function("enumerator"@),
        !defines_function("extends_clause"@),
        !defines_function("extends_statement"@),
        "function_definition"@ != "static_function_definition"@,
{
    reveal_strlit("function_definition");
    reveal_strlit("static_function_definition");
    reveal_strlit("identifier");
    reveal_strlit("type");
    reveal_strlit("string");
    reveal_strlit("comment");
    reveal_strlit("call");
    reveal_strlit("enumerator");
    reveal_strlit("extends_clause");
    reveal_strlit("extends_statement");
    assert("function_definition"@.len() == 19);
    assert("static_function_definition"@.len() == 26);
    assert("identifier"@.len() == 10);
    assert("type"@.len() == 4);
    assert("string"@.len() == 6);
    assert("comment"@.len() == 7);
    assert("call"@.len() == 4);
    assert("enumerator"@.len() == 10);
    assert("extends_clause"@.len() == 14);
    assert("extends_statement"@.len() == 17);
}

/// The sort of a node that defines a function.
proof fn lemma_function_sort(kind: Seq<char>)
    requires
        defines_function(kind),
    ensures
        syntax_kind(kind) == SyntaxKind::FunctionDefinition || syntax_kind(kind)
            == SyntaxKind::StaticFunctionDefinition,
{
    reveal_strlit("function_definition");
    reveal_strlit("static_function_definition");
    reveal_strlit("class_name_statement");
    reveal_strlit("class_definition");
    assert("function_definition"@.len() == 19);
    assert("static_function_definition"@.len() == 26);
    assert("class_name_statement"@.len() == 20);
    assert("class_definition"@.len() == 16);
}

proof fn lemma_same_named(t: Seq<NodeModel>, u: Seq<NodeModel>, p: int)
    requires
        same_but_static(t, u),
        0 <= p < t.len(),
    ensures
        named_children(u, p) == named_children(t, p),
    decreases t.len() - p, 1int, 0int,
{
    lemma_same_own_named(t, u, p, p + 1);
    lemma_same_found(t, u, p, p + 1);
}

proof fn lemma_same_own_named(t: Seq<NodeModel>, u: Seq<NodeModel>, p: int, k: int)
    requires
        same_but_static(t, u),
        0 <= p < t.len(),
    ensures
        own_named_from(u, p, k) == own_named_from(t, p, k),
    decreases t.len() - k,
{
    assert(alike(t[p], u[p]));
    if 0 <= k < t.len() {
        assert(alike(t[k], u[k]));
        lemma_same_own_named(t, u, p, k + 1);
    }
}

proof fn lemma_same_found(t: Seq<NodeModel>, u: Seq<NodeModel>, p: int, k: int)
    requires
        same_but_static(t, u),
        0 <= p < t.len(),
    ensures
        found_from(u, p, k) == found_from(t, p, k),
    decreases t.len() - p, 0int, t.len() - k,
{
    assert(alike(t[p], u[p]));
    if p < k < t.len() {
        assert(alike(t[k], u[k]));
        lemma_same_found(t, u, p, k + 1);
        lemma_same_named(t, u, k);
    }
}

proof fn lemma_same_field(t: Seq<NodeModel>, u: Seq<NodeModel>, p: int, f: Seq<char>, k: int)
    requires
        same_but_static(t, u),
        0 <= p < t.len(),
    ensures
        field_child_from(u, p, f, k) == field_child_from(t, p, f, k),
    decreases t.len() - k,
{
    assert(alike(t[p], u[p]));
    if 0 <= k < t.len() {
        assert(alike(t[k], u[k]));
        lemma_same_field(t, u, p, f, k + 1);
    }
}

/// The children of a node and the child in a field are the same, and in the tree.
proof fn lemma_same_steps(t: Seq<NodeModel>, u: Seq<NodeModel>, p: int, f: Seq<char>)
    requires
        same_but_static(t, u),
        0 <= p < t.len(),
    ensures
        named_children(u, p) == named_children(t, p),
        field_child(u, p, f) == field_child(t, p, f),
        field_child(t, p, f) matches Some(c) ==> p < c < t.len() && alike(t[c], u[c]),
{
    lemma_same_named(t, u, p);
    lemma_same_field(t, u, p, f, p + 1);
    law_field_child(t, p, f);
}

proof fn lemma_same_last_standing(t: Seq<NodeModel>, u: Seq<NodeModel>, p: int, k: int)
    requires
        same_but_static(t, u),
        0 <= p < t.len(),
    ensures
        last_standing_from(u, p, k) == last_standing_from(t, p, k),
    decreases t.len() - k,
{
    assert(alike(t[p], u[p]));
    if 0 <= k < t.len() {
        assert(alike(t[k], u[k]));
        lemma_same_own_named(t, u, k, k + 1);
        lemma_same_last_standing(t, u, p, k + 1);
    }
}

proof fn lemma_same_last_found(t: Seq<NodeModel>, u: Seq<NodeModel>, s: int)
    requires
        same_but_static(t, u),
        0 <= s < t.len(),
    ensures
        last_found(u, s) == last_found(t, s),
    decreases t.len() - s,
{
    assert(alike(t[s], u[s]));
    lemma_same_last_standing(t, u, s, s + 1);
    if let Some(c) = last_standing_from(t, s, s + 1) {
        if s < c < t.len() {
            lemma_same_last_found(t, u, c);
        }
    }
}

proof fn lemma_same_prev_standing(t: Seq<NodeModel>, u: Seq<NodeModel>, i: int, k: int)
    requires
        same_but_static(t, u),
        0 <= i < t.len(),
    ensures
        prev_standing_from(u, i, k) == prev_standing_from(t, i, k),
        prev_standing_from(t, i, k) matches Some(s) ==> 0 <= s < t.len(),
    decreases k + 1,
{
    assert(alike(t[i], u[i]));
    if 0 <= k < t.len() {
        assert(alike(t[k], u[k]));
        lemma_same_own_named(t, u, k, k + 1);
        lemma_same_prev_standing(t, u, i, k - 1);
    }
}

proof fn lemma_same_prev(t: Seq<NodeModel>, u: Seq<NodeModel>, i: int)
    requires
        same_but_static(t, u),
        0 <= i < t.len(),
    ensures
        prev_named(u, i) == prev_named(t, i),
{
    lemma_same_prev_standing(t, u, i, i - 1);
    if let Some(s) = prev_standing_from(t, i, i - 1) {
        lemma_same_last_found(t, u, s);
    }
}

/// Whether all of `list` are numbers of nodes of `t`.
pub open spec fn in_tree(t: Seq<NodeModel>, list: Seq<int>) -> bool {
    forall|k: int| 0 <= k < list.len() ==> 0 <= #[trigger] list[k] < t.len()
}

proof fn lemma_same_of_kind(t: Seq<NodeModel>, u: Seq<NodeModel>, list: Seq<int>, kind: Seq<char>)
    requires
        same_but_static(t, u),
        in_tree(t, list),
        !defines_function(kind),
    ensures
        of_kind(u, list, kind) == of_kind(t, list, kind),
        in_tree(t, of_kind(t, list, kind)),
    decreases list.len(),
{
    if list.len() > 0 {
        assert(in_tree(t, list.drop_last())) by {
            assert forall|k: int| 0 <= k < list.drop_last().len() implies 0
                <= #[trigger] list.drop_last()[k] < t.len() by {
                assert(list.drop_last()[k] == list[k]);
            }
        }
        lemma_same_of_kind(t, u, list.drop_last(), kind);
        assert(list[list.len() - 1] == list.last());
        assert(alike(t[list.last()], u[list.last()]));
    }
}

proof fn lemma_same_children_of_kind(
    t: Seq<NodeModel>,
    u: Seq<NodeModel>,
    p: int,
    kind: Seq<char>,
)
    requires
        same_but_static(t, u),
        0 <= p < t.len(),
        !defines_function(kind),
    ensures
        children_of_kind(u, p, kind) == children_of_kind(t, p, kind),
        in_tree(t, children_of_kind(t, p, kind)),
{
    lemma_same_named(t, u, p);
    let kids = named_children(t, p);
    assert forall|k: int| 0 <= k < kids.len() implies 0 <= #[trigger] kids[k] < t.len() by {
        lemma_named_child_range(t, p, k);
    }
    lemma_same_of_kind(t, u, kids, kind);
}

proof fn lemma_same_comments(src: Seq<char>, t: Seq<NodeModel>, u: Seq<NodeModel>, i: int)
    requires
        same_but_static(t, u),
        0 <= i < t.len(),
    ensures
        comments_before(src, u, i) == comments_before(src, t, i),
        docstring_of(src, u, i) == docstring_of(src, t, i),
    decreases i,
{
    lemma_other_kinds();
    lemma_same_prev(t, u, i);
    law_prev_named(t, i);
    if let Some(s) = prev_named(t, i) {
        assert(alike(t[s], u[s]));
        lemma_same_comments(src, t, u, s);
    }
}

proof fn lemma_same_name(src: Seq<char>, t: Seq<NodeModel>, u: Seq<NodeModel>, i: int)
    requires
        same_but_static(t, u),
        0 <= i < t.len(),
    ensures
        declared_name(src, u, i) == declared_name(src, t, i),
{
    lemma_other_kinds();
    lemma_same_steps(t, u, i, "name"@);
    lemma_same_children_of_kind(t, u, i, "identifier"@);
    let ids = children_of_kind(t, i, "identifier"@);
    if ids.len() > 0 {
        assert(0 <= ids[0] < t.len());
        assert(alike(t[ids[0]], u[ids[0]]));
    }
}

/// Every declaration that a node can make is the same.
proof fn lemma_same_declarations(src: Seq<char>, t: Seq<NodeModel>, u: Seq<NodeModel>, i: int)
    requires
        same_but_static(t, u),
        0 <= i < t.len(),
    ensures
        forall|kind: NodeKind| #[trigger]
            documented(src, u, i, kind) == documented(src, t, i, kind),
        forall|kind: NodeKind| #[trigger]
            value_declaration(src, u, i, kind) == value_declaration(src, t, i, kind),
        function_declaration(src, u, i) == function_declaration(src, t, i),
        lambda_declaration(src, u, i) == lambda_declaration(src, t, i),
        enumerator_declaration(src, u, i) == enumerator_declaration(src, t, i),
{
    assert(alike(t[i], u[i]));
    lemma_same_name(src, t, u, i);
    lemma_same_comments(src, t, u, i);
    lemma_same_steps(t, u, i, "parameters"@);
    lemma_same_steps(t, u, i, "return_type"@);
    lemma_same_steps(t, u, i, "value"@);
    assert(signature_of(src, u, i) == signature_of(src, t, i));
    assert(return_type_of(src, u, i) == return_type_of(src, t, i));
    assert(value_signature(src, u, i) == value_signature(src, t, i));
}

proof fn lemma_same_argument_list(
    src: Seq<char>,
    t: Seq<NodeModel>,
    u: Seq<NodeModel>,
    list: Seq<int>,
)
    requires
        same_but_static(t, u),
        in_tree(t, list),
    ensures
        argument_list(src, u, list) == argument_list(src, t, list),
    decreases list.len(),
{
    if list.len() > 0 {
        assert forall|k: int| 0 <= k < list.drop_last().len() implies 0
            <= #[trigger] list.drop_last()[k] < t.len() by {
            assert(list.drop_last()[k] == list[k]);
        }
        lemma_same_argument_list(src, t, u, list.drop_last());
        assert(list[list.len() - 1] == list.last());
        assert(alike(t[list.last()], u[list.last()]));
    }
}

/// The arguments, the call and the base class that a node names are the same.
proof fn lemma_same_mentions(src: Seq<char>, t: Seq<NodeModel>, u: Seq<NodeModel>, i: int)
    requires
        same_but_static(t, u),
        0 <= i < t.len(),
    ensures
        argument_events(src, u, i) == argument_events(src, t, i),
        call_events(src, u, i) == call_events(src, t, i),
        base_of(u, i) == base_of(t, i),
        base_of(t, i) matches Some(c) ==> base_mention(src, u[c]) == base_mention(src, t[c]),
        extends_events(src, u, i) == extends_events(src, t, i),
{
    lemma_other_kinds();
    assert(alike(t[i], u[i]));
    lemma_same_steps(t, u, i, "arguments"@);
    lemma_same_steps(t, u, i, "function"@);
    if let Some(a) = field_child(t, i, "arguments"@) {
        lemma_same_children_of_kind(t, u, a, "identifier"@);
        lemma_same_argument_list(src, t, u, children_of_kind(t, a, "identifier"@));
    }
    let kids = named_children(t, i);
    if kids.len() > 0 {
        lemma_named_child_range(t, i, 0);
        assert(alike(t[kids[0]], u[kids[0]]));
    }
    assert(callee_of(u, i) == callee_of(t, i));
    lemma_same_first_base(src, t, u, i, 0);
}

proof fn lemma_same_first_base(
    src: Seq<char>,
    t: Seq<NodeModel>,
    u: Seq<NodeModel>,
    i: int,
    k: int,
)
    requires
        same_but_static(t, u),
        0 <= i < t.len(),
        0 <= k,
    ensures
        first_base(u, named_children(t, i), k) == first_base(t, named_children(t, i), k),
        first_base(t, named_children(t, i), k) matches Some(c) ==> base_mention(src, u[c])
            == base_mention(src, t[c]),
    decreases named_children(t, i).len() - k,
{
    let kids = named_children(t, i);
    if k < kids.len() {
        lemma_other_kinds();
        lemma_named_child_range(t, i, k);
        assert(alike(t[kids[k]], u[kids[k]]));
        lemma_same_first_base(src, t, u, i, k + 1);
    }
}

proof fn lemma_same_clauses(
    src: Seq<char>,
    t: Seq<NodeModel>,
    u: Seq<NodeModel>,
    clauses: Seq<int>,
)
    requires
        same_but_static(t, u),
        in_tree(t, clauses),
    ensures
        clause_mentions(src, u, clauses) == clause_mentions(src, t, clauses),
    decreases clauses.len(),
{
    if clauses.len() > 0 {
        lemma_other_kinds();
        assert forall|k: int| 0 <= k < clauses.drop_last().len() implies 0
            <= #[trigger] clauses.drop_last()[k] < t.len() by {
            assert(clauses.drop_last()[k] == clauses[k]);
        }
        lemma_same_clauses(src, t, u, clauses.drop_last());
        assert(clauses[clauses.len() - 1] == clauses.last());
        lemma_same_children_of_kind(t, u, clauses.last(), "identifier"@);
        let ids = children_of_kind(t, clauses.last(), "identifier"@);
        assert forall|k: int| 0 <= k < ids.len() implies #[trigger] mention_of(src, u[ids[k]])
            == mention_of(src, t[ids[k]]) by {
            assert(0 <= ids[k] < t.len());
            assert(alike(t[ids[k]], u[ids[k]]));
        }
        assert(mentions_of(src, u, ids) =~= mentions_of(src, t, ids));
    }
}

proof fn lemma_same_inherited(src: Seq<char>, t: Seq<NodeModel>, u: Seq<NodeModel>, i: int)
    requires
        same_but_static(t, u),
        0 <= i < t.len(),
    ensures
        inherited(src, u, i) == inherited(src, t, i),
{
    lemma_other_kinds();
    lemma_same_children_of_kind(t, u, i, "extends_clause"@);
    lemma_same_clauses(src, t, u, children_of_kind(t, i, "extends_clause"@));
    lemma_same_steps(t, u, i, "extends"@);
    if let Some(e) = field_child(t, i, "extends"@) {
        lemma_same_mentions(src, t, u, e);
    }
    assert(field_base(u, i) == field_base(t, i));
}

proof fn lemma_same_enumerators(
    src: Seq<char>,
    t: Seq<NodeModel>,
    u: Seq<NodeModel>,
    list: Seq<int>,
)
    requires
        same_but_static(t, u),
        in_tree(t, list),
    ensures
        enumerator_events(src, u, list) == enumerator_events(src, t, list),
    decreases list.len(),
{
    if list.len() > 0 {
        assert forall|k: int| 0 <= k < list.drop_last().len() implies 0
            <= #[trigger] list.drop_last()[k] < t.len() by {
            assert(list.drop_last()[k] == list[k]);
        }
        lemma_same_enumerators(src, t, u, list.drop_last());
        assert(list[list.len() - 1] == list.last());
        lemma_same_declarations(src, t, u, list.last());
    }
}

proof fn lemma_same_enum(src: Seq<char>, t: Seq<NodeModel>, u: Seq<NodeModel>, i: int)
    requires
        same_but_static(t, u),
        0 <= i < t.len(),
    ensures
        enum_events(src, u, i) == enum_events(src, t, i),
{
    lemma_other_kinds();
    lemma_same_name(src, t, u, i);
    lemma_same_declarations(src, t, u, i);
    lemma_same_steps(t, u, i, "body"@);
    assert(documented(src, u, i, NodeKind::Enum) == documented(src, t, i, NodeKind::Enum));
    if let Some(b) = field_child(t, i, "body"@) {
        lemma_same_children_of_kind(t, u, b, "enumerator"@);
        lemma_same_enumerators(src, t, u, children_of_kind(t, b, "enumerator"@));
    }
}

proof fn lemma_same_body(src: Seq<char>, t: Seq<NodeModel>, u: Seq<NodeModel>, i: int)
    requires
        same_but_static(t, u),
    ensures
        body_events(src, u, i) == body_events(src, t, i),
    decreases t.len() - i, 2int, 0int,
{
    if 0 <= i < t.len() {
        assert(alike(t[i], u[i]));
        lemma_same_mentions(src, t, u, i);
        lemma_same_named(t, u, i);
        lemma_same_body_each(src, t, u, i, named_children(t, i).len() as int);
        lemma_same_function(src, t, u, i);
        if defines_function(t[i].kind) {
            lemma_function_sort(t[i].kind);
            lemma_function_sort(u[i].kind);
        }
    }
}

proof fn lemma_same_body_each(
    src: Seq<char>,
    t: Seq<NodeModel>,
    u: Seq<NodeModel>,
    p: int,
    n: int,
)
    requires
        same_but_static(t, u),
    ensures
        body_each(src, u, p, n) == body_each(src, t, p, n),
    decreases t.len() - p, 0int, n,
{
    if 0 <= p < t.len() {
        lemma_same_named(t, u, p);
        if 0 < n <= named_children(t, p).len() {
            lemma_named_child_range(t, p, n - 1);
            lemma_same_body_each(src, t, u, p, n - 1);
            lemma_same_body(src, t, u, named_children(t, p)[n - 1]);
        }
    }
}

proof fn lemma_same_function(src: Seq<char>, t: Seq<NodeModel>, u: Seq<NodeModel>, i: int)
    requires
        same_but_static(t, u),
        0 <= i < t.len(),
    ensures
        function_events(src, u, i) == function_events(src, t, i),
    decreases t.len() - i, 1int, 0int,
{
    lemma_same_name(src, t, u, i);
    lemma_same_declarations(src, t, u, i);
    lemma_same_steps(t, u, i, "body"@);
    if let Some(b) = field_child(t, i, "body"@) {
        lemma_same_body(src, t, u, b);
    }
}

proof fn lemma_same_code(src: Seq<char>, t: Seq<NodeModel>, u: Seq<NodeModel>, i: int)
    requires
        same_but_static(t, u),
        0 <= i < t.len(),
    ensures
        variable_events(src, u, i) == variable_events(src, t, i),
        lambda_events(src, u, i) == lambda_events(src, t, i),
{
    assert(alike(t[i], u[i]));
    lemma_same_name(src, t, u, i);
    lemma_same_declarations(src, t, u, i);
    lemma_same_steps(t, u, i, "body"@);
    lemma_same_steps(t, u, i, "value"@);
    assert(value_declaration(src, u, i, NodeKind::Variable) == value_declaration(
        src,
        t,
        i,
        NodeKind::Variable,
    ));
    if let Some(b) = field_child(t, i, "body"@) {
        lemma_same_body(src, t, u, b);
    }
    if let Some(v) = field_child(t, i, "value"@) {
        lemma_same_body(src, t, u, v);
    }
}

/// The walk comes upon the same in trees that are the same up to which functions are
/// static.
pub proof fn law_static_walks_alike(src: Seq<char>, t: Seq<NodeModel>, u: Seq<NodeModel>, i: int)
    requires
        same_but_static(t, u),
    ensures
        visit_events(src, u, i) == visit_events(src, t, i),
    decreases t.len() - i, 2int, 0int,
{
    if 0 <= i < t.len() {
        assert(alike(t[i], u[i]));
        lemma_same_mentions(src, t, u, i);
        lemma_same_named(t, u, i);
        lemma_same_each(src, t, u, i, named_children(t, i).len() as int);
        if defines_function(t[i].kind) {
            lemma_function_sort(t[i].kind);
            lemma_function_sort(u[i].kind);
            lemma_same_function(src, t, u, i);
        } else {
            lemma_same_declarations(src, t, u, i);
            assert(documented(src, u, i, NodeKind::Class) == documented(
                src,
                t,
                i,
                NodeKind::Class,
            ));
            assert(documented(src, u, i, NodeKind::Variable) == documented(
                src,
                t,
                i,
                NodeKind::Variable,
            ));
            assert(value_declaration(src, u, i, NodeKind::Constant) == value_declaration(
                src,
                t,
                i,
                NodeKind::Constant,
            ));
            lemma_same_enum(src, t, u, i);
            lemma_same_code(src, t, u, i);
            lemma_same_class(src, t, u, i);
            lemma_same_function(src, t, u, i);
        }
    }
}

proof fn lemma_same_each(src: Seq<char>, t: Seq<NodeModel>, u: Seq<NodeModel>, p: int, n: int)
    requires
        same_but_static(t, u),
    ensures
        visit_each(src, u, p, n) == visit_each(src, t, p, n),
    decreases t.len() - p, 0int, n,
{
    if 0 <= p < t.len() {
        lemma_same_named(t, u, p);
        if 0 < n <= named_children(t, p).len() {
            lemma_named_child_range(t, p, n - 1);
            lemma_same_each(src, t, u, p, n - 1);
            law_static_walks_alike(src, t, u, named_children(t, p)[n - 1]);
        }
    }
}

proof fn lemma_same_class(src: Seq<char>, t: Seq<NodeModel>, u: Seq<NodeModel>, i: int)
    requires
        same_but_static(t, u),
        0 <= i < t.len(),
    ensures
        class_events(src, u, i) == class_events(src, t, i),
    decreases t.len() - i, 1int, 0int,
{
    lemma_same_name(src, t, u, i);
    lemma_same_declarations(src, t, u, i);
    lemma_same_inherited(src, t, u, i);
    lemma_same_steps(t, u, i, "body"@);
    assert(documented(src, u, i, NodeKind::Class) == documented(src, t, i, NodeKind::Class));
    if let Some(b) = field_child(t, i, "body"@) {
        lemma_same_named(t, u, b);
        lemma_same_each(src, t, u, b, named_children(t, b).len() as int);
    }
}

proof fn lemma_same_uses(
    src: Seq<char>,
    t: Seq<NodeModel>,
    u: Seq<NodeModel>,
    i: int,
    name: Seq<char>,
)
    requires
        same_but_static(t, u),
    ensures
        uses_of(src, u, i, name) == uses_of(src, t, i, name),
    decreases t.len() - i, 1int, 0int,
{
    if 0 <= i < t.len() {
        lemma_other_kinds();
        assert(alike(t[i], u[i]));
        lemma_same_named(t, u, i);
        lemma_same_uses_each(src, t, u, i, named_children(t, i).len() as int, name);
    }
}

proof fn lemma_same_uses_each(
    src: Seq<char>,
    t: Seq<NodeModel>,
    u: Seq<NodeModel>,
    p: int,
    n: int,
    name: Seq<char>,
)
    requires
        same_but_static(t, u),
    ensures
        uses_in_each(src, u, p, n, name) == uses_in_each(src, t, p, n, name),
    decreases t.len() - p, 0int, n,
{
    if 0 <= p < t.len() {
        lemma_same_named(t, u, p);
        if 0 < n <= named_children(t, p).len() {
            lemma_named_child_range(t, p, n - 1);
            lemma_same_uses_each(src, t, u, p, n - 1, name);
            lemma_same_uses(src, t, u, named_children(t, p)[n - 1], name);
        }
    }
}

proof fn lemma_same_values(g: Graph, src: Seq<char>, t: Seq<NodeModel>, u: Seq<NodeModel>, n: int)
    requires
        same_but_static(t, u),
    ensures
        flush_values(g, src, u, n) == flush_values(g, src, t, n),
    decreases n,
{
    if n > 0 {
        lemma_same_values(g, src, t, u, n - 1);
        lemma_same_uses(src, t, u, 0, g.value_scopes[n - 1].name);
    }
}

/// Whether a function is static makes no difference: trees that are the same up to
/// which functions are static have the same graph.
pub proof fn law_static_makes_no_difference(
    path: Seq<char>,
    src: Seq<char>,
    t: Seq<NodeModel>,
    u: Seq<NodeModel>,
)
    requires
        same_but_static(t, u),
    ensures
        whole_graph(path, src, u) == whole_graph(path, src, t),
{
    law_static_walks_alike(src, t, u, 0);
    let walked = run(file_graph(path, src), visit_events(src, t, 0));
    let resolved = flush_candidates(walked, walked.candidates.len() as int);
    lemma_same_values(resolved, src, t, u, resolved.value_scopes.len() as int);
}

} // verus!
