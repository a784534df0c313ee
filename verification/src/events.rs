//! What a walk over a syntax tree comes upon, as a function of the tree alone.
//! The effect of these events on the graph is in [`crate::graph`].

use vstd::prelude::*;
use crate::docstring::docstring_of;
use crate::graph::{
    add_refs, apply, file_graph, flush_candidates, leave, lemma_run_concat, lemma_run_one, run,
    Declaration, Event, ExtraModel, Graph, Mention,
};
use crate::kinds::{NodeKind, FUNCTION_REF_CODE};
use crate::syntax::{
    children_of_kind, field_child, law_field_child, lemma_named_child_range, named_children,
    node_text, prev_named, NodeModel,
};
use crate::textutil::{column_of, decimal, init_signature_of, occurs_in, str_eq, unquoted};

verus! {

/// The sorts of syntax nodes that the walk tells apart.
#[derive(Clone, Copy, PartialEq, Eq, Structural, Debug)]
pub enum SyntaxKind {
    ClassNameStatement,
    ClassDefinition,
    FunctionDefinition,
    StaticFunctionDefinition,
    VariableStatement,
    ConstStatement,
    SignalStatement,
    EnumDefinition,
    Lambda,
    Call,
    ExtendsStatement,
    Other,
}

/// The sort of a syntax node of the given kind.
pub open spec fn syntax_kind(kind: Seq<char>) -> SyntaxKind {
    if kind == "class_name_statement"@ {
        SyntaxKind::ClassNameStatement
    } else if kind == "class_definition"@ {
        SyntaxKind::ClassDefinition
    } else if kind == "function_definition"@ {
        SyntaxKind::FunctionDefinition
    } else if kind == "static_function_definition"@ {
        SyntaxKind::StaticFunctionDefinition
    } else if kind == "variable_statement"@ {
        SyntaxKind::VariableStatement
    } else if kind == "const_statement"@ {
        SyntaxKind::ConstStatement
    } else if kind == "signal_statement"@ {
        SyntaxKind::SignalStatement
    } else if kind == "enum_definition"@ {
        SyntaxKind::EnumDefinition
    } else if kind == "lambda"@ {
        SyntaxKind::Lambda
    } else if kind == "call"@ {
        SyntaxKind::Call
    } else if kind == "extends_statement"@ {
        SyntaxKind::ExtendsStatement
    } else {
        SyntaxKind::Other
    }
}

/// The sort of a syntax node of the given kind.
pub fn classify(kind: &str) -> (r: SyntaxKind)
    ensures
        r == syntax_kind(kind@),
{
    if str_eq(kind, "class_name_statement") {
        SyntaxKind::ClassNameStatement
    } else if str_eq(kind, "class_definition") {
        SyntaxKind::ClassDefinition
    } else if str_eq(kind, "function_definition") {
        SyntaxKind::FunctionDefinition
    } else if str_eq(kind, "static_function_definition") {
        SyntaxKind::StaticFunctionDefinition
    } else if str_eq(kind, "variable_statement") {
        SyntaxKind::VariableStatement
    } else if str_eq(kind, "const_statement") {
        SyntaxKind::ConstStatement
    } else if str_eq(kind, "signal_statement") {
        SyntaxKind::SignalStatement
    } else if str_eq(kind, "enum_definition") {
        SyntaxKind::EnumDefinition
    } else if str_eq(kind, "lambda") {
        SyntaxKind::Lambda
    } else if str_eq(kind, "call") {
        SyntaxKind::Call
    } else if str_eq(kind, "extends_statement") {
        SyntaxKind::ExtendsStatement
    } else {
        SyntaxKind::Other
    }
}

/// The line on which a node starts. Lines count from 1 and are 32-bit values.
pub open spec fn start_line_of(n: NodeModel) -> u32 {
    (n.start_row as u32).wrapping_add(1)
}

/// The line on which a node ends.
pub open spec fn end_line_of(n: NodeModel) -> u32 {
    (n.end_row as u32).wrapping_add(1)
}

/// The column at which a node starts.
pub open spec fn start_column_of(src: Seq<char>, n: NodeModel) -> u32 {
    column_of(src, n.start_row, n.start_byte)
}

/// The column at which a node ends.
pub open spec fn end_column_of(src: Seq<char>, n: NodeModel) -> u32 {
    column_of(src, n.end_row, n.end_byte)
}

/// The mention that a node makes by its text.
pub open spec fn mention_of(src: Seq<char>, n: NodeModel) -> Mention {
    Mention {
        name: node_text(src, n),
        line: start_line_of(n),
        column: start_column_of(src, n),
        byte: n.start_byte,
    }
}

/// The mentions that the nodes of `list` make.
pub open spec fn mentions_of(src: Seq<char>, t: Seq<NodeModel>, list: Seq<int>) -> Seq<Mention> {
    list.map_values(|i: int| mention_of(src, t[i]))
}

/// The name that a node declares: its `name` field, else its first identifier,
/// else nothing.
pub open spec fn declared_name(src: Seq<char>, t: Seq<NodeModel>, i: int) -> Seq<char> {
    match field_child(t, i, "name"@) {
        Some(c) => node_text(src, t[c]),
        None => {
            let ids = children_of_kind(t, i, "identifier"@);
            if ids.len() > 0 {
                node_text(src, t[ids[0]])
            } else {
                seq![]
            }
        },
    }
}

/// The parameters of a function, with its return type where it has one.
pub open spec fn signature_of(src: Seq<char>, t: Seq<NodeModel>, i: int) -> Option<Seq<char>> {
    match field_child(t, i, "parameters"@) {
        None => None,
        Some(p) => match field_child(t, i, "return_type"@) {
            Some(r) => Some(node_text(src, t[p]) + " -> "@ + node_text(src, t[r])),
            None => Some(node_text(src, t[p])),
        },
    }
}

/// The return type that a function states.
pub open spec fn return_type_of(src: Seq<char>, t: Seq<NodeModel>, i: int) -> Option<Seq<char>> {
    match field_child(t, i, "return_type"@) {
        Some(r) => Some(node_text(src, t[r])),
        None => None,
    }
}

/// The signature of a variable or constant with an initializer.
pub open spec fn value_signature(src: Seq<char>, t: Seq<NodeModel>, i: int) -> Option<Seq<char>> {
    match field_child(t, i, "value"@) {
        Some(v) => Some(init_signature_of(node_text(src, t[v]))),
        None => None,
    }
}

/// Whether one of the annotations right before the node `i`, comments aside, holds
/// `word`.
pub open spec fn annotated_with(
    src: Seq<char>,
    t: Seq<NodeModel>,
    i: int,
    word: Seq<char>,
) -> bool
    decreases i,
{
    match prev_named(t, i) {
        Some(s) => if s < 0 || s >= i {
            false
        } else if t[s].kind == "annotation"@ || t[s].kind == "annotations"@ {
            occurs_in(node_text(src, t[s]), word) || annotated_with(src, t, s, word)
        } else if t[s].kind == "comment"@ {
            annotated_with(src, t, s, word)
        } else {
            false
        },
        None => false,
    }
}

/// Nothing beyond a name and a place.
pub open spec fn no_extra() -> ExtraModel {
    ExtraModel {
        docstring: None,
        signature: None,
        is_exported: None,
        return_type: None,
        qualified_name: None,
    }
}

/// The declaration that the node `i` makes.
pub open spec fn declaration_at(
    src: Seq<char>,
    t: Seq<NodeModel>,
    i: int,
    kind: NodeKind,
    name: Seq<char>,
    extra: ExtraModel,
) -> Declaration {
    Declaration {
        kind,
        name,
        node: i,
        start_line: start_line_of(t[i]),
        end_line: end_line_of(t[i]),
        start_column: start_column_of(src, t[i]),
        end_column: end_column_of(src, t[i]),
        extra,
    }
}

/// A documented class, signal or enum: every such declaration is exported.
pub open spec fn documented(
    src: Seq<char>,
    t: Seq<NodeModel>,
    i: int,
    kind: NodeKind,
) -> Declaration {
    declaration_at(
        src,
        t,
        i,
        kind,
        declared_name(src, t, i),
        ExtraModel {
            docstring: docstring_of(src, t, i),
            is_exported: Some(true),
            ..no_extra()
        },
    )
}

/// A variable or constant.
pub open spec fn value_declaration(
    src: Seq<char>,
    t: Seq<NodeModel>,
    i: int,
    kind: NodeKind,
) -> Declaration {
    declaration_at(
        src,
        t,
        i,
        kind,
        declared_name(src, t, i),
        ExtraModel {
            docstring: docstring_of(src, t, i),
            signature: value_signature(src, t, i),
            is_exported: Some(true),
            ..no_extra()
        },
    )
}

/// A named function.
pub open spec fn function_declaration(src: Seq<char>, t: Seq<NodeModel>, i: int) -> Declaration {
    declaration_at(
        src,
        t,
        i,
        NodeKind::Function,
        declared_name(src, t, i),
        ExtraModel {
            docstring: docstring_of(src, t, i),
            signature: signature_of(src, t, i),
            is_exported: Some(true),
            return_type: return_type_of(src, t, i),
            qualified_name: None,
        },
    )
}

/// The name of the anonymous function on the given line.
pub open spec fn lambda_name(line: u32) -> Seq<char> {
    "lambda@"@ + decimal(line as nat)
}

/// An anonymous function.
pub open spec fn lambda_declaration(src: Seq<char>, t: Seq<NodeModel>, i: int) -> Declaration {
    declaration_at(
        src,
        t,
        i,
        NodeKind::Function,
        lambda_name(start_line_of(t[i])),
        ExtraModel {
            signature: signature_of(src, t, i),
            return_type: return_type_of(src, t, i),
            ..no_extra()
        },
    )
}

/// The declaration of one value of an enum.
pub open spec fn enumerator_declaration(src: Seq<char>, t: Seq<NodeModel>, i: int) -> Declaration {
    declaration_at(
        src,
        t,
        i,
        NodeKind::Constant,
        declared_name(src, t, i),
        ExtraModel { is_exported: Some(true), ..no_extra() },
    )
}

/// The names passed as arguments, where they are not empty.
pub open spec fn argument_list(src: Seq<char>, t: Seq<NodeModel>, list: Seq<int>) -> Seq<Event>
    decreases list.len(),
{
    if list.len() == 0 {
        seq![]
    } else {
        let rest = argument_list(src, t, list.drop_last());
        if node_text(src, t[list.last()]).len() > 0 {
            rest.push(Event::Argument(mention_of(src, t[list.last()])))
        } else {
            rest
        }
    }
}

/// The names that a call passes as arguments.
pub open spec fn argument_events(src: Seq<char>, t: Seq<NodeModel>, i: int) -> Seq<Event> {
    if t[i].kind == "call"@ {
        match field_child(t, i, "arguments"@) {
            Some(a) => argument_list(src, t, children_of_kind(t, a, "identifier"@)),
            None => seq![],
        }
    } else {
        seq![]
    }
}

/// What a call calls: its `function` field, else its first named child, where that
/// is not the arguments.
pub open spec fn callee_of(t: Seq<NodeModel>, i: int) -> Option<int> {
    let kids = named_children(t, i);
    match field_child(t, i, "function"@) {
        Some(c) => Some(c),
        None => if kids.len() > 0 && field_child(t, i, "arguments"@) != Some(kids[0]) {
            Some(kids[0])
        } else {
            None
        },
    }
}

/// The call of the function that a call names.
pub open spec fn call_events(src: Seq<char>, t: Seq<NodeModel>, i: int) -> Seq<Event> {
    match callee_of(t, i) {
        Some(c) => if node_text(src, t[c]).len() > 0 {
            seq![Event::Call(mention_of(src, t[c]))]
        } else {
            seq![]
        },
        None => seq![],
    }
}

/// Whether a node of this kind names a base class: by an identifier, by a type, or by
/// the path of a script.
pub open spec fn names_base(kind: Seq<char>) -> bool {
    kind == "identifier"@ || kind == "type"@ || kind == "string"@
}

/// The first node of `list`, from number `k` on, that names a base class.
pub open spec fn first_base(t: Seq<NodeModel>, list: Seq<int>, k: int) -> Option<int>
    decreases list.len() - k,
{
    if k < 0 || k >= list.len() {
        None
    } else if names_base(t[list[k]].kind) {
        Some(list[k])
    } else {
        first_base(t, list, k + 1)
    }
}

/// The node by which an `extends` statement names the base class.
pub open spec fn base_of(t: Seq<NodeModel>, i: int) -> Option<int> {
    first_base(t, named_children(t, i), 0)
}

/// The name of a base class: the text of its node, or the path that a string holds.
pub open spec fn base_text(src: Seq<char>, n: NodeModel) -> Seq<char> {
    if n.kind == "string"@ {
        unquoted(node_text(src, n))
    } else {
        node_text(src, n)
    }
}

/// The mention that a node makes of a base class.
pub open spec fn base_mention(src: Seq<char>, n: NodeModel) -> Mention {
    Mention { name: base_text(src, n), ..mention_of(src, n) }
}

/// The base class that an `extends` statement names.
pub open spec fn extends_events(src: Seq<char>, t: Seq<NodeModel>, i: int) -> Seq<Event> {
    match base_of(t, i) {
        Some(c) => seq![Event::Extend(base_mention(src, t[c]))],
        None => seq![],
    }
}

/// The identifiers in the given `extends` clauses.
pub open spec fn clause_mentions(
    src: Seq<char>,
    t: Seq<NodeModel>,
    clauses: Seq<int>,
) -> Seq<Mention>
    decreases clauses.len(),
{
    if clauses.len() == 0 {
        seq![]
    } else {
        clause_mentions(src, t, clauses.drop_last()) + mentions_of(
            src,
            t,
            children_of_kind(t, clauses.last(), "identifier"@),
        )
    }
}

/// The base class that a class definition names by the `extends` statement in its
/// `extends` field.
pub open spec fn field_base(t: Seq<NodeModel>, i: int) -> Option<int> {
    match field_child(t, i, "extends"@) {
        Some(e) => if t[e].kind == "extends_statement"@ {
            base_of(t, e)
        } else {
            None
        },
        None => None,
    }
}

/// The base classes that a class definition names in its `extends` clauses, and the
/// one that it names in its `extends` field.
pub open spec fn inherited(src: Seq<char>, t: Seq<NodeModel>, i: int) -> Seq<Mention> {
    clause_mentions(src, t, children_of_kind(t, i, "extends_clause"@)) + match field_base(t, i) {
        Some(c) => seq![base_mention(src, t[c])],
        None => seq![],
    }
}

/// A declaration without a body of its own; one without a name is not recorded.
pub open spec fn plain_declaration(d: Declaration) -> Seq<Event> {
    if d.name.len() == 0 {
        seq![]
    } else {
        seq![Event::Declare(d)]
    }
}

/// The declaration of the class that the file as a whole is; one without a name is
/// not recorded.
pub open spec fn script_declaration(d: Declaration) -> Seq<Event> {
    if d.name.len() == 0 {
        seq![]
    } else {
        seq![Event::Declare(d), Event::NameScript]
    }
}

/// Events inside a scope.
pub open spec fn scoped(open: Event, inner: Seq<Event>) -> Seq<Event> {
    seq![open] + inner + seq![Event::Leave]
}

/// Events inside a scope: the scope is opened, they happen, and it is closed.
pub proof fn lemma_run_scoped(g: Graph, open: Event, inner: Seq<Event>)
    ensures
        run(g, scoped(open, inner)) == leave(run(apply(g, open), inner)),
{
    lemma_run_one(g, open);
    lemma_run_concat(g, seq![open], inner);
    let inside = run(g, seq![open] + inner);
    lemma_run_one(inside, Event::Leave);
    lemma_run_concat(g, seq![open] + inner, seq![Event::Leave]);
}

/// The values of an enum, where they have names.
pub open spec fn enumerator_events(src: Seq<char>, t: Seq<NodeModel>, list: Seq<int>) -> Seq<Event>
    decreases list.len(),
{
    if list.len() == 0 {
        seq![]
    } else {
        enumerator_events(src, t, list.drop_last()) + plain_declaration(
            enumerator_declaration(src, t, list.last()),
        )
    }
}

/// An enum and its values.
pub open spec fn enum_events(src: Seq<char>, t: Seq<NodeModel>, i: int) -> Seq<Event> {
    let name = declared_name(src, t, i);
    if name.len() == 0 {
        seq![]
    } else {
        seq![Event::Declare(documented(src, t, i, NodeKind::Enum))] + match field_child(
            t,
            i,
            "body"@,
        ) {
            Some(b) => scoped(
                Event::Enter(NodeKind::Enum, name),
                enumerator_events(src, t, children_of_kind(t, b, "enumerator"@)),
            ),
            None => seq![],
        }
    }
}

/// What the walk comes upon at and below the node `i`.
pub open spec fn visit_events(src: Seq<char>, t: Seq<NodeModel>, i: int) -> Seq<Event>
    decreases t.len() - i, 2int, 0int,
{
    if i < 0 || i >= t.len() {
        seq![]
    } else {
        argument_events(src, t, i) + match syntax_kind(t[i].kind) {
            SyntaxKind::ClassNameStatement => script_declaration(
                documented(src, t, i, NodeKind::Class),
            ) + visit_each(src, t, i, named_children(t, i).len() as int),
            SyntaxKind::ClassDefinition => class_events(src, t, i),
            SyntaxKind::FunctionDefinition => function_events(src, t, i),
            SyntaxKind::StaticFunctionDefinition => function_events(src, t, i),
            SyntaxKind::VariableStatement => variable_events(src, t, i) + visit_each(
                src,
                t,
                i,
                named_children(t, i).len() as int,
            ),
            SyntaxKind::ConstStatement => plain_declaration(
                value_declaration(src, t, i, NodeKind::Constant),
            ) + visit_each(src, t, i, named_children(t, i).len() as int),
            SyntaxKind::SignalStatement => plain_declaration(
                documented(src, t, i, NodeKind::Variable),
            ) + visit_each(src, t, i, named_children(t, i).len() as int),
            SyntaxKind::EnumDefinition => enum_events(src, t, i),
            SyntaxKind::Lambda => lambda_events(src, t, i),
            SyntaxKind::Call => call_events(src, t, i) + visit_each(
                src,
                t,
                i,
                named_children(t, i).len() as int,
            ),
            SyntaxKind::ExtendsStatement => extends_events(src, t, i) + visit_each(
                src,
                t,
                i,
                named_children(t, i).len() as int,
            ),
            SyntaxKind::Other => visit_each(src, t, i, named_children(t, i).len() as int),
        }
    }
}

/// What the walk comes upon in the first `n` named children of `p`.
pub open spec fn visit_each(src: Seq<char>, t: Seq<NodeModel>, p: int, n: int) -> Seq<Event>
    decreases t.len() - p, 0int, n,
{
    if p < 0 || p >= t.len() || n <= 0 || n > named_children(t, p).len() {
        seq![]
    } else {
        proof {
            lemma_named_child_range(t, p, n - 1);
        }
        visit_each(src, t, p, n - 1) + visit_events(src, t, named_children(t, p)[n - 1])
    }
}

/// A class: itself, the base classes it names, and its members.
pub open spec fn class_events(src: Seq<char>, t: Seq<NodeModel>, i: int) -> Seq<Event>
    decreases t.len() - i, 1int, 0int,
{
    let name = declared_name(src, t, i);
    if i < 0 || i >= t.len() || name.len() == 0 {
        seq![]
    } else {
        proof {
            law_field_child(t, i, "body"@);
        }
        seq![
            Event::Declare(documented(src, t, i, NodeKind::Class)),
            Event::Inherit(inherited(src, t, i)),
        ] + match field_child(t, i, "body"@) {
            Some(b) => scoped(
                Event::Enter(NodeKind::Class, name),
                visit_each(src, t, b, named_children(t, b).len() as int),
            ),
            None => seq![],
        }
    }
}

/// A function or method, and what its body does.
pub open spec fn function_events(src: Seq<char>, t: Seq<NodeModel>, i: int) -> Seq<Event>
    decreases t.len() - i, 1int, 0int,
{
    let name = declared_name(src, t, i);
    if i < 0 || i >= t.len() || name.len() == 0 {
        seq![]
    } else {
        proof {
            law_field_child(t, i, "body"@);
        }
        seq![Event::DeclareCallable(function_declaration(src, t, i))] + match field_child(
            t,
            i,
            "body"@,
        ) {
            Some(b) => scoped(Event::Enter(NodeKind::Function, name), body_events(src, t, b)),
            None => seq![],
        }
    }
}

/// A variable, and what its initializer does.
pub open spec fn variable_events(src: Seq<char>, t: Seq<NodeModel>, i: int) -> Seq<Event> {
    if i < 0 || i >= t.len() || declared_name(src, t, i).len() == 0 {
        seq![]
    } else {
        seq![Event::Declare(value_declaration(src, t, i, NodeKind::Variable))] + match field_child(
            t,
            i,
            "value"@,
        ) {
            Some(v) => scoped(Event::EnterInitializer, body_events(src, t, v)),
            None => seq![],
        }
    }
}

/// An anonymous function, and what its body does.
pub open spec fn lambda_events(src: Seq<char>, t: Seq<NodeModel>, i: int) -> Seq<Event> {
    if i < 0 || i >= t.len() {
        seq![]
    } else {
        seq![Event::Declare(lambda_declaration(src, t, i))] + match field_child(t, i, "body"@) {
            Some(b) => scoped(
                Event::Enter(NodeKind::Function, lambda_name(start_line_of(t[i]))),
                body_events(src, t, b),
            ),
            None => seq![],
        }
    }
}

/// What the walk comes upon in executable code at and below the node `i`: calls
/// and nested functions.
pub open spec fn body_events(src: Seq<char>, t: Seq<NodeModel>, i: int) -> Seq<Event>
    decreases t.len() - i, 2int, 0int,
{
    if i < 0 || i >= t.len() {
        seq![]
    } else {
        argument_events(src, t, i) + match syntax_kind(t[i].kind) {
            SyntaxKind::Call => call_events(src, t, i) + body_each(
                src,
                t,
                i,
                named_children(t, i).len() as int,
            ),
            SyntaxKind::FunctionDefinition => function_events(src, t, i),
            SyntaxKind::StaticFunctionDefinition => function_events(src, t, i),
            _ => body_each(src, t, i, named_children(t, i).len() as int),
        }
    }
}

/// What the walk comes upon in the first `n` named children of `p`, as code.
pub open spec fn body_each(src: Seq<char>, t: Seq<NodeModel>, p: int, n: int) -> Seq<Event>
    decreases t.len() - p, 0int, n,
{
    if p < 0 || p >= t.len() || n <= 0 || n > named_children(t, p).len() {
        seq![]
    } else {
        proof {
            lemma_named_child_range(t, p, n - 1);
        }
        body_each(src, t, p, n - 1) + body_events(src, t, named_children(t, p)[n - 1])
    }
}

/// The identifiers at and below the node `i` that read `name`, in source order.
pub open spec fn uses_of(src: Seq<char>, t: Seq<NodeModel>, i: int, name: Seq<char>) -> Seq<Mention>
    decreases t.len() - i, 1int, 0int,
{
    if i < 0 || i >= t.len() {
        seq![]
    } else {
        (if t[i].kind == "identifier"@ && node_text(src, t[i]) == name {
            seq![mention_of(src, t[i])]
        } else {
            seq![]
        }) + uses_in_each(src, t, i, named_children(t, i).len() as int, name)
    }
}

/// The identifiers in the first `n` named children of `p` that read `name`.
pub open spec fn uses_in_each(
    src: Seq<char>,
    t: Seq<NodeModel>,
    p: int,
    n: int,
    name: Seq<char>,
) -> Seq<Mention>
    decreases t.len() - p, 0int, n,
{
    if p < 0 || p >= t.len() || n <= 0 || n > named_children(t, p).len() {
        seq![]
    } else {
        proof {
            lemma_named_child_range(t, p, n - 1);
        }
        uses_in_each(src, t, p, n - 1, name) + uses_of(src, t, named_children(t, p)[n - 1], name)
    }
}

/// The graph after the names of the first `n` value scopes were searched for in
/// the whole tree: each use of a shared value is a reference from its scope.
pub open spec fn flush_values(g: Graph, src: Seq<char>, t: Seq<NodeModel>, n: int) -> Graph
    decreases n,
{
    if n <= 0 {
        g
    } else {
        let before = flush_values(g, src, t, n - 1);
        let scope = g.value_scopes[n - 1];
        if g.values.contains_key(scope.name) {
            add_refs(before, scope.row, FUNCTION_REF_CODE, uses_of(src, t, 0, scope.name))
        } else {
            before
        }
    }
}

/// The graph of the file `path` with the text `src` and the syntax tree `t`.
pub open spec fn whole_graph(path: Seq<char>, src: Seq<char>, t: Seq<NodeModel>) -> Graph {
    let walked = run(file_graph(path, src), visit_events(src, t, 0));
    let resolved = flush_candidates(walked, walked.candidates.len() as int);
    flush_values(resolved, src, t, resolved.value_scopes.len() as int)
}

} // verus!
