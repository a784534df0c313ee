//! What of a source is recorded: which declarations and references a graph is sure
//! to hold.

use vstd::prelude::*;
use vstd::utf8::encode_utf8;
use crate::balance::law_open_scopes_stay;
use crate::buffers::{resolves_to, RefRow};
use crate::events::{
    argument_events, argument_list, body_each, body_events, callee_of, class_events, declared_name,
    documented, enumerator_declaration, enumerator_events, flush_values, function_declaration,
    function_events, inherited, lambda_declaration, lambda_name, mention_of, plain_declaration,
    scoped, start_line_of, syntax_kind, uses_of, value_declaration, visit_each, visit_events,
    whole_graph, SyntaxKind,
};
use crate::graph::{
    add_refs, apply, extending_class, extends_edge, file_graph, flush_candidates, in_class_like,
    is_known, latest_row, lemma_add_refs_keeps_nodes, lemma_extend_all_keeps, lemma_run_concat,
    lemma_run_one, nearest_class, qualified_name_of, run, scope_names, CandidateModel, Declaration,
    Event, Graph, Mention, MetaModel, ScopeModel,
};
use crate::kinds::{edge_code, EdgeKind, NodeKind, FUNCTION_REF_CODE};
use crate::laws::{
    begins, grows, law_candidates_only_add, law_values_only_add, law_walk_only_adds,
    lemma_add_refs_grows, lemma_grows_trans,
};
use crate::soundness::{law_extraction_is_sound, law_texts_stay, row_resolves, within_limits};
use crate::syntax::{
    children_of_kind, field_child, law_field_child, lemma_named_child_range, named_children,
    node_text, NodeModel,
};
use crate::textutil::join_of;

verus! {

/// Whether `inner` happens somewhere in `outer`, without interruption.
pub open spec fn part_of(inner: Seq<Event>, outer: Seq<Event>) -> bool {
    exists|a: Seq<Event>, b: Seq<Event>| outer == #[trigger] (a + inner + b)
}

/// Whether a walk of the node `i` walks the node `j` on its way.
pub open spec fn walks_through(src: Seq<char>, t: Seq<NodeModel>, i: int, j: int) -> bool {
    part_of(visit_events(src, t, j), visit_events(src, t, i))
}

/// A part of a part is a part.
pub proof fn lemma_part_trans(x: Seq<Event>, y: Seq<Event>, z: Seq<Event>)
    requires
        part_of(x, y),
        part_of(y, z),
    ensures
        part_of(x, z),
{
    let (a, b) = choose|a: Seq<Event>, b: Seq<Event>| y == #[trigger] (a + x + b);
    let (c, d) = choose|c: Seq<Event>, d: Seq<Event>| z == #[trigger] (c + y + d);
    assert(z =~= (c + a) + x + (b + d));
}

proof fn lemma_part_left(inner: Seq<Event>, b: Seq<Event>)
    ensures
        part_of(inner, inner + b),
{
    assert(inner + b =~= Seq::<Event>::empty() + inner + b);
}

proof fn lemma_part_right(a: Seq<Event>, inner: Seq<Event>)
    ensures
        part_of(inner, a + inner),
{
    assert(a + inner =~= a + inner + Seq::<Event>::empty());
}

/// What is walked on the way to a node that is itself walked on the way is walked
/// on the way.
pub proof fn law_walks_through_trans(src: Seq<char>, t: Seq<NodeModel>, i: int, j: int, k: int)
    requires
        walks_through(src, t, i, j),
        walks_through(src, t, j, k),
    ensures
        walks_through(src, t, i, k),
{
    lemma_part_trans(visit_events(src, t, k), visit_events(src, t, j), visit_events(src, t, i));
}

proof fn lemma_each_part(src: Seq<char>, t: Seq<NodeModel>, p: int, n: int, m: int)
    requires
        0 <= p < t.len(),
        0 <= n < m <= named_children(t, p).len(),
    ensures
        part_of(visit_events(src, t, named_children(t, p)[n]), visit_each(src, t, p, m)),
    decreases m,
{
    let last = visit_events(src, t, named_children(t, p)[m - 1]);
    let before = visit_each(src, t, p, m - 1);
    if n == m - 1 {
        lemma_part_right(before, last);
    } else {
        lemma_each_part(src, t, p, n, m - 1);
        lemma_part_left(before, last);
        lemma_part_trans(
            visit_events(src, t, named_children(t, p)[n]),
            before,
            visit_each(src, t, p, m),
        );
    }
}

/// Whether the walk goes on into the named children of nodes of this sort.
pub open spec fn walks_children(kind: SyntaxKind) -> bool {
    kind == SyntaxKind::ClassNameStatement || kind == SyntaxKind::VariableStatement || kind
        == SyntaxKind::ConstStatement || kind == SyntaxKind::SignalStatement || kind
        == SyntaxKind::Call || kind == SyntaxKind::ExtendsStatement || kind == SyntaxKind::Other
}

/// The named children of every node are walked with it, except those of classes,
/// functions, enums and lambdas.
pub proof fn law_children_are_walked(src: Seq<char>, t: Seq<NodeModel>, p: int, n: int)
    requires
        0 <= p < t.len(),
        0 <= n < named_children(t, p).len(),
        walks_children(syntax_kind(t[p].kind)),
    ensures
        walks_through(src, t, p, named_children(t, p)[n]),
{
    let len = named_children(t, p).len() as int;
    let rest = visit_each(src, t, p, len);
    let all = visit_events(src, t, p);
    lemma_each_part(src, t, p, n, len);
    let front = all.take(all.len() - rest.len());
    assert(all =~= front + rest);
    lemma_part_right(front, rest);
    lemma_part_trans(visit_events(src, t, named_children(t, p)[n]), rest, all);
}

/// The members of every named class with a body are walked with it.
pub proof fn law_class_members_are_walked(
    src: Seq<char>,
    t: Seq<NodeModel>,
    p: int,
    body: int,
    n: int,
)
    requires
        0 <= p < t.len(),
        syntax_kind(t[p].kind) == SyntaxKind::ClassDefinition,
        declared_name(src, t, p).len() > 0,
        field_child(t, p, "body"@) == Some(body),
        0 <= n < named_children(t, body).len(),
    ensures
        walks_through(src, t, p, named_children(t, body)[n]),
{
    law_field_child(t, p, "body"@);
    let len = named_children(t, body).len() as int;
    let member = visit_events(src, t, named_children(t, body)[n]);
    let inner = visit_each(src, t, body, len);
    let open = Event::Enter(NodeKind::Class, declared_name(src, t, p));
    let head = seq![
        Event::Declare(documented(src, t, p, NodeKind::Class)),
        Event::Inherit(inherited(src, t, p)),
    ];
    let all = visit_events(src, t, p);
    lemma_each_part(src, t, body, n, len);
    assert(all =~= (argument_events(src, t, p) + head + seq![open]) + inner + seq![Event::Leave]);
    lemma_part_trans(member, inner, all);
}

/// The kind under which a statement of this sort is recorded; functions may be
/// recorded as methods.
pub open spec fn statement_kind(kind: SyntaxKind) -> Option<NodeKind> {
    match kind {
        SyntaxKind::ClassNameStatement => Some(NodeKind::Class),
        SyntaxKind::ClassDefinition => Some(NodeKind::Class),
        SyntaxKind::FunctionDefinition => Some(NodeKind::Function),
        SyntaxKind::StaticFunctionDefinition => Some(NodeKind::Function),
        SyntaxKind::VariableStatement => Some(NodeKind::Variable),
        SyntaxKind::ConstStatement => Some(NodeKind::Constant),
        SyntaxKind::SignalStatement => Some(NodeKind::Variable),
        SyntaxKind::EnumDefinition => Some(NodeKind::Enum),
        _ => None,
    }
}

/// Whether a node recorded as `meta` stands for a declaration of `name` as `kind`.
pub open spec fn stands_for(meta: MetaModel, kind: NodeKind, name: Seq<char>) -> bool {
    &&& meta.name == name
    &&& meta.kind == kind || (kind == NodeKind::Function && meta.kind == NodeKind::Method)
}

/// Whether a node of `metas` stands for a declaration of `name` as `kind`.
pub open spec fn has_node(metas: Seq<MetaModel>, kind: NodeKind, name: Seq<char>) -> bool {
    exists|k: int| 0 <= k < metas.len() && stands_for(#[trigger] metas[k], kind, name)
}

proof fn lemma_has_node_stays(a: Seq<MetaModel>, b: Seq<MetaModel>, kind: NodeKind, name: Seq<char>)
    requires
        begins(b, a),
        has_node(a, kind, name),
    ensures
        has_node(b, kind, name),
{
    let k = choose|k: int| 0 <= k < a.len() && stands_for(#[trigger] a[k], kind, name);
    assert(b.take(a.len() as int)[k] == a[k]);
    assert(stands_for(b[k], kind, name));
}

/// The event by which a declaring statement begins, after the arguments it passes.
pub open spec fn statement_event(src: Seq<char>, t: Seq<NodeModel>, i: int) -> Event {
    match syntax_kind(t[i].kind) {
        SyntaxKind::FunctionDefinition => Event::DeclareCallable(function_declaration(src, t, i)),
        SyntaxKind::StaticFunctionDefinition => Event::DeclareCallable(
            function_declaration(src, t, i),
        ),
        SyntaxKind::VariableStatement => Event::Declare(
            value_declaration(src, t, i, NodeKind::Variable),
        ),
        SyntaxKind::ConstStatement => Event::Declare(
            value_declaration(src, t, i, NodeKind::Constant),
        ),
        SyntaxKind::SignalStatement => Event::Declare(documented(src, t, i, NodeKind::Variable)),
        SyntaxKind::EnumDefinition => Event::Declare(documented(src, t, i, NodeKind::Enum)),
        _ => Event::Declare(documented(src, t, i, NodeKind::Class)),
    }
}

proof fn lemma_statement_event(src: Seq<char>, t: Seq<NodeModel>, i: int)
    requires
        0 <= i < t.len(),
        statement_kind(syntax_kind(t[i].kind)) is Some,
        declared_name(src, t, i).len() > 0,
    ensures
        part_of(seq![statement_event(src, t, i)], visit_events(src, t, i)),
{
    let e = statement_event(src, t, i);
    let all = visit_events(src, t, i);
    let args = argument_events(src, t, i);
    let after = all.skip((args.len() + 1) as int);
    assert(all =~= args + seq![e] + after) by {
        assert(all.len() > args.len());
        assert(all[args.len() as int] == e);
    }
}

proof fn lemma_event_recorded(
    g: Graph,
    events: Seq<Event>,
    e: Event,
    kind: NodeKind,
    name: Seq<char>,
)
    requires
        part_of(seq![e], events),
        match e {
            Event::Declare(d) => d.kind == kind && d.name == name,
            Event::DeclareCallable(d) => kind == NodeKind::Function && d.name == name,
            _ => false,
        },
    ensures
        has_node(run(g, events).metas, kind, name),
{
    let (a, b) = choose|a: Seq<Event>, b: Seq<Event>| events == #[trigger] (a + seq![e] + b);
    let g1 = run(g, a);
    let g2 = apply(g1, e);
    lemma_run_concat(g, a + seq![e], b);
    lemma_run_concat(g, a, seq![e]);
    lemma_run_one(g1, e);
    assert(stands_for(g2.metas[g2.metas.len() - 1], kind, name));
    assert(has_node(g2.metas, kind, name));
    law_walk_only_adds(g2, b);
    lemma_has_node_stays(g2.metas, run(g, events).metas, kind, name);
}

/// Whether the row `k` stands for a declaration of `name` as `kind` and refers to
/// that name in the arena.
pub open spec fn recorded_at(g: Graph, k: int, kind: NodeKind, name: Seq<char>) -> bool {
    &&& 0 <= k < g.nodes.len()
    &&& stands_for(g.metas[k], kind, name)
    &&& resolves_to(g.arena, g.nodes[k].name, name)
}

/// What a walk of the whole file declares is recorded.
proof fn lemma_recorded(
    path: Seq<char>,
    src: Seq<char>,
    t: Seq<NodeModel>,
    e: Event,
    kind: NodeKind,
    name: Seq<char>,
)
    requires
        part_of(seq![e], visit_events(src, t, 0)),
        match e {
            Event::Declare(d) => d.kind == kind && d.name == name,
            Event::DeclareCallable(d) => kind == NodeKind::Function && d.name == name,
            _ => false,
        },
        within_limits(whole_graph(path, src, t)),
    ensures
        exists|k: int| recorded_at(whole_graph(path, src, t), k, kind, name),
{
    let g0 = file_graph(path, src);
    let g1 = run(g0, visit_events(src, t, 0));
    let g2 = flush_candidates(g1, g1.candidates.len() as int);
    let g = whole_graph(path, src, t);
    lemma_event_recorded(g0, visit_events(src, t, 0), e, kind, name);
    law_candidates_only_add(g1, g1.candidates.len() as int);
    law_values_only_add(g2, src, t, g2.value_scopes.len() as int);
    lemma_grows_trans(g1, g2, g);
    lemma_has_node_stays(g1.metas, g.metas, kind, name);
    law_extraction_is_sound(path, src, t);
    let k = choose|k: int| 0 <= k < g.metas.len() && stands_for(#[trigger] g.metas[k], kind, name);
    assert(row_resolves(g.arena, g.nodes[k], g.metas[k], g.ids[k]));
    assert(recorded_at(g, k, kind, name));
}

/// Every named class, function, variable, constant, signal and enum that the walk
/// reaches has a node of its kind and name in the graph, functions as functions or
/// methods; and its name is the text of that node's row in the arena, within the
/// limits of row numbers and arena offsets.
pub proof fn law_declarations_are_recorded(
    path: Seq<char>,
    src: Seq<char>,
    t: Seq<NodeModel>,
    j: int,
)
    requires
        0 <= j < t.len(),
        walks_through(src, t, 0, j),
        statement_kind(syntax_kind(t[j].kind)) is Some,
        declared_name(src, t, j).len() > 0,
        within_limits(whole_graph(path, src, t)),
    ensures
        exists|k: int|
            recorded_at(
                whole_graph(path, src, t),
                k,
                statement_kind(syntax_kind(t[j].kind))->0,
                declared_name(src, t, j),
            ),
{
    let e = statement_event(src, t, j);
    lemma_statement_event(src, t, j);
    lemma_part_trans(seq![e], visit_events(src, t, j), visit_events(src, t, 0));
    lemma_recorded(
        path,
        src,
        t,
        e,
        statement_kind(syntax_kind(t[j].kind))->0,
        declared_name(src, t, j),
    );
}

/// Every anonymous function that the walk reaches has a function node named after its
/// line.
pub proof fn law_lambdas_are_recorded(path: Seq<char>, src: Seq<char>, t: Seq<NodeModel>, j: int)
    requires
        0 <= j < t.len(),
        walks_through(src, t, 0, j),
        syntax_kind(t[j].kind) == SyntaxKind::Lambda,
        within_limits(whole_graph(path, src, t)),
    ensures
        exists|k: int|
            recorded_at(
                whole_graph(path, src, t),
                k,
                NodeKind::Function,
                lambda_name(start_line_of(t[j])),
            ),
{
    let e = Event::Declare(lambda_declaration(src, t, j));
    let args = argument_events(src, t, j);
    let all = visit_events(src, t, j);
    assert(all =~= args + seq![e] + all.skip((args.len() + 1) as int));
    lemma_part_trans(seq![e], all, visit_events(src, t, 0));
    lemma_recorded(path, src, t, e, NodeKind::Function, lambda_name(start_line_of(t[j])));
}

proof fn lemma_enumerator_part(src: Seq<char>, t: Seq<NodeModel>, list: Seq<int>, n: int)
    requires
        0 <= n < list.len(),
        declared_name(src, t, list[n]).len() > 0,
    ensures
        part_of(
            seq![Event::Declare(enumerator_declaration(src, t, list[n]))],
            enumerator_events(src, t, list),
        ),
    decreases list.len(),
{
    let one = seq![Event::Declare(enumerator_declaration(src, t, list[n]))];
    let before = enumerator_events(src, t, list.drop_last());
    let last = plain_declaration(enumerator_declaration(src, t, list.last()));
    if n == list.len() - 1 {
        lemma_part_right(before, last);
    } else {
        assert(list.drop_last()[n] == list[n]);
        lemma_enumerator_part(src, t, list.drop_last(), n);
        lemma_part_left(before, last);
        lemma_part_trans(one, before, enumerator_events(src, t, list));
    }
}

/// Every named value of a named enum that the walk reaches has a constant node of its
/// name.
pub proof fn law_enum_values_are_recorded(
    path: Seq<char>,
    src: Seq<char>,
    t: Seq<NodeModel>,
    j: int,
    body: int,
    n: int,
)
    requires
        0 <= j < t.len(),
        walks_through(src, t, 0, j),
        syntax_kind(t[j].kind) == SyntaxKind::EnumDefinition,
        declared_name(src, t, j).len() > 0,
        field_child(t, j, "body"@) == Some(body),
        0 <= n < children_of_kind(t, body, "enumerator"@).len(),
        declared_name(src, t, children_of_kind(t, body, "enumerator"@)[n]).len() > 0,
        within_limits(whole_graph(path, src, t)),
    ensures
        exists|k: int|
            recorded_at(
                whole_graph(path, src, t),
                k,
                NodeKind::Constant,
                declared_name(src, t, children_of_kind(t, body, "enumerator"@)[n]),
            ),
{
    let values = children_of_kind(t, body, "enumerator"@);
    let e = Event::Declare(enumerator_declaration(src, t, values[n]));
    let inner = enumerator_events(src, t, values);
    let head = seq![Event::Declare(documented(src, t, j, NodeKind::Enum))];
    let open = Event::Enter(NodeKind::Enum, declared_name(src, t, j));
    let all = visit_events(src, t, j);
    lemma_enumerator_part(src, t, values, n);
    assert(all =~= (argument_events(src, t, j) + head + seq![open]) + inner + seq![Event::Leave]);
    lemma_part_trans(seq![e], inner, all);
    lemma_part_trans(seq![e], all, visit_events(src, t, 0));
    lemma_recorded(path, src, t, e, NodeKind::Constant, declared_name(src, t, values[n]));
}

/// Whether a walk of the node `i` walks the node `j` as code on its way.
pub open spec fn runs_through(src: Seq<char>, t: Seq<NodeModel>, i: int, j: int) -> bool {
    part_of(body_events(src, t, j), visit_events(src, t, i))
}

/// Whether nodes of this sort declare a function.
pub open spec fn declares_function(kind: SyntaxKind) -> bool {
    kind == SyntaxKind::FunctionDefinition || kind == SyntaxKind::StaticFunctionDefinition
}

proof fn lemma_body_each_part(src: Seq<char>, t: Seq<NodeModel>, p: int, n: int, m: int)
    requires
        0 <= p < t.len(),
        0 <= n < m <= named_children(t, p).len(),
    ensures
        part_of(body_events(src, t, named_children(t, p)[n]), body_each(src, t, p, m)),
    decreases m,
{
    let last = body_events(src, t, named_children(t, p)[m - 1]);
    let before = body_each(src, t, p, m - 1);
    if n == m - 1 {
        lemma_part_right(before, last);
    } else {
        lemma_body_each_part(src, t, p, n, m - 1);
        lemma_part_left(before, last);
        lemma_part_trans(
            body_events(src, t, named_children(t, p)[n]),
            before,
            body_each(src, t, p, m),
        );
    }
}

/// The named children of code are code, except those of the functions declared in it.
pub proof fn law_code_children_run(src: Seq<char>, t: Seq<NodeModel>, i: int, p: int, n: int)
    requires
        0 <= p < t.len(),
        runs_through(src, t, i, p),
        !declares_function(syntax_kind(t[p].kind)),
        0 <= n < named_children(t, p).len(),
    ensures
        runs_through(src, t, i, named_children(t, p)[n]),
{
    let len = named_children(t, p).len() as int;
    let rest = body_each(src, t, p, len);
    let all = body_events(src, t, p);
    let child = body_events(src, t, named_children(t, p)[n]);
    lemma_body_each_part(src, t, p, n, len);
    let front = all.take(all.len() - rest.len());
    assert(all =~= front + rest);
    lemma_part_right(front, rest);
    lemma_part_trans(child, rest, all);
    lemma_part_trans(child, all, visit_events(src, t, i));
}

/// The body of every named function is walked as code, wherever the function is
/// declared.
pub proof fn law_function_bodies_run(src: Seq<char>, t: Seq<NodeModel>, i: int, j: int, body: int)
    requires
        0 <= j < t.len(),
        walks_through(src, t, i, j) || runs_through(src, t, i, j),
        declares_function(syntax_kind(t[j].kind)),
        declared_name(src, t, j).len() > 0,
        field_child(t, j, "body"@) == Some(body),
    ensures
        runs_through(src, t, i, body),
{
    let head = seq![Event::DeclareCallable(function_declaration(src, t, j))];
    let open = Event::Enter(NodeKind::Function, declared_name(src, t, j));
    let inner = body_events(src, t, body);
    let all = visit_events(src, t, j);
    assert(all =~= (argument_events(src, t, j) + head + seq![open]) + inner + seq![Event::Leave]);
    assert(all == body_events(src, t, j));
    lemma_part_trans(inner, all, visit_events(src, t, i));
}

/// The body of every anonymous function that the walk reaches is walked as code.
pub proof fn law_lambda_bodies_run(src: Seq<char>, t: Seq<NodeModel>, i: int, j: int, body: int)
    requires
        0 <= j < t.len(),
        walks_through(src, t, i, j),
        syntax_kind(t[j].kind) == SyntaxKind::Lambda,
        field_child(t, j, "body"@) == Some(body),
    ensures
        runs_through(src, t, i, body),
{
    let head = seq![Event::Declare(lambda_declaration(src, t, j))];
    let open = Event::Enter(NodeKind::Function, lambda_name(start_line_of(t[j])));
    let inner = body_events(src, t, body);
    let all = visit_events(src, t, j);
    assert(all =~= (argument_events(src, t, j) + head + seq![open]) + inner + seq![Event::Leave]);
    lemma_part_trans(inner, all, visit_events(src, t, i));
}

/// The initializer of every named variable that the walk reaches is walked as code.
pub proof fn law_initializers_run(src: Seq<char>, t: Seq<NodeModel>, i: int, j: int, value: int)
    requires
        0 <= j < t.len(),
        walks_through(src, t, i, j),
        syntax_kind(t[j].kind) == SyntaxKind::VariableStatement,
        declared_name(src, t, j).len() > 0,
        field_child(t, j, "value"@) == Some(value),
    ensures
        runs_through(src, t, i, value),
{
    let head = seq![Event::Declare(value_declaration(src, t, j, NodeKind::Variable))];
    let inner = body_events(src, t, value);
    let rest = visit_each(src, t, j, named_children(t, j).len() as int);
    let all = visit_events(src, t, j);
    assert(all =~= (argument_events(src, t, j) + head + seq![Event::EnterInitializer]) + inner + (
    seq![Event::Leave] + rest));
    lemma_part_trans(inner, all, visit_events(src, t, i));
}

/// Every named function declared in code has a node of its name in the graph, as a
/// function or method.
pub proof fn law_nested_functions_are_recorded(
    path: Seq<char>,
    src: Seq<char>,
    t: Seq<NodeModel>,
    j: int,
)
    requires
        0 <= j < t.len(),
        runs_through(src, t, 0, j),
        declares_function(syntax_kind(t[j].kind)),
        declared_name(src, t, j).len() > 0,
        within_limits(whole_graph(path, src, t)),
    ensures
        exists|k: int|
            recorded_at(
                whole_graph(path, src, t),
                k,
                NodeKind::Function,
                declared_name(src, t, j),
            ),
{
    let e = Event::DeclareCallable(function_declaration(src, t, j));
    let args = argument_events(src, t, j);
    let all = body_events(src, t, j);
    assert(all =~= args + seq![e] + all.skip((args.len() + 1) as int));
    lemma_part_trans(seq![e], all, visit_events(src, t, 0));
    lemma_recorded(path, src, t, e, NodeKind::Function, declared_name(src, t, j));
}

/// What was recorded up to some point of the walk of a file stays in its graph.
pub proof fn lemma_part_stays(
    path: Seq<char>,
    src: Seq<char>,
    t: Seq<NodeModel>,
    a: Seq<Event>,
    b: Seq<Event>,
)
    requires
        visit_events(src, t, 0) == a + b,
    ensures
        grows(run(file_graph(path, src), a), whole_graph(path, src, t)),
{
    let g0 = file_graph(path, src);
    let after = run(g0, a);
    let g1 = run(g0, visit_events(src, t, 0));
    let g2 = flush_candidates(g1, g1.candidates.len() as int);
    let g = whole_graph(path, src, t);
    lemma_run_concat(g0, a, b);
    law_walk_only_adds(after, b);
    law_candidates_only_add(g1, g1.candidates.len() as int);
    law_values_only_add(g2, src, t, g2.value_scopes.len() as int);
    lemma_grows_trans(after, g1, g2);
    lemma_grows_trans(after, g2, g);
}

/// Whether the graph of a file holds a reference to `m` from the scope that is
/// innermost after the events `a` of its walk.
pub open spec fn refers_from_scope(
    path: Seq<char>,
    src: Seq<char>,
    t: Seq<NodeModel>,
    a: Seq<Event>,
    m: Mention,
) -> bool {
    let g = whole_graph(path, src, t);
    let before = run(file_graph(path, src), a);
    &&& before.stack.len() > 0
    &&& before.refs.len() < g.refs.len()
    &&& refers_to(
        g.arena,
        g.refs[before.refs.len() as int],
        before.stack.last().row,
        FUNCTION_REF_CODE,
        m,
    )
}

/// Wherever the walk comes upon a call, the reference to it comes from the row of the
/// scope that is innermost at that point.
pub proof fn law_calls_refer_from_their_scope(
    path: Seq<char>,
    src: Seq<char>,
    t: Seq<NodeModel>,
    a: Seq<Event>,
    m: Mention,
    b: Seq<Event>,
)
    requires
        visit_events(src, t, 0) == a + seq![Event::Call(m)] + b,
        whole_graph(path, src, t).arena.len() <= usize::MAX,
    ensures
        refers_from_scope(path, src, t, a, m),
{
    let e = Event::Call(m);
    let events = visit_events(src, t, 0);
    let g0 = file_graph(path, src);
    let before = run(g0, a);
    let after = apply(before, e);
    let g = whole_graph(path, src, t);
    lemma_run_concat(g0, a, seq![e]);
    lemma_run_one(before, e);
    // The file is open as long as the walk lasts.
    law_open_scopes_stay(g0, src, t, 0, a.len() as int);
    assert(events.take(a.len() as int) =~= a);
    assert(before.stack.len() > 0);
    lemma_part_stays(path, src, t, a + seq![e], b);
    let k = before.refs.len() as int;
    assert(resolves_to(after.arena, after.refs[k].reference_name, m.name)) by {
        assert(after.arena.subrange(before.arena.len() as int, after.arena.len() as int)
            =~= encode_utf8(m.name));
    }
    law_texts_stay(after.arena, g.arena, after.refs[k].reference_name, m.name);
    assert(g.refs.take(after.refs.len() as int)[k] == after.refs[k]);
}

/// Every call that names its function and that the walk reaches, as a statement or in
/// code, leaves a reference to that name at its place, from the row of the scope that is
/// innermost where the walk comes upon it.
pub proof fn law_calls_become_refs(
    path: Seq<char>,
    src: Seq<char>,
    t: Seq<NodeModel>,
    j: int,
    callee: int,
)
    requires
        0 <= j < t.len(),
        walks_through(src, t, 0, j) || runs_through(src, t, 0, j),
        syntax_kind(t[j].kind) == SyntaxKind::Call,
        callee_of(t, j) == Some(callee),
        node_text(src, t[callee]).len() > 0,
        whole_graph(path, src, t).arena.len() <= usize::MAX,
    ensures
        exists|a: Seq<Event>, b: Seq<Event>|
            visit_events(src, t, 0) == #[trigger] (a + seq![
                Event::Call(mention_of(src, t[callee])),
            ] + b) && refers_from_scope(path, src, t, a, mention_of(src, t[callee])),
{
    let m = mention_of(src, t[callee]);
    let e = Event::Call(m);
    let args = argument_events(src, t, j);
    let events = visit_events(src, t, 0);
    let as_statement = visit_events(src, t, j);
    let as_code = body_events(src, t, j);
    if walks_through(src, t, 0, j) {
        assert(as_statement =~= args + seq![e] + as_statement.skip((args.len() + 1) as int));
        lemma_part_trans(seq![e], as_statement, events);
    } else {
        assert(as_code =~= args + seq![e] + as_code.skip((args.len() + 1) as int));
        lemma_part_trans(seq![e], as_code, events);
    }
    let (a, b) = choose|a: Seq<Event>, b: Seq<Event>| events == #[trigger] (a + seq![e] + b);
    law_calls_refer_from_their_scope(path, src, t, a, m, b);
}

/// A function is recorded as a method exactly where the innermost open scope is
/// class-like, and as a function elsewhere.
pub proof fn law_methods(g: Graph, d: Declaration)
    ensures
        apply(g, Event::DeclareCallable(d)).metas.last() == (MetaModel {
            kind: if in_class_like(g.stack) {
                NodeKind::Method
            } else {
                NodeKind::Function
            },
            name: d.name,
        }),
{
}

/// An `extends` statement leaves one edge and one reference to the base class, from
/// the innermost open class, else from the class that the file was declared to be.
/// Where there is neither, it leaves no row: the base class waits.
pub proof fn law_extends(g: Graph, m: Mention)
    requires
        apply(g, Event::Extend(m)).arena.len() <= usize::MAX,
    ensures
        extending_class(g) == (match nearest_class(g.stack) {
            Some(row) => Some(row),
            None => g.script_class,
        }),
        match extending_class(g) {
            None => apply(g, Event::Extend(m)) == (Graph { waiting: g.waiting.push(m), ..g }),
            Some(row) => {
                let h = apply(g, Event::Extend(m));
                &&& h.edges == g.edges.push(extends_edge(row, m))
                &&& h.refs.len() == g.refs.len() + 1
                &&& h.refs.drop_last() == g.refs
                &&& refers_to(h.arena, h.refs.last(), row, edge_code(EdgeKind::Extends), m)
                &&& h.nodes == g.nodes
            },
        },
{
    if let Some(row) = extending_class(g) {
        let h = apply(g, Event::Extend(m));
        assert(h.refs.drop_last() =~= g.refs);
        assert(h.arena.subrange(g.arena.len() as int, h.arena.len() as int) =~= encode_utf8(
            m.name,
        ));
    }
}

/// Whether every open scope inside the file has a name.
pub open spec fn scopes_named(stack: Seq<ScopeModel>) -> bool {
    forall|k: int|
        0 <= k < stack.len() && (#[trigger] stack[k]).kind != NodeKind::File ==> stack[k].name.len()
            > 0
}

proof fn lemma_scope_path_named(stack: Seq<ScopeModel>)
    requires
        scopes_named(stack),
    ensures
        forall|k: int|
            0 <= k < scope_names(stack).len() ==> (#[trigger] scope_names(stack)[k]).len() > 0,
        scope_names(stack).len() > 0 ==> join_of(scope_names(stack), "::"@).len() > 0,
    decreases stack.len(),
{
    if stack.len() > 0 {
        assert forall|k: int|
            0 <= k < stack.drop_last().len() && (#[trigger] stack.drop_last()[k]).kind
                != NodeKind::File implies stack.drop_last()[k].name.len() > 0 by {
            assert(stack.drop_last()[k] == stack[k]);
        }
        lemma_scope_path_named(stack.drop_last());
        assert(stack[stack.len() - 1] == stack.last());
    }
}

/// Inside a scope, the qualified name is the qualified name of the scope and the
/// name.
pub proof fn law_qualified_names_nest(stack: Seq<ScopeModel>, scope: ScopeModel, name: Seq<char>)
    requires
        scopes_named(stack.push(scope)),
        scope.kind != NodeKind::File,
    ensures
        qualified_name_of(stack.push(scope), name) == qualified_name_of(stack, scope.name) + "::"@
            + name,
{
    let names = scope_names(stack);
    let more = names.push(scope.name);
    assert(stack.push(scope).drop_last() =~= stack);
    assert(scope_names(stack.push(scope)) == more);
    assert(more.drop_last() =~= names);
    assert forall|k: int|
        0 <= k < stack.len() && (#[trigger] stack[k]).kind
            != NodeKind::File implies stack[k].name.len() > 0 by {
        assert(stack.push(scope)[k] == stack[k]);
    }
    assert(stack.push(scope)[stack.len() as int] == scope);
    lemma_scope_path_named(stack);
    if names.len() == 0 {
        assert(join_of(names, "::"@).len() == 0);
        assert(join_of(more, "::"@) == scope.name);
    } else {
        assert(join_of(more, "::"@) == join_of(names, "::"@) + "::"@ + scope.name);
    }
}

/// Whether `r` is a reference of the given kind from the row `from` to `m`.
pub open spec fn refers_to(arena: Seq<u8>, r: RefRow, from: u32, kind: u8, m: Mention) -> bool {
    &&& r.from_idx == from
    &&& r.kind == kind
    &&& r.line == m.line
    &&& r.column == m.column
    &&& resolves_to(arena, r.reference_name, m.name)
}

/// The mention that a noted argument makes once it is resolved: it has no column.
pub open spec fn resolved_mention(c: CandidateModel) -> Mention {
    Mention { name: c.name, line: c.line, column: 0, byte: c.column_byte }
}

/// The noted arguments among the first `n` that name a declared or imported
/// function, in order.
pub open spec fn known_candidates(g: Graph, n: int) -> Seq<CandidateModel>
    decreases n,
{
    if n <= 0 {
        seq![]
    } else if is_known(g, g.candidates[n - 1].name) {
        known_candidates(g, n - 1).push(g.candidates[n - 1])
    } else {
        known_candidates(g, n - 1)
    }
}

/// Exactly the noted arguments that name a declared or imported function become
/// references, each from the scope that passed it, in order and without a column.
pub proof fn law_known_arguments_become_refs(g: Graph, n: int)
    requires
        n <= g.candidates.len(),
        flush_candidates(g, n).arena.len() <= usize::MAX,
    ensures
        flush_candidates(g, n).refs.len() == g.refs.len() + known_candidates(g, n).len(),
        begins(flush_candidates(g, n).refs, g.refs),
        forall|k: int|
            0 <= k < known_candidates(g, n).len() ==> refers_to(
                flush_candidates(g, n).arena,
                flush_candidates(g, n).refs[g.refs.len() + k],
                known_candidates(g, n)[k].from,
                FUNCTION_REF_CODE,
                resolved_mention(#[trigger] known_candidates(g, n)[k]),
            ),
    decreases n,
{
    law_candidates_only_add(g, n);
    if n > 0 {
        let before = flush_candidates(g, n - 1);
        let after = flush_candidates(g, n);
        let c = g.candidates[n - 1];
        law_candidates_only_add(g, n - 1);
        assert(before.arena.len() <= after.arena.len());
        law_known_arguments_become_refs(g, n - 1);
        if is_known(g, c.name) {
            assert(begins(after.arena, before.arena)) by {
                assert(after.arena.take(before.arena.len() as int) =~= before.arena);
            }
            let last = after.refs.last();
            assert(resolves_to(after.arena, last.reference_name, c.name)) by {
                assert(after.arena.subrange(before.arena.len() as int, after.arena.len() as int)
                    =~= encode_utf8(c.name));
            }
            assert forall|k: int| 0 <= k < known_candidates(g, n).len() implies refers_to(
                after.arena,
                after.refs[g.refs.len() + k],
                known_candidates(g, n)[k].from,
                FUNCTION_REF_CODE,
                resolved_mention(#[trigger] known_candidates(g, n)[k]),
            ) by {
                if k < known_candidates(g, n - 1).len() {
                    assert(known_candidates(g, n - 1)[k] == known_candidates(g, n)[k]);
                    let r = before.refs[g.refs.len() + k];
                    assert(after.refs[g.refs.len() + k] == r);
                    law_texts_stay(
                        before.arena,
                        after.arena,
                        r.reference_name,
                        known_candidates(g, n)[k].name,
                    );
                }
            }
        }
    }
}

/// Each mention becomes one reference of the given kind from the given row, at its
/// place and with its name, in order.
pub proof fn law_mentions_become_refs(g: Graph, from: u32, kind: u8, mentions: Seq<Mention>)
    requires
        add_refs(g, from, kind, mentions).arena.len() <= usize::MAX,
    ensures
        add_refs(g, from, kind, mentions).refs.len() == g.refs.len() + mentions.len(),
        begins(add_refs(g, from, kind, mentions).refs, g.refs),
        begins(add_refs(g, from, kind, mentions).arena, g.arena),
        forall|k: int|
            0 <= k < mentions.len() ==> refers_to(
                add_refs(g, from, kind, mentions).arena,
                add_refs(g, from, kind, mentions).refs[g.refs.len() + k],
                from,
                kind,
                #[trigger] mentions[k],
            ),
    decreases mentions.len(),
{
    lemma_add_refs_grows(g, from, kind, mentions);
    if mentions.len() > 0 {
        let before = add_refs(g, from, kind, mentions.drop_last());
        let after = add_refs(g, from, kind, mentions);
        let m = mentions.last();
        assert(begins(after.arena, before.arena)) by {
            assert(after.arena.take(before.arena.len() as int) =~= before.arena);
        }
        law_mentions_become_refs(g, from, kind, mentions.drop_last());
        let last = after.refs[g.refs.len() + mentions.len() - 1];
        assert(resolves_to(after.arena, last.reference_name, m.name)) by {
            assert(after.arena.subrange(before.arena.len() as int, after.arena.len() as int)
                =~= encode_utf8(m.name));
        }
        assert forall|k: int| 0 <= k < mentions.len() implies refers_to(
            after.arena,
            after.refs[g.refs.len() + k],
            from,
            kind,
            #[trigger] mentions[k],
        ) by {
            if k < mentions.len() - 1 {
                assert(mentions.drop_last()[k] == mentions[k]);
                let r = before.refs[g.refs.len() + k];
                assert(after.refs[g.refs.len() + k] == r);
                law_texts_stay(before.arena, after.arena, r.reference_name, mentions[k].name);
            }
        }
    }
}

/// A walk imports nothing, so the known function names are those that the file
/// declares.
pub proof fn law_walk_imports_nothing(g: Graph, events: Seq<Event>)
    ensures
        run(g, events).imported == g.imported,
    decreases events.len(),
{
    reveal(run);
    if events.len() > 0 {
        let before = run(g, events.drop_last());
        law_walk_imports_nothing(g, events.drop_last());
        match events.last() {
            Event::NameScript => lemma_extend_all_keeps(
                Graph { script_class: Some(latest_row(before)), waiting: seq![], ..before },
                latest_row(before),
                before.waiting,
            ),
            Event::Inherit(ms) => lemma_refs_import_nothing(
                before,
                latest_row(before),
                edge_code(EdgeKind::Extends),
                ms,
            ),
            _ => {},
        }
    }
}

proof fn lemma_refs_import_nothing(g: Graph, from: u32, kind: u8, mentions: Seq<Mention>)
    requires
        kind != edge_code(EdgeKind::Imports),
    ensures
        add_refs(g, from, kind, mentions).imported == g.imported,
    decreases mentions.len(),
{
    if mentions.len() > 0 {
        lemma_refs_import_nothing(g, from, kind, mentions.drop_last());
    }
}

/// Whether an event declares, enters and mentions nothing without a name; base
/// classes aside.
pub open spec fn named_event(e: Event) -> bool {
    match e {
        Event::Declare(d) => d.name.len() > 0,
        Event::DeclareCallable(d) => d.name.len() > 0,
        Event::Enter(kind, name) => name.len() > 0 && kind != NodeKind::File,
        Event::Call(m) => m.name.len() > 0,
        Event::Argument(m) => m.name.len() > 0,
        _ => true,
    }
}

/// Whether all events are named.
pub open spec fn named_events(events: Seq<Event>) -> bool {
    forall|k: int| 0 <= k < events.len() ==> named_event(#[trigger] events[k])
}

proof fn lemma_named_scoped(open: Event, inner: Seq<Event>)
    requires
        named_event(open),
        named_events(inner),
    ensures
        named_events(scoped(open, inner)),
{
}

proof fn lemma_arguments_named(src: Seq<char>, t: Seq<NodeModel>, i: int)
    ensures
        named_events(argument_events(src, t, i)),
{
    if let Some(a) = field_child(t, i, "arguments"@) {
        lemma_argument_list_named(src, t, children_of_kind(t, a, "identifier"@));
    }
}

proof fn lemma_argument_list_named(src: Seq<char>, t: Seq<NodeModel>, list: Seq<int>)
    ensures
        named_events(argument_list(src, t, list)),
    decreases list.len(),
{
    if list.len() > 0 {
        lemma_argument_list_named(src, t, list.drop_last());
    }
}

proof fn lemma_enumerators_named(src: Seq<char>, t: Seq<NodeModel>, list: Seq<int>)
    ensures
        named_events(enumerator_events(src, t, list)),
    decreases list.len(),
{
    if list.len() > 0 {
        lemma_enumerators_named(src, t, list.drop_last());
    }
}

proof fn lemma_body_named(src: Seq<char>, t: Seq<NodeModel>, i: int)
    ensures
        named_events(body_events(src, t, i)),
    decreases t.len() - i, 2int, 0int,
{
    if 0 <= i < t.len() {
        let n = named_children(t, i).len() as int;
        lemma_arguments_named(src, t, i);
        match syntax_kind(t[i].kind) {
            SyntaxKind::FunctionDefinition | SyntaxKind::StaticFunctionDefinition => {
                lemma_function_named(src, t, i);
            },
            _ => {
                lemma_body_each_named(src, t, i, n);
            },
        }
    }
}

proof fn lemma_body_each_named(src: Seq<char>, t: Seq<NodeModel>, p: int, n: int)
    ensures
        named_events(body_each(src, t, p, n)),
    decreases t.len() - p, 0int, n,
{
    if !(p < 0 || p >= t.len() || n <= 0 || n > named_children(t, p).len()) {
        lemma_named_child_range(t, p, n - 1);
        lemma_body_each_named(src, t, p, n - 1);
        lemma_body_named(src, t, named_children(t, p)[n - 1]);
    }
}

proof fn lemma_function_named(src: Seq<char>, t: Seq<NodeModel>, i: int)
    ensures
        named_events(function_events(src, t, i)),
    decreases t.len() - i, 1int, 0int,
{
    let name = declared_name(src, t, i);
    if !(i < 0 || i >= t.len() || name.len() == 0) {
        law_field_child(t, i, "body"@);
        if let Some(b) = field_child(t, i, "body"@) {
            lemma_body_named(src, t, b);
            lemma_named_scoped(Event::Enter(NodeKind::Function, name), body_events(src, t, b));
        }
    }
}

proof fn lemma_visit_named(src: Seq<char>, t: Seq<NodeModel>, i: int)
    ensures
        named_events(visit_events(src, t, i)),
    decreases t.len() - i, 2int, 0int,
{
    if 0 <= i < t.len() {
        let n = named_children(t, i).len() as int;
        lemma_arguments_named(src, t, i);
        match syntax_kind(t[i].kind) {
            SyntaxKind::ClassDefinition => lemma_class_named(src, t, i),
            SyntaxKind::FunctionDefinition | SyntaxKind::StaticFunctionDefinition => {
                lemma_function_named(src, t, i);
            },
            SyntaxKind::EnumDefinition => {
                if let Some(b) = field_child(t, i, "body"@) {
                    let values = children_of_kind(t, b, "enumerator"@);
                    lemma_enumerators_named(src, t, values);
                }
            },
            SyntaxKind::Lambda => {
                reveal_strlit("lambda@");
                if let Some(b) = field_child(t, i, "body"@) {
                    lemma_body_named(src, t, b);
                }
            },
            SyntaxKind::VariableStatement => {
                if let Some(v) = field_child(t, i, "value"@) {
                    lemma_body_named(src, t, v);
                }
                lemma_visit_each_named(src, t, i, n);
            },
            _ => lemma_visit_each_named(src, t, i, n),
        }
    }
}

proof fn lemma_visit_each_named(src: Seq<char>, t: Seq<NodeModel>, p: int, n: int)
    ensures
        named_events(visit_each(src, t, p, n)),
    decreases t.len() - p, 0int, n,
{
    if !(p < 0 || p >= t.len() || n <= 0 || n > named_children(t, p).len()) {
        lemma_named_child_range(t, p, n - 1);
        lemma_visit_each_named(src, t, p, n - 1);
        lemma_visit_named(src, t, named_children(t, p)[n - 1]);
    }
}

proof fn lemma_class_named(src: Seq<char>, t: Seq<NodeModel>, i: int)
    ensures
        named_events(class_events(src, t, i)),
    decreases t.len() - i, 1int, 0int,
{
    let name = declared_name(src, t, i);
    if !(i < 0 || i >= t.len() || name.len() == 0) {
        law_field_child(t, i, "body"@);
        if let Some(b) = field_child(t, i, "body"@) {
            lemma_visit_each_named(src, t, b, named_children(t, b).len() as int);
        }
    }
}

/// Whether every node but the file has a name.
pub open spec fn all_named(g: Graph) -> bool {
    &&& g.metas.len() >= 1
    &&& forall|k: int| 1 <= k < g.metas.len() ==> (#[trigger] g.metas[k]).name.len() > 0
}

proof fn lemma_run_named(g: Graph, events: Seq<Event>)
    requires
        all_named(g),
        named_events(events),
    ensures
        all_named(run(g, events)),
    decreases events.len(),
{
    reveal(run);
    if events.len() > 0 {
        let before = run(g, events.drop_last());
        assert forall|k: int| 0 <= k < events.drop_last().len() implies named_event(
            #[trigger] events.drop_last()[k],
        ) by {
            assert(events.drop_last()[k] == events[k]);
        }
        lemma_run_named(g, events.drop_last());
        assert(named_event(events[events.len() - 1]));
        match events.last() {
            Event::NameScript => lemma_extend_all_keeps(
                Graph { script_class: Some(latest_row(before)), waiting: seq![], ..before },
                latest_row(before),
                before.waiting,
            ),
            Event::Inherit(ms) => lemma_add_refs_keeps_nodes(
                before,
                latest_row(before),
                edge_code(EdgeKind::Extends),
                ms,
            ),
            _ => {},
        }
    }
}

/// Nothing without a name is recorded: every node but the file has a name.
pub proof fn law_recorded_names(path: Seq<char>, src: Seq<char>, t: Seq<NodeModel>)
    ensures
        all_named(whole_graph(path, src, t)),
{
    let g0 = file_graph(path, src);
    let g1 = run(g0, visit_events(src, t, 0));
    let g2 = flush_candidates(g1, g1.candidates.len() as int);
    let g3 = whole_graph(path, src, t);
    lemma_visit_named(src, t, 0);
    lemma_run_named(g0, visit_events(src, t, 0));
    law_candidates_only_add(g1, g1.candidates.len() as int);
    law_values_only_add(g2, src, t, g2.value_scopes.len() as int);
}

/// The uses of the shared values of the first `n` value scopes, counted once for
/// each scope.
pub open spec fn use_count(g: Graph, src: Seq<char>, t: Seq<NodeModel>, n: int) -> nat
    decreases n,
{
    if n <= 0 {
        0
    } else if g.values.contains_key(g.value_scopes[n - 1].name) {
        use_count(g, src, t, n - 1) + uses_of(src, t, 0, g.value_scopes[n - 1].name).len()
    } else {
        use_count(g, src, t, n - 1)
    }
}

/// Whether the references from number `at` on are to the given mentions.
pub open spec fn refs_cover(
    g: Graph,
    at: int,
    from: u32,
    kind: u8,
    mentions: Seq<Mention>,
) -> bool {
    &&& 0 <= at && at + mentions.len() <= g.refs.len()
    &&& forall|k: int|
        0 <= k < mentions.len() ==> refers_to(
            g.arena,
            g.refs[at + k],
            from,
            kind,
            #[trigger] mentions[k],
        )
}

proof fn lemma_refs_cover_stays(
    a: Graph,
    b: Graph,
    at: int,
    from: u32,
    kind: u8,
    mentions: Seq<Mention>,
)
    requires
        grows(a, b),
        refs_cover(a, at, from, kind, mentions),
    ensures
        refs_cover(b, at, from, kind, mentions),
{
    assert forall|k: int| 0 <= k < mentions.len() implies refers_to(
        b.arena,
        b.refs[at + k],
        from,
        kind,
        #[trigger] mentions[k],
    ) by {
        assert(refers_to(a.arena, a.refs[at + k], from, kind, mentions[k]));
        assert(b.refs.take(a.refs.len() as int)[at + k] == a.refs[at + k]);
        law_texts_stay(a.arena, b.arena, a.refs[at + k].reference_name, mentions[k].name);
    }
}

/// For every value scope whose name is a shared value, every use of that name in the
/// tree becomes a reference from that scope, and there are no other references.
pub proof fn law_uses_become_refs(g: Graph, src: Seq<char>, t: Seq<NodeModel>, n: int)
    requires
        0 <= n <= g.value_scopes.len(),
        flush_values(g, src, t, n).arena.len() <= usize::MAX,
    ensures
        flush_values(g, src, t, n).refs.len() == g.refs.len() + use_count(g, src, t, n),
        forall|s: int|
            0 <= s < n && g.values.contains_key((#[trigger] g.value_scopes[s]).name) ==> refs_cover(
                flush_values(g, src, t, n),
                (g.refs.len() + use_count(g, src, t, s)) as int,
                g.value_scopes[s].row,
                FUNCTION_REF_CODE,
                uses_of(src, t, 0, g.value_scopes[s].name),
            ),
    decreases n,
{
    if n > 0 {
        let before = flush_values(g, src, t, n - 1);
        let after = flush_values(g, src, t, n);
        let scope = g.value_scopes[n - 1];
        let uses = uses_of(src, t, 0, scope.name);
        if g.values.contains_key(scope.name) {
            lemma_add_refs_grows(before, scope.row, FUNCTION_REF_CODE, uses);
            law_uses_become_refs(g, src, t, n - 1);
            law_mentions_become_refs(before, scope.row, FUNCTION_REF_CODE, uses);
            assert forall|s: int|
                0 <= s < n && g.values.contains_key(
                    (#[trigger] g.value_scopes[s]).name,
                ) implies refs_cover(
                after,
                (g.refs.len() + use_count(g, src, t, s)) as int,
                g.value_scopes[s].row,
                FUNCTION_REF_CODE,
                uses_of(src, t, 0, g.value_scopes[s].name),
            ) by {
                if s < n - 1 {
                    lemma_refs_cover_stays(
                        before,
                        after,
                        (g.refs.len() + use_count(g, src, t, s)) as int,
                        g.value_scopes[s].row,
                        FUNCTION_REF_CODE,
                        uses_of(src, t, 0, g.value_scopes[s].name),
                    );
                }
            }
        } else {
            law_uses_become_refs(g, src, t, n - 1);
        }
    }
}

} // verus!
