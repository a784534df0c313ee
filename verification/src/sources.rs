//! Nothing in a graph comes from anywhere but the syntax tree: every row, edge and
//! reference has a node that it stands for.

use vstd::prelude::*;
use crate::bases::{
    base_reading, is_extension, is_script_row, lemma_extension_kept, lemma_identifier_not_string,
    lemma_inherited_at, lemma_named_script, lemma_script_bears, lemma_script_row_origin,
    lemma_waiting_kept,
};
use crate::buffers::{EdgeRow, RefRow};
use crate::events::{
    clause_mentions, declared_name, documented, field_base, flush_values, inherited, mention_of,
    uses_of, visit_events, whole_graph,
};
use crate::graph::{
    apply, contains_edge, declare, extending_class, file_graph, flush_candidates, is_callable,
    is_known, is_shared_value, is_value, latest_row, lemma_add_refs_keeps_nodes,
    lemma_extend_all_keeps, lemma_run_concat, lemma_run_none, lemma_run_one, nearest_class, run,
    top_row, CandidateModel, Event, Graph, Mention, MetaModel,
};
use crate::inheritance::law_bases_become_refs;
use crate::kinds::{edge_code, EdgeKind, NodeKind, FUNCTION_REF_CODE};
use crate::laws::{
    begins, law_candidates_only_add, law_event_only_adds, law_values_only_add,
    lemma_add_refs_grows, lemma_add_refs_keeps,
};
use crate::mentions::{
    has_function, is_callee, is_home, is_met_in, lemma_call_row, lemma_function_known,
    lemma_is_home, notes, passes, refers_at,
};
use crate::nesting::{
    describes, event_declares, is_containment, lemma_declared_here, lemma_describes,
    lemma_kinds_differ, lemma_metas_parallel, made_by, stands_in, walked,
};
use crate::origins::{
    calls_at, comes_from_tree, declares_at, extends_at, is_base, is_declared_in, lemma_first_base,
    lemma_walk_from_tree, passes_at,
};
use crate::outline::{
    bears_name, is_code_in, is_function_kind, is_member, is_named_child, is_statement,
    is_statement_in, is_statement_of, lemma_sorts,
};
use crate::placement::{
    declares, in_scope, is_enum_value, lemma_home_kind, lemma_listed, lemma_made_by_class,
    lemma_not_enumerator, lemma_owner_scope, lemma_path, lemma_stands_in, scope_kind,
};
use crate::recorded::{
    known_candidates, law_calls_refer_from_their_scope, law_known_arguments_become_refs,
    law_mentions_become_refs, lemma_part_stays, refers_to, resolved_mention,
};
use crate::soundness::{law_extraction_is_sound, law_texts_stay, row_resolves, within_limits};
use crate::syntax::{
    children_of_kind, field_child, lemma_named_child_range, named_children, node_text, NodeModel,
};
use crate::textutil::is_upper_or_underscore;
use crate::uses::{
    is_plain_ref, is_searched_row, is_telling, is_use, law_refs_are_plain, lemma_use_node,
};

verus! {

/// Whether the row `k` of `g` is that of a declaration in the tree, directly in the
/// declaration `o` or in the file.
pub open spec fn row_is_declared(
    path: Seq<char>,
    src: Seq<char>,
    t: Seq<NodeModel>,
    g: Graph,
    k: int,
) -> bool {
    exists|o: Option<int>, j: int, kind: NodeKind, name: Seq<char>|
        {
            &&& #[trigger] is_declared_in(src, t, o, j)
            &&& #[trigger] describes(path, src, t, g, k, j, kind, name)
            &&& is_function_kind(t[j].kind) ==> (kind == NodeKind::Method <==> (o matches Some(c)
                && t[c].kind == "class_definition"@))
            &&& stands_in(path, src, t, g, o, k, name)
        }
}

/// The event by which a row was added.
pub proof fn lemma_row_event(path: Seq<char>, src: Seq<char>, a: Seq<Event>, k: int) -> (n: int)
    requires
        1 <= k < walked(path, src, a).nodes.len(),
    ensures
        0 <= n < a.len(),
        event_declares(walked(path, src, a.take(n)), a[n]) is Some,
        walked(path, src, a.take(n)).nodes.len() == k,
    decreases a.len(),
{
    let g0 = file_graph(path, src);
    if a.len() == 0 {
        lemma_run_none(g0);
        assert(a =~= Seq::<Event>::empty());
        0
    } else {
        let front = a.drop_last();
        let e = a.last();
        let h = walked(path, src, front);
        assert(a =~= front + seq![e]);
        lemma_run_concat(g0, front, seq![e]);
        lemma_run_one(h, e);
        lemma_event_nodes(h, e);
        if k < h.nodes.len() {
            let n = lemma_row_event(path, src, front, k);
            assert(front.take(n) =~= a.take(n));
            n
        } else {
            let n = a.len() - 1;
            assert(a.take(n) =~= front);
            n
        }
    }
}

/// Only a declaration adds a row, and it adds one.
pub proof fn lemma_event_nodes(h: Graph, e: Event)
    ensures
        apply(h, e).nodes.len() == h.nodes.len() + (if event_declares(h, e) is Some {
            1int
        } else {
            0int
        }),
{
    match e {
        Event::NameScript => {
            let named = Graph { script_class: Some(latest_row(h)), waiting: seq![], ..h };
            lemma_extend_all_keeps(named, latest_row(h), h.waiting);
        },
        Event::Inherit(ms) => lemma_add_refs_keeps_nodes(
            h,
            latest_row(h),
            edge_code(EdgeKind::Extends),
            ms,
        ),
        _ => {},
    }
}

/// Every row but that of the file is that of a declaration in the tree: it describes the
/// declaration, as a method exactly where it is a function directly in a class, and it is
/// contained in the row of the declaration around it, or of the file.
pub proof fn law_rows_are_declared(path: Seq<char>, src: Seq<char>, t: Seq<NodeModel>, k: int)
    requires
        t.len() > 0,
        1 <= k < whole_graph(path, src, t).nodes.len(),
        within_limits(whole_graph(path, src, t)),
    ensures
        row_is_declared(path, src, t, whole_graph(path, src, t), k),
{
    let g = whole_graph(path, src, t);
    let all = visit_events(src, t, 0);
    let g1 = walked(path, src, all);
    let g2 = flush_candidates(g1, g1.candidates.len() as int);
    let none = Seq::<Event>::empty();
    law_candidates_only_add(g1, g1.candidates.len() as int);
    law_values_only_add(g2, src, t, g2.value_scopes.len() as int);
    let n = lemma_row_event(path, src, all, k);
    let a = all.take(n);
    let e = all[n];
    let b = all.skip(n + 1);
    let h = walked(path, src, a);
    assert(all =~= a + seq![e] + b);
    lemma_walk_from_tree(path, src, t);
    assert(comes_from_tree(path, src, t, none + all.take(n), all[n]));
    assert(none + all.take(n) =~= a);
    let (o, j) = choose|o: Option<int>, j: int| #[trigger]
        declares_at(src, t, h, o, j, e) && in_scope(path, src, t, g, h.stack, o);
    assert(declares_at(src, t, h, o, j, e));
    lemma_row_declared(path, src, t, a, e, b, o, j);
}

/// The row of a declaration of the tree.
proof fn lemma_row_declared(
    path: Seq<char>,
    src: Seq<char>,
    t: Seq<NodeModel>,
    a: Seq<Event>,
    e: Event,
    b: Seq<Event>,
    o: Option<int>,
    j: int,
)
    requires
        visit_events(src, t, 0) == a + seq![e] + b,
        declares_at(src, t, walked(path, src, a), o, j, e),
        in_scope(path, src, t, whole_graph(path, src, t), walked(path, src, a).stack, o),
        within_limits(whole_graph(path, src, t)),
    ensures
        row_is_declared(
            path,
            src,
            t,
            whole_graph(path, src, t),
            walked(path, src, a).nodes.len() as int,
        ),
{
    let g = whole_graph(path, src, t);
    let h = walked(path, src, a);
    let k = h.nodes.len() as int;
    let d = event_declares(h, e)->0;
    lemma_declared_here(path, src, t, a, e, b, d);
    lemma_path(path, src, a);
    lemma_describes(path, src, t, g, h, j, d.kind, d.name);
    assert(a + seq![e] + b =~= a + (seq![e] + b));
    lemma_metas_parallel(path, src, t, a, seq![e] + b);
    lemma_made_plain(src, t, j, d.kind);
    lemma_stands_in(path, src, t, g, h, d, o);
    lemma_home_kind(path, src, t, g, h.stack, o);
    if is_function_kind(t[j].kind) {
        lemma_callable(src, t, h, o, j, e);
    }
    assert(is_declared_in(src, t, o, j) && describes(path, src, t, g, k, j, d.kind, d.name));
}

/// What a node declares is named by its place.
proof fn lemma_made_plain(src: Seq<char>, t: Seq<NodeModel>, j: int, kind: NodeKind)
    ensures
        made_by(src, t, j, kind).extra.qualified_name is None,
{
}

/// A function is a method exactly where it stands directly in a class.
proof fn lemma_callable(
    src: Seq<char>,
    t: Seq<NodeModel>,
    h: Graph,
    o: Option<int>,
    j: int,
    e: Event,
)
    requires
        declares_at(src, t, h, o, j, e),
        is_function_kind(t[j].kind),
        h.stack.len() > 0,
        o is None ==> h.stack.last().kind == NodeKind::File,
        o is Some ==> h.stack.last().kind == scope_kind(t[o->0].kind),
    ensures
        event_declares(h, e)->0.kind == NodeKind::Method <==> (o matches Some(c) && t[c].kind
            == "class_definition"@),
{
    lemma_sorts(t[j].kind);
    lemma_kinds_differ();
    if let Some(c) = o {
        lemma_sorts(t[c].kind);
        if is_statement_in(src, t, o, j) {
            let m = choose|m: int| #[trigger]
                is_member(src, t, c, m) && is_statement_of(t, m, j);
        } else if is_code_in(src, t, c, j) {
            lemma_owner_scope(src, t, c);
        } else {
            assert(t[j].kind == "enumerator"@);
        }
    }
}

/// Whether the node `b` names a base class of the class in the row `from`: in the header of
/// a class, or by an `extends` statement in a class or in the file.
pub open spec fn names_base_of(
    path: Seq<char>,
    src: Seq<char>,
    t: Seq<NodeModel>,
    g: Graph,
    b: int,
    from: u32,
) -> bool {
    ||| exists|c: int| #[trigger]
        is_header_base(src, t, c, b) && is_home(path, src, t, g, Some(c), from)
    ||| is_stated_base(path, src, t, g, b, from)
}

/// Whether the node `b` names a base class by an `extends` statement in the class in the row
/// `from`, or in the file where that is the class in that row.
pub open spec fn is_stated_base(
    path: Seq<char>,
    src: Seq<char>,
    t: Seq<NodeModel>,
    g: Graph,
    b: int,
    from: u32,
) -> bool {
    exists|o: Option<int>, j: int|
        {
            &&& #[trigger] is_statement_in(src, t, o, j)
            &&& t[j].kind == "extends_statement"@
            &&& is_base(t, j, b)
            &&& match o {
                Some(c) => is_home(path, src, t, g, Some(c), from),
                None => is_script_row(path, src, t, g, from),
            }
        }
}

/// Whether the node `b` names a base class in the header of the class `c`.
pub open spec fn is_header_base(src: Seq<char>, t: Seq<NodeModel>, c: int, b: int) -> bool {
    &&& is_statement(src, t, c)
    &&& t[c].kind == "class_definition"@
    &&& {
        ||| exists|x: int| #[trigger]
            is_named_child(t, c, x) && t[x].kind == "extends_clause"@ && is_named_child(t, x, b)
                && t[b].kind == "identifier"@
        ||| field_child(t, c, "extends"@) matches Some(e) && t[e].kind == "extends_statement"@
            && is_base(t, e, b)
    }
}

/// Whether `r` is the reference of a call.
pub open spec fn is_call_ref(
    path: Seq<char>,
    src: Seq<char>,
    t: Seq<NodeModel>,
    g: Graph,
    r: RefRow,
) -> bool {
    exists|o: Option<int>, j: int, c: int|
        {
            &&& is_met_in(src, t, o, j)
            &&& t[j].kind == "call"@
            &&& #[trigger] is_callee(t, j, c)
            &&& #[trigger] is_home(path, src, t, g, o, r.from_idx)
            &&& refers_at(
                src,
                g.arena,
                r,
                r.from_idx,
                FUNCTION_REF_CODE,
                t[c],
                node_text(src, t[c]),
            )
        }
}

/// Whether `r` is a reference to a base class.
pub open spec fn is_base_class_ref(
    path: Seq<char>,
    src: Seq<char>,
    t: Seq<NodeModel>,
    g: Graph,
    r: RefRow,
) -> bool {
    exists|b: int|
        {
            &&& #[trigger] names_base_of(path, src, t, g, b, r.from_idx)
            &&& refers_at(
                src,
                g.arena,
                r,
                r.from_idx,
                edge_code(EdgeKind::Extends),
                t[b],
                base_reading(src, t[b]),
            )
        }
}

/// Whether `e` is an edge to a base class.
pub open spec fn is_base_class_edge(
    path: Seq<char>,
    src: Seq<char>,
    t: Seq<NodeModel>,
    g: Graph,
    e: EdgeRow,
) -> bool {
    exists|b: int| #[trigger]
        is_stated_base(path, src, t, g, b, e.source_idx) && is_extension(
            src,
            e,
            e.source_idx,
            t[b],
        )
}

/// Every base class that waits is named by an `extends` statement directly in the file.
proof fn lemma_waiting_origin(
    path: Seq<char>,
    src: Seq<char>,
    t: Seq<NodeModel>,
    a: Seq<Event>,
    b: Seq<Event>,
    i: int,
) -> (r: (int, int))
    requires
        t.len() > 0,
        visit_events(src, t, 0) == a + b,
        0 <= i < walked(path, src, a).waiting.len(),
        within_limits(whole_graph(path, src, t)),
    ensures
        extends_at(src, t, None, r.0, r.1, walked(path, src, a).waiting[i]),
    decreases a.len(),
{
    if a.len() == 0 {
        lemma_run_none(file_graph(path, src));
        assert(a =~= Seq::<Event>::empty());
        (0, 0)
    } else {
        let front = a.drop_last();
        let e = a.last();
        let h = walked(path, src, front);
        assert(a =~= front + seq![e]);
        assert(a + b =~= front + (seq![e] + b));
        lemma_run_concat(file_graph(path, src), front, seq![e]);
        lemma_run_one(h, e);
        let after = walked(path, src, a);
        lemma_event_waiting(h, e);
        if i < h.waiting.len() && after.waiting.len() >= h.waiting.len() {
            lemma_waiting_origin(path, src, t, front, seq![e] + b, i)
        } else {
            lemma_extend_origin(path, src, t, front, e, b)
        }
    }
}

/// What an event does to the base classes that wait.
pub proof fn lemma_event_waiting(h: Graph, e: Event)
    ensures
        match e {
            Event::NameScript => apply(h, e).waiting.len() == 0,
            Event::Extend(m) => if extending_class(h) is Some {
                apply(h, e).waiting == h.waiting
            } else {
                apply(h, e).waiting == h.waiting.push(m)
            },
            _ => apply(h, e).waiting == h.waiting,
        },
{
    match e {
        Event::NameScript => {
            let named = Graph { script_class: Some(latest_row(h)), waiting: seq![], ..h };
            lemma_extend_all_keeps(named, latest_row(h), h.waiting);
        },
        Event::Inherit(ms) => lemma_add_refs_keeps(
            h,
            latest_row(h),
            edge_code(EdgeKind::Extends),
            ms,
        ),
        _ => {},
    }
}

/// Where an `extends` statement that finds no class stands.
proof fn lemma_extend_origin(
    path: Seq<char>,
    src: Seq<char>,
    t: Seq<NodeModel>,
    a: Seq<Event>,
    e: Event,
    b: Seq<Event>,
) -> (r: (int, int))
    requires
        t.len() > 0,
        visit_events(src, t, 0) == a + seq![e] + b,
        e is Extend,
        extending_class(walked(path, src, a)) is None,
        within_limits(whole_graph(path, src, t)),
    ensures
        extends_at(src, t, None, r.0, r.1, e->Extend_0),
{
    let g = whole_graph(path, src, t);
    let h = walked(path, src, a);
    lemma_event_origin(path, src, t, a, e, b);
    let m = e->Extend_0;
    let (o, j, c) = choose|o: Option<int>, j: int, c: int| #[trigger]
        extends_at(src, t, o, j, c, m) && in_scope(path, src, t, g, h.stack, o);
    assert(extends_at(src, t, o, j, c, m));
    lemma_home_kind(path, src, t, g, h.stack, o);
    if let Some(k) = o {
        lemma_class_around(src, t, k, j);
        assert(nearest_class(h.stack) is Some);
    }
    (j, c)
}

/// What contains a statement is a class.
proof fn lemma_class_around(src: Seq<char>, t: Seq<NodeModel>, c: int, j: int)
    requires
        is_statement_in(src, t, Some(c), j),
    ensures
        scope_kind(t[c].kind) == NodeKind::Class,
{
    let m = choose|m: int| #[trigger] is_member(src, t, c, m) && is_statement_of(t, m, j);
    assert(is_member(src, t, c, m));
}

/// An event of the walk comes from the tree.
pub proof fn lemma_event_origin(
    path: Seq<char>,
    src: Seq<char>,
    t: Seq<NodeModel>,
    a: Seq<Event>,
    e: Event,
    b: Seq<Event>,
)
    requires
        t.len() > 0,
        visit_events(src, t, 0) == a + seq![e] + b,
        within_limits(whole_graph(path, src, t)),
    ensures
        comes_from_tree(path, src, t, a, e),
{
    let all = visit_events(src, t, 0);
    let none = Seq::<Event>::empty();
    let n = a.len() as int;
    lemma_walk_from_tree(path, src, t);
    assert(all[n] == e);
    assert(none + all.take(n) =~= a);
    assert(comes_from_tree(path, src, t, none + all.take(n), all[n]));
}

/// What the base classes in the header of a class are.
proof fn lemma_header_origin(src: Seq<char>, t: Seq<NodeModel>, c: int, k: int) -> (b: int)
    requires
        0 <= c < t.len(),
        is_statement(src, t, c),
        t[c].kind == "class_definition"@,
        0 <= k < inherited(src, t, c).len(),
    ensures
        is_header_base(src, t, c, b),
        inherited(src, t, c)[k] == (Mention {
            name: base_reading(src, t[b]),
            ..mention_of(src, t[b])
        }),
{
    let clauses = children_of_kind(t, c, "extends_clause"@);
    let ms = clause_mentions(src, t, clauses);
    if k < ms.len() {
        assert forall|n: int| 0 <= n < clauses.len() implies 0 <= #[trigger] clauses[n]
            < t.len() by {
            assert(clauses.contains(clauses[n]));
            lemma_listed(t, named_children(t, c), "extends_clause"@, clauses[n]);
            let kids = named_children(t, c);
            let p = choose|p: int| 0 <= p < kids.len() && kids[p] == clauses[n];
            lemma_named_child_range(t, c, p);
        }
        let (x, b) = lemma_clause_origin(src, t, clauses, k);
        lemma_listed(t, named_children(t, c), "extends_clause"@, x);
        lemma_identifier_not_string();
        assert(is_named_child(t, c, x));
        assert(inherited(src, t, c)[k] == ms[k]);
        b
    } else {
        let e = field_child(t, c, "extends"@)->0;
        let b = field_base(t, c)->0;
        lemma_first_base(t, named_children(t, e), 0);
        assert(is_base(t, e, b));
        b
    }
}

proof fn lemma_clause_origin(src: Seq<char>, t: Seq<NodeModel>, clauses: Seq<int>, k: int) -> (r: (
    int,
    int,
))
    requires
        0 <= k < clause_mentions(src, t, clauses).len(),
        forall|n: int| 0 <= n < clauses.len() ==> 0 <= #[trigger] clauses[n] < t.len(),
    ensures
        clauses.contains(r.0),
        is_named_child(t, r.0, r.1),
        t[r.1].kind == "identifier"@,
        clause_mentions(src, t, clauses)[k] == mention_of(src, t[r.1]),
    decreases clauses.len(),
{
    let front = clauses.drop_last();
    let x = clauses.last();
    let before = clause_mentions(src, t, front);
    let ids = children_of_kind(t, x, "identifier"@);
    assert(clauses[clauses.len() - 1] == x);
    if k < before.len() {
        assert forall|n: int| 0 <= n < front.len() implies 0 <= #[trigger] front[n] < t.len() by {
            assert(front[n] == clauses[n]);
        }
        let r = lemma_clause_origin(src, t, front, k);
        let n = choose|n: int| 0 <= n < front.len() && front[n] == r.0;
        assert(clauses[n] == r.0);
        r
    } else {
        let m = ids[k - before.len()];
        assert(ids.contains(m));
        lemma_listed(t, named_children(t, x), "identifier"@, m);
        (x, m)
    }
}

/// Whether every reference that the walk of a file left by some point is that of a call or
/// of a base class, and every edge a containment or that of a base class.
spec fn all_placed(path: Seq<char>, src: Seq<char>, t: Seq<NodeModel>, g: Graph, h: Graph) -> bool {
    &&& forall|i: int|
        0 <= i < h.refs.len() ==> #[trigger] ref_placed(path, src, t, g, g.refs[i])
    &&& forall|i: int|
        0 <= i < h.edges.len() ==> #[trigger] edge_placed(path, src, t, g, g.edges[i])
}

/// Whether `r` is the reference of a call or of a base class.
pub open spec fn ref_placed(
    path: Seq<char>,
    src: Seq<char>,
    t: Seq<NodeModel>,
    g: Graph,
    r: RefRow,
) -> bool {
    is_call_ref(path, src, t, g, r) || is_base_class_ref(path, src, t, g, r)
}

/// Whether `e` is a containment or the edge of a base class.
pub open spec fn edge_placed(
    path: Seq<char>,
    src: Seq<char>,
    t: Seq<NodeModel>,
    g: Graph,
    e: EdgeRow,
) -> bool {
    ||| is_containment(e, e.source_idx as int, e.target_idx as int)
    ||| is_base_class_edge(path, src, t, g, e)
}

proof fn lemma_call_placed(
    path: Seq<char>,
    src: Seq<char>,
    t: Seq<NodeModel>,
    a: Seq<Event>,
    m: Mention,
    b: Seq<Event>,
)
    requires
        t.len() > 0,
        visit_events(src, t, 0) == a + seq![Event::Call(m)] + b,
        within_limits(whole_graph(path, src, t)),
    ensures
        walked(path, src, a + seq![Event::Call(m)]).refs.len() == walked(path, src, a).refs.len()
            + 1,
        walked(path, src, a + seq![Event::Call(m)]).edges == walked(path, src, a).edges,
        is_call_ref(
            path,
            src,
            t,
            whole_graph(path, src, t),
            whole_graph(path, src, t).refs[walked(path, src, a).refs.len() as int],
        ),
{
    let g = whole_graph(path, src, t);
    let h = walked(path, src, a);
    let e = Event::Call(m);
    lemma_event_origin(path, src, t, a, e, b);
    assert(e->Call_0 == m);
    let (o, j, c) = choose|o: Option<int>, j: int, c: int| #[trigger]
        calls_at(src, t, o, j, c, m) && in_scope(path, src, t, g, h.stack, o);
    assert(calls_at(src, t, o, j, c, m));
    lemma_is_home(path, src, t, g, h.stack, o);
    law_calls_refer_from_their_scope(path, src, t, a, m, b);
    lemma_call_row(path, src, t, a, m, b);
    lemma_run_concat(file_graph(path, src), a, seq![e]);
    lemma_run_one(h, e);
    let r = g.refs[h.refs.len() as int];
    assert(is_callee(t, j, c) && is_home(path, src, t, g, o, r.from_idx));
}

proof fn lemma_extend_placed(
    path: Seq<char>,
    src: Seq<char>,
    t: Seq<NodeModel>,
    a: Seq<Event>,
    m: Mention,
    b: Seq<Event>,
    row: u32,
)
    requires
        t.len() > 0,
        visit_events(src, t, 0) == a + seq![Event::Extend(m)] + b,
        extending_class(walked(path, src, a)) == Some(row),
        within_limits(whole_graph(path, src, t)),
    ensures
        walked(path, src, a + seq![Event::Extend(m)]).refs.len() == walked(path, src, a).refs.len()
            + 1,
        walked(path, src, a + seq![Event::Extend(m)]).edges.len() == walked(
            path,
            src,
            a,
        ).edges.len() + 1,
        is_base_class_ref(
            path,
            src,
            t,
            whole_graph(path, src, t),
            whole_graph(path, src, t).refs[walked(path, src, a).refs.len() as int],
        ),
        is_base_class_edge(
            path,
            src,
            t,
            whole_graph(path, src, t),
            whole_graph(path, src, t).edges[walked(path, src, a).edges.len() as int],
        ),
{
    let g = whole_graph(path, src, t);
    let h = walked(path, src, a);
    let e = Event::Extend(m);
    lemma_event_origin(path, src, t, a, e, b);
    assert(e->Extend_0 == m);
    let (o, j, c) = choose|o: Option<int>, j: int, c: int| #[trigger]
        extends_at(src, t, o, j, c, m) && in_scope(path, src, t, g, h.stack, o);
    assert(extends_at(src, t, o, j, c, m));
    lemma_home_kind(path, src, t, g, h.stack, o);
    lemma_is_home(path, src, t, g, h.stack, o);
    match o {
        Some(k) => {
            lemma_class_around(src, t, k, j);
            assert(row == top_row(h.stack));
        },
        None => {
            assert(h.stack =~= seq![h.stack[0]]);
            assert(nearest_class(h.stack.drop_last()) is None);
            assert(a + seq![e] + b =~= a + (seq![e] + b));
            lemma_script_row_origin(path, src, t, a, seq![e] + b);
        },
    }
    lemma_extension_kept(path, src, t, a, b, t[c], row);
    let r = g.refs[h.refs.len() as int];
    let x = g.edges[h.edges.len() as int];
    assert(is_statement_in(src, t, o, j));
    assert(is_stated_base(path, src, t, g, c, row));
    assert(names_base_of(path, src, t, g, c, r.from_idx));
    assert(is_stated_base(path, src, t, g, c, x.source_idx));
}

proof fn lemma_inherit_placed(
    path: Seq<char>,
    src: Seq<char>,
    t: Seq<NodeModel>,
    a: Seq<Event>,
    ms: Seq<Mention>,
    b: Seq<Event>,
    k: int,
)
    requires
        t.len() > 0,
        visit_events(src, t, 0) == a + seq![Event::Inherit(ms)] + b,
        0 <= k < ms.len(),
        within_limits(whole_graph(path, src, t)),
    ensures
        walked(path, src, a + seq![Event::Inherit(ms)]).refs.len() == walked(
            path,
            src,
            a,
        ).refs.len() + ms.len(),
        is_base_class_ref(
            path,
            src,
            t,
            whole_graph(path, src, t),
            whole_graph(path, src, t).refs[walked(path, src, a).refs.len() + k],
        ),
{
    let g = whole_graph(path, src, t);
    let e = Event::Inherit(ms);
    lemma_event_origin(path, src, t, a, e, b);
    assert(e->Inherit_0 == ms);
    let c = choose|c: int|
        {
            &&& 0 <= c < t.len()
            &&& t[c].kind == "class_definition"@
            &&& is_statement(src, t, c)
            &&& ms == #[trigger] inherited(src, t, c)
            &&& a.len() > 0
            &&& a.last() == Event::Declare(documented(src, t, c, NodeKind::Class))
        };
    let d = documented(src, t, c, NodeKind::Class);
    let front = a.drop_last();
    let h = walked(path, src, front);
    assert(a =~= front + seq![Event::Declare(d)]);
    let n = lemma_header_origin(src, t, c, k);
    assert(a + seq![e] + b =~= front + seq![Event::Declare(d)] + (seq![e] + b));
    lemma_event_origin(path, src, t, front, Event::Declare(d), seq![e] + b);
    lemma_script_bears(path, src, t, front, c);
    lemma_declared_here(path, src, t, front, Event::Declare(d), seq![e] + b, d);
    lemma_inherited_at(path, src, t, front, d, ms, b, t[n], k);
    lemma_path(path, src, front);
    lemma_made_by_class(src, t, c);
    let name = declared_name(src, t, c);
    lemma_describes(path, src, t, g, h, c, NodeKind::Class, name);
    let home = Some(c);
    assert(home->0 == c);
    let from = h.nodes.len() as u32;
    assert(describes(path, src, t, g, from as int, c, NodeKind::Class, name));
    assert(is_home(path, src, t, g, home, from));
    assert(is_header_base(src, t, c, n));
    let r = g.refs[walked(path, src, a).refs.len() + k];
    assert(names_base_of(path, src, t, g, n, r.from_idx));
}

proof fn lemma_script_placed(
    path: Seq<char>,
    src: Seq<char>,
    t: Seq<NodeModel>,
    a: Seq<Event>,
    b: Seq<Event>,
    i: int,
)
    requires
        t.len() > 0,
        visit_events(src, t, 0) == a + seq![Event::NameScript] + b,
        0 <= i < walked(path, src, a).waiting.len(),
        within_limits(whole_graph(path, src, t)),
    ensures
        is_base_class_ref(
            path,
            src,
            t,
            whole_graph(path, src, t),
            whole_graph(path, src, t).refs[walked(path, src, a).refs.len() + i],
        ),
        is_base_class_edge(
            path,
            src,
            t,
            whole_graph(path, src, t),
            whole_graph(path, src, t).edges[walked(path, src, a).edges.len() + i],
        ),
{
    let g = whole_graph(path, src, t);
    let h = walked(path, src, a);
    let e = Event::NameScript;
    assert(a + seq![e] + b =~= a + (seq![e] + b));
    let (j, c) = lemma_waiting_origin(path, src, t, a, seq![e] + b, i);
    lemma_named_script(path, src, t, a, b);
    lemma_waiting_kept(path, src, t, a, b, t[c], i);
    let row = latest_row(h);
    let o: Option<int> = None;
    assert(is_statement_in(src, t, o, j));
    assert(is_stated_base(path, src, t, g, c, row));
    let r = g.refs[h.refs.len() + i];
    let x = g.edges[h.edges.len() + i];
    assert(names_base_of(path, src, t, g, c, r.from_idx));
    assert(is_stated_base(path, src, t, g, c, x.source_idx));
}

/// How many references and edges the naming of the class that a file is leaves.
proof fn lemma_script_counts(
    path: Seq<char>,
    src: Seq<char>,
    t: Seq<NodeModel>,
    a: Seq<Event>,
    b: Seq<Event>,
)
    requires
        visit_events(src, t, 0) == a + seq![Event::NameScript] + b,
        within_limits(whole_graph(path, src, t)),
    ensures
        walked(path, src, a + seq![Event::NameScript]).refs.len() == walked(
            path,
            src,
            a,
        ).refs.len() + walked(path, src, a).waiting.len(),
        walked(path, src, a + seq![Event::NameScript]).edges.len() == walked(
            path,
            src,
            a,
        ).edges.len() + walked(path, src, a).waiting.len(),
{
    let h = walked(path, src, a);
    let e = Event::NameScript;
    let row = latest_row(h);
    lemma_run_concat(file_graph(path, src), a, seq![e]);
    lemma_run_one(h, e);
    let named = Graph { script_class: Some(row), waiting: seq![], ..h };
    lemma_part_stays(path, src, t, a + seq![e], b);
    law_bases_become_refs(named, row, h.waiting);
}

/// What the walk of a file leaves comes from the tree.
proof fn lemma_walk_placed_refs(
    path: Seq<char>,
    src: Seq<char>,
    t: Seq<NodeModel>,
    a: Seq<Event>,
    b: Seq<Event>,
)
    requires
        t.len() > 0,
        visit_events(src, t, 0) == a + b,
        within_limits(whole_graph(path, src, t)),
    ensures
        all_placed(path, src, t, whole_graph(path, src, t), walked(path, src, a)),
    decreases a.len(),
{
    let g = whole_graph(path, src, t);
    let g0 = file_graph(path, src);
    if a.len() == 0 {
        lemma_run_none(g0);
        assert(a =~= Seq::<Event>::empty());
    } else {
        let front = a.drop_last();
        let e = a.last();
        let h = walked(path, src, front);
        assert(a =~= front + seq![e]);
        assert(a + b =~= front + (seq![e] + b));
        lemma_walk_placed_refs(path, src, t, front, seq![e] + b);
        assert(a + b =~= front + seq![e] + b);
        lemma_step_placed(path, src, t, front, e, b);
    }
}

proof fn lemma_step_placed(
    path: Seq<char>,
    src: Seq<char>,
    t: Seq<NodeModel>,
    a: Seq<Event>,
    e: Event,
    b: Seq<Event>,
)
    requires
        t.len() > 0,
        visit_events(src, t, 0) == a + seq![e] + b,
        all_placed(path, src, t, whole_graph(path, src, t), walked(path, src, a)),
        within_limits(whole_graph(path, src, t)),
    ensures
        all_placed(path, src, t, whole_graph(path, src, t), walked(path, src, a + seq![e])),
{
    let g = whole_graph(path, src, t);
    let h = walked(path, src, a);
    let after = walked(path, src, a + seq![e]);
    lemma_run_concat(file_graph(path, src), a, seq![e]);
    lemma_run_one(h, e);
    lemma_part_stays(path, src, t, a + seq![e], b);
    assert(after == apply(h, e));
    assert forall|i: int| 0 <= i < after.refs.len() implies #[trigger] ref_placed(
        path,
        src,
        t,
        g,
        g.refs[i],
    ) by {
        if i >= h.refs.len() {
            lemma_new_ref_placed(path, src, t, a, e, b, i);
        }
    }
    assert forall|i: int| 0 <= i < after.edges.len() implies #[trigger] edge_placed(
        path,
        src,
        t,
        g,
        g.edges[i],
    ) by {
        if i >= h.edges.len() {
            lemma_new_edge_placed(path, src, t, a, e, b, i);
        }
    }
}

proof fn lemma_new_ref_placed(
    path: Seq<char>,
    src: Seq<char>,
    t: Seq<NodeModel>,
    a: Seq<Event>,
    e: Event,
    b: Seq<Event>,
    i: int,
)
    requires
        t.len() > 0,
        visit_events(src, t, 0) == a + seq![e] + b,
        within_limits(whole_graph(path, src, t)),
        walked(path, src, a).refs.len() <= i < walked(path, src, a + seq![e]).refs.len(),
    ensures
        ref_placed(
            path,
            src,
            t,
            whole_graph(path, src, t),
            whole_graph(path, src, t).refs[i],
        ),
{
    let h = walked(path, src, a);
    lemma_run_concat(file_graph(path, src), a, seq![e]);
    lemma_run_one(h, e);
    match e {
        Event::Call(m) => lemma_call_placed(path, src, t, a, m, b),
        Event::Extend(m) => if let Some(row) = extending_class(h) {
            lemma_extend_placed(path, src, t, a, m, b, row);
        },
        Event::Inherit(ms) => {
            if ms.len() > 0 {
                lemma_inherit_placed(path, src, t, a, ms, b, 0);
                let k = i - h.refs.len();
                lemma_inherit_placed(path, src, t, a, ms, b, k);
            }
        },
        Event::NameScript => {
            lemma_script_counts(path, src, t, a, b);
            lemma_script_placed(path, src, t, a, b, i - h.refs.len());
        },
        _ => {},
    }
}

proof fn lemma_new_edge_placed(
    path: Seq<char>,
    src: Seq<char>,
    t: Seq<NodeModel>,
    a: Seq<Event>,
    e: Event,
    b: Seq<Event>,
    i: int,
)
    requires
        t.len() > 0,
        visit_events(src, t, 0) == a + seq![e] + b,
        within_limits(whole_graph(path, src, t)),
        walked(path, src, a).edges.len() <= i < walked(path, src, a + seq![e]).edges.len(),
    ensures
        edge_placed(
            path,
            src,
            t,
            whole_graph(path, src, t),
            whole_graph(path, src, t).edges[i],
        ),
{
    let g = whole_graph(path, src, t);
    let h = walked(path, src, a);
    let after = walked(path, src, a + seq![e]);
    lemma_part_stays(path, src, t, a + seq![e], b);
    assert(g.edges.take(after.edges.len() as int)[i] == after.edges[i]);
    lemma_step_edges(path, src, a, e);
    let x = g.edges[i];
    if e is Extend {
        let row = extending_class(h)->0;
        lemma_extend_placed(path, src, t, a, e->Extend_0, b, row);
        assert(is_base_class_edge(path, src, t, g, x));
    } else if e is NameScript {
        lemma_script_counts(path, src, t, a, b);
        lemma_script_placed(path, src, t, a, b, i - h.edges.len());
        assert(is_base_class_edge(path, src, t, g, x));
    } else {
        assert(is_containment(x, x.source_idx as int, x.target_idx as int));
    }
}

/// What the next event of a walk does to the edges.
proof fn lemma_step_edges(path: Seq<char>, src: Seq<char>, a: Seq<Event>, e: Event)
    ensures
        match e {
            Event::Declare(_) | Event::DeclareCallable(_) => walked(path, src, a + seq![e]).edges
                == walked(path, src, a).edges.push(
                contains_edge(
                    top_row(walked(path, src, a).stack),
                    walked(path, src, a).nodes.len() as u32,
                ),
            ),
            Event::Extend(_) => extending_class(walked(path, src, a)) is None ==> walked(
                path,
                src,
                a + seq![e],
            ).edges == walked(path, src, a).edges,
            Event::NameScript => true,
            _ => walked(path, src, a + seq![e]).edges == walked(path, src, a).edges,
        },
{
    lemma_run_concat(file_graph(path, src), a, seq![e]);
    lemma_run_one(walked(path, src, a), e);
    lemma_event_edges(walked(path, src, a), e);
}

/// What an event other than the naming of a base class does to the edges.
pub proof fn lemma_event_edges(h: Graph, e: Event)
    ensures
        match e {
            Event::Declare(_) | Event::DeclareCallable(_) => apply(h, e).edges == h.edges.push(
                contains_edge(top_row(h.stack), h.nodes.len() as u32),
            ),
            Event::Extend(_) => extending_class(h) is None ==> apply(h, e).edges == h.edges,
            Event::NameScript => true,
            _ => apply(h, e).edges == h.edges,
        },
{
    if let Event::Inherit(ms) = e {
        lemma_add_refs_keeps(h, latest_row(h), edge_code(EdgeKind::Extends), ms);
    }
}

/// Every edge says either that one row contains another, or that a class extends a base
/// class that an `extends` statement names, from the row of the class that the statement
/// stands in, or of the class that the file is declared to be.
pub proof fn law_edges_are_placed(path: Seq<char>, src: Seq<char>, t: Seq<NodeModel>, i: int)
    requires
        t.len() > 0,
        0 <= i < whole_graph(path, src, t).edges.len(),
        within_limits(whole_graph(path, src, t)),
    ensures
        edge_placed(
            path,
            src,
            t,
            whole_graph(path, src, t),
            whole_graph(path, src, t).edges[i],
        ),
{
    let g = whole_graph(path, src, t);
    let all = visit_events(src, t, 0);
    let none = Seq::<Event>::empty();
    let g1 = walked(path, src, all);
    let g2 = flush_candidates(g1, g1.candidates.len() as int);
    law_candidates_only_add(g1, g1.candidates.len() as int);
    law_values_only_add(g2, src, t, g2.value_scopes.len() as int);
    assert(all + none =~= all);
    lemma_walk_placed_refs(path, src, t, all, none);
}

/// Whether `r` is a reference to a function of the file that a call passes.
pub open spec fn is_passed_ref(
    path: Seq<char>,
    src: Seq<char>,
    t: Seq<NodeModel>,
    g: Graph,
    r: RefRow,
) -> bool {
    exists|o: Option<int>, j: int, c: int|
        {
            &&& #[trigger] is_passed(src, t, o, j, c)
            &&& is_home(path, src, t, g, o, r.from_idx)
            &&& passes(src, g.arena, r, r.from_idx, t[c])
            &&& has_function(g, node_text(src, t[c]))
        }
}

/// Whether `c` is an identifier that the call `j`, in the declaration `o` or the file,
/// passes as an argument.
pub open spec fn is_passed(
    src: Seq<char>,
    t: Seq<NodeModel>,
    o: Option<int>,
    j: int,
    c: int,
) -> bool {
    &&& is_met_in(src, t, o, j)
    &&& t[j].kind == "call"@
    &&& field_child(t, j, "arguments"@) matches Some(a) && is_named_child(t, a, c)
    &&& t[c].kind == "identifier"@
}

/// Whether the tree declares `name` as a value that the whole file can look up.
pub open spec fn is_shared_name(src: Seq<char>, t: Seq<NodeModel>, name: Seq<char>) -> bool {
    &&& is_telling(name)
    &&& exists|o: Option<int>, j: int| #[trigger]
        declares_value(src, t, o, j) && bears_name(src, t, j, name)
}

/// Whether `j` declares a value directly in a file, class or enum.
pub open spec fn declares_value(src: Seq<char>, t: Seq<NodeModel>, o: Option<int>, j: int) -> bool {
    ||| is_statement_in(src, t, o, j) && (t[j].kind == "variable_statement"@ || t[j].kind
        == "const_statement"@ || t[j].kind == "signal_statement"@)
    ||| o matches Some(c) && is_enum_value(src, t, c, j)
}

/// Whether `r` is a reference to a use of a shared value, from a row of its name.
pub open spec fn is_use_ref(
    path: Seq<char>,
    src: Seq<char>,
    t: Seq<NodeModel>,
    g: Graph,
    r: RefRow,
) -> bool {
    exists|name: Seq<char>, u: int|
        {
            &&& #[trigger] is_use(src, t, 0, name, u)
            &&& is_shared_name(src, t, name)
            &&& is_searched_row(g, r.from_idx as int, name)
            &&& refers_at(src, g.arena, r, r.from_idx, FUNCTION_REF_CODE, t[u], name)
        }
}

/// Every noted argument comes from a call.
proof fn lemma_candidate_origin(
    path: Seq<char>,
    src: Seq<char>,
    t: Seq<NodeModel>,
    a: Seq<Event>,
    b: Seq<Event>,
    i: int,
) -> (r: (Option<int>, int, int))
    requires
        t.len() > 0,
        visit_events(src, t, 0) == a + b,
        0 <= i < walked(path, src, a).candidates.len(),
        within_limits(whole_graph(path, src, t)),
    ensures
        is_passed(src, t, r.0, r.1, r.2),
        is_home(
            path,
            src,
            t,
            whole_graph(path, src, t),
            r.0,
            walked(path, src, a).candidates[i].from,
        ),
        notes(
            src,
            walked(path, src, a).candidates[i],
            walked(path, src, a).candidates[i].from,
            t[r.2],
        ),
    decreases a.len(),
{
    let g = whole_graph(path, src, t);
    if a.len() == 0 {
        lemma_run_none(file_graph(path, src));
        assert(a =~= Seq::<Event>::empty());
        (None, 0, 0)
    } else {
        let front = a.drop_last();
        let e = a.last();
        let h = walked(path, src, front);
        assert(a =~= front + seq![e]);
        assert(a + b =~= front + (seq![e] + b));
        lemma_run_concat(file_graph(path, src), front, seq![e]);
        lemma_run_one(h, e);
        lemma_event_candidates(h, e);
        if i < h.candidates.len() {
            lemma_candidate_origin(path, src, t, front, seq![e] + b, i)
        } else {
            let m = e->Argument_0;
            assert(front + (seq![e] + b) =~= front + seq![e] + b);
            lemma_event_origin(path, src, t, front, e, b);
            let (o, j, c) = choose|o: Option<int>, j: int, c: int| #[trigger]
                passes_at(src, t, o, j, c, m) && in_scope(path, src, t, g, h.stack, o);
            assert(passes_at(src, t, o, j, c, m));
            lemma_is_home(path, src, t, g, h.stack, o);
            (o, j, c)
        }
    }
}

/// What an event does to the noted arguments.
pub proof fn lemma_event_candidates(h: Graph, e: Event)
    ensures
        match e {
            Event::Argument(m) => apply(h, e).candidates == h.candidates.push(
                CandidateModel {
                    from: top_row(h.stack),
                    name: m.name,
                    line: m.line,
                    column_byte: m.byte,
                    row: 0,
                },
            ),
            _ => apply(h, e).candidates == h.candidates,
        },
{
    match e {
        Event::NameScript => {
            let named = Graph { script_class: Some(latest_row(h)), waiting: seq![], ..h };
            lemma_extend_all_keeps(named, latest_row(h), h.waiting);
        },
        Event::Inherit(ms) => lemma_add_refs_keeps(
            h,
            latest_row(h),
            edge_code(EdgeKind::Extends),
            ms,
        ),
        _ => {},
    }
}

/// The noted arguments that become references are known.
proof fn lemma_known_listed(g: Graph, n: int, k: int) -> (i: int)
    requires
        n <= g.candidates.len(),
        0 <= k < known_candidates(g, n).len(),
    ensures
        0 <= i < n,
        g.candidates[i] == known_candidates(g, n)[k],
        is_known(g, g.candidates[i].name),
    decreases n,
{
    let front = known_candidates(g, n - 1);
    if k < front.len() {
        lemma_known_listed(g, n - 1, k)
    } else {
        n - 1
    }
}

/// Whether every name that is searched for is that of its row, which is one of a function,
/// method, variable or constant.
pub open spec fn scopes_are_rows(g: Graph) -> bool {
    &&& g.metas.len() == g.nodes.len()
    &&& forall|s: int|
        0 <= s < g.value_scopes.len() ==> {
            let row = (#[trigger] g.value_scopes[s]).row as int;
            &&& row < g.metas.len()
            &&& g.metas[row].name == g.value_scopes[s].name
            &&& is_callable(g.metas[row].kind) || is_value(g.metas[row].kind)
        }
}

proof fn lemma_event_scopes(g: Graph, e: Event)
    requires
        scopes_are_rows(g),
        apply(g, e).nodes.len() <= u32::MAX,
    ensures
        scopes_are_rows(apply(g, e)),
{
    match event_declares(g, e) {
        Some(d) => {
            let h = declare(g, d);
            assert(apply(g, e) == h);
            assert(h.metas == g.metas.push(MetaModel { kind: d.kind, name: d.name }));
            assert(h.nodes.len() == g.nodes.len() + 1);
            assert forall|s: int| 0 <= s < h.value_scopes.len() implies {
                let row = (#[trigger] h.value_scopes[s]).row as int;
                &&& row < h.metas.len()
                &&& h.metas[row].name == h.value_scopes[s].name
                &&& is_callable(h.metas[row].kind) || is_value(h.metas[row].kind)
            } by {
                if s < g.value_scopes.len() {
                    assert(h.value_scopes[s] == g.value_scopes[s]);
                }
            }
        },
        None => match e {
            Event::NameScript => {
                let named = Graph { script_class: Some(latest_row(g)), waiting: seq![], ..g };
                lemma_extend_all_keeps(named, latest_row(g), g.waiting);
            },
            Event::Inherit(ms) => lemma_add_refs_keeps(
                g,
                latest_row(g),
                edge_code(EdgeKind::Extends),
                ms,
            ),
            _ => {},
        },
    }
}

proof fn lemma_walk_scopes(g: Graph, events: Seq<Event>)
    requires
        scopes_are_rows(g),
        run(g, events).nodes.len() <= u32::MAX,
    ensures
        scopes_are_rows(run(g, events)),
    decreases events.len(),
{
    reveal(run);
    if events.len() > 0 {
        let before = run(g, events.drop_last());
        law_event_only_adds(before, events.last());
        lemma_walk_scopes(g, events.drop_last());
        lemma_event_scopes(before, events.last());
    }
}

/// Every shared value is declared in the tree.
proof fn lemma_shared_origin(
    path: Seq<char>,
    src: Seq<char>,
    t: Seq<NodeModel>,
    a: Seq<Event>,
    b: Seq<Event>,
    name: Seq<char>,
)
    requires
        t.len() > 0,
        visit_events(src, t, 0) == a + b,
        walked(path, src, a).values.contains_key(name),
        within_limits(whole_graph(path, src, t)),
    ensures
        is_shared_name(src, t, name),
    decreases a.len(),
{
    if a.len() == 0 {
        lemma_run_none(file_graph(path, src));
        assert(a =~= Seq::<Event>::empty());
    } else {
        let front = a.drop_last();
        let e = a.last();
        let h = walked(path, src, front);
        assert(a =~= front + seq![e]);
        assert(a + b =~= front + (seq![e] + b));
        lemma_run_concat(file_graph(path, src), front, seq![e]);
        lemma_run_one(h, e);
        lemma_event_values(h, e, name);
        if h.values.contains_key(name) {
            lemma_shared_origin(path, src, t, front, seq![e] + b, name);
        } else {
            assert(front + (seq![e] + b) =~= front + seq![e] + b);
            lemma_value_origin(path, src, t, front, e, b, name);
        }
    }
}

/// What an event does to the shared values.
proof fn lemma_event_values(h: Graph, e: Event, name: Seq<char>)
    requires
        apply(h, e).values.contains_key(name),
    ensures
        h.values.contains_key(name) || (event_declares(h, e) matches Some(d) && d.name == name
            && is_shared_value(h.stack, d.kind, d.name)),
{
    match e {
        Event::NameScript => {
            let named = Graph { script_class: Some(latest_row(h)), waiting: seq![], ..h };
            lemma_extend_all_keeps(named, latest_row(h), h.waiting);
        },
        Event::Inherit(ms) => lemma_add_refs_keeps(
            h,
            latest_row(h),
            edge_code(EdgeKind::Extends),
            ms,
        ),
        _ => {},
    }
}

proof fn lemma_value_origin(
    path: Seq<char>,
    src: Seq<char>,
    t: Seq<NodeModel>,
    a: Seq<Event>,
    e: Event,
    b: Seq<Event>,
    name: Seq<char>,
)
    requires
        t.len() > 0,
        visit_events(src, t, 0) == a + seq![e] + b,
        event_declares(walked(path, src, a), e) matches Some(d) && d.name == name
            && is_shared_value(walked(path, src, a).stack, d.kind, d.name),
        within_limits(whole_graph(path, src, t)),
    ensures
        is_shared_name(src, t, name),
{
    let g = whole_graph(path, src, t);
    let h = walked(path, src, a);
    let d = event_declares(h, e)->0;
    lemma_event_origin(path, src, t, a, e, b);
    let (o, j) = choose|o: Option<int>, j: int| #[trigger]
        declares_at(src, t, h, o, j, e) && in_scope(path, src, t, g, h.stack, o);
    assert(declares_at(src, t, h, o, j, e));
    let i = choose|i: int| 0 <= i < name.len() && is_upper_or_underscore(#[trigger] name[i]);
    assert('A' <= name[i] <= 'Z' || name[i] == '_');
    assert(is_telling(name));
    lemma_kinds_differ();
    lemma_sorts(t[j].kind);
    if is_statement_in(src, t, o, j) && declares(t[j].kind) {
        lemma_not_enumerator(t[j].kind);
    } else if o is Some && is_code_in(src, t, o->0, j) && is_function_kind(t[j].kind) {
        assert(false);
    }
    assert(declares_value(src, t, o, j));
}

/// Every reference that the search for values leaves is one to a use.
proof fn lemma_use_refs(
    src: Seq<char>,
    t: Seq<NodeModel>,
    g2: Graph,
    n: int,
    i: int,
)
    requires
        t.len() > 0,
        0 <= n <= g2.value_scopes.len(),
        g2.refs.len() <= i < flush_values(g2, src, t, n).refs.len(),
        flush_values(g2, src, t, n).arena.len() <= usize::MAX,
    ensures
        exists|s: int, u: int|
            {
                &&& 0 <= s < g2.value_scopes.len()
                &&& g2.values.contains_key(g2.value_scopes[s].name)
                &&& #[trigger] is_use(src, t, 0, g2.value_scopes[s].name, u)
                &&& refers_to(
                    flush_values(g2, src, t, n).arena,
                    flush_values(g2, src, t, n).refs[i],
                    g2.value_scopes[s].row,
                    FUNCTION_REF_CODE,
                    mention_of(src, t[u]),
                )
            },
    decreases n,
{
    if n > 0 {
        let before = flush_values(g2, src, t, n - 1);
        let after = flush_values(g2, src, t, n);
        let scope = g2.value_scopes[n - 1];
        let uses = uses_of(src, t, 0, scope.name);
        if g2.values.contains_key(scope.name) {
            lemma_add_refs_grows(before, scope.row, FUNCTION_REF_CODE, uses);
            law_mentions_become_refs(before, scope.row, FUNCTION_REF_CODE, uses);
        }
        if i < before.refs.len() {
            lemma_use_refs(src, t, g2, n - 1, i);
            let (s, u) = choose|s: int, u: int|
                {
                    &&& 0 <= s < g2.value_scopes.len()
                    &&& g2.values.contains_key(g2.value_scopes[s].name)
                    &&& #[trigger] is_use(src, t, 0, g2.value_scopes[s].name, u)
                    &&& refers_to(
                        before.arena,
                        before.refs[i],
                        g2.value_scopes[s].row,
                        FUNCTION_REF_CODE,
                        mention_of(src, t[u]),
                    )
                };
            assert(begins(after.arena, before.arena) && begins(after.refs, before.refs)) by {
                assert(before.arena.take(before.arena.len() as int) =~= before.arena);
                assert(before.refs.take(before.refs.len() as int) =~= before.refs);
            }
            assert(after.refs.take(before.refs.len() as int)[i] == before.refs[i]);
            law_texts_stay(
                before.arena,
                after.arena,
                before.refs[i].reference_name,
                node_text(src, t[u]),
            );
            assert(is_use(src, t, 0, g2.value_scopes[s].name, u));
        } else {
            let k = i - before.refs.len();
            let m = uses[k];
            let u = lemma_use_node(src, t, 0, scope.name, k);
            assert(refers_to(
                after.arena,
                after.refs[before.refs.len() + k],
                scope.row,
                FUNCTION_REF_CODE,
                uses[k],
            ));
            assert(is_use(src, t, 0, g2.value_scopes[n - 1].name, u));
        }
    }
}

/// Every reference is that of a call, of a base class, of a function that a call passes or
/// of a use of a shared value, at the place of the node that makes it and from the row of
/// the declaration that it belongs to. The references of calls and base classes come
/// first, then those of passed functions, and last those of uses.
pub proof fn law_refs_are_placed(path: Seq<char>, src: Seq<char>, t: Seq<NodeModel>)
    requires
        t.len() > 0,
        within_limits(whole_graph(path, src, t)),
    ensures
        exists|m: int, n: int| #[trigger]
            are_staged(path, src, t, whole_graph(path, src, t), m, n),
{
    let g = whole_graph(path, src, t);
    let all = visit_events(src, t, 0);
    let none = Seq::<Event>::empty();
    let g1 = walked(path, src, all);
    let g2 = flush_candidates(g1, g1.candidates.len() as int);
    let m = g1.refs.len() as int;
    let n = g2.refs.len() as int;
    assert(all + none =~= all);
    law_candidates_only_add(g1, g1.candidates.len() as int);
    law_values_only_add(g2, src, t, g2.value_scopes.len() as int);
    lemma_walk_placed_refs(path, src, t, all, none);
    assert forall|i: int| m <= i < n implies #[trigger] is_passed_ref(
        path,
        src,
        t,
        g,
        g.refs[i],
    ) by {
        lemma_passed_placed(path, src, t, i);
    }
    assert forall|i: int| n <= i < g.refs.len() implies #[trigger] is_use_ref(
        path,
        src,
        t,
        g,
        g.refs[i],
    ) by {
        lemma_use_placed(path, src, t, i);
    }
    assert(are_staged(path, src, t, g, m, n));
}

/// Whether the first `m` references are of calls and base classes, those up to `n` of passed
/// functions, and the rest of uses.
pub open spec fn are_staged(
    path: Seq<char>,
    src: Seq<char>,
    t: Seq<NodeModel>,
    g: Graph,
    m: int,
    n: int,
) -> bool {
    &&& 0 <= m <= n <= g.refs.len()
    &&& forall|i: int| 0 <= i < m ==> #[trigger] ref_placed(path, src, t, g, g.refs[i])
    &&& forall|i: int| m <= i < n ==> #[trigger] is_passed_ref(path, src, t, g, g.refs[i])
    &&& forall|i: int| n <= i < g.refs.len() ==> #[trigger] is_use_ref(path, src, t, g, g.refs[i])
}

proof fn lemma_passed_placed(path: Seq<char>, src: Seq<char>, t: Seq<NodeModel>, i: int)
    requires
        t.len() > 0,
        within_limits(whole_graph(path, src, t)),
        ({
            let g1 = walked(path, src, visit_events(src, t, 0));
            g1.refs.len() <= i < flush_candidates(g1, g1.candidates.len() as int).refs.len()
        }),
    ensures
        is_passed_ref(path, src, t, whole_graph(path, src, t), whole_graph(path, src, t).refs[i]),
{
    let g = whole_graph(path, src, t);
    let all = visit_events(src, t, 0);
    let none = Seq::<Event>::empty();
    let g1 = walked(path, src, all);
    let len = g1.candidates.len() as int;
    let g2 = flush_candidates(g1, len);
    assert(all + none =~= all);
    law_candidates_only_add(g1, len);
    law_values_only_add(g2, src, t, g2.value_scopes.len() as int);
    law_known_arguments_become_refs(g1, len);
    let k = i - g1.refs.len();
    let known = known_candidates(g1, len);
    let n = lemma_known_listed(g1, len, k);
    let (o, j, c) = lemma_candidate_origin(path, src, t, all, none, n);
    assert(refers_to(
        g2.arena,
        g2.refs[g1.refs.len() + k],
        known[k].from,
        FUNCTION_REF_CODE,
        resolved_mention(known[k]),
    ));
    assert(g.refs.take(g2.refs.len() as int)[i] == g2.refs[i]);
    law_texts_stay(g2.arena, g.arena, g2.refs[i].reference_name, known[k].name);
    law_refs_are_plain(path, src, t);
    assert(is_plain_ref(g.refs[i]));
    lemma_function_known(path, src, t, known[k].name);
    assert(is_passed(src, t, o, j, c));
}

proof fn lemma_use_placed(path: Seq<char>, src: Seq<char>, t: Seq<NodeModel>, i: int)
    requires
        t.len() > 0,
        within_limits(whole_graph(path, src, t)),
        i < whole_graph(path, src, t).refs.len(),
        ({
            let g1 = walked(path, src, visit_events(src, t, 0));
            flush_candidates(g1, g1.candidates.len() as int).refs.len() <= i
        }),
    ensures
        is_use_ref(path, src, t, whole_graph(path, src, t), whole_graph(path, src, t).refs[i]),
{
    let g = whole_graph(path, src, t);
    let all = visit_events(src, t, 0);
    let none = Seq::<Event>::empty();
    let g0 = file_graph(path, src);
    let g1 = walked(path, src, all);
    let len = g1.candidates.len() as int;
    let g2 = flush_candidates(g1, len);
    let n = g2.value_scopes.len() as int;
    assert(all + none =~= all);
    law_candidates_only_add(g1, len);
    law_values_only_add(g2, src, t, n);
    lemma_use_refs(src, t, g2, n, i);
    let (s, u) = choose|s: int, u: int|
        {
            &&& 0 <= s < g2.value_scopes.len()
            &&& g2.values.contains_key(g2.value_scopes[s].name)
            &&& #[trigger] is_use(src, t, 0, g2.value_scopes[s].name, u)
            &&& refers_to(
                flush_values(g2, src, t, n).arena,
                flush_values(g2, src, t, n).refs[i],
                g2.value_scopes[s].row,
                FUNCTION_REF_CODE,
                mention_of(src, t[u]),
            )
        };
    let name = g2.value_scopes[s].name;
    lemma_shared_origin(path, src, t, all, none, name);
    lemma_walk_scopes(g0, all);
    law_extraction_is_sound(path, src, t);
    let row = g2.value_scopes[s].row as int;
    assert(g1.value_scopes[s] == g2.value_scopes[s]);
    assert(row < g1.metas.len());
    assert(row_resolves(g.arena, g.nodes[row], g.metas[row], g.ids[row]));
    law_refs_are_plain(path, src, t);
    assert(is_plain_ref(g.refs[i]));
    assert(is_use(src, t, 0, name, u));
}

} // verus!
