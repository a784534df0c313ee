//! The base classes that the syntax tree names, and what the graph holds of them.

use vstd::prelude::*;
use crate::buffers::{none_str, EdgeRow};
use crate::events::{
    base_mention, base_of, class_events, clause_mentions, declared_name, documented, first_base,
    inherited, mention_of, mentions_of, names_base, visit_events, whole_graph,
};
use crate::graph::{
    apply, extend_all, extending_class, extends_edge, file_graph, latest_row,
    lemma_extend_all_keeps, lemma_run_concat, lemma_run_none, lemma_run_one, nearest_class, run,
    top_row, Declaration, Event, Graph, Mention,
};
use crate::inheritance::{law_bases_become_refs, lemma_waiting_stays, no_script};
use crate::kinds::{edge_code, EdgeKind, NodeKind};
use crate::laws::law_walk_only_adds;
use crate::mentions::{is_home, lemma_is_home, refers_at};
use crate::naming::lemma_event_keeps_script;
use crate::nesting::{
    describes, event_declares, is_called, is_column, is_line, lemma_declared_here, lemma_describes,
    lemma_nested_split, lemma_no_arguments, walked,
};
use crate::origins::{
    comes_from_tree, declares_at, is_base, is_base_kind, lemma_bears_declared, lemma_first_base,
    lemma_walk_from_tree,
};
use crate::outline::{
    bears_name, is_named, is_named_child, is_statement, is_statement_in, law_names, lemma_sorts,
};
use crate::placement::{
    in_scope, lemma_home_kind, lemma_listed, lemma_made_by_class, lemma_not_enumerator, lemma_path,
    lemma_statement_home,
};
use crate::recorded::{law_extends, law_mentions_become_refs, lemma_part_stays, refers_to};
use crate::soundness::{law_texts_stay, within_limits};
use crate::syntax::{children_of_kind, field_child, named_children, node_text, NodeModel};
use crate::textutil::unquoted;
use crate::uses::{is_plain_ref, law_refs_are_plain};

verus! {

/// The text by which a node names a base class: what a string holds, else its own text.
pub open spec fn base_reading(src: Seq<char>, n: NodeModel) -> Seq<char> {
    if n.kind == "string"@ {
        unquoted(node_text(src, n))
    } else {
        node_text(src, n)
    }
}

/// Whether `e` says that the class in the row `from` extends a class that is not resolved
/// yet, named by the node `n`.
pub open spec fn is_extension(src: Seq<char>, e: EdgeRow, from: u32, n: NodeModel) -> bool {
    &&& e.source_idx == from
    &&& e.target_idx == 0
    &&& e.kind == edge_code(EdgeKind::Extends)
    &&& e.provenance == 0
    &&& is_line(n.start_row, e.line)
    &&& is_column(src, n.start_row, n.start_byte, e.column)
    &&& e.metadata_json == none_str()
    &&& e.source_id_str == none_str()
    &&& e.target_id_str == none_str()
}

/// Whether `g` holds a reference from the row `from` to the base class that the node `n`
/// names.
pub open spec fn has_base_ref(src: Seq<char>, g: Graph, from: u32, n: NodeModel) -> bool {
    exists|i: int|
        0 <= i < g.refs.len() && refers_at(
            src,
            g.arena,
            #[trigger] g.refs[i],
            from,
            edge_code(EdgeKind::Extends),
            n,
            base_reading(src, n),
        )
}

/// Whether `g` holds an edge from the row `from` to the base class that the node `n` names.
pub open spec fn has_base_edge(src: Seq<char>, g: Graph, from: u32, n: NodeModel) -> bool {
    exists|i: int| 0 <= i < g.edges.len() && is_extension(src, #[trigger] g.edges[i], from, n)
}

/// Whether the reference number `i` of `g` is one from the row `from` to the base class that
/// the node `n` names.
pub open spec fn is_base_ref_at(
    src: Seq<char>,
    g: Graph,
    i: int,
    from: u32,
    n: NodeModel,
) -> bool {
    0 <= i < g.refs.len() && refers_at(
        src,
        g.arena,
        g.refs[i],
        from,
        edge_code(EdgeKind::Extends),
        n,
        base_reading(src, n),
    )
}

/// Whether the edge number `i` of `g` is one from the row `from` to the base class that the
/// node `n` names.
pub open spec fn is_base_edge_at(
    src: Seq<char>,
    g: Graph,
    i: int,
    from: u32,
    n: NodeModel,
) -> bool {
    0 <= i < g.edges.len() && is_extension(src, g.edges[i], from, n)
}

/// Whether the row `from` of `g` is that of the class that the file is declared to be.
pub open spec fn is_script_row(
    path: Seq<char>,
    src: Seq<char>,
    t: Seq<NodeModel>,
    g: Graph,
    from: u32,
) -> bool {
    exists|c: int, name: Seq<char>|
        {
            &&& is_statement(src, t, c)
            &&& t[c].kind == "class_name_statement"@
            &&& #[trigger] describes(path, src, t, g, from as int, c, NodeKind::Class, name)
        }
}

/// Where the walk of a file comes to a named class, and the row of the class.
proof fn lemma_class_position(path: Seq<char>, src: Seq<char>, t: Seq<NodeModel>, c: int) -> (r: (
    Seq<Event>,
    Seq<Event>,
))
    requires
        is_statement(src, t, c),
        t[c].kind == "class_definition"@,
        is_named(src, t, c),
        within_limits(whole_graph(path, src, t)),
    ensures
        visit_events(src, t, 0) == r.0 + seq![
            Event::Declare(documented(src, t, c, NodeKind::Class)),
        ] + seq![Event::Inherit(inherited(src, t, c))] + r.1,
        walked(path, src, r.0).nodes.len() < u32::MAX,
        is_home(
            path,
            src,
            t,
            whole_graph(path, src, t),
            Some(c),
            walked(path, src, r.0).nodes.len() as u32,
        ),
{
    let g = whole_graph(path, src, t);
    let name = choose|name: Seq<char>| bears_name(src, t, c, name);
    let (a, b) = lemma_nested_split(src, t, 0, c);
    let h = walked(path, src, a);
    let d = documented(src, t, c, NodeKind::Class);
    let e = Event::Declare(d);
    let bases = Event::Inherit(inherited(src, t, c));
    let all = visit_events(src, t, c);
    law_names(src, t, c, name);
    lemma_sorts(t[c].kind);
    lemma_made_by_class(src, t, c);
    lemma_not_enumerator(t[c].kind);
    lemma_no_arguments(src, t, c);
    assert(all =~= class_events(src, t, c));
    assert(all.len() >= 2 && all[0] == e && all[1] == bases);
    let rest = all.skip(2);
    assert(all =~= seq![e] + seq![bases] + rest);
    assert(a + all + b =~= a + seq![e] + seq![bases] + (rest + b));
    assert(a + all + b =~= a + seq![e] + (seq![bases] + (rest + b)));
    lemma_declared_here(path, src, t, a, e, seq![bases] + (rest + b), d);
    lemma_path(path, src, a);
    lemma_describes(path, src, t, g, h, c, NodeKind::Class, name);
    let home = Some(c);
    assert(home->0 == c);
    (a, rest + b)
}

/// A base class that a class names in its header is referred to from the row of the class.
pub proof fn lemma_inherited_at(
    path: Seq<char>,
    src: Seq<char>,
    t: Seq<NodeModel>,
    a: Seq<Event>,
    d: Declaration,
    ms: Seq<Mention>,
    b: Seq<Event>,
    n: NodeModel,
    k: int,
)
    requires
        visit_events(src, t, 0) == a + seq![Event::Declare(d)] + seq![Event::Inherit(ms)] + b,
        walked(path, src, a).nodes.len() < u32::MAX,
        0 <= k < ms.len(),
        ms[k] == (Mention { name: base_reading(src, n), ..mention_of(src, n) }),
        within_limits(whole_graph(path, src, t)),
    ensures
        is_base_ref_at(
            src,
            whole_graph(path, src, t),
            walked(path, src, a + seq![Event::Declare(d)]).refs.len() + k,
            walked(path, src, a).nodes.len() as u32,
            n,
        ),
        walked(path, src, a + seq![Event::Declare(d)] + seq![Event::Inherit(ms)]).refs.len()
            == walked(path, src, a + seq![Event::Declare(d)]).refs.len() + ms.len(),
{
    let g = whole_graph(path, src, t);
    let g0 = file_graph(path, src);
    let h = walked(path, src, a);
    let e = Event::Declare(d);
    let bases = Event::Inherit(ms);
    let from = h.nodes.len() as u32;
    let code = edge_code(EdgeKind::Extends);
    lemma_run_concat(g0, a, seq![e]);
    lemma_run_one(h, e);
    let declared = apply(h, e);
    assert(declared.nodes.len() == h.nodes.len() + 1);
    assert(latest_row(declared) == from);
    lemma_run_concat(g0, a + seq![e], seq![bases]);
    lemma_run_one(declared, bases);
    let after = apply(declared, bases);
    lemma_part_stays(path, src, t, a + seq![e] + seq![bases], b);
    law_mentions_become_refs(declared, from, code, ms);
    let i = declared.refs.len() + k;
    assert(refers_to(after.arena, after.refs[i], from, code, ms[k]));
    assert(g.refs.take(after.refs.len() as int)[i] == after.refs[i]);
    law_texts_stay(after.arena, g.arena, after.refs[i].reference_name, ms[k].name);
    law_refs_are_plain(path, src, t);
    assert(is_plain_ref(g.refs[i]));
}

proof fn lemma_inherited_ref(
    path: Seq<char>,
    src: Seq<char>,
    t: Seq<NodeModel>,
    c: int,
    n: NodeModel,
    k: int,
)
    requires
        is_statement(src, t, c),
        t[c].kind == "class_definition"@,
        is_named(src, t, c),
        0 <= k < inherited(src, t, c).len(),
        inherited(src, t, c)[k] == (Mention { name: base_reading(src, n), ..mention_of(src, n) }),
        within_limits(whole_graph(path, src, t)),
    ensures
        exists|from: u32| #[trigger]
            is_home(path, src, t, whole_graph(path, src, t), Some(c), from) && has_base_ref(
                src,
                whole_graph(path, src, t),
                from,
                n,
            ),
{
    let g = whole_graph(path, src, t);
    let (a, b) = lemma_class_position(path, src, t, c);
    let h = walked(path, src, a);
    let d = documented(src, t, c, NodeKind::Class);
    let ms = inherited(src, t, c);
    let from = h.nodes.len() as u32;
    lemma_inherited_at(path, src, t, a, d, ms, b, n, k);
    let i = walked(path, src, a + seq![Event::Declare(d)]).refs.len() + k;
    assert(is_base_ref_at(src, g, i, from, n));
    assert(has_base_ref(src, g, from, n));
}

/// Every identifier in an `extends` clause of a named class leaves a reference to it, as a
/// base class and at its place, from the row of the class.
pub proof fn law_clause_bases_are_placed(
    path: Seq<char>,
    src: Seq<char>,
    t: Seq<NodeModel>,
    c: int,
    clause: int,
    m: int,
)
    requires
        is_statement(src, t, c),
        t[c].kind == "class_definition"@,
        is_named(src, t, c),
        is_named_child(t, c, clause),
        t[clause].kind == "extends_clause"@,
        is_named_child(t, clause, m),
        t[m].kind == "identifier"@,
        within_limits(whole_graph(path, src, t)),
    ensures
        exists|from: u32| #[trigger]
            is_home(path, src, t, whole_graph(path, src, t), Some(c), from) && has_base_ref(
                src,
                whole_graph(path, src, t),
                from,
                t[m],
            ),
{
    let clauses = children_of_kind(t, c, "extends_clause"@);
    let ms = inherited(src, t, c);
    lemma_listed(t, named_children(t, c), "extends_clause"@, clause);
    lemma_identifier_not_string();
    let k = lemma_clause_mention(src, t, clauses, clause, m);
    assert(ms[k] == clause_mentions(src, t, clauses)[k]);
    lemma_inherited_ref(path, src, t, c, t[m], k);
}

/// An identifier is no string.
pub proof fn lemma_identifier_not_string()
    ensures
        "identifier"@ != "string"@,
{
    reveal_strlit("identifier");
    reveal_strlit("string");
    assert("identifier"@.len() == 10);
    assert("string"@.len() == 6);
}

proof fn lemma_clause_mention(
    src: Seq<char>,
    t: Seq<NodeModel>,
    clauses: Seq<int>,
    clause: int,
    m: int,
) -> (k: int)
    requires
        clauses.contains(clause),
        is_named_child(t, clause, m),
        t[m].kind == "identifier"@,
    ensures
        0 <= k < clause_mentions(src, t, clauses).len(),
        clause_mentions(src, t, clauses)[k] == mention_of(src, t[m]),
    decreases clauses.len(),
{
    let front = clauses.drop_last();
    let before = clause_mentions(src, t, front);
    let ids = children_of_kind(t, clauses.last(), "identifier"@);
    let last = mentions_of(src, t, ids);
    assert(clause_mentions(src, t, clauses) == before + last);
    if clauses.last() == clause {
        lemma_listed(t, named_children(t, clause), "identifier"@, m);
        let n = choose|n: int| 0 <= n < ids.len() && ids[n] == m;
        assert(last[n] == mention_of(src, t[m]));
        before.len() + n
    } else {
        let n = choose|n: int| 0 <= n < clauses.len() && clauses[n] == clause;
        assert(front[n] == clause);
        lemma_clause_mention(src, t, front, clause, m)
    }
}

/// The base class that the `extends` statement in the header of a named class names leaves
/// a reference to it, at its place, from the row of the class.
pub proof fn law_header_bases_are_placed(
    path: Seq<char>,
    src: Seq<char>,
    t: Seq<NodeModel>,
    c: int,
    e: int,
    m: int,
)
    requires
        is_statement(src, t, c),
        t[c].kind == "class_definition"@,
        is_named(src, t, c),
        field_child(t, c, "extends"@) == Some(e),
        t[e].kind == "extends_statement"@,
        is_base(t, e, m),
        within_limits(whole_graph(path, src, t)),
    ensures
        exists|from: u32| #[trigger]
            is_home(path, src, t, whole_graph(path, src, t), Some(c), from) && has_base_ref(
                src,
                whole_graph(path, src, t),
                from,
                t[m],
            ),
{
    let ms = inherited(src, t, c);
    let clauses = clause_mentions(src, t, children_of_kind(t, c, "extends_clause"@));
    lemma_base_found(t, e, m);
    let k = clauses.len() as int;
    assert(ms =~= clauses + seq![base_mention(src, t[m])]);
    assert(ms[k] == base_mention(src, t[m]));
    lemma_inherited_ref(path, src, t, c, t[m], k);
}

/// A node has at most one first child that names a base class.
pub proof fn lemma_base_found(t: Seq<NodeModel>, i: int, c: int)
    requires
        is_base(t, i, c),
    ensures
        base_of(t, i) == Some(c),
{
    let kids = named_children(t, i);
    let n = choose|n: int|
        {
            &&& 0 <= n < kids.len()
            &&& #[trigger] kids[n] == c
            &&& is_base_kind(t[c].kind)
            &&& forall|m: int| 0 <= m < n ==> !is_base_kind(t[#[trigger] kids[m]].kind)
        };
    lemma_first_base(t, kids, 0);
    match first_base(t, kids, 0) {
        Some(d) => {
            let m = choose|m: int|
                {
                    &&& 0 <= m < kids.len()
                    &&& #[trigger] kids[m] == d
                    &&& names_base(t[d].kind)
                    &&& forall|k: int| 0 <= k < m ==> !names_base(t[#[trigger] kids[k]].kind)
                };
            if m < n {
                assert(!is_base_kind(t[kids[m]].kind));
            } else if n < m {
                assert(!names_base(t[kids[n]].kind));
            }
        },
        None => {
            assert(!names_base(t[kids[n]].kind));
        },
    }
}

/// Where the walk of a file comes to an `extends` statement.
proof fn lemma_extends_position(
    path: Seq<char>,
    src: Seq<char>,
    t: Seq<NodeModel>,
    o: Option<int>,
    j: int,
    m: int,
) -> (r: (Seq<Event>, Seq<Event>))
    requires
        is_statement_in(src, t, o, j),
        t[j].kind == "extends_statement"@,
        is_base(t, j, m),
        within_limits(whole_graph(path, src, t)),
    ensures
        visit_events(src, t, 0) == r.0 + seq![Event::Extend(base_mention(src, t[m]))] + r.1,
        in_scope(path, src, t, whole_graph(path, src, t), walked(path, src, r.0).stack, o),
{
    let (a, b) = lemma_statement_home(path, src, t, o, j);
    let e = Event::Extend(base_mention(src, t[m]));
    let all = visit_events(src, t, j);
    lemma_sorts(t[j].kind);
    lemma_base_found(t, j, m);
    lemma_no_arguments(src, t, j);
    assert(all.len() > 0 && all[0] == e);
    let rest = all.skip(1);
    assert(all =~= seq![e] + rest);
    assert(a + all + b =~= a + seq![e] + (rest + b));
    (a, rest + b)
}

/// What an `extends` statement leaves where there is a class to extend.
pub proof fn lemma_extension_kept(
    path: Seq<char>,
    src: Seq<char>,
    t: Seq<NodeModel>,
    a: Seq<Event>,
    b: Seq<Event>,
    n: NodeModel,
    row: u32,
)
    requires
        visit_events(src, t, 0) == a + seq![Event::Extend(base_mention(src, n))] + b,
        extending_class(walked(path, src, a)) == Some(row),
        within_limits(whole_graph(path, src, t)),
    ensures
        is_base_ref_at(
            src,
            whole_graph(path, src, t),
            walked(path, src, a).refs.len() as int,
            row,
            n,
        ),
        is_base_edge_at(
            src,
            whole_graph(path, src, t),
            walked(path, src, a).edges.len() as int,
            row,
            n,
        ),
        walked(path, src, a + seq![Event::Extend(base_mention(src, n))]).refs.len() == walked(
            path,
            src,
            a,
        ).refs.len() + 1,
        walked(path, src, a + seq![Event::Extend(base_mention(src, n))]).edges.len() == walked(
            path,
            src,
            a,
        ).edges.len() + 1,
        has_base_ref(src, whole_graph(path, src, t), row, n),
        has_base_edge(src, whole_graph(path, src, t), row, n),
{
    let g = whole_graph(path, src, t);
    let h = walked(path, src, a);
    let m = base_mention(src, n);
    let e = Event::Extend(m);
    lemma_run_concat(file_graph(path, src), a, seq![e]);
    lemma_run_one(h, e);
    let after = apply(h, e);
    lemma_part_stays(path, src, t, a + seq![e], b);
    law_extends(h, m);
    let i = h.refs.len() as int;
    let k = h.edges.len() as int;
    assert(after.refs[i] == after.refs.last());
    assert(g.refs.take(after.refs.len() as int)[i] == after.refs[i]);
    assert(g.edges.take(after.edges.len() as int)[k] == after.edges[k]);
    law_texts_stay(after.arena, g.arena, after.refs[i].reference_name, m.name);
    law_refs_are_plain(path, src, t);
    assert(is_plain_ref(g.refs[i]));
    assert(refers_at(
        src,
        g.arena,
        g.refs[i],
        row,
        edge_code(EdgeKind::Extends),
        n,
        base_reading(src, n),
    ));
    assert(is_extension(src, g.edges[k], row, n));
}

/// Every `extends` statement directly in a class leaves an edge and a reference to the base
/// class that it names, at its place, from the row of that class.
pub proof fn law_class_extensions_are_placed(
    path: Seq<char>,
    src: Seq<char>,
    t: Seq<NodeModel>,
    c: int,
    j: int,
    m: int,
)
    requires
        is_statement_in(src, t, Some(c), j),
        t[j].kind == "extends_statement"@,
        is_base(t, j, m),
        within_limits(whole_graph(path, src, t)),
    ensures
        exists|from: u32|
            {
                &&& #[trigger] is_home(path, src, t, whole_graph(path, src, t), Some(c), from)
                &&& has_base_ref(src, whole_graph(path, src, t), from, t[m])
                &&& has_base_edge(src, whole_graph(path, src, t), from, t[m])
            },
{
    let g = whole_graph(path, src, t);
    let (a, b) = lemma_extends_position(path, src, t, Some(c), j, m);
    let h = walked(path, src, a);
    lemma_home_kind(path, src, t, g, h.stack, Some(c));
    lemma_is_home(path, src, t, g, h.stack, Some(c));
    let row = top_row(h.stack);
    assert(extending_class(h) == Some(row));
    lemma_extension_kept(path, src, t, a, b, t[m], row);
    assert(is_home(path, src, t, g, Some(c), row));
}

/// The row that the file is declared to be by is that of a `class_name` statement.
pub proof fn lemma_script_row_origin(
    path: Seq<char>,
    src: Seq<char>,
    t: Seq<NodeModel>,
    a: Seq<Event>,
    b: Seq<Event>,
)
    requires
        t.len() > 0,
        visit_events(src, t, 0) == a + b,
        walked(path, src, a).script_class is Some,
        within_limits(whole_graph(path, src, t)),
    ensures
        is_script_row(
            path,
            src,
            t,
            whole_graph(path, src, t),
            walked(path, src, a).script_class->0,
        ),
    decreases a.len(),
{
    if a.len() == 0 {
        lemma_run_none(file_graph(path, src));
        assert(a =~= Seq::<Event>::empty());
    } else {
        let front = a.drop_last();
        let e = a.last();
        let h = walked(path, src, front);
        assert(a =~= front + seq![e]);
        assert(a + b =~= front + (seq![e] + b));
        lemma_run_concat(file_graph(path, src), front, seq![e]);
        lemma_run_one(h, e);
        if e is NameScript {
            assert(front + (seq![e] + b) =~= front + seq![e] + b);
            lemma_named_script(path, src, t, front, b);
            lemma_script_kept(h);
        } else {
            lemma_event_keeps_script(h, e);
            lemma_script_row_origin(path, src, t, front, seq![e] + b);
        }
    }
}

/// The row added last is that of the class that the file is from then on.
proof fn lemma_script_kept(h: Graph)
    ensures
        apply(h, Event::NameScript).script_class == Some(latest_row(h)),
{
    lemma_extend_all_keeps(
        Graph { script_class: Some(latest_row(h)), waiting: seq![], ..h },
        latest_row(h),
        h.waiting,
    );
}

/// The file is declared to be a class right after the row of a `class_name` statement.
pub proof fn lemma_named_script(
    path: Seq<char>,
    src: Seq<char>,
    t: Seq<NodeModel>,
    a: Seq<Event>,
    b: Seq<Event>,
)
    requires
        t.len() > 0,
        visit_events(src, t, 0) == a + seq![Event::NameScript] + b,
        within_limits(whole_graph(path, src, t)),
    ensures
        is_script_row(
            path,
            src,
            t,
            whole_graph(path, src, t),
            latest_row(walked(path, src, a)),
        ),
{
    let g = whole_graph(path, src, t);
    let all = visit_events(src, t, 0);
    let none = Seq::<Event>::empty();
    let n = a.len() as int;
    lemma_walk_from_tree(path, src, t);
    assert(all[n] == Event::NameScript);
    assert(none + all.take(n) =~= a);
    assert(comes_from_tree(path, src, t, none + all.take(n), all[n]));
    let c = choose|c: int|
        {
            &&& 0 <= c < t.len()
            &&& t[c].kind == "class_name_statement"@
            &&& is_statement(src, t, c)
            &&& a.len() > 0
            &&& a.last() == Event::Declare(#[trigger] documented(src, t, c, NodeKind::Class))
        };
    let d = documented(src, t, c, NodeKind::Class);
    let e = Event::Declare(d);
    let front = a.drop_last();
    let h = walked(path, src, front);
    let rest = seq![Event::NameScript] + b;
    assert(a =~= front + seq![e]);
    assert(all =~= front + seq![e] + rest);
    lemma_declared_here(path, src, t, front, e, rest, d);
    lemma_path(path, src, front);
    assert(comes_from_tree(path, src, t, none + all.take(n - 1), all[n - 1])) by {
        assert(all[n - 1] == e);
    }
    assert(none + all.take(n - 1) =~= front);
    assert(all[n - 1] == e);
    lemma_script_bears(path, src, t, front, c);
    lemma_not_enumerator(t[c].kind);
    lemma_sorts(t[c].kind);
    lemma_describes(path, src, t, g, h, c, NodeKind::Class, declared_name(src, t, c));
    assert(latest_row(walked(path, src, a)) == h.nodes.len() as u32);
    assert(describes(
        path,
        src,
        t,
        g,
        latest_row(walked(path, src, a)) as int,
        c,
        NodeKind::Class,
        declared_name(src, t, c),
    ));
}

/// What is declared has a name.
pub proof fn lemma_script_bears(
    path: Seq<char>,
    src: Seq<char>,
    t: Seq<NodeModel>,
    a: Seq<Event>,
    c: int,
)
    requires
        comes_from_tree(
            path,
            src,
            t,
            a,
            Event::Declare(documented(src, t, c, NodeKind::Class)),
        ),
    ensures
        bears_name(src, t, c, declared_name(src, t, c)),
{
    let e = Event::Declare(documented(src, t, c, NodeKind::Class));
    let h = walked(path, src, a);
    let (o, j) = choose|o: Option<int>, j: int| #[trigger]
        declares_at(src, t, h, o, j, e) && in_scope(
            path,
            src,
            t,
            whole_graph(path, src, t),
            h.stack,
            o,
        );
    assert(declares_at(src, t, h, o, j, e));
    let d = documented(src, t, c, NodeKind::Class);
    assert(event_declares(h, e) == Some(d));
    assert(d.name == declared_name(src, t, c));
    assert(is_called(src, t, j, d.name));
    reveal_strlit("lambda@");
    assert(d.name.len() > 0);
    lemma_bears_declared(src, t, c);
}

/// While the file is not declared to be a class, base classes wait on.
proof fn lemma_first_script(events: Seq<Event>, n: int) -> (k: int)
    requires
        0 <= n < events.len(),
        events[n] is NameScript,
    ensures
        0 <= k <= n,
        events[k] is NameScript,
        no_script(events.take(k)),
    decreases n,
{
    if no_script(events.take(n)) {
        n
    } else {
        let m = choose|m: int|
            0 <= m < events.take(n).len() && #[trigger] events.take(n)[m] is NameScript;
        assert(events[m] is NameScript);
        lemma_first_script(events, m)
    }
}

/// The walk of a file comes to the naming of the class that it is.
proof fn lemma_script_met(src: Seq<char>, t: Seq<NodeModel>, c: int) -> (n: int)
    requires
        is_statement(src, t, c),
        t[c].kind == "class_name_statement"@,
        is_named(src, t, c),
    ensures
        0 <= n < visit_events(src, t, 0).len(),
        visit_events(src, t, 0)[n] is NameScript,
{
    let name = choose|name: Seq<char>| bears_name(src, t, c, name);
    let (a, b) = lemma_nested_split(src, t, 0, c);
    let all = visit_events(src, t, c);
    law_names(src, t, c, name);
    lemma_sorts(t[c].kind);
    lemma_not_enumerator(t[c].kind);
    lemma_no_arguments(src, t, c);
    assert(all.len() >= 2 && all[1] is NameScript);
    let n = a.len() as int + 1;
    assert(visit_events(src, t, 0)[n] == all[1]);
    n
}

/// In a file with a named `class_name` statement, every `extends` statement directly in the
/// file, before or after it, leaves an edge and a reference to the base class that it
/// names, at its place, from the row of the class that the file is declared to be.
pub proof fn law_script_extensions_are_placed(
    path: Seq<char>,
    src: Seq<char>,
    t: Seq<NodeModel>,
    c: int,
    j: int,
    m: int,
)
    requires
        is_statement(src, t, c),
        t[c].kind == "class_name_statement"@,
        is_named(src, t, c),
        is_statement_in(src, t, None, j),
        t[j].kind == "extends_statement"@,
        is_base(t, j, m),
        within_limits(whole_graph(path, src, t)),
    ensures
        exists|from: u32|
            {
                &&& #[trigger] is_script_row(path, src, t, whole_graph(path, src, t), from)
                &&& has_base_ref(src, whole_graph(path, src, t), from, t[m])
                &&& has_base_edge(src, whole_graph(path, src, t), from, t[m])
            },
{
    let g = whole_graph(path, src, t);
    let all = visit_events(src, t, 0);
    let (a, b) = lemma_extends_position(path, src, t, None, j, m);
    let h = walked(path, src, a);
    let base = base_mention(src, t[m]);
    let e = Event::Extend(base);
    assert(nearest_class(h.stack) is None) by {
        assert(h.stack =~= seq![h.stack[0]]);
        assert(nearest_class(h.stack.drop_last()) is None);
    }
    assert(a + seq![e] + b =~= a + (seq![e] + b));
    if h.script_class is Some {
        let row = h.script_class->0;
        lemma_script_row_origin(path, src, t, a, seq![e] + b);
        lemma_extension_kept(path, src, t, a, b, t[m], row);
        assert(is_script_row(path, src, t, g, row));
    } else {
        let n = lemma_script_met(src, t, c);
        lemma_waiting_base(path, src, t, a, b, t[m], n);
    }
}

/// A base class that waits is that of the class that the file is declared to be next.
proof fn lemma_waiting_base(
    path: Seq<char>,
    src: Seq<char>,
    t: Seq<NodeModel>,
    a: Seq<Event>,
    b: Seq<Event>,
    base: NodeModel,
    n: int,
)
    requires
        t.len() > 0,
        visit_events(src, t, 0) == a + seq![Event::Extend(base_mention(src, base))] + b,
        extending_class(walked(path, src, a)) is None,
        0 <= n < visit_events(src, t, 0).len(),
        visit_events(src, t, 0)[n] is NameScript,
        within_limits(whole_graph(path, src, t)),
    ensures
        exists|from: u32|
            {
                &&& #[trigger] is_script_row(path, src, t, whole_graph(path, src, t), from)
                &&& has_base_ref(src, whole_graph(path, src, t), from, base)
                &&& has_base_edge(src, whole_graph(path, src, t), from, base)
            },
{
    let g = whole_graph(path, src, t);
    let g0 = file_graph(path, src);
    let all = visit_events(src, t, 0);
    let h = walked(path, src, a);
    let m = base_mention(src, base);
    let e = Event::Extend(m);
    let at = a.len() as int;
    if n < at {
        lemma_script_seen(path, src, a, n);
    }
    assert(n > at);
    let k = lemma_first_script(b, n - at - 1);
    let mid = b.take(k);
    let before = a + seq![e] + mid;
    let tail = b.skip(k + 1);
    assert(b =~= mid + seq![Event::NameScript] + tail);
    assert(all =~= before + seq![Event::NameScript] + tail);
    lemma_run_concat(g0, a, seq![e]);
    lemma_run_one(h, e);
    let waits = apply(h, e);
    assert(waits.waiting == h.waiting.push(m));
    lemma_run_concat(g0, a + seq![e], mid);
    lemma_waiting_stays(waits, mid);
    let open = walked(path, src, before);
    let i = h.waiting.len() as int;
    assert(open.waiting.take(waits.waiting.len() as int)[i] == m);
    assert(open.waiting[i] == m);
    lemma_named_script(path, src, t, before, tail);
    lemma_waiting_kept(path, src, t, before, tail, base, i);
}

/// What was declared to be the class of a file stays declared.
proof fn lemma_script_seen(path: Seq<char>, src: Seq<char>, a: Seq<Event>, n: int)
    requires
        0 <= n < a.len(),
        a[n] is NameScript,
    ensures
        walked(path, src, a).script_class is Some,
{
    let g0 = file_graph(path, src);
    let front = a.take(n);
    let back = a.skip(n + 1);
    let h = run(g0, front);
    assert(a =~= front + seq![Event::NameScript] + back);
    lemma_run_concat(g0, front, seq![Event::NameScript]);
    lemma_run_one(h, Event::NameScript);
    lemma_script_kept(h);
    lemma_run_concat(g0, front + seq![Event::NameScript], back);
    law_walk_only_adds(apply(h, Event::NameScript), back);
}

/// What the base classes that waited leave.
pub proof fn lemma_waiting_kept(
    path: Seq<char>,
    src: Seq<char>,
    t: Seq<NodeModel>,
    a: Seq<Event>,
    b: Seq<Event>,
    base: NodeModel,
    i: int,
)
    requires
        visit_events(src, t, 0) == a + seq![Event::NameScript] + b,
        0 <= i < walked(path, src, a).waiting.len(),
        walked(path, src, a).waiting[i] == base_mention(src, base),
        within_limits(whole_graph(path, src, t)),
    ensures
        is_base_ref_at(
            src,
            whole_graph(path, src, t),
            walked(path, src, a).refs.len() + i,
            latest_row(walked(path, src, a)),
            base,
        ),
        is_base_edge_at(
            src,
            whole_graph(path, src, t),
            walked(path, src, a).edges.len() + i,
            latest_row(walked(path, src, a)),
            base,
        ),
        has_base_ref(
            src,
            whole_graph(path, src, t),
            latest_row(walked(path, src, a)),
            base,
        ),
        has_base_edge(
            src,
            whole_graph(path, src, t),
            latest_row(walked(path, src, a)),
            base,
        ),
{
    let g = whole_graph(path, src, t);
    let h = walked(path, src, a);
    let m = base_mention(src, base);
    let row = latest_row(h);
    let e = Event::NameScript;
    lemma_run_concat(file_graph(path, src), a, seq![e]);
    lemma_run_one(h, e);
    let named = Graph { script_class: Some(row), waiting: seq![], ..h };
    let after = apply(h, e);
    assert(after == extend_all(named, row, h.waiting));
    lemma_part_stays(path, src, t, a + seq![e], b);
    law_bases_become_refs(named, row, h.waiting);
    let k = h.refs.len() + i;
    assert(refers_to(
        after.arena,
        after.refs[h.refs.len() + i],
        row,
        edge_code(EdgeKind::Extends),
        h.waiting[i],
    ));
    assert(g.refs.take(after.refs.len() as int)[k] == after.refs[k]);
    law_texts_stay(after.arena, g.arena, after.refs[k].reference_name, m.name);
    law_refs_are_plain(path, src, t);
    assert(is_plain_ref(g.refs[k]));
    assert(refers_at(
        src,
        g.arena,
        g.refs[k],
        row,
        edge_code(EdgeKind::Extends),
        base,
        base_reading(src, base),
    ));
    let edges = h.waiting.map_values(|x: Mention| extends_edge(row, x));
    let p = h.edges.len() + i;
    assert(after.edges[p] == edges[i]);
    assert(g.edges.take(after.edges.len() as int)[p] == after.edges[p]);
    assert(is_extension(src, g.edges[p], row, base));
}

} // verus!
