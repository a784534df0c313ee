//! Inheritance: the base classes that classes name are referred to.

use vstd::prelude::*;
use vstd::utf8::encode_utf8;
use crate::balance::{law_children_are_balanced, lemma_open_scopes_stay};
use crate::buffers::resolves_to;
use crate::events::{
    argument_events, base_mention, base_of, declared_name, documented, inherited,
    script_declaration, syntax_kind, visit_each, visit_events, whole_graph, SyntaxKind,
};
use crate::graph::{
    add_refs, apply, contains_edge, declare, extend_all, extending_class, extends_edge, file_graph,
    latest_row, lemma_add_refs_keeps_nodes, lemma_extend_all_keeps, lemma_run_concat,
    lemma_run_none, lemma_run_one, name_script, nearest_class, run, top_row, Declaration, Event,
    Graph, Mention, MetaModel,
};
use crate::kinds::{edge_code, EdgeKind, NodeKind};
use crate::laws::{
    begins, grows, law_event_only_adds, law_walk_only_adds, lemma_add_refs_keeps,
    lemma_extend_all_grows,
};
use crate::naming::{law_walks_place_rows, lemma_event_keeps_script, script_is_class, script_name};
use crate::recorded::{
    law_extends, law_mentions_become_refs, lemma_part_stays, lemma_part_trans, part_of, refers_to,
    walks_through,
};
use crate::soundness::{law_texts_stay, within_limits};
use crate::syntax::{lemma_named_child_range, named_children, NodeModel};

verus! {

/// Each base class that the class in the row `row` names becomes one edge and one
/// reference from that row, in order.
pub proof fn law_bases_become_refs(g: Graph, row: u32, mentions: Seq<Mention>)
    requires
        extend_all(g, row, mentions).arena.len() <= usize::MAX,
    ensures
        extend_all(g, row, mentions).edges == g.edges + mentions.map_values(
            |m: Mention| extends_edge(row, m),
        ),
        extend_all(g, row, mentions).refs.len() == g.refs.len() + mentions.len(),
        begins(extend_all(g, row, mentions).refs, g.refs),
        forall|k: int|
            0 <= k < mentions.len() ==> refers_to(
                extend_all(g, row, mentions).arena,
                extend_all(g, row, mentions).refs[g.refs.len() + k],
                row,
                edge_code(EdgeKind::Extends),
                #[trigger] mentions[k],
            ),
    decreases mentions.len(),
{
    let edges = mentions.map_values(|m: Mention| extends_edge(row, m));
    let after = extend_all(g, row, mentions);
    lemma_extend_all_grows(g, row, mentions);
    if mentions.len() == 0 {
        assert(g.edges + edges =~= g.edges);
    } else {
        let before = extend_all(g, row, mentions.drop_last());
        let m = mentions.last();
        assert(begins(after.arena, before.arena)) by {
            assert(after.arena.take(before.arena.len() as int) =~= before.arena);
        }
        law_bases_become_refs(g, row, mentions.drop_last());
        let front = mentions.drop_last().map_values(|m: Mention| extends_edge(row, m));
        assert(edges =~= front.push(extends_edge(row, m)));
        assert(g.edges + edges =~= (g.edges + front).push(extends_edge(row, m)));
        let last = after.refs[g.refs.len() + mentions.len() - 1];
        assert(resolves_to(after.arena, last.reference_name, m.name)) by {
            assert(after.arena.subrange(before.arena.len() as int, after.arena.len() as int)
                =~= encode_utf8(m.name));
        }
        assert forall|k: int| 0 <= k < mentions.len() implies refers_to(
            after.arena,
            after.refs[g.refs.len() + k],
            row,
            edge_code(EdgeKind::Extends),
            #[trigger] mentions[k],
        ) by {
            if k < mentions.len() - 1 {
                assert(mentions.drop_last()[k] == mentions[k]);
                let r = before.refs[g.refs.len() + k];
                assert(after.refs[g.refs.len() + k] == r);
                law_texts_stay(before.arena, after.arena, r.reference_name, mentions[k].name);
            }
        }
    }
}

/// The declaration of the class that the file is.
proof fn lemma_script_declared(g: Graph, d: Declaration)
    requires
        d.name.len() > 0,
    ensures
        run(g, script_declaration(d)) == name_script(declare(g, d)),
{
    lemma_run_none(g);
    lemma_run_two(g, seq![], Event::Declare(d), Event::NameScript);
    assert(Seq::<Event>::empty() + seq![Event::Declare(d), Event::NameScript]
        =~= script_declaration(d));
}

/// What the declaration of the class that the file is leaves.
proof fn lemma_script_row(g: Graph, d: Declaration)
    requires
        g.nodes.len() < u32::MAX,
    ensures
        ({
            let h = name_script(declare(g, d));
            &&& h.nodes.len() == g.nodes.len() + 1
            &&& h.metas == g.metas.push(MetaModel { kind: d.kind, name: d.name })
            &&& h.stack == g.stack
            &&& h.script_class == Some(g.nodes.len() as u32)
            &&& h.waiting == Seq::<Mention>::empty()
        }),
{
    let declared = declare(g, d);
    lemma_extend_all_keeps(
        Graph { script_class: Some(latest_row(declared)), waiting: seq![], ..declared },
        latest_row(declared),
        declared.waiting,
    );
}

/// Base classes that waited for the file to be declared a class become those of that
/// class: one edge and one reference from its row for each, in order, and none waits
/// any longer.
pub proof fn law_waiting_bases_become_refs(g: Graph, d: Declaration)
    requires
        d.name.len() > 0,
        g.nodes.len() < u32::MAX,
        run(g, script_declaration(d)).arena.len() <= usize::MAX,
    ensures
        ({
            let h = run(g, script_declaration(d));
            let row = g.nodes.len() as u32;
            &&& h.metas == g.metas.push(MetaModel { kind: d.kind, name: d.name })
            &&& h.script_class == Some(row)
            &&& h.waiting.len() == 0
            &&& h.edges == g.edges.push(contains_edge(top_row(g.stack), row)) + g.waiting.map_values(
                |m: Mention| extends_edge(row, m),
            )
            &&& h.refs.len() == g.refs.len() + g.waiting.len()
            &&& forall|k: int|
                0 <= k < g.waiting.len() ==> refers_to(
                    h.arena,
                    h.refs[g.refs.len() + k],
                    row,
                    edge_code(EdgeKind::Extends),
                    #[trigger] g.waiting[k],
                )
        }),
{
    let declared = declare(g, d);
    let row = g.nodes.len() as u32;
    let named = Graph { script_class: Some(row), waiting: seq![], ..declared };
    lemma_script_declared(g, d);
    lemma_script_row(g, d);
    assert(latest_row(declared) == row);
    assert(name_script(declared) == extend_all(named, row, g.waiting));
    law_bases_become_refs(named, row, g.waiting);
}

/// After the declaration of the class that the file is, an `extends` statement outside
/// every open class leaves an edge and a reference from that class to its base.
pub proof fn law_script_extends(g: Graph, d: Declaration, m: Mention)
    requires
        d.name.len() > 0,
        nearest_class(g.stack) is None,
        g.nodes.len() < u32::MAX,
        run(g, script_declaration(d) + seq![Event::Extend(m)]).arena.len() <= usize::MAX,
    ensures
        ({
            let h = run(g, script_declaration(d) + seq![Event::Extend(m)]);
            let row = g.nodes.len() as u32;
            &&& h.metas == g.metas.push(MetaModel { kind: d.kind, name: d.name })
            &&& h.nodes.len() == row + 1
            &&& h.edges.last() == extends_edge(row, m)
            &&& h.refs.len() == g.refs.len() + g.waiting.len() + 1
            &&& refers_to(h.arena, h.refs.last(), row, edge_code(EdgeKind::Extends), m)
        }),
{
    let named = run(g, script_declaration(d));
    lemma_run_concat(g, script_declaration(d), seq![Event::Extend(m)]);
    lemma_run_one(named, Event::Extend(m));
    lemma_script_declared(g, d);
    lemma_script_row(g, d);
    law_event_only_adds(named, Event::Extend(m));
    law_waiting_bases_become_refs(g, d);
    law_extends(named, m);
}

/// Whether the reference number `k` is one from the class node `from` to `m` as its
/// base.
pub open spec fn is_base_ref(g: Graph, k: int, from: u32, m: Mention) -> bool {
    &&& 0 <= k < g.refs.len()
    &&& refers_to(g.arena, g.refs[k], from, edge_code(EdgeKind::Extends), m)
    &&& from < g.metas.len()
    &&& g.metas[from as int].kind == NodeKind::Class
}

proof fn lemma_base_ref_stays(a: Graph, b: Graph, k: int, from: u32, m: Mention)
    requires
        grows(a, b),
        is_base_ref(a, k, from, m),
    ensures
        is_base_ref(b, k, from, m),
{
    assert(b.refs.take(a.refs.len() as int)[k] == a.refs[k]);
    assert(b.metas.take(a.metas.len() as int)[from as int] == a.metas[from as int]);
    law_texts_stay(a.arena, b.arena, a.refs[k].reference_name, m.name);
}

/// The base classes that a class names right after its declaration are referred to
/// from it.
proof fn lemma_inherited(g: Graph, d: Declaration, ms: Seq<Mention>, n: int)
    requires
        g.nodes.len() == g.metas.len(),
        g.nodes.len() < u32::MAX,
        d.kind == NodeKind::Class,
        0 <= n < ms.len(),
        apply(apply(g, Event::Declare(d)), Event::Inherit(ms)).arena.len() <= usize::MAX,
    ensures
        is_base_ref(
            apply(apply(g, Event::Declare(d)), Event::Inherit(ms)),
            g.refs.len() + n,
            g.nodes.len() as u32,
            ms[n],
        ),
        apply(apply(g, Event::Declare(d)), Event::Inherit(ms)).metas[g.nodes.len() as int].name
            == d.name,
{
    let declared = apply(g, Event::Declare(d));
    let from = latest_row(declared);
    let code = edge_code(EdgeKind::Extends);
    lemma_add_refs_keeps_nodes(declared, from, code, ms);
    law_mentions_become_refs(declared, from, code, ms);
    assert(declared.refs == g.refs);
    assert(refers_to(
        add_refs(declared, from, code, ms).arena,
        add_refs(declared, from, code, ms).refs[g.refs.len() + n],
        from,
        code,
        ms[n],
    ));
}

/// Every base class that a named class definition names, where the walk reaches it, is
/// referred to from the node of a class.
pub proof fn law_class_bases_are_recorded(
    path: Seq<char>,
    src: Seq<char>,
    t: Seq<NodeModel>,
    j: int,
    n: int,
)
    requires
        0 <= j < t.len(),
        walks_through(src, t, 0, j),
        syntax_kind(t[j].kind) == SyntaxKind::ClassDefinition,
        declared_name(src, t, j).len() > 0,
        0 <= n < inherited(src, t, j).len(),
        within_limits(whole_graph(path, src, t)),
    ensures
        exists|k: int, from: u32| #[trigger]
            is_base_ref(whole_graph(path, src, t), k, from, inherited(src, t, j)[n]) && whole_graph(
                path,
                src,
                t,
            ).metas[from as int].name == declared_name(src, t, j),
{
    let d = documented(src, t, j, NodeKind::Class);
    let ms = inherited(src, t, j);
    let two = seq![Event::Declare(d), Event::Inherit(ms)];
    let events = visit_events(src, t, 0);
    let g0 = file_graph(path, src);
    let g = whole_graph(path, src, t);
    assert(part_of(two, events)) by {
        let args = argument_events(src, t, j);
        let own = visit_events(src, t, j);
        assert(own =~= args + two + own.skip((args.len() + 2) as int));
        lemma_part_trans(two, own, events);
    }
    let (a, b) = choose|a: Seq<Event>, b: Seq<Event>| events == #[trigger] (a + two + b);
    let before = run(g0, a);
    let after = apply(apply(before, Event::Declare(d)), Event::Inherit(ms));
    lemma_run_two(g0, a, Event::Declare(d), Event::Inherit(ms));
    lemma_part_stays(path, src, t, a + two, b);
    law_event_only_adds(before, Event::Declare(d));
    law_event_only_adds(apply(before, Event::Declare(d)), Event::Inherit(ms));
    assert(events.take(a.len() as int) =~= a);
    law_walks_place_rows(path, src, t, a.len() as int);
    lemma_inherited(before, d, ms, n);
    let k = before.refs.len() + n;
    let from = before.nodes.len() as u32;
    lemma_base_ref_stays(after, g, k, from, ms[n]);
    assert(g.metas.take(after.metas.len() as int)[from as int] == after.metas[from as int]);
}

proof fn lemma_run_two(g: Graph, a: Seq<Event>, e: Event, f: Event)
    ensures
        run(g, a + seq![e, f]) == apply(apply(run(g, a), e), f),
{
    let g1 = run(g, a);
    let g2 = run(g1, seq![e]);
    assert(seq![e, f] =~= seq![e] + seq![f]);
    lemma_run_concat(g, a, seq![e, f]);
    lemma_run_concat(g1, seq![e], seq![f]);
    lemma_run_one(g1, e);
    lemma_run_one(g2, f);
}

/// A statement directly in the file: the walk up to it and including what it gives rise
/// to first, and the graph that holds what was recorded by then.
proof fn lemma_file_statement(
    path: Seq<char>,
    src: Seq<char>,
    t: Seq<NodeModel>,
    j: int,
    own: Seq<Event>,
)
    requires
        t.len() > 0,
        syntax_kind(t[0].kind) == SyntaxKind::Other,
        0 <= j < named_children(t, 0).len(),
        begins(visit_events(src, t, named_children(t, 0)[j]), own),
        within_limits(whole_graph(path, src, t)),
    ensures
        begins(visit_events(src, t, 0), visit_each(src, t, 0, j) + own),
        grows(
            run(file_graph(path, src), visit_each(src, t, 0, j) + own),
            whole_graph(path, src, t),
        ),
        within_limits(run(file_graph(path, src), visit_each(src, t, 0, j) + own)),
        run(file_graph(path, src), visit_each(src, t, 0, j)).stack == file_graph(path, src).stack,
        nearest_class(file_graph(path, src).stack) is None,
{
    let kids = named_children(t, 0);
    let len = kids.len() as int;
    let events = visit_events(src, t, 0);
    let a = visit_each(src, t, 0, j);
    let g0 = file_graph(path, src);
    lemma_named_child_range(t, 0, j);
    assert(events =~= visit_each(src, t, 0, len));
    let tail = children_from(src, t, 0, j + 1, len);
    let whole = visit_events(src, t, kids[j]);
    let rest = whole.skip(own.len() as int);
    assert(whole =~= own + rest);
    assert(events =~= (a + own) + (rest + tail));
    assert(events.take((a + own).len() as int) =~= a + own);
    lemma_part_stays(path, src, t, a + own, rest + tail);
    law_children_are_balanced(src, t, 0, j);
    lemma_open_scopes_stay(g0, a, 0);
    assert(nearest_class(g0.stack.drop_last()) is None);
}

/// In a file that is declared to be a class, every base class that a later `extends`
/// statement names, both directly in the file, is referred to from the node of a class,
/// and that class has the name that the latest `class_name` statement before gave.
pub proof fn law_script_bases_are_recorded(
    path: Seq<char>,
    src: Seq<char>,
    t: Seq<NodeModel>,
    j: int,
    base: int,
)
    requires
        t.len() > 0,
        syntax_kind(t[0].kind) == SyntaxKind::Other,
        0 <= j < named_children(t, 0).len(),
        syntax_kind(t[named_children(t, 0)[j]].kind) == SyntaxKind::ExtendsStatement,
        base_of(t, named_children(t, 0)[j]) == Some(base),
        script_name(visit_each(src, t, 0, j)) is Some,
        within_limits(whole_graph(path, src, t)),
    ensures
        exists|k: int, from: u32| #[trigger]
            is_base_ref(whole_graph(path, src, t), k, from, base_mention(src, t[base]))
                && whole_graph(path, src, t).metas[from as int].name == script_name(
                visit_each(src, t, 0, j),
            )->0,
{
    let kids = named_children(t, 0);
    let m = base_mention(src, t[base]);
    let e = Event::Extend(m);
    let a = visit_each(src, t, 0, j);
    let g0 = file_graph(path, src);
    let before = run(g0, a);
    let after = apply(before, e);
    let g = whole_graph(path, src, t);
    lemma_named_child_range(t, 0, j);
    assert(begins(visit_events(src, t, kids[j]), seq![e])) by {
        assert(visit_events(src, t, kids[j]).take(1) =~= seq![e]);
    }
    lemma_file_statement(path, src, t, j, seq![e]);
    lemma_run_concat(g0, a, seq![e]);
    lemma_run_one(before, e);
    assert(visit_events(src, t, 0).take(a.len() as int) =~= a) by {
        let both = a + seq![e];
        assert(visit_events(src, t, 0).take(both.len() as int).take(a.len() as int) =~= a);
        assert(visit_events(src, t, 0).take(both.len() as int).take(a.len() as int)
            =~= visit_events(src, t, 0).take(a.len() as int));
    }
    law_event_only_adds(before, e);
    assert(within_limits(before));
    law_walks_place_rows(path, src, t, a.len() as int);
    law_extends(before, m);
    let from = extending_class(before)->0;
    let k = before.refs.len() as int;
    lemma_extend_row(before, m);
    lemma_base_ref_stays(after, g, k, from, m);
    assert(g.metas.take(after.metas.len() as int)[from as int] == after.metas[from as int]);
}

/// The reference that an `extends` statement leaves for the class that the file is.
proof fn lemma_extend_row(g: Graph, m: Mention)
    requires
        nearest_class(g.stack) is None,
        g.script_class is Some,
        script_is_class(g),
        apply(g, Event::Extend(m)).arena.len() <= usize::MAX,
    ensures
        is_base_ref(apply(g, Event::Extend(m)), g.refs.len() as int, g.script_class->0, m),
        apply(g, Event::Extend(m)).metas == g.metas,
{
    law_extends(g, m);
}

/// A base class that an `extends` statement names before the first `class_name`
/// statement, both directly in the file, is referred to from the node of the class of
/// that name.
pub proof fn law_earlier_bases_are_recorded(
    path: Seq<char>,
    src: Seq<char>,
    t: Seq<NodeModel>,
    j: int,
    base: int,
    c: int,
)
    requires
        t.len() > 0,
        syntax_kind(t[0].kind) == SyntaxKind::Other,
        0 <= j < c < named_children(t, 0).len(),
        syntax_kind(t[named_children(t, 0)[j]].kind) == SyntaxKind::ExtendsStatement,
        base_of(t, named_children(t, 0)[j]) == Some(base),
        syntax_kind(t[named_children(t, 0)[c]].kind) == SyntaxKind::ClassNameStatement,
        declared_name(src, t, named_children(t, 0)[c]).len() > 0,
        no_script(visit_each(src, t, 0, c)),
        within_limits(whole_graph(path, src, t)),
    ensures
        exists|k: int, from: u32| #[trigger]
            is_base_ref(whole_graph(path, src, t), k, from, base_mention(src, t[base]))
                && whole_graph(path, src, t).metas[from as int].name == declared_name(
                src,
                t,
                named_children(t, 0)[c],
            ),
{
    let kids = named_children(t, 0);
    let m = base_mention(src, t[base]);
    let d = documented(src, t, kids[c], NodeKind::Class);
    let own = script_declaration(d);
    let a = visit_each(src, t, 0, c);
    let g0 = file_graph(path, src);
    let before = run(g0, a);
    let after = run(before, own);
    let g = whole_graph(path, src, t);
    lemma_named_child_range(t, 0, c);
    lemma_kind_of_class_name(t[kids[c]].kind);
    assert(begins(visit_events(src, t, kids[c]), own)) by {
        assert(visit_events(src, t, kids[c]).take(2) =~= own);
    }
    lemma_file_statement(path, src, t, c, own);
    lemma_run_concat(g0, a, own);
    lemma_base_waits(path, src, t, j, base, c);
    let k = choose|k: int| 0 <= k < before.waiting.len() && before.waiting[k] == m;
    law_walk_only_adds(before, own);
    lemma_walked_lengths(path, src, t, c);
    let from = before.nodes.len() as u32;
    let n = before.refs.len() + k;
    lemma_script_grows(before, d);
    lemma_waiting_ref(before, d, k);
    lemma_base_ref_stays(after, g, n, from, m);
    assert(g.metas.take(after.metas.len() as int)[from as int] == after.metas[from as int]);
}

proof fn lemma_script_grows(g: Graph, d: Declaration)
    requires
        d.name.len() > 0,
    ensures
        run(g, script_declaration(d)).nodes.len() == g.nodes.len() + 1,
{
    let declared = declare(g, d);
    lemma_script_declared(g, d);
    lemma_extend_all_keeps(
        Graph { script_class: Some(latest_row(declared)), waiting: seq![], ..declared },
        latest_row(declared),
        declared.waiting,
    );
}

/// The reference that a waiting base class becomes.
proof fn lemma_waiting_ref(g: Graph, d: Declaration, k: int)
    requires
        d.name.len() > 0,
        d.kind == NodeKind::Class,
        g.nodes.len() == g.metas.len(),
        g.nodes.len() < u32::MAX,
        0 <= k < g.waiting.len(),
        run(g, script_declaration(d)).arena.len() <= usize::MAX,
    ensures
        is_base_ref(
            run(g, script_declaration(d)),
            g.refs.len() + k,
            g.nodes.len() as u32,
            g.waiting[k],
        ),
        run(g, script_declaration(d)).metas[g.nodes.len() as int].name == d.name,
{
    law_waiting_bases_become_refs(g, d);
    let h = run(g, script_declaration(d));
    assert(refers_to(
        h.arena,
        h.refs[g.refs.len() + k],
        g.nodes.len() as u32,
        edge_code(EdgeKind::Extends),
        g.waiting[k],
    ));
}

/// A base class named directly in the file waits until the file is declared to be a
/// class.
proof fn lemma_base_waits(
    path: Seq<char>,
    src: Seq<char>,
    t: Seq<NodeModel>,
    j: int,
    base: int,
    c: int,
)
    requires
        t.len() > 0,
        syntax_kind(t[0].kind) == SyntaxKind::Other,
        0 <= j < c < named_children(t, 0).len(),
        syntax_kind(t[named_children(t, 0)[j]].kind) == SyntaxKind::ExtendsStatement,
        base_of(t, named_children(t, 0)[j]) == Some(base),
        no_script(visit_each(src, t, 0, c)),
        within_limits(whole_graph(path, src, t)),
    ensures
        exists|k: int|
            0 <= k < run(file_graph(path, src), visit_each(src, t, 0, c)).waiting.len() && run(
                file_graph(path, src),
                visit_each(src, t, 0, c),
            ).waiting[k] == base_mention(src, t[base]),
{
    let kids = named_children(t, 0);
    let m = base_mention(src, t[base]);
    let g0 = file_graph(path, src);
    let a = visit_each(src, t, 0, c);
    let head = visit_each(src, t, 0, j);
    let e = Event::Extend(m);
    let own = visit_events(src, t, kids[j]);
    let rest = own.skip(1);
    lemma_named_child_range(t, 0, j);
    let tail = children_from(src, t, 0, j + 1, c);
    assert(own =~= seq![e] + rest);
    assert(own.take(1) =~= seq![e]);
    lemma_file_statement(path, src, t, j, seq![e]);
    assert(a =~= head + (seq![e] + (rest + tail)));
    lemma_waits(g0, head, m, rest + tail);
}

/// A named `class_name` statement directly in the file is met before every later
/// statement there.
pub proof fn law_class_names_are_met(src: Seq<char>, t: Seq<NodeModel>, c: int, j: int)
    requires
        t.len() > 0,
        0 <= c < j <= named_children(t, 0).len(),
        syntax_kind(t[named_children(t, 0)[c]].kind) == SyntaxKind::ClassNameStatement,
        declared_name(src, t, named_children(t, 0)[c]).len() > 0,
    ensures
        part_of(
            script_declaration(documented(src, t, named_children(t, 0)[c], NodeKind::Class)),
            visit_each(src, t, 0, j),
        ),
{
    let i = named_children(t, 0)[c];
    let d = script_declaration(documented(src, t, i, NodeKind::Class));
    let front = visit_each(src, t, 0, c);
    let own = visit_events(src, t, i);
    let tail = children_from(src, t, 0, c + 1, j);
    lemma_named_child_range(t, 0, c);
    lemma_kind_of_class_name(t[i].kind);
    assert(own =~= d + own.skip(2));
    assert(visit_each(src, t, 0, j) =~= front + d + (own.skip(2) + tail));
}

/// Whether no event declares the file to be a class.
pub open spec fn no_script(events: Seq<Event>) -> bool {
    forall|k: int| 0 <= k < events.len() ==> !(#[trigger] events[k] is NameScript)
}

proof fn lemma_kind_of_class_name(kind: Seq<char>)
    requires
        syntax_kind(kind) == SyntaxKind::ClassNameStatement,
    ensures
        kind != "call"@,
{
    reveal_strlit("call");
    reveal_strlit("class_name_statement");
    assert("call"@.len() == 4);
    assert("class_name_statement"@.len() == 20);
}

/// The rows noted at a statement directly in the file, before it.
proof fn lemma_walked_lengths(path: Seq<char>, src: Seq<char>, t: Seq<NodeModel>, c: int)
    requires
        t.len() > 0,
        syntax_kind(t[0].kind) == SyntaxKind::Other,
        0 <= c < named_children(t, 0).len(),
        within_limits(whole_graph(path, src, t)),
    ensures
        run(file_graph(path, src), visit_each(src, t, 0, c)).nodes.len() == run(
            file_graph(path, src),
            visit_each(src, t, 0, c),
        ).metas.len(),
{
    let none = Seq::<Event>::empty();
    let a = visit_each(src, t, 0, c);
    let own = visit_events(src, t, named_children(t, 0)[c]);
    assert(own.take(0) =~= none);
    lemma_file_statement(path, src, t, c, none);
    assert(a + none =~= a);
    law_walks_place_rows(path, src, t, a.len() as int);
}

/// While the file is not declared to be a class, base classes wait on.
pub proof fn lemma_waiting_stays(g: Graph, events: Seq<Event>)
    requires
        no_script(events),
    ensures
        begins(run(g, events).waiting, g.waiting),
        run(g, events).script_class == g.script_class,
    decreases events.len(),
{
    reveal(run);
    if events.len() == 0 {
        assert(g.waiting.take(g.waiting.len() as int) =~= g.waiting);
    } else {
        let before = run(g, events.drop_last());
        let e = events.last();
        assert forall|k: int| 0 <= k < events.drop_last().len() implies !(
        #[trigger] events.drop_last()[k] is NameScript) by {
            assert(events.drop_last()[k] == events[k]);
        }
        lemma_waiting_stays(g, events.drop_last());
        assert(!(events[events.len() - 1] is NameScript));
        lemma_event_keeps_script(before, e);
        lemma_event_keeps_waiting(before, e);
        let after = apply(before, e);
        assert(after.waiting.take(g.waiting.len() as int) =~= before.waiting.take(
            g.waiting.len() as int,
        ));
    }
}

proof fn lemma_event_keeps_waiting(g: Graph, e: Event)
    requires
        !(e is NameScript),
    ensures
        begins(apply(g, e).waiting, g.waiting),
{
    assert(g.waiting.take(g.waiting.len() as int) =~= g.waiting);
    match e {
        Event::Inherit(ms) => lemma_add_refs_keeps(
            g,
            latest_row(g),
            edge_code(EdgeKind::Extends),
            ms,
        ),
        Event::Extend(m) => {
            assert(g.waiting.push(m).take(g.waiting.len() as int) =~= g.waiting);
        },
        _ => {},
    }
}

/// A base class named outside every class waits while the file is not declared to be
/// one.
proof fn lemma_waits(g: Graph, head: Seq<Event>, m: Mention, rest: Seq<Event>)
    requires
        g.script_class is None,
        no_script(head + (seq![Event::Extend(m)] + rest)),
        nearest_class(run(g, head).stack) is None,
    ensures
        exists|k: int|
            0 <= k < run(g, head + (seq![Event::Extend(m)] + rest)).waiting.len() && run(
                g,
                head + (seq![Event::Extend(m)] + rest),
            ).waiting[k] == m,
{
    let e = Event::Extend(m);
    let all = head + (seq![e] + rest);
    let before = run(g, head);
    let after = apply(before, e);
    let end = run(after, rest);
    assert forall|k: int| 0 <= k < head.len() implies !(#[trigger] head[k] is NameScript) by {
        assert(all[k] == head[k]);
    }
    assert forall|k: int| 0 <= k < rest.len() implies !(#[trigger] rest[k] is NameScript) by {
        assert(all[head.len() + 1 + k] == rest[k]);
    }
    lemma_waiting_stays(g, head);
    lemma_run_concat(g, head, seq![e] + rest);
    lemma_run_concat(before, seq![e], rest);
    lemma_run_one(before, e);
    lemma_waiting_stays(after, rest);
    let k = before.waiting.len() as int;
    assert(after.waiting[k] == m);
    assert(end.waiting.take(after.waiting.len() as int)[k] == after.waiting[k]);
    assert(end == run(g, all));
    assert(end.waiting[k] == m);
}

/// What the walk comes upon in the named children of `p` from number `k` up to `n`.
proof fn children_from(src: Seq<char>, t: Seq<NodeModel>, p: int, k: int, n: int) -> (r: Seq<Event>)
    requires
        0 <= p < t.len(),
        0 <= k <= n <= named_children(t, p).len(),
    ensures
        visit_each(src, t, p, n) == visit_each(src, t, p, k) + r,
    decreases n - k,
{
    if k == n {
        let r = Seq::<Event>::empty();
        assert(visit_each(src, t, p, n) =~= visit_each(src, t, p, k) + r);
        r
    } else {
        let r = children_from(src, t, p, k, n - 1);
        let all = r + visit_events(src, t, named_children(t, p)[n - 1]);
        assert(visit_each(src, t, p, n) =~= visit_each(src, t, p, k) + all);
        all
    }
}

} // verus!
