//! What the rows of every extracted graph say of each other and of the arena.

use vstd::prelude::*;
use vstd::utf8::{encode_utf8, encode_utf8_valid_utf8, valid_utf8, valid_utf8_concat};
use crate::buffers::{
    arena_put, arena_put_opt, none_str, put_opt_ref, put_ref, resolves_to, EdgeRow, NodeRow, StrRef,
};
use crate::events::{flush_values, uses_of, visit_events, whole_graph};
use crate::graph::{
    add_ref, add_refs, apply, callable_kind, contains_edge, declare, declared_id,
    declared_qualified, declared_row, extend_all, extend_from, extending_class, extends_edge,
    file_graph, flush_candidates, is_callable, is_known, is_shared_value, is_value, latest_row,
    lemma_extend_all_keeps, nearest_class, run, top_row, Declaration, Event, Graph, Mention,
    MetaModel, ScopeModel,
};
use crate::ids::{declaration_id, file_id};
use crate::kinds::{edge_code, node_code, EdgeKind, NodeKind, FUNCTION_REF_CODE};
use crate::laws::{
    begins, grows, law_candidates_only_add, law_event_only_adds, law_values_only_add,
    law_walk_only_adds, lemma_add_refs_grows,
};
use crate::syntax::NodeModel;
use crate::textutil::base_name_of;

verus! {

/// Whether row numbers and arena offsets hold the sizes of `g`.
pub open spec fn within_limits(g: Graph) -> bool {
    g.nodes.len() <= u32::MAX && g.arena.len() <= usize::MAX
}

/// Whether `r` refers to a whole text of the arena.
pub open spec fn has_text(arena: Seq<u8>, r: StrRef) -> bool {
    exists|s: Seq<char>| resolves_to(arena, r, s)
}

/// Whether a node row says what its kind, name and identifier are, and refers to
/// texts only.
pub open spec fn row_resolves(
    arena: Seq<u8>,
    row: NodeRow,
    meta: MetaModel,
    id: Seq<char>,
) -> bool {
    &&& row.kind == node_code(meta.kind)
    &&& resolves_to(arena, row.name, meta.name)
    &&& resolves_to(arena, row.id, id)
    &&& has_text(arena, row.qualified_name)
    &&& row.docstring == none_str() || has_text(arena, row.docstring)
    &&& row.signature == none_str() || has_text(arena, row.signature)
    &&& row.return_type == none_str() || has_text(arena, row.return_type)
}

/// Every node row has its kind, name and identifier noted and refers to them, and
/// every reference refers to a name.
pub open spec fn texts_resolve(g: Graph) -> bool {
    &&& g.nodes.len() == g.metas.len()
    &&& g.nodes.len() == g.ids.len()
    &&& forall|k: int|
        0 <= k < g.nodes.len() ==> row_resolves(
            g.arena,
            #[trigger] g.nodes[k],
            g.metas[k],
            g.ids[k],
        )
    &&& forall|k: int|
        0 <= k < g.refs.len() ==> has_text(g.arena, (#[trigger] g.refs[k]).reference_name)
}

/// Every row number in the graph is the number of a row.
pub open spec fn rows_exist(g: Graph) -> bool {
    &&& g.nodes.len() >= 1
    &&& forall|k: int| 0 <= k < g.stack.len() ==> (#[trigger] g.stack[k]).row < g.nodes.len()
    &&& forall|k: int| 0 <= k < g.edges.len() ==> (#[trigger] g.edges[k]).source_idx < g.nodes.len()
    &&& forall|k: int| 0 <= k < g.edges.len() ==> (#[trigger] g.edges[k]).target_idx < g.nodes.len()
    &&& forall|k: int| 0 <= k < g.refs.len() ==> (#[trigger] g.refs[k]).from_idx < g.nodes.len()
    &&& forall|k: int|
        0 <= k < g.candidates.len() ==> (#[trigger] g.candidates[k]).from < g.nodes.len()
    &&& forall|k: int|
        0 <= k < g.value_scopes.len() ==> (#[trigger] g.value_scopes[k]).row < g.nodes.len()
    &&& g.script_class matches Some(row) ==> row < g.nodes.len()
}

/// The containment edges among `edges`, in order.
pub open spec fn containments(edges: Seq<EdgeRow>) -> Seq<EdgeRow>
    decreases edges.len(),
{
    if edges.len() == 0 {
        seq![]
    } else if edges.last().kind == edge_code(EdgeKind::Contains) {
        containments(edges.drop_last()).push(edges.last())
    } else {
        containments(edges.drop_last())
    }
}

/// Every node but the first is contained in exactly one node, which was recorded
/// before it: the containment edges lead to the rows from 1 on, each once and in
/// order, and each comes from an earlier row.
pub open spec fn contained_once(g: Graph) -> bool {
    let c = containments(g.edges);
    &&& c.len() + 1 == g.nodes.len()
    &&& forall|k: int|
        0 <= k < c.len() ==> (#[trigger] c[k]).target_idx == k + 1 && c[k].source_idx <= k
}

/// Whether some node among `metas` is a function or method called `name`.
pub open spec fn declares_callable(metas: Seq<MetaModel>, name: Seq<char>) -> bool {
    exists|k: int|
        0 <= k < metas.len() && is_callable((#[trigger] metas[k]).kind) && metas[k].name == name
}

/// The known function names are those of the function and method nodes, and every
/// shared value is a constant or variable node of its name.
pub open spec fn names_known(g: Graph) -> bool {
    &&& forall|name: Seq<char>| #[trigger]
        g.defined.contains(name) <==> declares_callable(g.metas, name)
    &&& forall|name: Seq<char>| #[trigger]
        g.values.contains_key(name) ==> {
            &&& g.values[name] < g.metas.len()
            &&& is_value(g.metas[g.values[name] as int].kind)
            &&& g.metas[g.values[name] as int].name == name
        }
}

/// All of the above.
pub open spec fn sound(g: Graph) -> bool {
    texts_resolve(g) && rows_exist(g) && contained_once(g) && names_known(g)
}

/// A text keeps its place when the arena grows.
pub proof fn law_texts_stay(a: Seq<u8>, b: Seq<u8>, r: StrRef, s: Seq<char>)
    requires
        begins(b, a),
        resolves_to(a, r, s),
    ensures
        resolves_to(b, r, s),
{
    assert(b.subrange(r.offset as int, r.offset + r.len) =~= a.subrange(
        r.offset as int,
        r.offset + r.len,
    )) by {
        assert forall|k: int| 0 <= k < a.len() implies b[k] == a[k] by {
            assert(b.take(a.len() as int)[k] == a[k]);
        }
    }
}

proof fn lemma_has_text_stays(a: Seq<u8>, b: Seq<u8>, r: StrRef)
    requires
        begins(b, a),
        has_text(a, r),
    ensures
        has_text(b, r),
{
    let s = choose|s: Seq<char>| resolves_to(a, r, s);
    law_texts_stay(a, b, r, s);
}

proof fn lemma_row_stays(a: Seq<u8>, b: Seq<u8>, row: NodeRow, meta: MetaModel, id: Seq<char>)
    requires
        begins(b, a),
        row_resolves(a, row, meta, id),
    ensures
        row_resolves(b, row, meta, id),
{
    law_texts_stay(a, b, row.name, meta.name);
    law_texts_stay(a, b, row.id, id);
    lemma_has_text_stays(a, b, row.qualified_name);
    if row.docstring != none_str() {
        lemma_has_text_stays(a, b, row.docstring);
    }
    if row.signature != none_str() {
        lemma_has_text_stays(a, b, row.signature);
    }
    if row.return_type != none_str() {
        lemma_has_text_stays(a, b, row.return_type);
    }
}

/// What is appended to the arena can be read back.
pub proof fn lemma_put_resolves(a: Seq<u8>, s: Seq<char>)
    requires
        arena_put(a, s).len() <= usize::MAX,
    ensures
        resolves_to(arena_put(a, s), put_ref(a, s), s),
        begins(arena_put(a, s), a),
{
    assert(arena_put(a, s).subrange(a.len() as int, arena_put(a, s).len() as int)
        =~= encode_utf8(s));
    assert(arena_put(a, s).take(a.len() as int) =~= a);
}

/// Whether `r` refers to the text of an optional string; absent and empty strings
/// have no reference.
pub open spec fn opt_resolves_to(arena: Seq<u8>, r: StrRef, s: Option<Seq<char>>) -> bool {
    match s {
        Some(x) => if x.len() > 0 {
            resolves_to(arena, r, x)
        } else {
            r == none_str()
        },
        None => r == none_str(),
    }
}

proof fn lemma_put_opt_resolves(a: Seq<u8>, s: Option<Seq<char>>)
    requires
        arena_put_opt(a, s).len() <= usize::MAX,
    ensures
        opt_resolves_to(arena_put_opt(a, s), put_opt_ref(a, s), s),
        begins(arena_put_opt(a, s), a),
{
    assert(a.take(a.len() as int) =~= a);
    if let Some(x) = s {
        if x.len() > 0 {
            lemma_put_resolves(a, x);
        }
    }
}

/// An optional text keeps its place when the arena grows.
pub proof fn lemma_opt_stays(a: Seq<u8>, b: Seq<u8>, r: StrRef, s: Option<Seq<char>>)
    requires
        begins(b, a),
        opt_resolves_to(a, r, s),
    ensures
        opt_resolves_to(b, r, s),
{
    if let Some(x) = s {
        if x.len() > 0 {
            law_texts_stay(a, b, r, x);
        }
    }
}

/// What is recorded of a declaration can be read back: its row refers to its name,
/// its qualified name, its identifier, and its documentation, signature and return
/// type where it has them.
pub proof fn law_declared_texts(g: Graph, d: Declaration)
    requires
        declared_row(g, d).0.len() <= usize::MAX,
    ensures
        resolves_to(declared_row(g, d).0, declared_row(g, d).1.name, d.name),
        resolves_to(
            declared_row(g, d).0,
            declared_row(g, d).1.qualified_name,
            declared_qualified(g, d),
        ),
        resolves_to(declared_row(g, d).0, declared_row(g, d).1.id, declared_id(g, d)),
        opt_resolves_to(
            declared_row(g, d).0,
            declared_row(g, d).1.docstring,
            d.extra.docstring,
        ),
        opt_resolves_to(
            declared_row(g, d).0,
            declared_row(g, d).1.signature,
            d.extra.signature,
        ),
        opt_resolves_to(
            declared_row(g, d).0,
            declared_row(g, d).1.return_type,
            d.extra.return_type,
        ),
        begins(declared_row(g, d).0, g.arena),
{
    let q = declared_qualified(g, d);
    let id = declared_id(g, d);
    let a1 = arena_put(g.arena, d.name);
    let a2 = arena_put(a1, q);
    let a3 = arena_put(a2, id);
    let a4 = arena_put_opt(a3, d.extra.docstring);
    let a5 = arena_put_opt(a4, d.extra.signature);
    let a6 = arena_put_opt(a5, d.extra.return_type);
    assert(a1.len() <= a2.len() <= a3.len() <= a4.len() <= a5.len() <= a6.len());
    lemma_put_resolves(g.arena, d.name);
    lemma_put_resolves(a1, q);
    lemma_put_resolves(a2, id);
    lemma_put_opt_resolves(a3, d.extra.docstring);
    lemma_put_opt_resolves(a4, d.extra.signature);
    lemma_put_opt_resolves(a5, d.extra.return_type);
    let row = declared_row(g, d).1;
    // Each string stays in place while the later ones are appended.
    assert(a6.take(a1.len() as int) =~= a1);
    assert(a6.take(a2.len() as int) =~= a2);
    assert(a6.take(a3.len() as int) =~= a3);
    assert(a6.take(a4.len() as int) =~= a4);
    assert(a6.take(a5.len() as int) =~= a5);
    law_texts_stay(a1, a6, row.name, d.name);
    law_texts_stay(a2, a6, row.qualified_name, q);
    law_texts_stay(a3, a6, row.id, id);
    lemma_opt_stays(a4, a6, row.docstring, d.extra.docstring);
    lemma_opt_stays(a5, a6, row.signature, d.extra.signature);
    assert(begins(a6, g.arena)) by {
        assert(a6.take(g.arena.len() as int) =~= g.arena);
    }
}

proof fn lemma_opt_text(a: Seq<u8>, r: StrRef, s: Option<Seq<char>>)
    requires
        opt_resolves_to(a, r, s),
    ensures
        r == none_str() || has_text(a, r),
{
    if let Some(x) = s {
        if x.len() > 0 {
            assert(resolves_to(a, r, x));
        }
    }
}

/// The row of a declaration refers to texts only.
proof fn lemma_declared_row_resolves(g: Graph, d: Declaration)
    requires
        declared_row(g, d).0.len() <= usize::MAX,
    ensures
        row_resolves(
            declared_row(g, d).0,
            declared_row(g, d).1,
            MetaModel { kind: d.kind, name: d.name },
            declared_id(g, d),
        ),
        begins(declared_row(g, d).0, g.arena),
{
    let (a, row) = declared_row(g, d);
    law_declared_texts(g, d);
    lemma_opt_text(a, row.docstring, d.extra.docstring);
    lemma_opt_text(a, row.signature, d.extra.signature);
    lemma_opt_text(a, row.return_type, d.extra.return_type);
}

proof fn lemma_declare_texts(g: Graph, d: Declaration)
    requires
        texts_resolve(g),
        within_limits(declare(g, d)),
    ensures
        texts_resolve(declare(g, d)),
{
    let h = declare(g, d);
    lemma_declared_row_resolves(g, d);
    assert forall|k: int| 0 <= k < h.nodes.len() implies row_resolves(
        h.arena,
        #[trigger] h.nodes[k],
        h.metas[k],
        h.ids[k],
    ) by {
        if k < g.nodes.len() {
            assert(row_resolves(g.arena, g.nodes[k], g.metas[k], g.ids[k]));
            lemma_row_stays(g.arena, h.arena, g.nodes[k], g.metas[k], g.ids[k]);
        }
    }
    assert forall|k: int| 0 <= k < h.refs.len() implies has_text(
        h.arena,
        (#[trigger] h.refs[k]).reference_name,
    ) by {
        lemma_has_text_stays(g.arena, h.arena, g.refs[k].reference_name);
    }
}

/// One more reference whose name was just stored.
proof fn lemma_one_ref_texts(g: Graph, h: Graph, name: Seq<char>)
    requires
        texts_resolve(g),
        within_limits(h),
        h.nodes == g.nodes,
        h.metas == g.metas,
        h.ids == g.ids,
        h.arena == arena_put(g.arena, name),
        h.refs.len() == g.refs.len() + 1,
        h.refs.drop_last() == g.refs,
        h.refs.last().reference_name == put_ref(g.arena, name),
    ensures
        texts_resolve(h),
{
    lemma_put_resolves(g.arena, name);
    assert forall|k: int| 0 <= k < h.nodes.len() implies row_resolves(
        h.arena,
        #[trigger] h.nodes[k],
        h.metas[k],
        h.ids[k],
    ) by {
        lemma_row_stays(g.arena, h.arena, g.nodes[k], g.metas[k], g.ids[k]);
    }
    assert forall|k: int| 0 <= k < h.refs.len() implies has_text(
        h.arena,
        (#[trigger] h.refs[k]).reference_name,
    ) by {
        if k < g.refs.len() {
            assert(h.refs.drop_last()[k] == g.refs[k]);
            lemma_has_text_stays(g.arena, h.arena, g.refs[k].reference_name);
        } else {
            assert(resolves_to(h.arena, h.refs[k].reference_name, name));
        }
    }
}

proof fn lemma_declare_rows(g: Graph, d: Declaration)
    requires
        rows_exist(g),
        within_limits(declare(g, d)),
    ensures
        rows_exist(declare(g, d)),
{
}

/// One more edge adds at most itself to the containment edges.
pub proof fn lemma_containments_push(edges: Seq<EdgeRow>, e: EdgeRow)
    ensures
        containments(edges.push(e)) == (if e.kind == edge_code(EdgeKind::Contains) {
            containments(edges).push(e)
        } else {
            containments(edges)
        }),
{
    assert(edges.push(e).drop_last() =~= edges);
}

proof fn lemma_declare_contained(g: Graph, d: Declaration)
    requires
        rows_exist(g),
        contained_once(g),
        within_limits(declare(g, d)),
    ensures
        contained_once(declare(g, d)),
{
    let row = g.nodes.len() as u32;
    lemma_containments_push(g.edges, contains_edge(top_row(g.stack), row));
}

proof fn lemma_declare_names(g: Graph, d: Declaration)
    requires
        g.nodes.len() == g.metas.len(),
        names_known(g),
        within_limits(declare(g, d)),
    ensures
        names_known(declare(g, d)),
{
    let h = declare(g, d);
    let n = g.metas.len() as int;
    assert forall|name: Seq<char>| #[trigger] h.defined.contains(name) <==> declares_callable(
        h.metas,
        name,
    ) by {
        if h.defined.contains(name) {
            if g.defined.contains(name) {
                assert(declares_callable(g.metas, name));
                let k = choose|k: int|
                    0 <= k < g.metas.len() && is_callable((#[trigger] g.metas[k]).kind)
                        && g.metas[k].name == name;
                assert(h.metas[k] == g.metas[k]);
            } else {
                assert(h.metas[n].name == name);
            }
        }
        if declares_callable(h.metas, name) {
            let k = choose|k: int|
                0 <= k < h.metas.len() && is_callable((#[trigger] h.metas[k]).kind)
                    && h.metas[k].name == name;
            if k < n {
                assert(h.metas[k] == g.metas[k]);
                assert(declares_callable(g.metas, name));
                assert(g.defined.contains(name));
            }
        }
    }
    assert forall|name: Seq<char>| #[trigger] h.values.contains_key(name) implies {
        &&& h.values[name] < h.metas.len()
        &&& is_value(h.metas[h.values[name] as int].kind)
        &&& h.metas[h.values[name] as int].name == name
    } by {
        if is_shared_value(g.stack, d.kind, d.name) && name == d.name {
            assert(h.values[name] == n);
        } else {
            assert(g.values.contains_key(name));
        }
    }
}

proof fn lemma_declare_sound(g: Graph, d: Declaration)
    requires
        sound(g),
        within_limits(declare(g, d)),
    ensures
        sound(declare(g, d)),
{
    lemma_declare_texts(g, d);
    lemma_declare_rows(g, d);
    lemma_declare_contained(g, d);
    lemma_declare_names(g, d);
}

proof fn lemma_add_ref_sound(g: Graph, from: u32, kind: u8, m: Mention)
    requires
        sound(g),
        from < g.nodes.len(),
        within_limits(add_ref(g, from, kind, m)),
    ensures
        sound(add_ref(g, from, kind, m)),
{
    let h = add_ref(g, from, kind, m);
    assert(h.refs.drop_last() =~= g.refs);
    lemma_one_ref_texts(g, h, m.name);
}

proof fn lemma_add_refs_sound(g: Graph, from: u32, kind: u8, mentions: Seq<Mention>)
    requires
        sound(g),
        from < g.nodes.len(),
        within_limits(add_refs(g, from, kind, mentions)),
    ensures
        sound(add_refs(g, from, kind, mentions)),
        add_refs(g, from, kind, mentions).nodes == g.nodes,
    decreases mentions.len(),
{
    if mentions.len() > 0 {
        let before = add_refs(g, from, kind, mentions.drop_last());
        lemma_add_refs_sound(g, from, kind, mentions.drop_last());
        lemma_add_ref_sound(before, from, kind, mentions.last());
    }
}

proof fn lemma_nearest_class_row(stack: Seq<ScopeModel>)
    ensures
        nearest_class(stack) matches Some(row) ==> exists|k: int|
            0 <= k < stack.len() && (#[trigger] stack[k]).row == row,
    decreases stack.len(),
{
    if stack.len() > 0 {
        if stack.last().kind == NodeKind::Class {
            assert(stack[stack.len() - 1].row == stack.last().row);
        } else {
            lemma_nearest_class_row(stack.drop_last());
            if let Some(row) = nearest_class(stack.drop_last()) {
                let k = choose|k: int|
                    0 <= k < stack.drop_last().len() && (#[trigger] stack.drop_last()[k]).row
                        == row;
                assert(stack[k].row == row);
            }
        }
    }
}

proof fn lemma_extend_sound(g: Graph, m: Mention)
    requires
        sound(g),
        within_limits(apply(g, Event::Extend(m))),
    ensures
        sound(apply(g, Event::Extend(m))),
{
    lemma_nearest_class_row(g.stack);
    match extending_class(g) {
        Some(row) => lemma_extend_from_sound(g, row, m),
        None => {
            assert(rows_exist(apply(g, Event::Extend(m))));
        },
    }
}

proof fn lemma_extend_from_sound(g: Graph, row: u32, m: Mention)
    requires
        sound(g),
        row < g.nodes.len(),
        within_limits(extend_from(g, row, m)),
    ensures
        sound(extend_from(g, row, m)),
        containments(extend_from(g, row, m).edges) == containments(g.edges),
{
    let h = Graph { edges: g.edges.push(extends_edge(row, m)), ..g };
    lemma_containments_push(g.edges, extends_edge(row, m));
    assert(rows_exist(h));
    assert(texts_resolve(h));
    assert(sound(h));
    lemma_add_ref_sound(h, row, edge_code(EdgeKind::Extends), m);
}

/// Base classes keep a graph sound, and what contains what.
pub proof fn lemma_extend_all_sound(g: Graph, row: u32, mentions: Seq<Mention>)
    requires
        sound(g),
        row < g.nodes.len(),
        within_limits(extend_all(g, row, mentions)),
    ensures
        sound(extend_all(g, row, mentions)),
        containments(extend_all(g, row, mentions).edges) == containments(g.edges),
    decreases mentions.len(),
{
    if mentions.len() > 0 {
        let before = extend_all(g, row, mentions.drop_last());
        lemma_extend_all_keeps(g, row, mentions.drop_last());
        assert(before.arena.len() <= extend_all(g, row, mentions).arena.len());
        lemma_extend_all_sound(g, row, mentions.drop_last());
        lemma_extend_from_sound(before, row, mentions.last());
    }
}

/// Every event keeps a graph sound, within the limits.
pub proof fn law_event_keeps_sound(g: Graph, e: Event)
    requires
        sound(g),
        within_limits(apply(g, e)),
    ensures
        sound(apply(g, e)),
{
    law_event_only_adds(g, e);
    let h = apply(g, e);
    match e {
        Event::Declare(d) => lemma_declare_sound(g, d),
        Event::DeclareCallable(d) => lemma_declare_sound(
            g,
            Declaration { kind: callable_kind(g.stack), ..d },
        ),
        Event::NameScript => {
            let named = Graph { script_class: Some(latest_row(g)), waiting: seq![], ..g };
            assert(rows_exist(named));
            assert(sound(named));
            lemma_extend_all_keeps(named, latest_row(g), g.waiting);
            lemma_extend_all_sound(named, latest_row(g), g.waiting);
        },
        Event::Inherit(ms) => lemma_add_refs_sound(
            g,
            latest_row(g),
            edge_code(EdgeKind::Extends),
            ms,
        ),
        Event::Enter(kind, name) => {
            assert(rows_exist(h));
        },
        Event::EnterInitializer => {
            assert(rows_exist(h));
        },
        Event::Leave => {
            assert(rows_exist(h));
        },
        Event::Call(m) => if g.stack.len() > 0 {
            lemma_add_ref_sound(g, top_row(g.stack), FUNCTION_REF_CODE, m)
        },
        Event::Extend(m) => lemma_extend_sound(g, m),
        Event::Argument(m) => {
            assert(rows_exist(h));
        },
    }
}

/// Every walk keeps a graph sound, within the limits.
pub proof fn law_walk_keeps_sound(g: Graph, events: Seq<Event>)
    requires
        sound(g),
        within_limits(run(g, events)),
    ensures
        sound(run(g, events)),
    decreases events.len(),
{
    reveal(run);
    if events.len() > 0 {
        let before = run(g, events.drop_last());
        law_event_only_adds(before, events.last());
        law_walk_keeps_sound(g, events.drop_last());
        law_event_keeps_sound(before, events.last());
    }
}

proof fn lemma_flush_candidates_sound(g: Graph, n: int)
    requires
        sound(g),
        n <= g.candidates.len(),
        within_limits(flush_candidates(g, n)),
    ensures
        sound(flush_candidates(g, n)),
    decreases n,
{
    if n > 0 {
        let before = flush_candidates(g, n - 1);
        let after = flush_candidates(g, n);
        let c = g.candidates[n - 1];
        law_candidates_only_add(g, n - 1);
        assert(before.arena.len() <= after.arena.len());
        assert(before.nodes == after.nodes);
        lemma_flush_candidates_sound(g, n - 1);
        if is_known(g, c.name) {
            assert(after.refs.drop_last() =~= before.refs);
            lemma_one_ref_texts(before, after, c.name);
            assert(rows_exist(after));
        }
    }
}

proof fn lemma_flush_values_sound(g: Graph, src: Seq<char>, t: Seq<NodeModel>, n: int)
    requires
        sound(g),
        n <= g.value_scopes.len(),
        within_limits(flush_values(g, src, t, n)),
    ensures
        sound(flush_values(g, src, t, n)),
    decreases n,
{
    if n > 0 {
        let before = flush_values(g, src, t, n - 1);
        let scope = g.value_scopes[n - 1];
        law_values_only_add(g, src, t, n - 1);
        if g.values.contains_key(scope.name) {
            let uses = uses_of(src, t, 0, scope.name);
            lemma_add_refs_grows(before, scope.row, FUNCTION_REF_CODE, uses);
            lemma_flush_values_sound(g, src, t, n - 1);
            lemma_add_refs_sound(before, scope.row, FUNCTION_REF_CODE, uses);
        } else {
            lemma_flush_values_sound(g, src, t, n - 1);
        }
    }
}

/// The graph of a file is sound before anything in it was walked.
pub proof fn lemma_file_graph_sound(path: Seq<char>, src: Seq<char>)
    requires
        within_limits(file_graph(path, src)),
    ensures
        sound(file_graph(path, src)),
{
    let g = file_graph(path, src);
    let base = base_name_of(path);
    let a0 = Seq::<u8>::empty();
    let a1 = arena_put(a0, file_id(path));
    let a2 = arena_put(a1, base);
    let a3 = arena_put(a2, path);
    lemma_put_resolves(a0, file_id(path));
    lemma_put_resolves(a1, base);
    lemma_put_resolves(a2, path);
    law_texts_stay(a1, a2, g.nodes[0].id, file_id(path));
    law_texts_stay(a2, a3, g.nodes[0].id, file_id(path));
    law_texts_stay(a2, a3, g.nodes[0].name, base);
    assert(resolves_to(a3, g.nodes[0].qualified_name, path));
    assert(texts_resolve(g));
    assert(rows_exist(g));
    assert(contained_once(g));
    assert(names_known(g));
}

/// The graph of every file is sound, within the limits of row numbers and arena
/// offsets: every reference into the arena is a text, every row number is a row,
/// every node but the file is contained exactly once, and the known names are those
/// of the nodes.
pub proof fn law_extraction_is_sound(path: Seq<char>, src: Seq<char>, t: Seq<NodeModel>)
    requires
        within_limits(whole_graph(path, src, t)),
    ensures
        sound(whole_graph(path, src, t)),
{
    let g0 = file_graph(path, src);
    let g1 = run(g0, visit_events(src, t, 0));
    let g2 = flush_candidates(g1, g1.candidates.len() as int);
    let g3 = whole_graph(path, src, t);
    law_walk_only_adds(g0, visit_events(src, t, 0));
    law_candidates_only_add(g1, g1.candidates.len() as int);
    law_values_only_add(g2, src, t, g2.value_scopes.len() as int);
    assert(g0.arena.len() <= g1.arena.len() <= g2.arena.len() <= g3.arena.len());
    lemma_file_graph_sound(path, src);
    law_walk_keeps_sound(g0, visit_events(src, t, 0));
    lemma_flush_candidates_sound(g1, g1.candidates.len() as int);
    lemma_flush_values_sound(g2, src, t, g2.value_scopes.len() as int);
}

proof fn lemma_put_utf8(a: Seq<u8>, s: Seq<char>)
    requires
        valid_utf8(a),
    ensures
        valid_utf8(arena_put(a, s)),
{
    encode_utf8_valid_utf8(s);
    valid_utf8_concat(a, encode_utf8(s));
}

proof fn lemma_put_opt_utf8(a: Seq<u8>, s: Option<Seq<char>>)
    requires
        valid_utf8(a),
    ensures
        valid_utf8(arena_put_opt(a, s)),
{
    if let Some(x) = s {
        lemma_put_utf8(a, x);
    }
}

proof fn lemma_declare_utf8(g: Graph, d: Declaration)
    requires
        valid_utf8(g.arena),
    ensures
        valid_utf8(declare(g, d).arena),
{
    let a1 = arena_put(g.arena, d.name);
    let a2 = arena_put(a1, declared_qualified(g, d));
    let a3 = arena_put(a2, declared_id(g, d));
    let a4 = arena_put_opt(a3, d.extra.docstring);
    let a5 = arena_put_opt(a4, d.extra.signature);
    lemma_put_utf8(g.arena, d.name);
    lemma_put_utf8(a1, declared_qualified(g, d));
    lemma_put_utf8(a2, declared_id(g, d));
    lemma_put_opt_utf8(a3, d.extra.docstring);
    lemma_put_opt_utf8(a4, d.extra.signature);
    lemma_put_opt_utf8(a5, d.extra.return_type);
}

proof fn lemma_add_refs_utf8(g: Graph, from: u32, kind: u8, mentions: Seq<Mention>)
    requires
        valid_utf8(g.arena),
    ensures
        valid_utf8(add_refs(g, from, kind, mentions).arena),
    decreases mentions.len(),
{
    if mentions.len() > 0 {
        let before = add_refs(g, from, kind, mentions.drop_last());
        lemma_add_refs_utf8(g, from, kind, mentions.drop_last());
        lemma_put_utf8(before.arena, mentions.last().name);
    }
}

proof fn lemma_extend_all_utf8(g: Graph, row: u32, mentions: Seq<Mention>)
    requires
        valid_utf8(g.arena),
    ensures
        valid_utf8(extend_all(g, row, mentions).arena),
    decreases mentions.len(),
{
    if mentions.len() > 0 {
        lemma_extend_all_utf8(g, row, mentions.drop_last());
        lemma_put_utf8(extend_all(g, row, mentions.drop_last()).arena, mentions.last().name);
    }
}

proof fn lemma_walk_utf8(g: Graph, events: Seq<Event>)
    requires
        valid_utf8(g.arena),
    ensures
        valid_utf8(run(g, events).arena),
    decreases events.len(),
{
    reveal(run);
    if events.len() > 0 {
        let before = run(g, events.drop_last());
        lemma_walk_utf8(g, events.drop_last());
        match events.last() {
            Event::Declare(d) => lemma_declare_utf8(before, d),
            Event::DeclareCallable(d) => lemma_declare_utf8(
                before,
                Declaration { kind: callable_kind(before.stack), ..d },
            ),
            Event::Inherit(ms) => lemma_add_refs_utf8(
                before,
                latest_row(before),
                edge_code(EdgeKind::Extends),
                ms,
            ),
            Event::Call(m) => lemma_put_utf8(before.arena, m.name),
            Event::Extend(m) => lemma_put_utf8(before.arena, m.name),
            Event::NameScript => lemma_extend_all_utf8(
                Graph { script_class: Some(latest_row(before)), waiting: seq![], ..before },
                latest_row(before),
                before.waiting,
            ),
            _ => {},
        }
    }
}

proof fn lemma_flush_candidates_utf8(g: Graph, n: int)
    requires
        valid_utf8(g.arena),
    ensures
        valid_utf8(flush_candidates(g, n).arena),
    decreases n,
{
    if n > 0 {
        lemma_flush_candidates_utf8(g, n - 1);
        lemma_put_utf8(flush_candidates(g, n - 1).arena, g.candidates[n - 1].name);
    }
}

proof fn lemma_flush_values_utf8(g: Graph, src: Seq<char>, t: Seq<NodeModel>, n: int)
    requires
        valid_utf8(g.arena),
    ensures
        valid_utf8(flush_values(g, src, t, n).arena),
    decreases n,
{
    if n > 0 {
        let scope = g.value_scopes[n - 1];
        lemma_flush_values_utf8(g, src, t, n - 1);
        lemma_add_refs_utf8(
            flush_values(g, src, t, n - 1),
            scope.row,
            FUNCTION_REF_CODE,
            uses_of(src, t, 0, scope.name),
        );
    }
}

/// The arena of every file is UTF-8 text.
pub proof fn law_arena_is_utf8(path: Seq<char>, src: Seq<char>, t: Seq<NodeModel>)
    ensures
        valid_utf8(whole_graph(path, src, t).arena),
{
    let a0 = Seq::<u8>::empty();
    let a1 = arena_put(a0, file_id(path));
    let a2 = arena_put(a1, base_name_of(path));
    let g0 = file_graph(path, src);
    let g1 = run(g0, visit_events(src, t, 0));
    let g2 = flush_candidates(g1, g1.candidates.len() as int);
    lemma_put_utf8(a0, file_id(path));
    lemma_put_utf8(a1, base_name_of(path));
    lemma_put_utf8(a2, path);
    lemma_walk_utf8(g0, visit_events(src, t, 0));
    lemma_flush_candidates_utf8(g1, g1.candidates.len() as int);
    lemma_flush_values_utf8(g2, src, t, g2.value_scopes.len() as int);
}

/// A declaration adds one row, one note of its kind and name and one identifier, after
/// those that were there; and the row refers to that identifier.
pub proof fn law_declaration_adds_one_row(g: Graph, d: Declaration)
    requires
        g.nodes.len() == g.metas.len(),
        g.nodes.len() == g.ids.len(),
        declare(g, d).arena.len() <= usize::MAX,
    ensures
        declare(g, d).nodes.len() == g.nodes.len() + 1,
        declare(g, d).metas.len() == g.nodes.len() + 1,
        declare(g, d).ids.len() == g.nodes.len() + 1,
        begins(declare(g, d).nodes, g.nodes),
        begins(declare(g, d).metas, g.metas),
        begins(declare(g, d).ids, g.ids),
        declare(g, d).metas.last() == (MetaModel { kind: d.kind, name: d.name }),
        declare(g, d).ids.last() == declaration_id(g.path, d.kind, d.name, d.start_line),
        resolves_to(
            declare(g, d).arena,
            declare(g, d).nodes.last().id,
            declare(g, d).ids.last(),
        ),
{
    law_event_only_adds(g, Event::Declare(d));
    law_declared_texts(g, d);
}

/// Of two declarations of one shared value, one right after the other, both are
/// recorded; the name stands for the later one, and the name counts as declared
/// twice.
pub proof fn law_later_value_wins(g: Graph, first: Declaration, second: Declaration)
    requires
        first.name == second.name,
        is_shared_value(g.stack, first.kind, first.name),
        is_shared_value(g.stack, second.kind, second.name),
        !g.value_counts.contains_key(first.name),
        g.nodes.len() < u32::MAX,
    ensures
        declare(declare(g, first), second).nodes.len() == g.nodes.len() + 2,
        declare(declare(g, first), second).nodes.take(g.nodes.len() as int + 1) == declare(
            g,
            first,
        ).nodes,
        declare(g, first).values[first.name] == g.nodes.len(),
        declare(declare(g, first), second).values[first.name] == g.nodes.len() + 1,
        declare(declare(g, first), second).value_counts[first.name] == 2,
{
    let g1 = declare(g, first);
    let g2 = declare(g1, second);
    assert(g2.nodes.take(g.nodes.len() as int + 1) =~= g1.nodes);
}

} // verus!
