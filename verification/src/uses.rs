//! The uses of names in a syntax tree, and the references that the graph holds to them.

use vstd::prelude::*;
use vstd::utf8::encode_utf8_decode_utf8;
use crate::buffers::{none_str, resolves_to, RefRow};
use crate::events::{
    enumerator_declaration, flush_values, mention_of, uses_in_each, uses_of, visit_events,
    whole_graph,
};
use crate::graph::{
    add_refs, apply, callable_kind, declare, extend_all, file_graph, flush_candidates, is_callable,
    is_shared_value, is_value, latest_row, lemma_extend_all_keeps, lemma_run_concat, lemma_run_one,
    run, Declaration, Event, Graph, Mention, MetaModel,
};
use crate::kinds::{edge_code, node_code, EdgeKind, NodeKind, FUNCTION_REF_CODE};
use crate::laws::{
    law_candidates_only_add, law_event_only_adds, law_values_only_add, law_walk_only_adds,
    lemma_add_refs_keeps,
};
use crate::mentions::refers_at;
use crate::nesting::{
    event_declares, is_column, is_line, lemma_kinds_differ, made_by, recorded_as, walked,
};
use crate::outline::{bears_name, is_named_child, is_statement_in, law_names, lemma_sorts};
use crate::placement::{
    is_enum_value, lemma_enum_made, lemma_enum_value_home, lemma_home_kind,
    lemma_statement_declares, lemma_statement_home,
};
use crate::recorded::{law_uses_become_refs, refers_to, refs_cover, use_count};
use crate::shapes::lemma_contains_either;
use crate::soundness::{law_extraction_is_sound, row_resolves, within_limits};
use crate::syntax::{
    is_below, is_child, is_found, law_named_children, lemma_named_child_range, named_children,
    node_text, NodeModel,
};
use crate::textutil::{distinctive, is_upper_or_underscore, utf16_units};

verus! {

/// Whether `k` is `i`, or a named child of it, or a named child of such a child, and so on.
pub open spec fn is_reached(t: Seq<NodeModel>, i: int, k: int) -> bool
    decreases t.len() - i,
{
    ||| i == k
    ||| exists|c: int| i < c < t.len() && #[trigger] is_named_child(t, i, c) && is_reached(t, c, k)
}

/// Whether the node `k` is an identifier that reads `name`, reached from `i`.
pub open spec fn is_use(
    src: Seq<char>,
    t: Seq<NodeModel>,
    i: int,
    name: Seq<char>,
    k: int,
) -> bool {
    &&& 0 <= i < t.len()
    &&& 0 <= k < t.len()
    &&& is_reached(t, i, k)
    &&& t[k].kind == "identifier"@
    &&& node_text(src, t[k]) == name
}

/// Whether `m` mentions `name` at the place of the node `n`.
pub open spec fn mentions(src: Seq<char>, m: Mention, n: NodeModel, name: Seq<char>) -> bool {
    &&& m.name == name
    &&& is_line(n.start_row, m.line)
    &&& is_column(src, n.start_row, n.start_byte, m.column)
    &&& m.byte == n.start_byte
}

/// Whether `list` holds exactly the uses of `name` reached from `i`, in increasing order.
pub open spec fn lists_uses(
    src: Seq<char>,
    t: Seq<NodeModel>,
    i: int,
    name: Seq<char>,
    list: Seq<int>,
) -> bool {
    &&& forall|k: int| #[trigger] list.contains(k) <==> is_use(src, t, i, name, k)
    &&& forall|a: int, b: int| 0 <= a < b < list.len() ==> list[a] < list[b]
}

/// What is found below a node lies below it.
proof fn lemma_found_below(t: Seq<NodeModel>, p: int, c: int)
    requires
        0 <= p < t.len(),
        is_found(t, p, c),
    ensures
        is_below(t, p, c),
    decreases t.len() - p,
{
    if !(is_child(t, p, c) && t[c].named) {
        let m = choose|m: int|
            p < m < t.len() && #[trigger] is_child(t, p, m) && !t[m].named && is_found(t, m, c);
        lemma_found_below(t, m, c);
        assert forall|k: int| p < k <= c implies #[trigger] t[k].depth > t[p].depth by {
            if k > m {
                assert(t[k].depth > t[m].depth);
            }
        }
    }
}

/// Of what is found below a node, nothing lies below anything else.
pub proof fn lemma_found_apart(t: Seq<NodeModel>, p: int, c: int, d: int)
    requires
        0 <= p < t.len(),
        is_found(t, p, c),
        is_found(t, p, d),
    ensures
        !is_below(t, c, d),
    decreases t.len() - p,
{
    lemma_found_below(t, p, c);
    lemma_found_below(t, p, d);
    if is_below(t, c, d) {
        let own_c = is_child(t, p, c) && t[c].named;
        let own_d = is_child(t, p, d) && t[d].named;
        assert(t[d].depth > t[c].depth);
        if own_c && !own_d {
            let m = choose|m: int|
                p < m < t.len() && #[trigger] is_child(t, p, m) && !t[m].named && is_found(t, m, d);
            lemma_found_below(t, m, d);
            if m < c {
                assert(t[c].depth > t[m].depth);
            } else {
                assert(t[m].depth > t[c].depth);
            }
        } else if !own_c {
            let m = choose|m: int|
                p < m < t.len() && #[trigger] is_child(t, p, m) && !t[m].named && is_found(t, m, c);
            lemma_found_below(t, m, c);
            assert(t[c].depth > t[m].depth);
            if !own_d {
                let n = choose|n: int|
                    p < n < t.len() && #[trigger] is_child(t, p, n) && !t[n].named && is_found(
                        t,
                        n,
                        d,
                    );
                lemma_found_below(t, n, d);
                if m == n {
                    lemma_found_apart(t, m, c, d);
                } else if n < m {
                    assert(t[m].depth > t[n].depth);
                } else if n > c {
                    assert(t[n].depth > t[c].depth);
                } else {
                    assert(t[n].depth > t[m].depth);
                }
            }
        }
    }
}

/// What is reached from a node is that node or lies below it.
pub proof fn lemma_reached_range(t: Seq<NodeModel>, i: int, k: int)
    requires
        0 <= i < t.len(),
        is_reached(t, i, k),
    ensures
        k == i || is_below(t, i, k),
    decreases t.len() - i,
{
    if k != i {
        let c = choose|c: int|
            i < c < t.len() && #[trigger] is_named_child(t, i, c) && is_reached(t, c, k);
        lemma_reached_range(t, c, k);
        law_named_children(t, i);
        let kids = named_children(t, i);
        let n = choose|n: int| 0 <= n < kids.len() && kids[n] == c;
        assert(is_below(t, i, kids[n]));
        assert forall|j: int| i < j <= k implies #[trigger] t[j].depth > t[i].depth by {
            if j > c {
                assert(t[j].depth > t[c].depth);
            }
        }
    }
}

/// Whether `k` is reached from one of the first `n` named children of `p`.
spec fn is_reached_in(t: Seq<NodeModel>, p: int, n: int, k: int) -> bool {
    exists|m: int| 0 <= m < n && is_reached(t, #[trigger] named_children(t, p)[m], k)
}

/// Whether `list` holds exactly the uses of `name` in the first `n` named children of `p`.
spec fn lists_uses_in(
    src: Seq<char>,
    t: Seq<NodeModel>,
    p: int,
    n: int,
    name: Seq<char>,
    list: Seq<int>,
) -> bool {
    &&& forall|k: int| #[trigger]
        list.contains(k) <==> {
            &&& 0 <= k < t.len()
            &&& is_reached_in(t, p, n, k)
            &&& t[k].kind == "identifier"@
            &&& node_text(src, t[k]) == name
        }
    &&& forall|a: int, b: int| 0 <= a < b < list.len() ==> list[a] < list[b]
}

/// Whether `ms` are the mentions of `name` that the nodes of `list` make.
pub open spec fn mention_each(
    src: Seq<char>,
    t: Seq<NodeModel>,
    list: Seq<int>,
    name: Seq<char>,
    ms: Seq<Mention>,
) -> bool {
    &&& ms.len() == list.len()
    &&& forall|n: int| 0 <= n < ms.len() ==> mentions(src, #[trigger] ms[n], t[list[n]], name)
}

/// The nodes that are found to use `name`, from a node on.
proof fn lemma_uses_list(src: Seq<char>, t: Seq<NodeModel>, i: int, name: Seq<char>) -> (r: Seq<
    int,
>)
    requires
        0 <= i < t.len(),
    ensures
        lists_uses(src, t, i, name, r),
        mention_each(src, t, r, name, uses_of(src, t, i, name)),
    decreases t.len() - i, 1int, 0int,
{
    let kids = named_children(t, i);
    let len = kids.len() as int;
    let rest = lemma_uses_in_list(src, t, i, len, name);
    let inner = uses_in_each(src, t, i, len, name);
    let own = t[i].kind == "identifier"@ && node_text(src, t[i]) == name;
    let first: Seq<int> = if own {
        seq![i]
    } else {
        seq![]
    };
    let r = first + rest;
    let ms = uses_of(src, t, i, name);
    assert(ms.len() == r.len());
    assert forall|n: int| 0 <= n < ms.len() implies mentions(
        src,
        #[trigger] ms[n],
        t[r[n]],
        name,
    ) by {
        if n >= first.len() {
            assert(ms[n] == inner[n - first.len()]);
            assert(r[n] == rest[n - first.len()]);
        }
    }
    assert forall|k: int| #[trigger] r.contains(k) <==> is_use(src, t, i, name, k) by {
        lemma_uses_step(src, t, i, name, rest, k);
        if r.contains(k) {
            let n = choose|n: int| 0 <= n < r.len() && r[n] == k;
            if n >= first.len() {
                assert(rest[n - first.len()] == k);
                assert(rest.contains(k));
            }
        }
        if k == i && own {
            assert(r[0] == k);
        }
        if rest.contains(k) {
            let n = choose|n: int| 0 <= n < rest.len() && rest[n] == k;
            assert(r[n + first.len()] == k);
        }
    }
    assert forall|a: int, b: int| 0 <= a < b < r.len() implies r[a] < r[b] by {
        if a < first.len() {
            let k = rest[b - first.len()];
            assert(rest.contains(k));
            let m = choose|m: int| 0 <= m < len && is_reached(t, #[trigger] kids[m], k);
            lemma_named_child_range(t, i, m);
            lemma_reached_range(t, kids[m], k);
        } else {
            assert(rest[a - first.len()] < rest[b - first.len()]);
        }
    }
    r
}

/// What is reached from a node is that node, or reached from one of its named children.
proof fn lemma_uses_step(
    src: Seq<char>,
    t: Seq<NodeModel>,
    i: int,
    name: Seq<char>,
    rest: Seq<int>,
    k: int,
)
    requires
        0 <= i < t.len(),
        lists_uses_in(src, t, i, named_children(t, i).len() as int, name, rest),
    ensures
        is_use(src, t, i, name, k) <==> (rest.contains(k) || (k == i && t[i].kind
            == "identifier"@ && node_text(src, t[i]) == name)),
{
    let kids = named_children(t, i);
    if is_use(src, t, i, name, k) && k != i {
        let c = choose|c: int|
            i < c < t.len() && #[trigger] is_named_child(t, i, c) && is_reached(t, c, k);
        let m = choose|m: int| 0 <= m < kids.len() && kids[m] == c;
        assert(is_reached(t, kids[m], k));
        assert(is_reached_in(t, i, kids.len() as int, k));
        assert(rest.contains(k));
    }
    if rest.contains(k) {
        let m = choose|m: int|
            0 <= m < kids.len() && is_reached(t, #[trigger] named_children(t, i)[m], k);
        lemma_named_child_range(t, i, m);
        assert(is_named_child(t, i, kids[m]));
        assert(is_reached(t, i, k));
    }
}

proof fn lemma_uses_in_list(
    src: Seq<char>,
    t: Seq<NodeModel>,
    p: int,
    n: int,
    name: Seq<char>,
) -> (r: Seq<int>)
    requires
        0 <= p < t.len(),
        0 <= n <= named_children(t, p).len(),
    ensures
        lists_uses_in(src, t, p, n, name, r),
        mention_each(src, t, r, name, uses_in_each(src, t, p, n, name)),
    decreases t.len() - p, 0int, n,
{
    let kids = named_children(t, p);
    if n == 0 {
        seq![]
    } else {
        let c = kids[n - 1];
        lemma_named_child_range(t, p, n - 1);
        let front = lemma_uses_in_list(src, t, p, n - 1, name);
        let last = lemma_uses_list(src, t, c, name);
        let r = front + last;
        let before = uses_in_each(src, t, p, n - 1, name);
        let inner = uses_of(src, t, c, name);
        let ms = uses_in_each(src, t, p, n, name);
        assert(ms == before + inner);
        assert forall|k: int| 0 <= k < ms.len() implies mentions(
            src,
            #[trigger] ms[k],
            t[r[k]],
            name,
        ) by {
            if k >= front.len() {
                assert(ms[k] == inner[k - front.len()]);
                assert(r[k] == last[k - front.len()]);
            } else {
                assert(ms[k] == before[k]);
                assert(r[k] == front[k]);
            }
        }
        assert forall|k: int| #[trigger] r.contains(k) <==> {
            &&& 0 <= k < t.len()
            &&& is_reached_in(t, p, n, k)
            &&& t[k].kind == "identifier"@
            &&& node_text(src, t[k]) == name
        } by {
            lemma_contains_either(front, last, k);
            if is_reached_in(t, p, n, k) {
                let m = choose|m: int|
                    0 <= m < n && is_reached(t, #[trigger] named_children(t, p)[m], k);
                if m < n - 1 {
                    assert(is_reached_in(t, p, n - 1, k));
                }
            }
            if is_reached_in(t, p, n - 1, k) {
                let m = choose|m: int|
                    0 <= m < n - 1 && is_reached(t, #[trigger] named_children(t, p)[m], k);
                assert(is_reached_in(t, p, n, k));
            }
            if is_reached(t, c, k) {
                assert(is_reached(t, named_children(t, p)[n - 1], k));
                assert(is_reached_in(t, p, n, k));
            }
        }
        assert forall|a: int, b: int| 0 <= a < b < r.len() implies r[a] < r[b] by {
            if b < front.len() {
                assert(front[a] < front[b]);
            } else if a >= front.len() {
                assert(last[a - front.len()] < last[b - front.len()]);
            } else {
                let x = front[a];
                let y = last[b - front.len()];
                assert(front.contains(x));
                assert(last.contains(y));
                let m = choose|m: int|
                    0 <= m < n - 1 && is_reached(t, #[trigger] named_children(t, p)[m], x);
                lemma_children_apart(t, p, m, n - 1, x, y);
            }
        }
        r
    }
}

/// What is reached from an earlier child comes before what is reached from a later one.
proof fn lemma_children_apart(t: Seq<NodeModel>, p: int, m: int, n: int, x: int, y: int)
    requires
        0 <= p < t.len(),
        0 <= m < n < named_children(t, p).len(),
        is_reached(t, named_children(t, p)[m], x),
        is_reached(t, named_children(t, p)[n], y),
    ensures
        x < y,
{
    let kids = named_children(t, p);
    law_named_children(t, p);
    lemma_named_child_range(t, p, m);
    lemma_named_child_range(t, p, n);
    lemma_reached_range(t, kids[m], x);
    lemma_reached_range(t, kids[n], y);
    assert(is_found(t, p, kids[m]) && is_found(t, p, kids[n]));
    lemma_found_apart(t, p, kids[m], kids[n]);
    if x >= kids[n] {
        assert(is_below(t, kids[m], kids[n])) by {
            assert forall|k: int| kids[m] < k <= kids[n] implies #[trigger] t[k].depth
                > t[kids[m]].depth by {}
        }
    }
}

/// The uses of a name from a node on are exactly the identifiers that read it and that are
/// reached from the node by any number of steps to named children, whatever the kinds of
/// the nodes in between: each mentioned once, at its place, in the order of the tree.
pub proof fn law_uses(src: Seq<char>, t: Seq<NodeModel>, i: int, name: Seq<char>)
    requires
        0 <= i < t.len(),
    ensures
        exists|list: Seq<int>| #[trigger]
            lists_uses(src, t, i, name, list) && mention_each(
                src,
                t,
                list,
                name,
                uses_of(src, t, i, name),
            ),
        forall|k: int| #[trigger]
            is_use(src, t, i, name, k) ==> uses_of(src, t, i, name).contains(
                mention_of(src, t[k]),
            ),
        forall|m: Mention| #[trigger]
            uses_of(src, t, i, name).contains(m) ==> exists|k: int| #[trigger]
                is_use(src, t, i, name, k) && mentions(src, m, t[k], name),
{
    let list = lemma_uses_list(src, t, i, name);
    let ms = uses_of(src, t, i, name);
    assert forall|k: int| #[trigger] is_use(src, t, i, name, k) implies ms.contains(
        mention_of(src, t[k]),
    ) by {
        lemma_use_mentioned(src, t, i, name, k);
    }
    assert forall|m: Mention| #[trigger] ms.contains(m) implies exists|k: int| #[trigger]
        is_use(src, t, i, name, k) && mentions(src, m, t[k], name) by {
        let n = choose|n: int| 0 <= n < ms.len() && ms[n] == m;
        assert(list.contains(list[n]));
        assert(is_use(src, t, i, name, list[n]) && mentions(src, m, t[list[n]], name));
    }
}

proof fn lemma_use_mentioned(src: Seq<char>, t: Seq<NodeModel>, i: int, name: Seq<char>, k: int)
    requires
        is_use(src, t, i, name, k),
    ensures
        uses_of(src, t, i, name).contains(mention_of(src, t[k])),
    decreases t.len() - i,
{
    let kids = named_children(t, i);
    let all = uses_of(src, t, i, name);
    let inner = uses_in_each(src, t, i, kids.len() as int, name);
    let m = mention_of(src, t[k]);
    if k == i {
        assert(all[0] == m);
    } else {
        let c = choose|c: int|
            i < c < t.len() && #[trigger] is_named_child(t, i, c) && is_reached(t, c, k);
        let n = choose|n: int| 0 <= n < kids.len() && kids[n] == c;
        lemma_use_mentioned(src, t, c, name, k);
        lemma_use_in_each(src, t, i, kids.len() as int, name, n, m);
        let p = choose|p: int| 0 <= p < inner.len() && inner[p] == m;
        assert(all[p + (all.len() - inner.len())] == m);
    }
}

proof fn lemma_use_in_each(
    src: Seq<char>,
    t: Seq<NodeModel>,
    p: int,
    len: int,
    name: Seq<char>,
    n: int,
    m: Mention,
)
    requires
        0 <= p < t.len(),
        0 <= n < len <= named_children(t, p).len(),
        uses_of(src, t, named_children(t, p)[n], name).contains(m),
    ensures
        uses_in_each(src, t, p, len, name).contains(m),
    decreases len,
{
    let all = uses_in_each(src, t, p, len, name);
    let before = uses_in_each(src, t, p, len - 1, name);
    let last = uses_of(src, t, named_children(t, p)[len - 1], name);
    assert(all == before + last);
    if n == len - 1 {
        let k = choose|k: int| 0 <= k < last.len() && last[k] == m;
        assert(all[k + before.len()] == m);
    } else {
        lemma_use_in_each(src, t, p, len - 1, name, n, m);
        let k = choose|k: int| 0 <= k < before.len() && before[k] == m;
        assert(all[k] == m);
    }
}

/// The node of a use, by its number.
pub proof fn lemma_use_node(
    src: Seq<char>,
    t: Seq<NodeModel>,
    i: int,
    name: Seq<char>,
    n: int,
) -> (k: int)
    requires
        0 <= i < t.len(),
        0 <= n < uses_of(src, t, i, name).len(),
    ensures
        is_use(src, t, i, name, k),
        uses_of(src, t, i, name)[n] == mention_of(src, t[k]),
    decreases t.len() - i, 1int, 0int,
{
    let len = named_children(t, i).len() as int;
    let own = t[i].kind == "identifier"@ && node_text(src, t[i]) == name;
    let skip: int = if own {
        1
    } else {
        0
    };
    if n < skip {
        assert(is_reached(t, i, i));
        i
    } else {
        let (c, k) = lemma_use_node_in(src, t, i, len, name, n - skip);
        assert(is_reached(t, i, k));
        k
    }
}

proof fn lemma_use_node_in(
    src: Seq<char>,
    t: Seq<NodeModel>,
    p: int,
    len: int,
    name: Seq<char>,
    n: int,
) -> (r: (int, int))
    requires
        0 <= p < t.len(),
        0 <= len <= named_children(t, p).len(),
        0 <= n < uses_in_each(src, t, p, len, name).len(),
    ensures
        p < r.0 < t.len(),
        is_named_child(t, p, r.0),
        is_use(src, t, r.0, name, r.1),
        uses_in_each(src, t, p, len, name)[n] == mention_of(src, t[r.1]),
    decreases t.len() - p, 0int, len,
{
    let before = uses_in_each(src, t, p, len - 1, name);
    if n < before.len() {
        lemma_use_node_in(src, t, p, len - 1, name, n)
    } else {
        let c = named_children(t, p)[len - 1];
        lemma_named_child_range(t, p, len - 1);
        assert(is_named_child(t, p, c));
        let k = lemma_use_node(src, t, c, name, n - before.len());
        (c, k)
    }
}

/// Whether every row of a function, method, variable or constant has its name searched
/// for in the whole file.
pub open spec fn rows_searched(g: Graph) -> bool {
    &&& g.metas.len() == g.nodes.len()
    &&& forall|k: int|
        0 <= k < g.metas.len() && (is_callable(g.metas[k].kind) || is_value(g.metas[k].kind))
            ==> #[trigger] is_searched(g, k)
}

/// Whether the name of the row `k` is searched for in the whole file.
pub open spec fn is_searched(g: Graph, k: int) -> bool {
    exists|s: int|
        0 <= s < g.value_scopes.len() && (#[trigger] g.value_scopes[s]).row == k
            && g.value_scopes[s].name == g.metas[k].name
}

proof fn lemma_declare_searched(g: Graph, d: Declaration)
    requires
        rows_searched(g),
        g.nodes.len() < u32::MAX,
    ensures
        rows_searched(declare(g, d)),
{
    let h = declare(g, d);
    assert(h.metas == g.metas.push(MetaModel { kind: d.kind, name: d.name }));
    assert forall|k: int|
        0 <= k < h.metas.len() && (is_callable(h.metas[k].kind) || is_value(
            h.metas[k].kind,
        )) implies #[trigger] is_searched(h, k) by {
        if k < g.metas.len() {
            assert(h.metas[k] == g.metas[k]);
            assert(is_searched(g, k));
            let s = choose|s: int|
                0 <= s < g.value_scopes.len() && (#[trigger] g.value_scopes[s]).row == k
                    && g.value_scopes[s].name == g.metas[k].name;
            assert(h.value_scopes[s] == g.value_scopes[s]);
        } else {
            let s = g.value_scopes.len() as int;
            assert(h.value_scopes[s].row == k);
        }
    }
}

proof fn lemma_event_searched(g: Graph, e: Event)
    requires
        rows_searched(g),
        apply(g, e).nodes.len() <= u32::MAX,
    ensures
        rows_searched(apply(g, e)),
{
    let h = apply(g, e);
    match e {
        Event::Declare(d) => {
            assert(h.nodes.len() == g.nodes.len() + 1);
            lemma_declare_searched(g, d);
        },
        Event::DeclareCallable(d) => {
            assert(h.nodes.len() == g.nodes.len() + 1);
            lemma_declare_searched(g, Declaration { kind: callable_kind(g.stack), ..d });
        },
        Event::NameScript => {
            let named = Graph { script_class: Some(latest_row(g)), waiting: seq![], ..g };
            lemma_extend_all_keeps(named, latest_row(g), g.waiting);
            lemma_same_searched(g, h);
        },
        Event::Inherit(ms) => {
            lemma_add_refs_keeps(g, latest_row(g), edge_code(EdgeKind::Extends), ms);
            lemma_same_searched(g, h);
        },
        Event::Extend(m) => lemma_same_searched(g, h),
        _ => lemma_same_searched(g, h),
    }
}

proof fn lemma_same_searched(g: Graph, h: Graph)
    requires
        rows_searched(g),
        h.metas == g.metas,
        h.nodes == g.nodes,
        h.value_scopes == g.value_scopes,
    ensures
        rows_searched(h),
{
    assert forall|k: int|
        0 <= k < h.metas.len() && (is_callable(h.metas[k].kind) || is_value(
            h.metas[k].kind,
        )) implies #[trigger] is_searched(h, k) by {
        assert(is_searched(g, k));
    }
}

proof fn lemma_walk_searched(g: Graph, events: Seq<Event>)
    requires
        rows_searched(g),
        run(g, events).nodes.len() <= u32::MAX,
    ensures
        rows_searched(run(g, events)),
    decreases events.len(),
{
    reveal(run);
    if events.len() > 0 {
        let before = run(g, events.drop_last());
        law_event_only_adds(before, events.last());
        lemma_walk_searched(g, events.drop_last());
        lemma_event_searched(before, events.last());
    }
}

/// Whether the file can look `name` up as a value: it has at least three UTF-16 code units
/// and holds a capital ASCII letter or an underscore.
pub open spec fn is_telling(name: Seq<char>) -> bool {
    &&& utf16_units(name) >= 3
    &&& exists|i: int|
        0 <= i < name.len() && ('A' <= #[trigger] name[i] <= 'Z' || name[i] == '_')
}

/// Whether `k` is the row of a function, method, variable or constant called `name`.
pub open spec fn is_searched_row(g: Graph, k: int, name: Seq<char>) -> bool {
    &&& 0 <= k < g.nodes.len()
    &&& {
        ||| g.nodes[k].kind == node_code(NodeKind::Function)
        ||| g.nodes[k].kind == node_code(NodeKind::Method)
        ||| g.nodes[k].kind == node_code(NodeKind::Variable)
        ||| g.nodes[k].kind == node_code(NodeKind::Constant)
    }
    &&& resolves_to(g.arena, g.nodes[k].name, name)
}

/// Where a name is that of a shared value, every row of that name has references to all
/// its uses.
proof fn lemma_searched(
    path: Seq<char>,
    src: Seq<char>,
    t: Seq<NodeModel>,
    k: int,
    name: Seq<char>,
    u: int,
)
    requires
        is_searched_row(whole_graph(path, src, t), k, name),
        walked(path, src, visit_events(src, t, 0)).values.contains_key(name),
        is_use(src, t, 0, name, u),
        within_limits(whole_graph(path, src, t)),
    ensures
        exists|n: int|
            0 <= n < whole_graph(path, src, t).refs.len() && refers_at(
                src,
                whole_graph(path, src, t).arena,
                #[trigger] whole_graph(path, src, t).refs[n],
                k as u32,
                FUNCTION_REF_CODE,
                t[u],
                name,
            ),
{
    let g = whole_graph(path, src, t);
    let events = visit_events(src, t, 0);
    let g0 = file_graph(path, src);
    let g1 = walked(path, src, events);
    let g2 = flush_candidates(g1, g1.candidates.len() as int);
    law_extraction_is_sound(path, src, t);
    law_candidates_only_add(g1, g1.candidates.len() as int);
    let len = g2.value_scopes.len() as int;
    law_values_only_add(g2, src, t, len);
    assert(g.nodes == g1.nodes && g.metas == g1.metas);
    lemma_walk_searched(g0, events);
    assert(row_resolves(g.arena, g.nodes[k], g.metas[k], g.ids[k]));
    encode_utf8_decode_utf8(name);
    encode_utf8_decode_utf8(g.metas[k].name);
    assert(g.metas[k].name == name);
    assert(is_searched(g1, k));
    let s = choose|s: int|
        0 <= s < g1.value_scopes.len() && (#[trigger] g1.value_scopes[s]).row == k
            && g1.value_scopes[s].name == name;
    law_uses_become_refs(g2, src, t, len);
    let at = (g2.refs.len() + use_count(g2, src, t, s)) as int;
    let uses = uses_of(src, t, 0, name);
    assert(g2.values.contains_key(g2.value_scopes[s].name));
    assert(refs_cover(g, at, k as u32, FUNCTION_REF_CODE, uses));
    lemma_use_mentioned(src, t, 0, name, u);
    let m = mention_of(src, t[u]);
    let p = choose|p: int| 0 <= p < uses.len() && uses[p] == m;
    assert(refers_to(g.arena, g.refs[at + p], k as u32, FUNCTION_REF_CODE, uses[p]));
    law_refs_are_plain(path, src, t);
    assert(is_plain_ref(g.refs[at + p]));
    assert(refers_at(
        src,
        g.arena,
        g.refs[at + p],
        k as u32,
        FUNCTION_REF_CODE,
        t[u],
        name,
    ));
}

/// Whether no reference lists candidates or names its source by an identifier.
pub open spec fn refs_plain(g: Graph) -> bool {
    forall|n: int| 0 <= n < g.refs.len() ==> is_plain_ref(#[trigger] g.refs[n])
}

/// Whether a reference lists no candidates and does not name its source by an identifier.
pub open spec fn is_plain_ref(r: RefRow) -> bool {
    r.candidates == none_str() && r.from_id_str == none_str()
}

proof fn lemma_add_refs_plain(g: Graph, from: u32, kind: u8, mentions: Seq<Mention>)
    requires
        refs_plain(g),
    ensures
        refs_plain(add_refs(g, from, kind, mentions)),
    decreases mentions.len(),
{
    if mentions.len() > 0 {
        lemma_add_refs_plain(g, from, kind, mentions.drop_last());
    }
}

proof fn lemma_extend_all_plain(g: Graph, row: u32, mentions: Seq<Mention>)
    requires
        refs_plain(g),
    ensures
        refs_plain(extend_all(g, row, mentions)),
    decreases mentions.len(),
{
    if mentions.len() > 0 {
        lemma_extend_all_plain(g, row, mentions.drop_last());
    }
}

proof fn lemma_walk_plain(g: Graph, events: Seq<Event>)
    requires
        refs_plain(g),
    ensures
        refs_plain(run(g, events)),
    decreases events.len(),
{
    reveal(run);
    if events.len() > 0 {
        let before = run(g, events.drop_last());
        lemma_walk_plain(g, events.drop_last());
        match events.last() {
            Event::NameScript => lemma_extend_all_plain(
                Graph { script_class: Some(latest_row(before)), waiting: seq![], ..before },
                latest_row(before),
                before.waiting,
            ),
            Event::Inherit(ms) => lemma_add_refs_plain(
                before,
                latest_row(before),
                edge_code(EdgeKind::Extends),
                ms,
            ),
            _ => {},
        }
    }
}

proof fn lemma_candidates_plain(g: Graph, n: int)
    requires
        refs_plain(g),
    ensures
        refs_plain(flush_candidates(g, n)),
    decreases n,
{
    if n > 0 {
        lemma_candidates_plain(g, n - 1);
    }
}

proof fn lemma_values_plain(g: Graph, src: Seq<char>, t: Seq<NodeModel>, n: int)
    requires
        refs_plain(g),
    ensures
        refs_plain(flush_values(g, src, t, n)),
    decreases n,
{
    if n > 0 {
        lemma_values_plain(g, src, t, n - 1);
        let scope = g.value_scopes[n - 1];
        lemma_add_refs_plain(
            flush_values(g, src, t, n - 1),
            scope.row,
            FUNCTION_REF_CODE,
            uses_of(src, t, 0, scope.name),
        );
    }
}

/// No reference lists candidates or names its source by an identifier.
pub proof fn law_refs_are_plain(path: Seq<char>, src: Seq<char>, t: Seq<NodeModel>)
    ensures
        refs_plain(whole_graph(path, src, t)),
{
    let g0 = file_graph(path, src);
    let g1 = walked(path, src, visit_events(src, t, 0));
    let g2 = flush_candidates(g1, g1.candidates.len() as int);
    lemma_walk_plain(g0, visit_events(src, t, 0));
    lemma_candidates_plain(g1, g1.candidates.len() as int);
    lemma_values_plain(g2, src, t, g2.value_scopes.len() as int);
}

/// A telling value declared directly in a file, class or enum is shared.
proof fn lemma_value_shared(
    path: Seq<char>,
    src: Seq<char>,
    t: Seq<NodeModel>,
    a: Seq<Event>,
    e: Event,
    b: Seq<Event>,
    d: Declaration,
)
    requires
        visit_events(src, t, 0) == a + seq![e] + b,
        event_declares(walked(path, src, a), e) == Some(d),
        d.kind == NodeKind::Variable || d.kind == NodeKind::Constant,
        is_telling(d.name),
        walked(path, src, a).stack.len() > 0,
        ({
            let kind = walked(path, src, a).stack.last().kind;
            kind == NodeKind::File || kind == NodeKind::Class || kind == NodeKind::Enum
        }),
    ensures
        walked(path, src, visit_events(src, t, 0)).values.contains_key(d.name),
{
    let g0 = file_graph(path, src);
    let h = walked(path, src, a);
    let i = choose|i: int|
        0 <= i < d.name.len() && ('A' <= #[trigger] d.name[i] <= 'Z' || d.name[i] == '_');
    assert(is_upper_or_underscore(d.name[i]));
    assert(distinctive(d.name));
    assert(is_shared_value(h.stack, d.kind, d.name));
    lemma_run_concat(g0, a, seq![e]);
    lemma_run_one(h, e);
    let after = apply(h, e);
    assert(after.values.contains_key(d.name));
    lemma_run_concat(g0, a + seq![e], b);
    law_walk_only_adds(after, b);
    assert(after.values.dom().contains(d.name));
}

/// Where a variable, constant or signal with a telling name is declared directly in a file
/// or class, every identifier of its name in the tree, whatever the nodes above it, leaves
/// a reference at its place from every function, method, variable and constant of that
/// name, the declaration itself among them.
pub proof fn law_shared_values_are_found(
    path: Seq<char>,
    src: Seq<char>,
    t: Seq<NodeModel>,
    o: Option<int>,
    j: int,
    name: Seq<char>,
    k: int,
    u: int,
)
    requires
        is_statement_in(src, t, o, j),
        t[j].kind == "variable_statement"@ || t[j].kind == "const_statement"@ || t[j].kind
            == "signal_statement"@,
        bears_name(src, t, j, name),
        is_telling(name),
        is_searched_row(whole_graph(path, src, t), k, name),
        is_use(src, t, 0, name, u),
        within_limits(whole_graph(path, src, t)),
    ensures
        exists|n: int|
            0 <= n < whole_graph(path, src, t).refs.len() && refers_at(
                src,
                whole_graph(path, src, t).arena,
                #[trigger] whole_graph(path, src, t).refs[n],
                k as u32,
                FUNCTION_REF_CODE,
                t[u],
                name,
            ),
{
    let g = whole_graph(path, src, t);
    let (a, b) = lemma_statement_home(path, src, t, o, j);
    let h = walked(path, src, a);
    lemma_sorts(t[j].kind);
    let (e, rest, kind) = lemma_statement_declares(src, t, h, j, name);
    assert(a + (seq![e] + rest) + b =~= a + seq![e] + (rest + b));
    lemma_home_kind(path, src, t, g, h.stack, o);
    lemma_value_kind(t[j].kind, kind);
    lemma_value_shared(path, src, t, a, e, rest + b, made_by(src, t, j, kind));
    lemma_searched(path, src, t, k, name, u);
}

proof fn lemma_value_kind(raw: Seq<char>, kind: NodeKind)
    requires
        raw == "variable_statement"@ || raw == "const_statement"@ || raw == "signal_statement"@,
        recorded_as(raw, kind),
    ensures
        kind == NodeKind::Variable || kind == NodeKind::Constant,
{
    lemma_sorts(raw);
    lemma_kinds_differ();
}

/// Where an enum has a value with a telling name, every identifier of that name in the tree
/// leaves a reference at its place from every function, method, variable and constant of
/// that name.
pub proof fn law_enum_values_are_found(
    path: Seq<char>,
    src: Seq<char>,
    t: Seq<NodeModel>,
    o: int,
    m: int,
    name: Seq<char>,
    k: int,
    u: int,
)
    requires
        is_enum_value(src, t, o, m),
        bears_name(src, t, m, name),
        is_telling(name),
        is_searched_row(whole_graph(path, src, t), k, name),
        is_use(src, t, 0, name, u),
        within_limits(whole_graph(path, src, t)),
    ensures
        exists|n: int|
            0 <= n < whole_graph(path, src, t).refs.len() && refers_at(
                src,
                whole_graph(path, src, t).arena,
                #[trigger] whole_graph(path, src, t).refs[n],
                k as u32,
                FUNCTION_REF_CODE,
                t[u],
                name,
            ),
{
    let g = whole_graph(path, src, t);
    let (a, b) = lemma_enum_value_home(path, src, t, o, m, name);
    let d = enumerator_declaration(src, t, m);
    law_names(src, t, m, name);
    lemma_home_kind(path, src, t, g, walked(path, src, a).stack, Some(o));
    lemma_enum_made(src, t, o);
    lemma_value_shared(path, src, t, a, Event::Declare(d), b, d);
    lemma_searched(path, src, t, k, name, u);
}

} // verus!
