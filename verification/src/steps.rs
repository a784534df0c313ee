//! How much each step of an extraction adds, no more and no less.

use vstd::prelude::*;
use crate::bases::{base_reading, lemma_base_found};
use crate::buffers::{
    flag_value, law_flags, no_flags, none_str, resolves_to, NodeRow, RefRow, StrRef,
    FLAG_IS_EXPORTED,
};
use crate::events::{
    argument_events, argument_list, base_mention, base_of, clause_mentions, flush_values,
    inherited, mentions_of, uses_of,
};
use crate::graph::{
    add_refs, apply, declare, declared_flags, declared_row, extend_all, flush_candidates,
    is_callable, is_known, is_value, latest_row, lemma_extend_all_keeps, qualified_name_of,
    Declaration, Event, Graph, Mention,
};
use crate::kinds::{kind_word, node_code, NodeKind, FUNCTION_REF_CODE};
use crate::laws::begins;
use crate::mentions::refers_at;
use crate::nesting::{is_containment, reads};
use crate::order::{increases, lemma_of_kind_increases, lemma_within_apart};
use crate::origins::{is_base, lemma_first_base};
use crate::outline::is_named_child;
use crate::placement::lemma_listed;
use crate::readings::lemma_push_contains;
use crate::recorded::{law_mentions_become_refs, refers_to};
use crate::shapes::lemma_contains_either;
use crate::soundness::{law_declared_texts, lemma_put_resolves};
use crate::syntax::{
    children_of_kind, field_child, is_below, law_field_child, law_named_children,
    lemma_named_child_range, named_children, node_text, NodeModel,
};
use crate::textutil::{decimal, distinctive, is_upper_or_underscore, utf16_units};
use crate::uses::{is_plain_ref, is_telling, law_uses, lists_uses, mention_each, mentions};

verus! {

/// Whether `rs` are the references from the row `from` to the uses of `name` by the nodes of
/// `list`, one by one.
pub open spec fn are_use_refs(
    src: Seq<char>,
    t: Seq<NodeModel>,
    arena: Seq<u8>,
    from: u32,
    name: Seq<char>,
    list: Seq<int>,
    rs: Seq<RefRow>,
) -> bool {
    &&& rs.len() == list.len()
    &&& forall|k: int|
        0 <= k < rs.len() ==> refers_at(
            src,
            arena,
            #[trigger] rs[k],
            from,
            FUNCTION_REF_CODE,
            t[list[k]],
            name,
        )
}

/// Whether `rs` are exactly the references from the row `from` to all uses of `name`, one for
/// each and in the order of the tree.
pub open spec fn cover_uses(
    src: Seq<char>,
    t: Seq<NodeModel>,
    arena: Seq<u8>,
    from: u32,
    name: Seq<char>,
    rs: Seq<RefRow>,
) -> bool {
    exists|list: Seq<int>| #[trigger]
        lists_uses(src, t, 0, name, list) && are_use_refs(src, t, arena, from, name, list, rs)
}

/// Searching for the name of one more row adds one reference for each use where the name is
/// that of a shared value, in the order of the tree, and nothing where it is not.
pub proof fn law_each_row_is_searched_once(g: Graph, src: Seq<char>, t: Seq<NodeModel>, n: int)
    requires
        t.len() > 0,
        0 < n <= g.value_scopes.len(),
        flush_values(g, src, t, n).arena.len() <= usize::MAX,
    ensures
        ({
            let before = flush_values(g, src, t, n - 1);
            let after = flush_values(g, src, t, n);
            let scope = g.value_scopes[n - 1];
            &&& begins(after.refs, before.refs)
            &&& g.values.contains_key(scope.name) ==> cover_uses(
                src,
                t,
                after.arena,
                scope.row,
                scope.name,
                after.refs.skip(before.refs.len() as int),
            )
            &&& !g.values.contains_key(scope.name) ==> after.refs == before.refs
        }),
{
    let before = flush_values(g, src, t, n - 1);
    let after = flush_values(g, src, t, n);
    let scope = g.value_scopes[n - 1];
    assert(before.refs.take(before.refs.len() as int) =~= before.refs);
    if g.values.contains_key(scope.name) {
        let uses = uses_of(src, t, 0, scope.name);
        law_mentions_become_refs(before, scope.row, FUNCTION_REF_CODE, uses);
        law_uses(src, t, 0, scope.name);
        let list = choose|list: Seq<int>| #[trigger]
            lists_uses(src, t, 0, scope.name, list) && mention_each(
                src,
                t,
                list,
                scope.name,
                uses,
            );
        let rs = after.refs.skip(before.refs.len() as int);
        lemma_added_plain(before, scope.row, FUNCTION_REF_CODE, uses);
        assert forall|k: int| 0 <= k < rs.len() implies refers_at(
            src,
            after.arena,
            #[trigger] rs[k],
            scope.row,
            FUNCTION_REF_CODE,
            t[list[k]],
            scope.name,
        ) by {
            assert(rs[k] == after.refs[before.refs.len() + k]);
            assert(refers_to(
                after.arena,
                after.refs[before.refs.len() + k],
                scope.row,
                FUNCTION_REF_CODE,
                uses[k],
            ));
            assert(mentions(src, uses[k], t[list[k]], scope.name));
            assert(is_plain_ref(after.refs[before.refs.len() + k]));
        }
        assert(are_use_refs(src, t, after.arena, scope.row, scope.name, list, rs));
    }
}

/// References that were just added are plain.
proof fn lemma_added_plain(g: Graph, from: u32, kind: u8, ms: Seq<Mention>)
    ensures
        add_refs(g, from, kind, ms).refs.len() == g.refs.len() + ms.len(),
        forall|k: int|
            g.refs.len() <= k < add_refs(g, from, kind, ms).refs.len() ==> is_plain_ref(
                #[trigger] add_refs(g, from, kind, ms).refs[k],
            ),
    decreases ms.len(),
{
    if ms.len() > 0 {
        lemma_added_plain(g, from, kind, ms.drop_last());
    }
}

/// Resolving one more noted argument adds one reference to it, from the row that passed it,
/// where it names a function of the file, and nothing where it does not.
pub proof fn law_each_argument_is_resolved_once(g: Graph, n: int)
    requires
        0 < n <= g.candidates.len(),
        flush_candidates(g, n).arena.len() <= usize::MAX,
    ensures
        ({
            let before = flush_candidates(g, n - 1);
            let after = flush_candidates(g, n);
            let c = g.candidates[n - 1];
            let known = g.defined.contains(c.name) || g.imported.contains(c.name);
            &&& begins(after.refs, before.refs)
            &&& after.refs.len() == before.refs.len() + (if known {
                1int
            } else {
                0int
            })
            &&& known ==> {
                let r = after.refs.last();
                &&& r.from_idx == c.from
                &&& r.kind == FUNCTION_REF_CODE
                &&& r.line == c.line
                &&& r.column == 0
                &&& resolves_to(after.arena, r.reference_name, c.name)
            }
        }),
{
    let before = flush_candidates(g, n - 1);
    let after = flush_candidates(g, n);
    let c = g.candidates[n - 1];
    assert(before.refs.take(before.refs.len() as int) =~= before.refs);
    if is_known(g, c.name) {
        lemma_put_resolves(before.arena, c.name);
        assert(after.refs.take(before.refs.len() as int) =~= before.refs);
    }
}

/// Whether `list` holds exactly the identifiers with a text among the named children of
/// `args`, in increasing order.
pub open spec fn lists_arguments(
    src: Seq<char>,
    t: Seq<NodeModel>,
    args: int,
    list: Seq<int>,
) -> bool {
    &&& increases(list)
    &&& forall|c: int| #[trigger]
        list.contains(c) <==> is_named_child(t, args, c) && t[c].kind == "identifier"@ && node_text(
            src,
            t[c],
        ).len() > 0
}

/// Whether `events` note the nodes of `list` as arguments, one by one.
pub open spec fn note_each(
    src: Seq<char>,
    t: Seq<NodeModel>,
    list: Seq<int>,
    events: Seq<Event>,
) -> bool {
    &&& events.len() == list.len()
    &&& forall|k: int|
        0 <= k < events.len() ==> ((#[trigger] events[k]) matches Event::Argument(m) && mentions(
            src,
            m,
            t[list[k]],
            node_text(src, t[list[k]]),
        ))
}

/// A call notes each identifier among its arguments once, in order, and nothing else; any
/// other node notes none.
pub proof fn law_arguments_of_a_call(src: Seq<char>, t: Seq<NodeModel>, j: int)
    requires
        0 <= j < t.len(),
    ensures
        t[j].kind == "call"@ ==> match field_child(t, j, "arguments"@) {
            Some(args) => exists|list: Seq<int>| #[trigger]
                lists_arguments(src, t, args, list) && note_each(
                    src,
                    t,
                    list,
                    argument_events(src, t, j),
                ),
            None => argument_events(src, t, j).len() == 0,
        },
        t[j].kind != "call"@ ==> argument_events(src, t, j).len() == 0,
{
    if t[j].kind == "call"@ {
        if let Some(args) = field_child(t, j, "arguments"@) {
            law_field_child(t, j, "arguments"@);
            let kids = named_children(t, args);
            let ids = children_of_kind(t, args, "identifier"@);
            law_named_children(t, args);
            lemma_of_kind_increases(t, kids, "identifier"@);
            let list = lemma_argument_nodes(src, t, ids);
            assert forall|c: int| #[trigger] list.contains(c) <==> is_named_child(t, args, c)
                && t[c].kind == "identifier"@ && node_text(src, t[c]).len() > 0 by {
                lemma_listed(t, kids, "identifier"@, c);
            }
            assert(lists_arguments(src, t, args, list));
        }
    }
}

proof fn lemma_argument_nodes(src: Seq<char>, t: Seq<NodeModel>, ids: Seq<int>) -> (list: Seq<int>)
    requires
        increases(ids),
    ensures
        increases(list),
        forall|c: int| #[trigger]
            list.contains(c) <==> ids.contains(c) && node_text(src, t[c]).len() > 0,
        note_each(src, t, list, argument_list(src, t, ids)),
    decreases ids.len(),
{
    if ids.len() == 0 {
        seq![]
    } else {
        let front = ids.drop_last();
        let last = ids.last();
        assert forall|a: int, b: int| 0 <= a < b < front.len() implies front[a] < front[b] by {
            assert(ids[a] < ids[b]);
        }
        let before = lemma_argument_nodes(src, t, front);
        assert(ids =~= front.push(last));
        let list = if node_text(src, t[last]).len() > 0 {
            before.push(last)
        } else {
            before
        };
        assert forall|c: int| #[trigger] list.contains(c) <==> ids.contains(c) && node_text(
            src,
            t[c],
        ).len() > 0 by {
            lemma_push_contains(front, last, c);
            lemma_push_contains(before, last, c);
            assert(before.contains(c) <==> front.contains(c) && node_text(src, t[c]).len() > 0);
        }
        assert forall|a: int, b: int| 0 <= a < b < list.len() implies list[a] < list[b] by {
            if b < before.len() {
                assert(before[a] < before[b]);
            } else {
                assert(before.contains(before[a]));
                let k = choose|k: int| 0 <= k < front.len() && front[k] == before[a];
                assert(ids[k] < ids[ids.len() - 1]);
            }
        }
        let events = argument_list(src, t, ids);
        let earlier = argument_list(src, t, front);
        assert forall|k: int| 0 <= k < events.len() implies ((#[trigger] events[k]) matches
            Event::Argument(m) && mentions(
            src,
            m,
            t[list[k]],
            node_text(src, t[list[k]]),
        )) by {
            if k < earlier.len() {
                assert(events[k] == earlier[k]);
                assert(list[k] == before[k]);
            }
        }
        list
    }
}

/// The naming of the class that a file is takes up all base classes that wait, so that none
/// of them is taken up again, and makes the row added last that of the class.
pub proof fn law_waiting_bases_are_taken_up_once(g: Graph)
    ensures
        apply(g, Event::NameScript).waiting.len() == 0,
        apply(g, Event::NameScript).script_class == Some((g.nodes.len() - 1) as u32),
        apply(g, Event::NameScript).refs.len() == g.refs.len() + g.waiting.len(),
        apply(g, Event::NameScript).edges.len() == g.edges.len() + g.waiting.len(),
{
    let named = Graph { script_class: Some(latest_row(g)), waiting: seq![], ..g };
    lemma_extend_all_keeps(named, latest_row(g), g.waiting);
    lemma_extend_counts(named, latest_row(g), g.waiting);
}

proof fn lemma_extend_counts(g: Graph, row: u32, ms: Seq<Mention>)
    ensures
        extend_all(g, row, ms).refs.len() == g.refs.len() + ms.len(),
        extend_all(g, row, ms).edges.len() == g.edges.len() + ms.len(),
    decreases ms.len(),
{
    if ms.len() > 0 {
        lemma_extend_counts(g, row, ms.drop_last());
    }
}

/// Whether `list` holds exactly the identifiers in the `extends` clauses of the class `c`, in
/// increasing order.
pub open spec fn lists_clause_bases(t: Seq<NodeModel>, c: int, list: Seq<int>) -> bool {
    &&& increases(list)
    &&& forall|b: int| #[trigger] list.contains(b) <==> is_clause_base(t, c, b)
}

/// Whether `b` is an identifier in an `extends` clause of the class `c`.
pub open spec fn is_clause_base(t: Seq<NodeModel>, c: int, b: int) -> bool {
    exists|x: int| #[trigger]
        is_named_child(t, c, x) && t[x].kind == "extends_clause"@ && is_named_child(t, x, b)
            && t[b].kind == "identifier"@
}

/// The base classes in the header of a class are those that its `extends` clauses name, each
/// once and in order, and then the one that the `extends` statement of its header names.
pub proof fn law_header_bases(src: Seq<char>, t: Seq<NodeModel>, c: int)
    requires
        0 <= c < t.len(),
    ensures
        ({
            let ms = inherited(src, t, c);
            exists|list: Seq<int>|
                {
                    &&& #[trigger] lists_clause_bases(t, c, list)
                    &&& forall|k: int|
                        0 <= k < list.len() && k < ms.len() ==> mentions(
                            src,
                            #[trigger] ms[k],
                            t[list[k]],
                            node_text(src, t[list[k]]),
                        )
                    &&& match field_child(t, c, "extends"@) {
                        Some(e) => if t[e].kind == "extends_statement"@ && exists|b: int|
                            is_base(t, e, b) {
                            ms.len() == list.len() + 1 && exists|b: int| #[trigger]
                                is_base(t, e, b) && mentions(
                                    src,
                                    ms.last(),
                                    t[b],
                                    base_reading(src, t[b]),
                                )
                        } else {
                            ms.len() == list.len()
                        },
                        None => ms.len() == list.len(),
                    }
                }
        }),
{
    let ms = inherited(src, t, c);
    let kids = named_children(t, c);
    let clauses = children_of_kind(t, c, "extends_clause"@);
    law_named_children(t, c);
    lemma_of_kind_increases(t, kids, "extends_clause"@);
    assert forall|n: int| 0 <= n < clauses.len() implies kids.contains(
        #[trigger] clauses[n],
    ) by {
        assert(clauses.contains(clauses[n]));
        lemma_listed(t, kids, "extends_clause"@, clauses[n]);
    }
    let list = lemma_clause_nodes(src, t, c, clauses);
    let front = clause_mentions(src, t, clauses);
    assert forall|b: int| #[trigger] list.contains(b) <==> is_clause_base(t, c, b) by {
        if list.contains(b) {
            let x = choose|x: int| #[trigger]
                clauses.contains(x) && is_named_child(t, x, b) && t[b].kind == "identifier"@;
            lemma_listed(t, kids, "extends_clause"@, x);
            assert(is_named_child(t, c, x));
        }
        if is_clause_base(t, c, b) {
            let x = choose|x: int| #[trigger]
                is_named_child(t, c, x) && t[x].kind == "extends_clause"@ && is_named_child(
                    t,
                    x,
                    b,
                ) && t[b].kind == "identifier"@;
            lemma_listed(t, kids, "extends_clause"@, x);
            assert(clauses.contains(x));
        }
    }
    assert(lists_clause_bases(t, c, list));
    assert forall|k: int| 0 <= k < list.len() && k < ms.len() implies mentions(
        src,
        #[trigger] ms[k],
        t[list[k]],
        node_text(src, t[list[k]]),
    ) by {
        assert(ms[k] == front[k]);
        assert(mentions(src, front[k], t[list[k]], node_text(src, t[list[k]])));
    }
    if let Some(e) = field_child(t, c, "extends"@) {
        if t[e].kind == "extends_statement"@ {
            if exists|b: int| is_base(t, e, b) {
                let b = choose|b: int| is_base(t, e, b);
                lemma_base_found(t, e, b);
                assert(ms =~= front + seq![base_mention(src, t[b])]);
                assert(is_base(t, e, b) && mentions(
                    src,
                    ms.last(),
                    t[b],
                    base_reading(src, t[b]),
                ));
            } else {
                lemma_first_base(t, named_children(t, e), 0);
                if let Some(b) = base_of(t, e) {
                    assert(is_base(t, e, b));
                }
                assert(ms =~= front);
            }
        }
    }
}

proof fn lemma_clause_nodes(src: Seq<char>, t: Seq<NodeModel>, c: int, clauses: Seq<int>) -> (list:
    Seq<int>)
    requires
        0 <= c < t.len(),
        increases(clauses),
        forall|n: int|
            0 <= n < clauses.len() ==> named_children(t, c).contains(#[trigger] clauses[n]),
    ensures
        increases(list),
        list.len() == clause_mentions(src, t, clauses).len(),
        forall|k: int|
            0 <= k < list.len() ==> mentions(
                src,
                #[trigger] clause_mentions(src, t, clauses)[k],
                t[list[k]],
                node_text(src, t[list[k]]),
            ),
        forall|b: int| #[trigger]
            list.contains(b) <==> exists|x: int| #[trigger]
                clauses.contains(x) && is_named_child(t, x, b) && t[b].kind == "identifier"@,
    decreases clauses.len(),
{
    if clauses.len() == 0 {
        seq![]
    } else {
        let front = clauses.drop_last();
        let x = clauses.last();
        assert(clauses[clauses.len() - 1] == x);
        assert forall|a: int, b: int| 0 <= a < b < front.len() implies front[a] < front[b] by {
            assert(clauses[a] < clauses[b]);
        }
        assert forall|n: int| 0 <= n < front.len() implies named_children(t, c).contains(
            #[trigger] front[n],
        ) by {
            assert(front[n] == clauses[n]);
        }
        let before = lemma_clause_nodes(src, t, c, front);
        let kids = named_children(t, c);
        let m = choose|m: int| 0 <= m < kids.len() && kids[m] == x;
        lemma_named_child_range(t, c, m);
        let ids = children_of_kind(t, x, "identifier"@);
        law_named_children(t, x);
        lemma_of_kind_increases(t, named_children(t, x), "identifier"@);
        let list = before + ids;
        let earlier = clause_mentions(src, t, front);
        let last = mentions_of(src, t, ids);
        let all = clause_mentions(src, t, clauses);
        assert(all == earlier + last);
        assert(clauses =~= front.push(x));
        assert forall|k: int| 0 <= k < list.len() implies mentions(
            src,
            #[trigger] all[k],
            t[list[k]],
            node_text(src, t[list[k]]),
        ) by {
            if k < before.len() {
                assert(all[k] == earlier[k] && list[k] == before[k]);
            } else {
                assert(all[k] == last[k - before.len()] && list[k] == ids[k - before.len()]);
            }
        }
        assert forall|b: int| #[trigger] list.contains(b) <==> exists|y: int| #[trigger]
            clauses.contains(y) && is_named_child(t, y, b) && t[b].kind == "identifier"@ by {
            lemma_contains_either(before, ids, b);
            lemma_listed(t, named_children(t, x), "identifier"@, b);
            lemma_push_contains(front, x, x);
            if before.contains(b) {
                let y = choose|y: int| #[trigger]
                    front.contains(y) && is_named_child(t, y, b) && t[b].kind == "identifier"@;
                lemma_push_contains(front, x, y);
                assert(clauses.contains(y));
            }
            if ids.contains(b) {
                assert(clauses.contains(x) && is_named_child(t, x, b));
            }
            if exists|y: int| #[trigger]
                clauses.contains(y) && is_named_child(t, y, b) && t[b].kind == "identifier"@ {
                let y = choose|y: int| #[trigger]
                    clauses.contains(y) && is_named_child(t, y, b) && t[b].kind == "identifier"@;
                lemma_push_contains(front, x, y);
                if y != x {
                    assert(front.contains(y));
                }
            }
        }
        assert forall|a: int, b: int| 0 <= a < b < list.len() implies list[a] < list[b] by {
            if b < before.len() {
                assert(before[a] < before[b]);
            } else if a >= before.len() {
                assert(ids[a - before.len()] < ids[b - before.len()]);
            } else {
                assert(before.contains(before[a]));
                let y = choose|y: int| #[trigger]
                    front.contains(y) && is_named_child(t, y, before[a]) && t[before[a]].kind
                        == "identifier"@;
                let n = choose|n: int| 0 <= n < front.len() && front[n] == y;
                assert(clauses[n] < clauses[clauses.len() - 1]);
                lemma_apart(t, c, y, x, before[a], ids[b - before.len()]);
            }
        }
        list
    }
}

/// What stands under an earlier child comes before what stands under a later one.
proof fn lemma_apart(t: Seq<NodeModel>, c: int, y: int, x: int, a: int, b: int)
    requires
        0 <= c < t.len(),
        named_children(t, c).contains(y),
        named_children(t, c).contains(x),
        y < x,
        is_named_child(t, y, a),
        children_of_kind(t, x, "identifier"@).contains(b),
    ensures
        a < b,
{
    let kids = named_children(t, c);
    let m = choose|m: int| 0 <= m < kids.len() && kids[m] == y;
    let n = choose|n: int| 0 <= n < kids.len() && kids[n] == x;
    law_named_children(t, c);
    if n <= m {
        assert(kids[n] <= kids[m]);
    }
    lemma_named_child_range(t, c, m);
    lemma_named_child_range(t, c, n);
    law_named_children(t, y);
    law_named_children(t, x);
    let p = choose|p: int| 0 <= p < named_children(t, y).len() && named_children(t, y)[p] == a;
    assert(is_below(t, y, named_children(t, y)[p]));
    lemma_listed(t, named_children(t, x), "identifier"@, b);
    let q = choose|q: int| 0 <= q < named_children(t, x).len() && named_children(t, x)[q] == b;
    assert(is_below(t, x, named_children(t, x)[q]));
    lemma_within_apart(t, c, m, n, a, b);
}

/// Whether `r` reads the text of an optional string.
pub open spec fn reads_opt(arena: Seq<u8>, r: StrRef, s: Option<Seq<char>>) -> bool {
    match s {
        Some(x) => reads(arena, r, x),
        None => r == none_str(),
    }
}

/// Whether `row` is the row of the declaration `d` in the file `path`, with the qualified
/// name `qualified`.
pub open spec fn is_row_of(
    path: Seq<char>,
    arena: Seq<u8>,
    row: NodeRow,
    d: Declaration,
    qualified: Seq<char>,
) -> bool {
    &&& row.kind == node_code(d.kind)
    &&& row.visibility == 0
    &&& match d.extra.is_exported {
        Some(v) => row.flags.known == FLAG_IS_EXPORTED && flag_value(
            row.flags,
            FLAG_IS_EXPORTED,
        ) == Some(v),
        None => row.flags.known == 0 && row.flags.value == 0,
    }
    &&& row.start_line == d.start_line
    &&& row.end_line == d.end_line
    &&& row.start_column == d.start_column
    &&& row.end_column == d.end_column
    &&& resolves_to(arena, row.name, d.name)
    &&& resolves_to(arena, row.qualified_name, qualified)
    &&& resolves_to(
        arena,
        row.id,
        kind_word(d.kind) + ":"@ + path + ":"@ + d.name + ":"@ + decimal(d.start_line as nat),
    )
    &&& reads_opt(arena, row.docstring, d.extra.docstring)
    &&& reads_opt(arena, row.signature, d.extra.signature)
    &&& reads_opt(arena, row.return_type, d.extra.return_type)
    &&& row.decorators == none_str()
    &&& row.type_parameters == none_str()
    &&& row.extra_json == none_str()
}

/// Whether a value declared directly in a scope of this kind can be looked up from the whole
/// file.
pub open spec fn is_open_to_all(kind: NodeKind) -> bool {
    kind == NodeKind::File || kind == NodeKind::Class || kind == NodeKind::Module || kind
        == NodeKind::Struct || kind == NodeKind::Enum
}

/// A declaration adds one row that says all that it states, in the row of the innermost open
/// scope. A function or method is known by its name from then on; a variable or constant
/// with a telling name directly in a file, class, module, struct or enum is looked up by
/// its name, the latest of that name first; and the names of all four are searched for.
pub proof fn law_declaration(g: Graph, d: Declaration)
    requires
        declare(g, d).arena.len() <= usize::MAX,
        g.nodes.len() < u32::MAX,
    ensures
        ({
            let h = declare(g, d);
            let k = g.nodes.len() as u32;
            let callable = d.kind == NodeKind::Function || d.kind == NodeKind::Method;
            let value = d.kind == NodeKind::Variable || d.kind == NodeKind::Constant;
            let shared = value && is_telling(d.name) && g.stack.len() > 0 && is_open_to_all(
                g.stack.last().kind,
            );
            &&& h.nodes.len() == k + 1
            &&& h.nodes.drop_last() == g.nodes
            &&& is_row_of(
                g.path,
                h.arena,
                h.nodes.last(),
                d,
                (match d.extra.qualified_name {
                    Some(q) => q,
                    None => qualified_name_of(g.stack, d.name),
                }),
            )
            &&& h.edges.len() == g.edges.len() + 1
            &&& h.edges.drop_last() == g.edges
            &&& is_containment(
                h.edges.last(),
                if g.stack.len() > 0 {
                    g.stack.last().row as int
                } else {
                    0
                },
                k as int,
            )
            &&& h.refs == g.refs
            &&& h.stack == g.stack
            &&& forall|name: Seq<char>| #[trigger]
                h.defined.contains(name) <==> g.defined.contains(name) || (callable && name
                    == d.name)
            &&& shared ==> h.values.contains_key(d.name) && h.values[d.name] == k
            &&& forall|name: Seq<char>|
                name != d.name || !shared ==> (#[trigger] h.values.contains_key(name)
                    <==> g.values.contains_key(name)) && h.values[name] == g.values[name]
            &&& (callable || value) ==> h.value_scopes.len() == g.value_scopes.len() + 1
                && h.value_scopes.drop_last() == g.value_scopes && h.value_scopes.last().row == k
                && h.value_scopes.last().name == d.name
            &&& !(callable || value) ==> h.value_scopes == g.value_scopes
        }),
{
    let h = declare(g, d);
    let row = declared_row(g, d).1;
    law_declared_texts(g, d);
    assert(h.nodes.drop_last() =~= g.nodes);
    assert(h.edges.drop_last() =~= g.edges);
    lemma_flags_of(d);
    lemma_telling(d.name);
    if is_callable(d.kind) || is_value(d.kind) {
        assert(h.value_scopes.drop_last() =~= g.value_scopes);
    }
}

proof fn lemma_flags_of(d: Declaration)
    ensures
        match d.extra.is_exported {
            Some(v) => declared_flags(d).known == FLAG_IS_EXPORTED && flag_value(
                declared_flags(d),
                FLAG_IS_EXPORTED,
            ) == Some(v),
            None => declared_flags(d).known == 0 && declared_flags(d).value == 0,
        },
{
    assert(0u8 | 1u8 == 1u8) by (bit_vector);
    if let Some(v) = d.extra.is_exported {
        law_flags(no_flags(), FLAG_IS_EXPORTED, v, 0);
    }
}

/// The names that can be looked up are the telling ones.
proof fn lemma_telling(name: Seq<char>)
    ensures
        is_telling(name) <==> utf16_units(name) >= 3 && distinctive(name),
{
    if is_telling(name) {
        let i = choose|i: int|
            0 <= i < name.len() && ('A' <= #[trigger] name[i] <= 'Z' || name[i] == '_');
        assert(is_upper_or_underscore(name[i]));
    }
    if distinctive(name) {
        let i = choose|i: int| 0 <= i < name.len() && is_upper_or_underscore(#[trigger] name[i]);
        assert('A' <= name[i] <= 'Z' || name[i] == '_');
    }
}

} // verus!
