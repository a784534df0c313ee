//! What the steps among the nodes of a syntax tree are, said by the depths of the nodes.

use vstd::prelude::*;
use vstd::utf8::{encode_utf8, is_char_boundary};
use crate::syntax::{
    found_from, is_child, last_found, last_standing_from, law_named_children, law_own_named,
    lemma_found_from, named_children, own_named, stands, tree_fits, NodeModel,
};
use crate::textutil::line_starts_of;

verus! {

/// Whether `c` is a named child of `p`, or one of the named children of an unnamed child
/// of `p`, where the child of `p` is not before `k`.
spec fn is_listed_from(t: Seq<NodeModel>, p: int, k: int, c: int) -> bool {
    ||| k <= c && is_child(t, p, c) && t[c].named
    ||| exists|m: int| #[trigger]
        is_child(t, p, m) && k <= m && !t[m].named && named_children(t, m).contains(c)
}

/// Whether `c` is a named child of `p`, or one of the named children of an unnamed child
/// of `p`.
pub open spec fn is_listed_under(t: Seq<NodeModel>, p: int, c: int) -> bool {
    ||| is_child(t, p, c) && t[c].named
    ||| exists|m: int| #[trigger]
        is_child(t, p, m) && !t[m].named && named_children(t, m).contains(c)
}

proof fn lemma_found_listed(t: Seq<NodeModel>, p: int, k: int, c: int)
    requires
        0 <= p < k,
        p < t.len(),
        forall|j: int| p < j < k && j < t.len() ==> #[trigger] t[j].depth > t[p].depth,
    ensures
        found_from(t, p, k).contains(c) <==> is_listed_from(t, p, k, c),
    decreases t.len() - k,
{
    if k >= t.len() || t[k].depth <= t[p].depth {
        if is_listed_from(t, p, k, c) {
            if !(k <= c && is_child(t, p, c) && t[c].named) {
                let m = choose|m: int| #[trigger]
                    is_child(t, p, m) && k <= m && !t[m].named && named_children(t, m).contains(c);
                assert(k == m || t[k].depth > t[p].depth);
            } else {
                assert(k == c || t[k].depth > t[p].depth);
            }
        }
    } else {
        lemma_found_listed(t, p, k + 1, c);
        let rest = found_from(t, p, k + 1);
        if t[k].depth == t[p].depth + 1 {
            assert(is_child(t, p, k));
            let first = if t[k].named {
                seq![k]
            } else {
                named_children(t, k)
            };
            assert(found_from(t, p, k) == first + rest);
            lemma_contains_either(first, rest, c);
            if t[k].named {
                assert(seq![k].contains(c) <==> c == k) by {
                    assert(seq![k][0] == k);
                }
            }
            if is_listed_from(t, p, k, c) && !(k <= c && is_child(t, p, c) && t[c].named) {
                let m = choose|m: int| #[trigger]
                    is_child(t, p, m) && k <= m && !t[m].named && named_children(t, m).contains(c);
                if m > k {
                    assert(is_listed_from(t, p, k + 1, c));
                }
            }
            if is_listed_from(t, p, k + 1, c) && !(k + 1 <= c && is_child(t, p, c)
                && t[c].named) {
                let m = choose|m: int| #[trigger]
                    is_child(t, p, m) && k + 1 <= m && !t[m].named && named_children(
                        t,
                        m,
                    ).contains(c);
                assert(is_listed_from(t, p, k, c));
            }
        } else {
            if is_listed_from(t, p, k, c) && !(k <= c && is_child(t, p, c) && t[c].named) {
                let m = choose|m: int| #[trigger]
                    is_child(t, p, m) && k <= m && !t[m].named && named_children(t, m).contains(c);
                assert(is_listed_from(t, p, k + 1, c));
            }
            if is_listed_from(t, p, k + 1, c) && !(k + 1 <= c && is_child(t, p, c)
                && t[c].named) {
                let m = choose|m: int| #[trigger]
                    is_child(t, p, m) && k + 1 <= m && !t[m].named && named_children(
                        t,
                        m,
                    ).contains(c);
                assert(is_listed_from(t, p, k, c));
            }
        }
    }
}

/// What two lists hold together.
pub proof fn lemma_contains_either(a: Seq<int>, b: Seq<int>, k: int)
    ensures
        (a + b).contains(k) <==> a.contains(k) || b.contains(k),
{
    let r = a + b;
    if a.contains(k) {
        let n = choose|n: int| 0 <= n < a.len() && a[n] == k;
        assert(r[n] == k);
    }
    if b.contains(k) {
        let n = choose|n: int| 0 <= n < b.len() && b[n] == k;
        assert(r[n + a.len()] == k);
    }
    if r.contains(k) {
        let n = choose|n: int| 0 <= n < r.len() && r[n] == k;
        if n < a.len() {
            assert(a[n] == k);
        } else {
            assert(b[n - a.len()] == k);
        }
    }
}

/// The named children of a node are the first of the nodes that are its named children or
/// those of its unnamed children, as many as it has named children of its own, each once
/// and in increasing order.
pub proof fn law_first_are_children(t: Seq<NodeModel>, p: int)
    requires
        0 <= p < t.len(),
    ensures
        forall|c: int| #[trigger]
            named_children(t, p).contains(c) ==> is_listed_under(t, p, c),
        forall|c: int, n: int|
            is_listed_under(t, p, c) && 0 <= n < named_children(t, p).len() && c
                <= #[trigger] named_children(t, p)[n] ==> #[trigger] named_children(
                t,
                p,
            ).contains(c),
        named_children(t, p).len() == own_named(t, p).len(),
        forall|a: int, b: int|
            0 <= a < b < named_children(t, p).len() ==> named_children(t, p)[a] < named_children(
                t,
                p,
            )[b],
{
    law_named_children(t, p);
    lemma_found_from(t, p, p + 1);
    let found = found_from(t, p, p + 1);
    let kids = named_children(t, p);
    let len = own_named(t, p).len() as int;
    assert forall|c: int| #[trigger] kids.contains(c) implies is_listed_under(t, p, c) by {
        let n = choose|n: int| 0 <= n < kids.len() && kids[n] == c;
        assert(found[n] == c);
        assert(found.contains(c));
        lemma_found_listed(t, p, p + 1, c);
        if !(is_child(t, p, c) && t[c].named) {
            let m = choose|m: int| #[trigger]
                is_child(t, p, m) && p + 1 <= m && !t[m].named && named_children(t, m).contains(c);
            assert(is_child(t, p, m));
        }
    }
    assert forall|c: int, n: int|
        is_listed_under(t, p, c) && 0 <= n < kids.len() && c <= #[trigger] kids[n] implies
        #[trigger] kids.contains(c) by {
        if !(is_child(t, p, c) && t[c].named) {
            let m = choose|m: int| #[trigger]
                is_child(t, p, m) && !t[m].named && named_children(t, m).contains(c);
            assert(is_child(t, p, m) && p + 1 <= m);
        }
        assert(is_listed_from(t, p, p + 1, c));
        lemma_found_listed(t, p, p + 1, c);
        let q = choose|q: int| 0 <= q < found.len() && found[q] == c;
        assert(found[n] == kids[n]);
        if q > n {
            assert(found[n] < found[q]);
        }
        assert(kids[q] == c);
    }
}

/// Whether no unnamed child of `p` has a named child.
pub open spec fn is_simple_parent(t: Seq<NodeModel>, p: int) -> bool {
    forall|d: int, e: int| #[trigger]
        is_child(t, p, d) && !t[d].named && #[trigger] is_child(t, d, e) ==> !t[e].named
}

/// Where no unnamed child of a node has a named child, its named children are exactly its
/// children that are named.
pub proof fn law_simple_children(t: Seq<NodeModel>, p: int, c: int)
    requires
        0 <= p < t.len(),
        is_simple_parent(t, p),
    ensures
        named_children(t, p).contains(c) <==> is_child(t, p, c) && t[c].named,
{
    law_named_children(t, p);
    law_own_named(t, p);
    assert forall|m: int| #[trigger] is_child(t, p, m) && !t[m].named implies own_named(
        t,
        m,
    ).len() == 0 by {
        law_own_named(t, m);
        if own_named(t, m).len() > 0 {
            let e = own_named(t, m)[0];
            assert(own_named(t, m).contains(e));
            assert(is_child(t, m, e) && t[e].named);
        }
    }
    assert(own_named(t, p).contains(c) <==> is_child(t, p, c) && t[c].named);
}

/// A node stands where it is named or has a named child.
pub proof fn law_stands(t: Seq<NodeModel>, s: int)
    requires
        0 <= s < t.len(),
    ensures
        stands(t, s) <==> t[s].named || exists|c: int| #[trigger] is_child(t, s, c) && t[c].named,
{
    law_own_named(t, s);
    if own_named(t, s).len() > 0 {
        let c = own_named(t, s)[0];
        assert(own_named(t, s).contains(c));
        assert(is_child(t, s, c) && t[c].named);
    }
    if exists|c: int| #[trigger] is_child(t, s, c) && t[c].named {
        let c = choose|c: int| #[trigger] is_child(t, s, c) && t[c].named;
        assert(own_named(t, s).contains(c));
    }
}

/// What stands last at a node is the node itself where it is named, else what stands last
/// at the last of its children that stands.
pub proof fn law_last_found(t: Seq<NodeModel>, s: int)
    requires
        0 <= s < t.len(),
        stands(t, s),
    ensures
        t[s].named ==> last_found(t, s) == s,
        !t[s].named ==> exists|c: int|
            {
                &&& #[trigger] is_child(t, s, c)
                &&& stands(t, c)
                &&& last_found(t, s) == last_found(t, c)
                &&& forall|d: int| #[trigger] is_child(t, s, d) && d > c ==> !stands(t, d)
            },
{
    if !t[s].named {
        lemma_last_child(t, s, s + 1);
        law_own_named(t, s);
        let e = own_named(t, s)[0];
        assert(own_named(t, s).contains(e));
        assert(is_child(t, s, e) && stands(t, e));
    }
}

proof fn lemma_last_child(t: Seq<NodeModel>, p: int, k: int)
    requires
        0 <= p < k,
        p < t.len(),
        forall|j: int| p < j < k && j < t.len() ==> #[trigger] t[j].depth > t[p].depth,
    ensures
        match last_standing_from(t, p, k) {
            Some(c) => {
                &&& k <= c && is_child(t, p, c) && stands(t, c)
                &&& forall|d: int| #[trigger] is_child(t, p, d) && d > c ==> !stands(t, d)
            },
            None => forall|d: int| #[trigger] is_child(t, p, d) && d >= k ==> !stands(t, d),
        },
    decreases t.len() - k,
{
    if k < t.len() && t[k].depth > t[p].depth {
        lemma_last_child(t, p, k + 1);
        if t[k].depth == t[p].depth + 1 {
            assert(is_child(t, p, k));
        }
    } else {
        assert forall|d: int| #[trigger] is_child(t, p, d) && d >= k implies !stands(t, d) by {
            assert(k < t.len());
            assert(k == d || t[k].depth > t[p].depth);
        }
    }
}

/// Every node of a file is fit where it starts and ends at character boundaries of the
/// text, in this order, on lines that start at or before them.
pub proof fn law_fits(src: Seq<char>, t: Seq<NodeModel>)
    ensures
        tree_fits(src, t) <==> forall|i: int|
            0 <= i < t.len() ==> {
                let n = #[trigger] t[i];
                let starts = line_starts_of(encode_utf8(src));
                &&& n.start_byte <= n.end_byte
                &&& is_char_boundary(encode_utf8(src), n.start_byte)
                &&& is_char_boundary(encode_utf8(src), n.end_byte)
                &&& 0 <= n.start_row < starts.len()
                &&& 0 <= n.end_row < starts.len()
                &&& is_char_boundary(encode_utf8(src), starts[n.start_row])
                &&& is_char_boundary(encode_utf8(src), starts[n.end_row])
                &&& starts[n.start_row] <= n.start_byte
                &&& starts[n.end_row] <= n.end_byte
            },
{
}

} // verus!
