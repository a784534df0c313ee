//! Syntax trees as plain data: the visible nodes of a parse tree in pre-order,
//! each with its depth, and the steps by which the extraction moves among them.

use vstd::prelude::*;
use crate::textutil::{has_column, is_line_table, slice, slice_of, sliceable, str_eq};

verus! {

/// One syntax node.
pub struct SyntaxNode {
    /// The grammar's name for this sort of node.
    pub kind: String,
    /// The field of the parent that this node fills.
    pub field: Option<String>,
    /// Whether the node stands for a rule of the grammar rather than a literal.
    pub named: bool,
    /// The distance from the root.
    pub depth: u32,
    pub start_byte: usize,
    pub end_byte: usize,
    pub start_row: usize,
    pub end_row: usize,
}

/// The mathematical content of a [`SyntaxNode`].
pub struct NodeModel {
    pub kind: Seq<char>,
    pub field: Option<Seq<char>>,
    pub named: bool,
    pub depth: int,
    pub start_byte: int,
    pub end_byte: int,
    pub start_row: int,
    pub end_row: int,
}

/// The content of an optional string.
pub open spec fn opt_view(s: Option<String>) -> Option<Seq<char>> {
    match s {
        Some(x) => Some(x@),
        None => None,
    }
}

impl View for SyntaxNode {
    type V = NodeModel;

    open spec fn view(&self) -> NodeModel {
        NodeModel {
            kind: self.kind@,
            field: opt_view(self.field),
            named: self.named,
            depth: self.depth as int,
            start_byte: self.start_byte as int,
            end_byte: self.end_byte as int,
            start_row: self.start_row as int,
            end_row: self.end_row as int,
        }
    }
}

/// A syntax tree: its nodes in pre-order, the root first.
pub struct SyntaxTree {
    pub nodes: Vec<SyntaxNode>,
}

impl View for SyntaxTree {
    type V = Seq<NodeModel>;

    open spec fn view(&self) -> Seq<NodeModel> {
        Seq::new(self.nodes@.len(), |i: int| self.nodes@[i]@)
    }
}

/// Whether `c` is a child of `p`: one level deeper, with nothing in between that
/// leaves the subtree of `p`.
pub open spec fn is_child(t: Seq<NodeModel>, p: int, c: int) -> bool {
    &&& 0 <= p < c < t.len()
    &&& t[c].depth == t[p].depth + 1
    &&& forall|k: int| p < k < c ==> #[trigger] t[k].depth > t[p].depth
}

/// The named children of `p` among the nodes from `k` on, in order.
pub open spec fn own_named_from(t: Seq<NodeModel>, p: int, k: int) -> Seq<int>
    decreases t.len() - k,
{
    if k < 0 || k >= t.len() || t[k].depth <= t[p].depth {
        seq![]
    } else if t[k].depth == t[p].depth + 1 && t[k].named {
        seq![k] + own_named_from(t, p, k + 1)
    } else {
        own_named_from(t, p, k + 1)
    }
}

/// The named children of `p`, in order, without those that stand inside its unnamed
/// children.
pub open spec fn own_named(t: Seq<NodeModel>, p: int) -> Seq<int> {
    own_named_from(t, p, p + 1)
}

/// What is found in place of the children of `p` from the node `k` on: a named child
/// itself, and the named children of an unnamed child.
pub open spec fn found_from(t: Seq<NodeModel>, p: int, k: int) -> Seq<int>
    decreases t.len() - p, 0int, t.len() - k,
{
    if p < 0 || k <= p || k >= t.len() || t[k].depth <= t[p].depth {
        seq![]
    } else if t[k].depth == t[p].depth + 1 {
        if t[k].named {
            seq![k] + found_from(t, p, k + 1)
        } else {
            named_children(t, k) + found_from(t, p, k + 1)
        }
    } else {
        found_from(t, p, k + 1)
    }
}

/// The named children of `p`, in order. As in tree-sitter, an unnamed child stands for
/// its own named children, but does not count: there are as many as `p` has named
/// children of its own, and the last ones are left out where unnamed children hold
/// some.
pub open spec fn named_children(t: Seq<NodeModel>, p: int) -> Seq<int>
    decreases t.len() - p, 1int, 0int,
{
    found_from(t, p, p + 1).take(own_named(t, p).len() as int)
}

/// The first child of `p` in the field `f` among the nodes from `k` on.
pub open spec fn field_child_from(t: Seq<NodeModel>, p: int, f: Seq<char>, k: int) -> Option<int>
    decreases t.len() - k,
{
    if k < 0 || k >= t.len() || t[k].depth <= t[p].depth {
        None
    } else if t[k].depth == t[p].depth + 1 && t[k].field == Some(f) {
        Some(k)
    } else {
        field_child_from(t, p, f, k + 1)
    }
}

/// The first child of `p` in the field `f`.
pub open spec fn field_child(t: Seq<NodeModel>, p: int, f: Seq<char>) -> Option<int> {
    field_child_from(t, p, f, p + 1)
}

/// Whether `s` is named, or unnamed with named children of its own.
pub open spec fn stands(t: Seq<NodeModel>, s: int) -> bool {
    t[s].named || own_named(t, s).len() > 0
}

/// The last child of `p` among the nodes from `k` on that is named or has named children
/// of its own.
pub open spec fn last_standing_from(t: Seq<NodeModel>, p: int, k: int) -> Option<int>
    decreases t.len() - k,
{
    if k < 0 || k >= t.len() || t[k].depth <= t[p].depth {
        None
    } else {
        match last_standing_from(t, p, k + 1) {
            Some(c) => Some(c),
            None => if t[k].depth == t[p].depth + 1 && stands(t, k) {
                Some(k)
            } else {
                None
            },
        }
    }
}

/// What stands last at `s`: `s` itself where it is named, else what stands last among
/// its children.
pub open spec fn last_found(t: Seq<NodeModel>, s: int) -> int
    decreases t.len() - s,
{
    if t[s].named {
        s
    } else {
        match last_standing_from(t, s, s + 1) {
            Some(c) => if s < c < t.len() {
                last_found(t, c)
            } else {
                s
            },
            None => s,
        }
    }
}

/// The nearest sibling of `i` at or before `k` that is named or has named children of
/// its own.
pub open spec fn prev_standing_from(t: Seq<NodeModel>, i: int, k: int) -> Option<int>
    decreases k + 1,
{
    if k < 0 || k >= t.len() || t[k].depth < t[i].depth {
        None
    } else if t[k].depth == t[i].depth && stands(t, k) {
        Some(k)
    } else {
        prev_standing_from(t, i, k - 1)
    }
}

/// The named sibling just before `i`. As in tree-sitter, an unnamed sibling stands for
/// its own named children.
pub open spec fn prev_named(t: Seq<NodeModel>, i: int) -> Option<int> {
    match prev_standing_from(t, i, i - 1) {
        Some(s) => Some(last_found(t, s)),
        None => None,
    }
}

/// The named children of its own that a node has are exactly its named children in the
/// sense of [`is_child`], and they come in increasing order.
pub proof fn law_own_named(t: Seq<NodeModel>, p: int)
    requires
        0 <= p < t.len(),
    ensures
        forall|c: int| #[trigger]
            own_named(t, p).contains(c) <==> is_child(t, p, c) && t[c].named,
        forall|a: int, b: int|
            0 <= a < b < own_named(t, p).len() ==> own_named(t, p)[a] < own_named(
                t,
                p,
            )[b],
{
    lemma_own_named_from(t, p, p + 1);
}

proof fn lemma_own_named_from(t: Seq<NodeModel>, p: int, k: int)
    requires
        0 <= p < k,
        p < t.len(),
        forall|j: int| p < j < k && j < t.len() ==> #[trigger] t[j].depth > t[p].depth,
    ensures
        forall|c: int| #[trigger]
            own_named_from(t, p, k).contains(c) <==> k <= c && is_child(t, p, c) && t[c].named,
        forall|a: int, b: int|
            0 <= a < b < own_named_from(t, p, k).len() ==> own_named_from(t, p, k)[a]
                < own_named_from(t, p, k)[b],
    decreases t.len() - k,
{
    let all = own_named_from(t, p, k);
    if k >= t.len() || t[k].depth <= t[p].depth {
        assert forall|c: int| !(k <= c && is_child(t, p, c)) by {
            if k <= c && is_child(t, p, c) {
                assert(k < t.len());
                assert(k == c || t[k].depth > t[p].depth);
            }
        }
    } else {
        lemma_own_named_from(t, p, k + 1);
        let rest = own_named_from(t, p, k + 1);
        if t[k].depth == t[p].depth + 1 && t[k].named {
            assert(all =~= seq![k] + rest);
            assert forall|c: int| #[trigger] all.contains(c) <==> k <= c && is_child(t, p, c)
                && t[c].named by {
                if all.contains(c) {
                    let n = choose|n: int| 0 <= n < all.len() && all[n] == c;
                    if n > 0 {
                        assert(rest[n - 1] == c);
                        assert(rest.contains(c));
                    }
                }
                if k <= c && is_child(t, p, c) && t[c].named {
                    if c == k {
                        assert(all[0] == c);
                    } else {
                        assert(rest.contains(c));
                        let n = choose|n: int| 0 <= n < rest.len() && rest[n] == c;
                        assert(all[n + 1] == c);
                    }
                }
            }
            assert forall|a: int, b: int| 0 <= a < b < all.len() implies all[a] < all[b] by {
                assert(rest.contains(rest[b - 1]));
                if a > 0 {
                    assert(all[a] == rest[a - 1] && all[b] == rest[b - 1]);
                }
            }
        } else {
            assert forall|c: int| #[trigger] all.contains(c) <==> k <= c && is_child(t, p, c)
                && t[c].named by {
                assert(rest.contains(c) <==> k + 1 <= c && is_child(t, p, c) && t[c].named);
            }
        }
    }
}

/// Whether `c` lies below `p`.
pub open spec fn is_below(t: Seq<NodeModel>, p: int, c: int) -> bool {
    &&& 0 <= p < c < t.len()
    &&& forall|k: int| p < k <= c ==> #[trigger] t[k].depth > t[p].depth
}

/// Whether `c` is a named child of `p`, or of an unnamed child of `p`, or of an unnamed
/// child of such a child, and so on.
pub open spec fn is_found(t: Seq<NodeModel>, p: int, c: int) -> bool
    decreases t.len() - p,
{
    ||| is_child(t, p, c) && t[c].named
    ||| exists|m: int|
        p < m < t.len() && #[trigger] is_child(t, p, m) && !t[m].named && is_found(t, m, c)
}

/// Whether every node of `list` is found below `p`, and they come in increasing order.
pub open spec fn are_found(t: Seq<NodeModel>, p: int, list: Seq<int>) -> bool {
    &&& forall|n: int|
        0 <= n < list.len() ==> is_below(t, p, #[trigger] list[n]) && is_found(t, p, list[n])
    &&& forall|a: int, b: int| 0 <= a < b < list.len() ==> list[a] < list[b]
}

/// A node has as many named children as it has of its own. Each is a named child of it
/// or of nothing but unnamed nodes in between, and they come in increasing order. Where
/// no unnamed child has named children, they are exactly its own.
pub proof fn law_named_children(t: Seq<NodeModel>, p: int)
    requires
        0 <= p < t.len(),
    ensures
        named_children(t, p).len() == own_named(t, p).len(),
        are_found(t, p, named_children(t, p)),
        (forall|m: int| #[trigger]
            is_child(t, p, m) && !t[m].named ==> own_named(t, m).len() == 0) ==> named_children(
            t,
            p,
        ) == own_named(t, p),
    decreases t.len() - p, 1int, 0int,
{
    lemma_found_from(t, p, p + 1);
    let found = found_from(t, p, p + 1);
    let n = own_named(t, p).len() as int;
    assert forall|a: int, b: int| 0 <= a < b < n implies found.take(n)[a] < found.take(n)[b] by {
        assert(found[a] < found[b]);
    }
    assert forall|k: int| 0 <= k < n implies is_below(t, p, #[trigger] found.take(n)[k])
        && is_found(t, p, found.take(n)[k]) by {
        assert(found.take(n)[k] == found[k]);
    }
    if forall|m: int| #[trigger] is_child(t, p, m) && !t[m].named ==> own_named(t, m).len() == 0 {
        assert(found.take(n) =~= found);
    }
}

/// What is found in place of the children of a node lies below it, in increasing order.
pub proof fn lemma_found_from(t: Seq<NodeModel>, p: int, k: int)
    requires
        0 <= p < k,
        p < t.len(),
        forall|j: int| p < j < k && j < t.len() ==> #[trigger] t[j].depth > t[p].depth,
    ensures
        found_from(t, p, k).len() >= own_named_from(t, p, k).len(),
        are_found(t, p, found_from(t, p, k)),
        forall|n: int|
            0 <= n < found_from(t, p, k).len() ==> comes_after(
                t,
                p,
                k,
                #[trigger] found_from(t, p, k)[n],
            ),
        (forall|m: int| #[trigger]
            is_child(t, p, m) && !t[m].named ==> own_named(t, m).len() == 0) ==> found_from(
            t,
            p,
            k,
        ) == own_named_from(t, p, k),
    decreases t.len() - p, 0int, t.len() - k,
{
    if k < t.len() && t[k].depth > t[p].depth {
        lemma_found_from(t, p, k + 1);
        let rest = found_from(t, p, k + 1);
        if t[k].depth == t[p].depth + 1 {
            assert(is_child(t, p, k));
            let first = if t[k].named {
                seq![k]
            } else {
                named_children(t, k)
            };
            if !t[k].named {
                law_named_children(t, k);
                assert forall|n: int| 0 <= n < first.len() implies is_below(
                    t,
                    p,
                    #[trigger] first[n],
                ) && is_found(t, p, first[n]) && comes_after(t, p, k, first[n]) by {
                    assert(is_below(t, k, first[n]) && is_found(t, k, first[n]));
                    assert forall|j: int| p < j <= first[n] implies #[trigger] t[j].depth
                        > t[p].depth by {
                        if j > k {
                            assert(t[j].depth > t[k].depth);
                        }
                    }
                    assert(is_sibling_step(t, p, k, first[n], k));
                }
            } else {
                assert(is_below(t, p, k));
                assert(is_sibling_step(t, p, k, k, k));
            }
            let all = first + rest;
            assert(found_from(t, p, k) == all);
            assert forall|n: int| 0 <= n < all.len() implies is_below(t, p, #[trigger] all[n])
                && is_found(t, p, all[n]) && comes_after(t, p, k, all[n]) by {
                if n >= first.len() {
                    let e = rest[n - first.len()];
                    assert(comes_after(t, p, k + 1, e));
                    let s = choose|s: int| #[trigger] is_sibling_step(t, p, k + 1, e, s);
                    assert(is_sibling_step(t, p, k, e, s));
                } else {
                    assert(all[n] == first[n]);
                }
            }
            assert forall|a: int, b: int| 0 <= a < b < all.len() implies all[a] < all[b] by {
                if b < first.len() {
                    assert(all[a] == first[a] && all[b] == first[b]);
                } else if a >= first.len() {
                    assert(rest[a - first.len()] < rest[b - first.len()]);
                } else {
                    let c = first[a];
                    let e = rest[b - first.len()];
                    assert(comes_after(t, p, k + 1, e));
                    let s = choose|s: int| #[trigger] is_sibling_step(t, p, k + 1, e, s);
                    if s <= c {
                        assert(!t[k].named);
                        assert(is_below(t, k, c));
                        assert(t[s].depth > t[k].depth);
                    }
                }
            }
        } else {
            assert forall|n: int| 0 <= n < rest.len() implies comes_after(
                t,
                p,
                k,
                #[trigger] rest[n],
            ) by {
                assert(comes_after(t, p, k + 1, rest[n]));
                let s = choose|s: int| #[trigger] is_sibling_step(t, p, k + 1, rest[n], s);
                assert(is_sibling_step(t, p, k, rest[n], s));
            }
        }
    }
}

/// Whether `s` is a node at the depth of the children of `p`, from `k` up to `c`.
pub open spec fn is_sibling_step(t: Seq<NodeModel>, p: int, k: int, c: int, s: int) -> bool {
    k <= s <= c && t[s].depth == t[p].depth + 1
}

/// Whether `c` is, or lies below, a child of `p` from `k` on.
pub open spec fn comes_after(t: Seq<NodeModel>, p: int, k: int, c: int) -> bool {
    exists|s: int| #[trigger] is_sibling_step(t, p, k, c, s)
}

/// Every named child of a node comes after it, and within the tree.
pub proof fn lemma_named_child_range(t: Seq<NodeModel>, p: int, n: int)
    requires
        0 <= p < t.len(),
        0 <= n < named_children(t, p).len(),
    ensures
        p < named_children(t, p)[n] < t.len(),
{
    law_named_children(t, p);
    assert(is_below(t, p, named_children(t, p)[n]));
}

/// The child in a field is a child with that field, and no earlier child has it;
/// there is none exactly where no child has that field.
pub proof fn law_field_child(t: Seq<NodeModel>, p: int, f: Seq<char>)
    requires
        0 <= p < t.len(),
    ensures
        match field_child(t, p, f) {
            Some(c) => {
                &&& is_child(t, p, c)
                &&& t[c].field == Some(f)
                &&& forall|d: int| #[trigger] is_child(t, p, d) && t[d].field == Some(f) ==> c <= d
            },
            None => forall|d: int| #[trigger] is_child(t, p, d) ==> t[d].field != Some(f),
        },
{
    lemma_field_child_from(t, p, f, p + 1);
}

proof fn lemma_field_child_from(t: Seq<NodeModel>, p: int, f: Seq<char>, k: int)
    requires
        0 <= p < k,
        p < t.len(),
        forall|j: int| p < j < k && j < t.len() ==> #[trigger] t[j].depth > t[p].depth,
        forall|d: int| #[trigger] is_child(t, p, d) && d < k ==> t[d].field != Some(f),
    ensures
        match field_child_from(t, p, f, k) {
            Some(c) => {
                &&& is_child(t, p, c)
                &&& t[c].field == Some(f)
                &&& forall|d: int| #[trigger] is_child(t, p, d) && t[d].field == Some(f) ==> c <= d
            },
            None => forall|d: int| #[trigger] is_child(t, p, d) ==> t[d].field != Some(f),
        },
    decreases t.len() - k,
{
    if k >= t.len() || t[k].depth <= t[p].depth {
        assert forall|d: int| #[trigger] is_child(t, p, d) implies t[d].field != Some(f) by {
            if k <= d {
                assert(k < t.len());
                assert(k == d || t[k].depth > t[p].depth);
            }
        }
    } else if t[k].depth == t[p].depth + 1 && t[k].field == Some(f) {
        assert(is_child(t, p, k));
    } else {
        lemma_field_child_from(t, p, f, k + 1);
    }
}

proof fn lemma_last_standing(t: Seq<NodeModel>, p: int, k: int)
    requires
        0 <= p < k,
        p < t.len(),
        forall|j: int| p < j < k && j < t.len() ==> #[trigger] t[j].depth > t[p].depth,
    ensures
        match last_standing_from(t, p, k) {
            Some(c) => is_child(t, p, c) && stands(t, c),
            None => own_named_from(t, p, k).len() == 0,
        },
    decreases t.len() - k,
{
    if k < t.len() && t[k].depth > t[p].depth {
        lemma_last_standing(t, p, k + 1);
        if t[k].depth == t[p].depth + 1 {
            assert(is_child(t, p, k));
        }
    }
}

proof fn lemma_last_found(t: Seq<NodeModel>, s: int)
    requires
        0 <= s < t.len(),
        stands(t, s),
    ensures
        0 <= last_found(t, s) < t.len(),
        t[last_found(t, s)].named,
        last_found(t, s) == s || is_below(t, s, last_found(t, s)),
    decreases t.len() - s,
{
    if !t[s].named {
        lemma_last_standing(t, s, s + 1);
        if let Some(c) = last_standing_from(t, s, s + 1) {
            lemma_last_found(t, c);
            let r = last_found(t, c);
            assert forall|k: int| s < k <= r implies #[trigger] t[k].depth > t[s].depth by {
                if k > c {
                    assert(t[k].depth > t[c].depth);
                }
            }
        }
    }
}

/// The previous named sibling is what stands last at the nearest earlier node of the
/// same depth that is named or has named children of its own, with no shallower node in
/// between; so it is that node itself where that is named, and a named node below it
/// where it is not. There is none exactly where there is no such node.
pub proof fn law_prev_named(t: Seq<NodeModel>, i: int)
    requires
        0 <= i < t.len(),
    ensures
        match prev_named(t, i) {
            Some(r) => {
                &&& 0 <= r < i
                &&& t[r].named
                &&& exists|s: int|
                    {
                        &&& 0 <= s <= r
                        &&& #[trigger] t[s].depth == t[i].depth
                        &&& stands(t, s)
                        &&& r == last_found(t, s)
                        &&& t[s].named ==> r == s
                        &&& r == s || is_below(t, s, r)
                        &&& forall|k: int|
                            s < k < i ==> (#[trigger] t[k]).depth >= t[i].depth && !(stands(t, k)
                                && t[k].depth == t[i].depth)
                    }
            },
            None => forall|s: int|
                0 <= s < i && (#[trigger] t[s]).depth == t[i].depth && stands(t, s)
                    ==> exists|k: int| s < k < i && (#[trigger] t[k]).depth < t[i].depth,
        },
{
    lemma_prev_standing_from(t, i, i - 1);
    if let Some(s) = prev_standing_from(t, i, i - 1) {
        lemma_last_found(t, s);
        let r = last_found(t, s);
        if r >= i {
            assert(t[i].depth > t[s].depth);
        }
        assert(t[s].depth == t[i].depth);
    }
}

proof fn lemma_prev_standing_from(t: Seq<NodeModel>, i: int, k: int)
    requires
        -1 <= k < i < t.len(),
        forall|j: int|
            k < j < i ==> (#[trigger] t[j]).depth >= t[i].depth && !(stands(t, j) && t[j].depth
                == t[i].depth),
    ensures
        match prev_standing_from(t, i, k) {
            Some(s) => {
                &&& 0 <= s <= k
                &&& stands(t, s) && t[s].depth == t[i].depth
                &&& forall|j: int|
                    s < j < i ==> (#[trigger] t[j]).depth >= t[i].depth && !(stands(t, j)
                        && t[j].depth == t[i].depth)
            },
            None => forall|s: int|
                0 <= s < i && (#[trigger] t[s]).depth == t[i].depth && stands(t, s)
                    ==> exists|j: int| s < j < i && (#[trigger] t[j]).depth < t[i].depth,
        },
    decreases k + 1,
{
    if k < 0 || t[k].depth < t[i].depth {
    } else if t[k].depth == t[i].depth && stands(t, k) {
    } else {
        lemma_prev_standing_from(t, i, k - 1);
    }
}

/// The nodes of `list` that are of the given kind, in order.
pub open spec fn of_kind(t: Seq<NodeModel>, list: Seq<int>, kind: Seq<char>) -> Seq<int>
    decreases list.len(),
{
    if list.len() == 0 {
        seq![]
    } else {
        let rest = of_kind(t, list.drop_last(), kind);
        if t[list.last()].kind == kind {
            rest.push(list.last())
        } else {
            rest
        }
    }
}

/// The named children of `p` of the given kind, in order.
pub open spec fn children_of_kind(t: Seq<NodeModel>, p: int, kind: Seq<char>) -> Seq<int> {
    of_kind(t, named_children(t, p), kind)
}

/// The text of a node in the source `src`.
pub open spec fn node_text(src: Seq<char>, n: NodeModel) -> Seq<char> {
    slice_of(src, n.start_byte, n.end_byte)
}

/// Whether a node's byte range and rows describe a part of `src`.
pub open spec fn node_fits(src: Seq<char>, n: NodeModel) -> bool {
    &&& sliceable(src, n.start_byte, n.end_byte)
    &&& has_column(src, n.start_row, n.start_byte)
    &&& has_column(src, n.end_row, n.end_byte)
}

/// Whether every node of a tree describes a part of `src`.
pub open spec fn tree_fits(src: Seq<char>, t: Seq<NodeModel>) -> bool {
    forall|i: int| 0 <= i < t.len() ==> node_fits(src, #[trigger] t[i])
}

/// The numbers of `list`.
spec fn ints(list: Seq<usize>) -> Seq<int> {
    list.map_values(|c: usize| c as int)
}

fn check_slice(src: &str, a: usize, b: usize) -> (r: bool)
    ensures
        r == sliceable(src@, a as int, b as int),
{
    a <= b && src.is_char_boundary(a) && src.is_char_boundary(b)
}

fn check_column(src: &str, line_starts: &Vec<usize>, row: usize, byte: usize) -> (r: bool)
    requires
        is_line_table(line_starts@, src@),
    ensures
        r == has_column(src@, row as int, byte as int),
{
    row < line_starts.len() && check_slice(src, line_starts[row], byte)
}

impl SyntaxTree {
    /// Tests whether every node describes a part of `src`.
    pub fn fits(&self, src: &str, line_starts: &Vec<usize>) -> (r: bool)
        requires
            is_line_table(line_starts@, src@),
        ensures
            r == tree_fits(src@, self@),
    {
        let n = self.nodes.len();
        for i in 0..n
            invariant
                n == self.nodes@.len(),
                is_line_table(line_starts@, src@),
                forall|k: int| 0 <= k < i ==> node_fits(src@, #[trigger] self@[k]),
        {
            let node = &self.nodes[i];
            if !(check_slice(src, node.start_byte, node.end_byte) && check_column(
                src,
                line_starts,
                node.start_row,
                node.start_byte,
            ) && check_column(src, line_starts, node.end_row, node.end_byte)) {
                assert(!node_fits(src@, self@[i as int]));
                return false;
            }
        }
        true
    }

    /// The named children of the node `p`, in order.
    pub fn named_children(&self, p: usize) -> (r: Vec<usize>)
        requires
            p < self@.len(),
        ensures
            r@.map_values(|c: usize| c as int) == named_children(self@, p as int),
            forall|k: int| 0 <= k < r@.len() ==> p < #[trigger] r@[k] < self@.len(),
        decreases self@.len() - p,
    {
        let n = self.nodes.len();
        let floor = self.nodes[p].depth;
        let mut out: Vec<usize> = Vec::new();
        let mut own: usize = 0;
        let mut k: usize = p + 1;
        proof {
            assert(ints(out@) =~= Seq::<int>::empty());
        }
        while k < n && self.nodes[k].depth > floor
            invariant
                n == self.nodes@.len(),
                n == self@.len(),
                p < k <= n,
                own < k,
                floor == self.nodes@[p as int].depth,
                ints(out@) + found_from(self@, p as int, k as int) == found_from(
                    self@,
                    p as int,
                    p + 1,
                ),
                own + own_named_from(self@, p as int, k as int).len() == own_named(
                    self@,
                    p as int,
                ).len(),
            decreases n - k,
        {
            let node = &self.nodes[k];
            let ghost before = ints(out@);
            let ghost rest = found_from(self@, p as int, k + 1);
            if node.depth - 1 == floor {
                if node.named {
                    own = own + 1;
                    out.push(k);
                    proof {
                        assert(ints(out@) =~= before.push(k as int));
                        assert(before + (seq![k as int] + rest) =~= ints(out@) + rest);
                    }
                } else {
                    let mut inner = self.named_children(k);
                    let ghost kids = ints(inner@);
                    out.append(&mut inner);
                    proof {
                        assert(ints(out@) =~= before + kids);
                        assert(before + (kids + rest) =~= ints(out@) + rest);
                    }
                }
            }
            k = k + 1;
        }
        proof {
            assert(found_from(self@, p as int, k as int) =~= Seq::<int>::empty());
            assert(ints(out@) + Seq::<int>::empty() =~= ints(out@));
            assert(own_named_from(self@, p as int, k as int).len() == 0);
            lemma_found_from(self@, p as int, p + 1);
        }
        let ghost all = out@;
        out.truncate(own);
        proof {
            assert(ints(out@) =~= ints(all).take(own as int));
            assert forall|i: int| 0 <= i < out@.len() implies p < #[trigger] out@[i]
                < self@.len() by {
                assert(ints(out@)[i] == out@[i]);
                lemma_named_child_range(self@, p as int, i);
            }
        }
        out
    }

    /// The named children of `p` of the given kind, in order.
    pub fn children_of_kind(&self, p: usize, kind: &str) -> (r: Vec<usize>)
        requires
            p < self@.len(),
        ensures
            r@.map_values(|c: usize| c as int) == children_of_kind(self@, p as int, kind@),
            forall|k: int| 0 <= k < r@.len() ==> p < #[trigger] r@[k] < self@.len(),
    {
        let kids = self.named_children(p);
        let n = kids.len();
        let ghost list = named_children(self@, p as int);
        let mut out: Vec<usize> = Vec::new();
        proof {
            assert(out@.map_values(|c: usize| c as int) =~= Seq::<int>::empty());
            assert(list.take(0) =~= Seq::<int>::empty());
        }
        for i in 0..n
            invariant
                p < self@.len(),
                n == kids@.len(),
                list == named_children(self@, p as int),
                list == kids@.map_values(|c: usize| c as int),
                out@.map_values(|c: usize| c as int) == of_kind(
                    self@,
                    list.take(i as int),
                    kind@,
                ),
                forall|k: int| 0 <= k < out@.len() ==> p < #[trigger] out@[k] < self@.len(),
        {
            let c = kids[i];
            let ghost before = out@;
            proof {
                assert(list[i as int] == c);
                lemma_named_child_range(self@, p as int, i as int);
                assert(list.take(i + 1).drop_last() =~= list.take(i as int));
                assert(list.take(i + 1).last() == c);
            }
            if self.is_kind(c, kind) {
                out.push(c);
                proof {
                    assert(out@.map_values(|c: usize| c as int) =~= before.map_values(
                        |c: usize| c as int,
                    ).push(c as int));
                }
            }
        }
        proof {
            assert(list.take(n as int) =~= list);
        }
        out
    }

    /// The first child of `p` in the field `name`.
    pub fn child_by_field_name(&self, p: usize, name: &str) -> (r: Option<usize>)
        requires
            p < self@.len(),
        ensures
            match r {
                Some(c) => field_child(self@, p as int, name@) == Some(c as int) && p < c
                    < self@.len(),
                None => field_child(self@, p as int, name@) is None,
            },
    {
        let n = self.nodes.len();
        let floor = self.nodes[p].depth;
        let mut k: usize = p + 1;
        while k < n && self.nodes[k].depth > floor
            invariant
                n == self.nodes@.len(),
                p < k <= n,
                floor == self.nodes@[p as int].depth,
                field_child_from(self@, p as int, name@, k as int) == field_child(
                    self@,
                    p as int,
                    name@,
                ),
            decreases n - k,
        {
            let node = &self.nodes[k];
            if node.depth - 1 == floor {
                if let Some(f) = &node.field {
                    if str_eq(f.as_str(), name) {
                        return Some(k);
                    }
                }
            }
            k = k + 1;
        }
        None
    }

    /// Whether the node `p` has named children of its own.
    fn has_own_named(&self, p: usize) -> (r: bool)
        requires
            p < self@.len(),
        ensures
            r == (own_named(self@, p as int).len() > 0),
    {
        let n = self.nodes.len();
        let floor = self.nodes[p].depth;
        let mut k: usize = p + 1;
        while k < n && self.nodes[k].depth > floor
            invariant
                n == self.nodes@.len(),
                p < k <= n,
                floor == self.nodes@[p as int].depth,
                own_named_from(self@, p as int, k as int) == own_named(self@, p as int),
            decreases n - k,
        {
            let node = &self.nodes[k];
            if node.depth - 1 == floor && node.named {
                return true;
            }
            k = k + 1;
        }
        false
    }

    /// Whether the node `s` is named or has named children of its own.
    fn stands(&self, s: usize) -> (r: bool)
        requires
            s < self@.len(),
        ensures
            r == stands(self@, s as int),
    {
        self.nodes[s].named || self.has_own_named(s)
    }

    /// The last child of `p` that is named or has named children of its own.
    fn last_standing(&self, p: usize) -> (r: Option<usize>)
        requires
            p < self@.len(),
        ensures
            match r {
                Some(c) => last_standing_from(self@, p as int, p + 1) == Some(c as int) && p < c
                    < self@.len(),
                None => last_standing_from(self@, p as int, p + 1) is None,
            },
    {
        let n = self.nodes.len();
        let floor = self.nodes[p].depth;
        let mut best: Option<usize> = None;
        let mut k: usize = p + 1;
        while k < n && self.nodes[k].depth > floor
            invariant
                n == self.nodes@.len(),
                n == self@.len(),
                p < k <= n,
                floor == self.nodes@[p as int].depth,
                best matches Some(c) ==> p < c < n,
                last_standing_from(self@, p as int, p + 1) == (match last_standing_from(
                    self@,
                    p as int,
                    k as int,
                ) {
                    Some(c) => Some(c),
                    None => match best {
                        Some(c) => Some(c as int),
                        None => None,
                    },
                }),
            decreases n - k,
        {
            if self.nodes[k].depth - 1 == floor && self.stands(k) {
                best = Some(k);
            }
            k = k + 1;
        }
        best
    }

    /// What stands last at the node `s`.
    fn last_found(&self, s: usize) -> (r: usize)
        requires
            s < self@.len(),
            stands(self@, s as int),
        ensures
            r == last_found(self@, s as int),
            r < self@.len(),
        decreases self@.len() - s,
    {
        if self.nodes[s].named {
            return s;
        }
        proof {
            lemma_last_standing(self@, s as int, s + 1);
        }
        match self.last_standing(s) {
            Some(c) => self.last_found(c),
            None => s,
        }
    }

    /// The named sibling just before the node `i`.
    pub fn prev_named_sibling(&self, i: usize) -> (r: Option<usize>)
        requires
            i < self@.len(),
        ensures
            match r {
                Some(s) => prev_named(self@, i as int) == Some(s as int) && s < i,
                None => prev_named(self@, i as int) is None,
            },
    {
        let level = self.nodes[i].depth;
        let mut k: usize = i;
        while k > 0 && self.nodes[k - 1].depth >= level
            invariant
                k <= i < self.nodes@.len(),
                level == self.nodes@[i as int].depth,
                prev_standing_from(self@, i as int, k - 1) == prev_standing_from(
                    self@,
                    i as int,
                    i - 1,
                ),
            decreases k,
        {
            if self.nodes[k - 1].depth == level && self.stands(k - 1) {
                proof {
                    law_prev_named(self@, i as int);
                }
                return Some(self.last_found(k - 1));
            }
            k = k - 1;
        }
        None
    }

    /// The source text of the node `i`.
    pub fn text<'t>(&self, src: &'t str, i: usize) -> (r: &'t str)
        requires
            i < self@.len(),
            tree_fits(src@, self@),
        ensures
            r@ == node_text(src@, self@[i as int]),
    {
        let node = &self.nodes[i];
        assert(node_fits(src@, self@[i as int]));
        slice(src, node.start_byte, node.end_byte)
    }

    /// Whether the node `i` is of the given kind.
    pub fn is_kind(&self, i: usize, kind: &str) -> (r: bool)
        requires
            i < self@.len(),
        ensures
            r == (self@[i as int].kind == kind@),
    {
        str_eq(self.nodes[i].kind.as_str(), kind)
    }
}

} // verus!
