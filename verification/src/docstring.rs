//! Documentation comments: the run of comments just before a declaration.

use vstd::prelude::*;
use crate::syntax::{node_text, prev_named, tree_fits, NodeModel, SyntaxTree};
use crate::textutil::{chars_of, join, join_of, texts, trim_of, trimmed};

verus! {

/// `s` without the number signs at its start.
pub open spec fn without_marks(s: Seq<char>) -> Seq<char>
    decreases s.len(),
{
    if s.len() > 0 && s[0] == '#' {
        without_marks(s.drop_first())
    } else {
        s
    }
}

/// What a comment says: its text without the leading marks and the white space
/// around it.
pub open spec fn comment_text(s: Seq<char>) -> Seq<char> {
    trim_of(without_marks(s))
}

/// What the comments say that stand as siblings right before `i`, first to last.
pub open spec fn comments_before(src: Seq<char>, t: Seq<NodeModel>, i: int) -> Seq<Seq<char>>
    decreases i,
{
    match prev_named(t, i) {
        Some(s) => if 0 <= s < i && t[s].kind == "comment"@ {
            comments_before(src, t, s).push(comment_text(node_text(src, t[s])))
        } else {
            seq![]
        },
        None => seq![],
    }
}

/// The documentation of the declaration `i`: the comments right before it, one
/// line each.
pub open spec fn docstring_of(src: Seq<char>, t: Seq<NodeModel>, i: int) -> Option<Seq<char>> {
    let lines = comments_before(src, t, i);
    if lines.len() == 0 {
        None
    } else {
        Some(trim_of(join_of(lines, "\n"@)))
    }
}

/// What a comment says.
pub fn clean_comment(text: &str) -> (r: String)
    ensures
        r@ == comment_text(text@),
{
    let chars = chars_of(text);
    let n = chars.len();
    let mut a: usize = 0;
    proof {
        assert(text@.skip(0) =~= text@);
    }
    while a < n && chars[a] == '#'
        invariant
            n == chars@.len(),
            chars@ == text@,
            a <= n,
            without_marks(text@.skip(a as int)) == without_marks(text@),
        decreases n - a,
    {
        proof {
            assert(text@.skip(a as int).drop_first() =~= text@.skip(a + 1));
        }
        a = a + 1;
    }
    trimmed(&chars, a)
}

/// The documentation of the declaration `node`.
pub fn preceding_docstring(tree: &SyntaxTree, node: usize, src: &str) -> (r: Option<String>)
    requires
        node < tree@.len(),
        tree_fits(src@, tree@),
    ensures
        match r {
            Some(s) => docstring_of(src@, tree@, node as int) == Some(s@),
            None => docstring_of(src@, tree@, node as int) is None,
        },
{
    let mut found: Vec<String> = Vec::new();
    let mut at: usize = node;
    let mut more = true;
    proof {
        assert(comments_before(src@, tree@, node as int) + texts(found@).reverse()
            =~= comments_before(src@, tree@, node as int));
    }
    while more
        invariant
            at <= node < tree@.len(),
            tree_fits(src@, tree@),
            more ==> comments_before(src@, tree@, at as int) + texts(found@).reverse()
                == comments_before(src@, tree@, node as int),
            !more ==> texts(found@).reverse() == comments_before(src@, tree@, node as int),
        decreases at + (if more { 1int } else { 0int }),
    {
        let ghost before = found@;
        match tree.prev_named_sibling(at) {
            Some(s) => {
                if tree.is_kind(s, "comment") {
                    found.push(clean_comment(tree.text(src, s)));
                    proof {
                        assert(comments_before(src@, tree@, s as int) + texts(found@).reverse()
                            =~= comments_before(src@, tree@, at as int) + texts(before).reverse());
                    }
                    at = s;
                } else {
                    proof {
                        assert(Seq::<Seq<char>>::empty() + texts(found@).reverse() =~= texts(
                            found@,
                        ).reverse());
                    }
                    more = false;
                }
            },
            None => {
                proof {
                    assert(Seq::<Seq<char>>::empty() + texts(found@).reverse() =~= texts(
                        found@,
                    ).reverse());
                }
                more = false;
            },
        }
    }
    let ghost all = texts(found@).reverse();
    let total = found.len();
    if total == 0 {
        return None;
    }
    let mut lines: Vec<String> = Vec::new();
    for k in 0..total
        invariant
            total == all.len(),
            found@.len() == total - k,
            texts(lines@) + texts(found@).reverse() == all,
    {
        let ghost rest = found@;
        let ghost done = lines@;
        match found.pop() {
            Some(line) => {
                lines.push(line);
                proof {
                    assert(texts(lines@) + texts(found@).reverse() =~= texts(done) + texts(
                        rest,
                    ).reverse());
                }
            },
            None => {},
        }
    }
    proof {
        assert(texts(lines@) =~= all);
    }
    let joined = join(&lines, "\n");
    let chars = chars_of(joined.as_str());
    proof {
        assert(chars@.skip(0) =~= chars@);
    }
    Some(trimmed(&chars, 0))
}

} // verus!
