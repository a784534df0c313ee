//! What the text helpers do, said by what their results satisfy.

use vstd::prelude::*;
use vstd::utf8::{encode_utf8, encode_utf8_valid_utf8, valid_utf8_split};
use crate::docstring::{comment_text, comments_before, docstring_of, without_marks};
use crate::syntax::{node_fits, node_text, prev_named, NodeModel};
use crate::textutil::{
    base_name_of, base_start, decimal, digit_char, distinctive, is_path_separator, is_quoted,
    is_space, is_triple_quoted, is_upper_or_underscore, join_of, law_lines,
    lemma_boundary_in_prefix, line_starts_of, newline_count, slice_of, sliceable, trim_end_of,
    trim_of, trim_start_of, unquoted, utf16_units,
};

verus! {

/// The line starts of a text are 0 and the places right after its line feeds, in order.
pub proof fn law_line_starts(bytes: Seq<u8>)
    ensures
        forall|p: int| #[trigger]
            line_starts_of(bytes).contains(p) <==> (p == 0 || (0 < p <= bytes.len() && bytes[p - 1]
                == 0x0a)),
        forall|i: int, j: int|
            0 <= i < j < line_starts_of(bytes).len() ==> line_starts_of(bytes)[i] < line_starts_of(
                bytes,
            )[j],
        newline_count(bytes) + 1 == line_starts_of(bytes).len(),
    decreases bytes.len(),
{
    law_lines(bytes);
    if bytes.len() == 0 {
        assert forall|p: int| #[trigger] line_starts_of(bytes).contains(p) <==> (p == 0 || (0 < p
            <= bytes.len() && bytes[p - 1] == 0x0a)) by {
            assert(line_starts_of(bytes)[0] == 0);
        }
    } else {
        let front = bytes.drop_last();
        let before = line_starts_of(front);
        let all = line_starts_of(bytes);
        law_line_starts(front);
        assert forall|p: int| #[trigger] all.contains(p) <==> (p == 0 || (0 < p <= bytes.len()
            && bytes[p - 1] == 0x0a)) by {
            assert(before.contains(p) <==> (p == 0 || (0 < p <= front.len() && front[p - 1]
                == 0x0a)));
            if bytes.last() == 0x0a {
                lemma_push_contains(before, bytes.len() as int, p);
            }
            if 0 < p <= front.len() {
                assert(front[p - 1] == bytes[p - 1]);
            }
        }
    }
}

/// What a list holds after one more element.
pub proof fn lemma_push_contains(s: Seq<int>, x: int, p: int)
    ensures
        s.push(x).contains(p) <==> s.contains(p) || p == x,
{
    let r = s.push(x);
    if s.contains(p) {
        let n = choose|n: int| 0 <= n < s.len() && s[n] == p;
        assert(r[n] == p);
    }
    if p == x {
        assert(r[s.len() as int] == p);
    }
    if r.contains(p) {
        let n = choose|n: int| 0 <= n < r.len() && r[n] == p;
        if n < s.len() {
            assert(s[n] == p);
        }
    }
}

/// A character takes one UTF-16 code unit, or two where its number has more than 16 bits;
/// a text takes as many as its parts.
pub proof fn law_units(a: Seq<char>, b: Seq<char>, c: char)
    ensures
        utf16_units(Seq::<char>::empty()) == 0,
        utf16_units(seq![c]) == (if (c as u32) < 0x10000 {
            1nat
        } else {
            2nat
        }),
        utf16_units(a + b) == utf16_units(a) + utf16_units(b),
    decreases a.len(),
{
    assert(seq![c].drop_first() =~= Seq::<char>::empty());
    assert(utf16_units(seq![c].drop_first()) == 0);
    if a.len() == 0 {
        assert(a + b =~= b);
    } else {
        law_units(a.drop_first(), b, c);
        assert((a + b).drop_first() =~= a.drop_first() + b);
    }
}

/// The part of a text between two of its character boundaries has exactly the bytes
/// between them.
pub proof fn law_slices(s: Seq<char>, a: int, b: int)
    requires
        sliceable(s, a, b),
    ensures
        encode_utf8(slice_of(s, a, b)) == encode_utf8(s).subrange(a, b),
{
    let bytes = encode_utf8(s);
    encode_utf8_valid_utf8(s);
    lemma_boundary_in_prefix(bytes, a, b);
    let head = bytes.subrange(0, b);
    valid_utf8_split(head, a);
    assert(head.subrange(a, b) =~= bytes.subrange(a, b));
    vstd::utf8::decode_utf8_encode_utf8(bytes.subrange(a, b));
}

/// The text of a node that fits its file has exactly the bytes of the file from where the
/// node starts to where it ends.
pub proof fn law_node_text(src: Seq<char>, n: NodeModel)
    requires
        node_fits(src, n),
    ensures
        encode_utf8(node_text(src, n)) == encode_utf8(src).subrange(n.start_byte, n.end_byte),
{
    law_slices(src, n.start_byte, n.end_byte);
}

/// The number that a sequence of decimal digits stands for.
pub open spec fn number_of(digits: Seq<char>) -> int
    decreases digits.len(),
{
    if digits.len() == 0 {
        0
    } else {
        10 * number_of(digits.drop_last()) + (digits.last() as int - '0' as int)
    }
}

/// The decimal form of a number stands for it, in digits alone and without a zero at its
/// start but for that of zero itself.
pub proof fn law_decimal(n: nat)
    ensures
        number_of(decimal(n)) == n,
        decimal(n).len() >= 1,
        forall|i: int| 0 <= i < decimal(n).len() ==> '0' <= #[trigger] decimal(n)[i] <= '9',
        decimal(n)[0] == '0' ==> n == 0,
    decreases n,
{
    let all = decimal(n);
    if n < 10 {
        assert(all.drop_last() =~= Seq::<char>::empty());
        assert(number_of(all.drop_last()) == 0);
    } else {
        law_decimal(n / 10);
        let front = decimal(n / 10);
        assert(all.drop_last() =~= front);
        assert(all.last() == digit_char(n % 10));
        assert(all[0] == front[0]);
        assert forall|i: int| 0 <= i < all.len() implies '0' <= #[trigger] all[i] <= '9' by {
            if i < front.len() {
                assert(all[i] == front[i]);
            }
        }
    }
}

/// What follows the last path separator: a path is what comes before its base name, which
/// is nothing or ends with a separator, and the base name, which holds none.
pub proof fn law_base_name(path: Seq<char>)
    ensures
        exists|dir: Seq<char>|
            {
                &&& path == #[trigger] (dir + base_name_of(path))
                &&& dir.len() == 0 || dir.last() == '/' || dir.last() == '\\'
            },
        forall|i: int|
            0 <= i < base_name_of(path).len() ==> (#[trigger] base_name_of(path)[i]) != '/'
                && base_name_of(path)[i] != '\\',
{
    let n = base_start(path);
    lemma_base_start(path);
    let dir = path.take(n);
    assert(path =~= dir + base_name_of(path));
    assert forall|i: int| 0 <= i < base_name_of(path).len() implies (#[trigger] base_name_of(
        path,
    )[i]) != '/' && base_name_of(path)[i] != '\\' by {
        assert(base_name_of(path)[i] == path[n + i]);
        assert(!is_path_separator(path[n + i]));
    }
}

proof fn lemma_base_start(path: Seq<char>)
    ensures
        0 <= base_start(path) <= path.len(),
        base_start(path) > 0 ==> is_path_separator(path[base_start(path) - 1]),
        forall|i: int|
            base_start(path) <= i < path.len() ==> !is_path_separator(#[trigger] path[i]),
    decreases path.len(),
{
    if path.len() > 0 && !is_path_separator(path.last()) {
        let front = path.drop_last();
        lemma_base_start(front);
        let n = base_start(front);
        assert forall|i: int| n <= i < path.len() implies !is_path_separator(
            #[trigger] path[i],
        ) by {
            if i < front.len() {
                assert(front[i] == path[i]);
            }
        }
    }
}

/// Joining nothing gives nothing, joining one part gives that part, and joining more puts
/// the separator between what the first and the last of them give.
pub proof fn law_join(a: Seq<Seq<char>>, b: Seq<Seq<char>>, part: Seq<char>, sep: Seq<char>)
    ensures
        join_of(Seq::<Seq<char>>::empty(), sep) == Seq::<char>::empty(),
        join_of(seq![part], sep) == part,
        a.len() > 0 && b.len() > 0 ==> join_of(a + b, sep) == join_of(a, sep) + sep + join_of(
            b,
            sep,
        ),
    decreases b.len(),
{
    if a.len() > 0 && b.len() > 0 {
        let all = a + b;
        assert(all.last() == b.last());
        if b.len() == 1 {
            assert(all.drop_last() =~= a);
        } else {
            let front = b.drop_last();
            law_join(a, front, part, sep);
            assert(all.drop_last() =~= a + front);
            assert(join_of(all, sep) =~= join_of(a, sep) + sep + (join_of(front, sep) + sep
                + b.last()));
        }
    }
}

/// Whether `c` is a space, a tab, a line feed, a carriage return, a vertical tab or a form
/// feed.
pub open spec fn is_blank(c: char) -> bool {
    c == ' ' || c == '\t' || c == '\n' || c == '\r' || c == '\u{b}' || c == '\u{c}'
}

/// Whether every character of `s` is white space.
pub open spec fn all_blank(s: Seq<char>) -> bool {
    forall|i: int| 0 <= i < s.len() ==> is_blank(#[trigger] s[i])
}

/// Whether `r` is `s` without the white space around it.
pub open spec fn is_trimmed(s: Seq<char>, r: Seq<char>) -> bool {
    &&& r.len() > 0 ==> !is_blank(r[0]) && !is_blank(r.last())
    &&& exists|x: Seq<char>, y: Seq<char>|
        s == #[trigger] (x + r + y) && all_blank(x) && all_blank(y)
}

/// Trimming takes away white space at both ends, and all of it.
pub proof fn law_trim(s: Seq<char>)
    ensures
        is_trimmed(s, trim_of(s)),
{
    let mid = trim_start_of(s);
    let x = lemma_trim_start(s);
    let y = lemma_trim_end(mid);
    let r = trim_of(s);
    assert(s =~= x + r + y);
    if r.len() > 0 {
        assert(mid[0] == r[0]);
    }
}

proof fn lemma_trim_start(s: Seq<char>) -> (x: Seq<char>)
    ensures
        s == x + trim_start_of(s),
        all_blank(x),
        trim_start_of(s).len() > 0 ==> !is_blank(trim_start_of(s)[0]),
    decreases s.len(),
{
    if s.len() > 0 && is_space(s[0]) {
        let rest = lemma_trim_start(s.drop_first());
        let x = seq![s[0]] + rest;
        assert(s =~= seq![s[0]] + s.drop_first());
        assert(s =~= x + trim_start_of(s.drop_first()));
        x
    } else {
        let x = Seq::<char>::empty();
        assert(s =~= x + s);
        x
    }
}

proof fn lemma_trim_end(s: Seq<char>) -> (y: Seq<char>)
    ensures
        s == trim_end_of(s) + y,
        all_blank(y),
        trim_end_of(s).len() > 0 ==> !is_blank(trim_end_of(s).last()),
    decreases s.len(),
{
    if s.len() > 0 && is_space(s.last()) {
        let rest = lemma_trim_end(s.drop_last());
        let y = rest.push(s.last());
        assert(s =~= s.drop_last().push(s.last()));
        assert(s =~= trim_end_of(s.drop_last()) + y);
        y
    } else {
        let y = Seq::<char>::empty();
        assert(s =~= s + y);
        y
    }
}

/// What a comment says is its text without the number signs at its start, all of them, and
/// then without the white space around it.
pub proof fn law_comment_text(s: Seq<char>)
    ensures
        exists|marks: Seq<char>, rest: Seq<char>|
            {
                &&& s == #[trigger] (marks + rest)
                &&& forall|i: int| 0 <= i < marks.len() ==> #[trigger] marks[i] == '#'
                &&& rest.len() > 0 ==> rest[0] != '#'
                &&& is_trimmed(rest, comment_text(s))
            },
{
    let marks = lemma_marks(s);
    let rest = without_marks(s);
    law_trim(rest);
    assert(s == marks + rest);
}

proof fn lemma_marks(s: Seq<char>) -> (marks: Seq<char>)
    ensures
        s == marks + without_marks(s),
        forall|i: int| 0 <= i < marks.len() ==> #[trigger] marks[i] == '#',
        without_marks(s).len() > 0 ==> without_marks(s)[0] != '#',
    decreases s.len(),
{
    if s.len() > 0 && s[0] == '#' {
        let rest = lemma_marks(s.drop_first());
        let marks = seq!['#'] + rest;
        assert(s =~= seq![s[0]] + s.drop_first());
        assert(s =~= marks + without_marks(s.drop_first()));
        marks
    } else {
        let marks = Seq::<char>::empty();
        assert(s =~= marks + s);
        marks
    }
}

/// Whether `nodes` are the comments that stand as siblings right before `i`, first to last.
pub open spec fn is_comment_run(t: Seq<NodeModel>, i: int, nodes: Seq<int>) -> bool {
    &&& forall|k: int|
        0 <= k < nodes.len() ==> 0 <= #[trigger] nodes[k] < i && t[nodes[k]].kind == "comment"@
            && prev_named(t, after_comment(nodes, k, i)) == Some(nodes[k])
    &&& !is_after_comment(t, if nodes.len() > 0 {
        nodes[0]
    } else {
        i
    })
}

/// What follows the comment number `k` of a run before `i`.
pub open spec fn after_comment(nodes: Seq<int>, k: int, i: int) -> int {
    if k + 1 < nodes.len() {
        nodes[k + 1]
    } else {
        i
    }
}

/// Whether a comment stands right before `i`.
pub open spec fn is_after_comment(t: Seq<NodeModel>, i: int) -> bool {
    prev_named(t, i) matches Some(s) && 0 <= s < i && t[s].kind == "comment"@
}

/// The documentation of a declaration is what the comments right before it say, all of
/// them, one line each and without the white space around the whole; without comments
/// there is none.
pub proof fn law_docstring(src: Seq<char>, t: Seq<NodeModel>, i: int)
    ensures
        exists|nodes: Seq<int>, lines: Seq<Seq<char>>|
            {
                &&& #[trigger] is_comment_run(t, i, nodes)
                &&& lines.len() == nodes.len()
                &&& forall|k: int|
                    0 <= k < nodes.len() ==> #[trigger] lines[k] == comment_text(
                        node_text(src, t[nodes[k]]),
                    )
                &&& match docstring_of(src, t, i) {
                    None => nodes.len() == 0,
                    Some(s) => nodes.len() > 0 && is_trimmed(#[trigger] join_of(lines, "\n"@), s),
                }
            },
{
    let nodes = lemma_comment_run(src, t, i);
    let lines = comments_before(src, t, i);
    law_trim(join_of(lines, "\n"@));
    assert(is_comment_run(t, i, nodes));
}

proof fn lemma_comment_run(src: Seq<char>, t: Seq<NodeModel>, i: int) -> (nodes: Seq<int>)
    ensures
        is_comment_run(t, i, nodes),
        comments_before(src, t, i).len() == nodes.len(),
        forall|k: int|
            0 <= k < nodes.len() ==> #[trigger] comments_before(src, t, i)[k] == comment_text(
                node_text(src, t[nodes[k]]),
            ),
    decreases i,
{
    if is_after_comment(t, i) {
        let s = prev_named(t, i)->0;
        let before = lemma_comment_run(src, t, s);
        let nodes = before.push(s);
        let lines = comments_before(src, t, i);
        assert forall|k: int| 0 <= k < nodes.len() implies 0 <= #[trigger] nodes[k] < i
            && t[nodes[k]].kind == "comment"@ && prev_named(t, after_comment(nodes, k, i)) == Some(
            nodes[k],
        ) by {
            if k < before.len() {
                assert(nodes[k] == before[k]);
                assert(after_comment(nodes, k, i) == after_comment(before, k, s));
            }
        }
        assert forall|k: int| 0 <= k < nodes.len() implies #[trigger] lines[k] == comment_text(
            node_text(src, t[nodes[k]]),
        ) by {
            if k < before.len() {
                assert(lines[k] == comments_before(src, t, s)[k]);
                assert(nodes[k] == before[k]);
            }
        }
        if before.len() > 0 {
            assert(nodes[0] == before[0]);
        }
        nodes
    } else {
        seq![]
    }
}

/// `n` quotes.
pub open spec fn quotes(q: char, n: nat) -> Seq<char> {
    Seq::new(n, |i: int| q)
}

/// A string literal, with or without an `r` before it, holds what stands between its
/// delimiters: three quotes of one sort on either side, else one. Any other text holds
/// itself.
pub proof fn law_unquoted(raw: bool, q: char, text: Seq<char>, other: Seq<char>)
    requires
        q == '"' || q == '\'',
    ensures
        unquoted(raw_mark(raw) + quotes(q, 3) + text + quotes(q, 3)) == text,
        !is_triple_quoted(quotes(q, 1) + text + quotes(q, 1)) ==> unquoted(
            raw_mark(raw) + quotes(q, 1) + text + quotes(q, 1),
        ) == text,
        (forall|mark: bool, p: char, inner: Seq<char>|
            (p == '"' || p == '\'') ==> other != #[trigger] (raw_mark(mark) + quotes(p, 1) + inner
                + quotes(p, 1))) ==> unquoted(other) == other,
{
    let mark = raw_mark(raw);
    let a: int = mark.len() as int;
    let three = mark + quotes(q, 3) + text + quotes(q, 3);
    let one = mark + quotes(q, 1) + text + quotes(q, 1);
    assert(three.skip(a) =~= quotes(q, 3) + text + quotes(q, 3));
    assert(three.subrange(a + 3, three.len() - 3) =~= text);
    assert(one.skip(a) =~= quotes(q, 1) + text + quotes(q, 1));
    assert(one.subrange(a + 1, one.len() - 1) =~= text);
    assert(is_triple_quoted(three.skip(a))) by {
        let s = three.skip(a);
        assert(s[0] == q && s[1] == q && s[2] == q);
        assert(s[s.len() - 1] == q && s[s.len() - 2] == q && s[s.len() - 3] == q);
    }
    assert(is_quoted(one.skip(a))) by {
        let s = one.skip(a);
        assert(s[0] == q && s.last() == q);
    }
    assert(raw ==> three[0] == 'r' && one[0] == 'r');
    assert(!raw ==> three[0] == q && one[0] == q);
    if forall|mark: bool, p: char, inner: Seq<char>|
        (p == '"' || p == '\'') ==> other != #[trigger] (raw_mark(mark) + quotes(p, 1) + inner
            + quotes(p, 1)) {
        let marked = other.len() > 0 && other[0] == 'r';
        let b: int = if marked {
            1
        } else {
            0
        };
        let s = other.skip(b);
        if is_quoted(s) {
            let p = s[0];
            let inner = s.subrange(1, s.len() - 1);
            assert(other =~= raw_mark(marked) + quotes(p, 1) + inner + quotes(p, 1));
            assert(false);
        }
        if is_triple_quoted(s) {
            assert(is_quoted(s));
        }
    }
}

/// The mark of a raw string, where it is one.
pub open spec fn raw_mark(raw: bool) -> Seq<char> {
    if raw {
        seq!['r']
    } else {
        seq![]
    }
}

/// A name is distinctive exactly where it holds a capital ASCII letter or an underscore.
pub proof fn law_distinctive(a: Seq<char>, c: char, b: Seq<char>)
    ensures
        ('A' <= c <= 'Z' || c == '_') ==> distinctive(a + seq![c] + b),
        distinctive(a + b) <==> distinctive(a) || distinctive(b),
{
    let one = a + seq![c] + b;
    assert(one[a.len() as int] == c);
    let both = a + b;
    if distinctive(a) {
        let i = choose|i: int| 0 <= i < a.len() && is_upper_or_underscore(#[trigger] a[i]);
        assert(both[i] == a[i]);
    }
    if distinctive(b) {
        let i = choose|i: int| 0 <= i < b.len() && is_upper_or_underscore(#[trigger] b[i]);
        assert(both[i + a.len()] == b[i]);
    }
    if distinctive(both) {
        let i = choose|i: int| 0 <= i < both.len() && is_upper_or_underscore(#[trigger] both[i]);
        if i < a.len() {
            assert(a[i] == both[i]);
        } else {
            assert(b[i - a.len()] == both[i]);
        }
    }
}

} // verus!
