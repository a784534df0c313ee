//! Text helpers: byte-exact slicing, line tables, UTF-16 columns and name tests.

use vstd::prelude::*;
use vstd::string::StringExecFns;
use vstd::utf8::*;

verus! {

/// `String::push` appends the given character to the end of the string.
pub assume_specification[ String::push ](s: &mut String, ch: char)
    ensures
        final(s)@ == old(s)@.push(ch),
;

/// The characters of `s`, one by one.
pub fn chars_of(s: &str) -> (r: Vec<char>)
    ensures
        r@ == s@,
{
    let mut out: Vec<char> = Vec::new();
    for c in it: s.chars()
        invariant
            out@ == it.seq().take(it.index() as int),
            it.seq() == s@,
    {
        proof {
            assert(it.seq().take(it.index() as int).push(c) =~= it.seq().take(it.index() + 1));
        }
        out.push(c);
    }
    proof {
        assert(s@.take(s@.len() as int) =~= s@);
    }
    out
}

/// Whether two strings hold the same characters.
pub fn str_eq(a: &str, b: &str) -> (r: bool)
    ensures
        r == (a@ == b@),
{
    let x = a.as_bytes();
    let y = b.as_bytes();
    proof {
        encode_utf8_decode_utf8(a@);
        encode_utf8_decode_utf8(b@);
    }
    if x.len() != y.len() {
        return false;
    }
    let n = x.len();
    for i in 0..n
        invariant
            n == x@.len(),
            n == y@.len(),
            x@ == encode_utf8(a@),
            y@ == encode_utf8(b@),
            forall|k: int| 0 <= k < i ==> x@[k] == y@[k],
    {
        if x[i] != y[i] {
            return false;
        }
    }
    proof {
        assert(x@ =~= y@);
    }
    true
}

/// Whether the bytes from `a` up to `b` of the UTF-8 form of `s` are whole characters.
pub open spec fn sliceable(s: Seq<char>, a: int, b: int) -> bool {
    &&& a <= b
    &&& is_char_boundary(encode_utf8(s), a)
    &&& is_char_boundary(encode_utf8(s), b)
}

/// The characters held by the bytes from `a` up to `b` of the UTF-8 form of `s`.
pub open spec fn slice_of(s: Seq<char>, a: int, b: int) -> Seq<char> {
    decode_utf8(encode_utf8(s).subrange(a, b))
}

proof fn lemma_boundary_range(bytes: Seq<u8>, i: int)
    requires
        valid_utf8(bytes),
        is_char_boundary(bytes, i),
    ensures
        0 <= i <= bytes.len(),
{
}

/// The boundaries of a text up to one of them are boundaries of that part.
pub proof fn lemma_boundary_in_prefix(bytes: Seq<u8>, a: int, b: int)
    requires
        valid_utf8(bytes),
        a <= b,
        is_char_boundary(bytes, a),
        is_char_boundary(bytes, b),
    ensures
        valid_utf8(bytes.subrange(0, b)),
        is_char_boundary(bytes.subrange(0, b), a),
{
    lemma_boundary_range(bytes, a);
    lemma_boundary_range(bytes, b);
    valid_utf8_split(bytes, b);
    let head = bytes.subrange(0, b);
    if a == b {
        is_char_boundary_start_end_of_seq(head);
    } else {
        is_char_boundary_iff_not_is_continuation_byte(bytes, a);
        is_char_boundary_iff_not_is_continuation_byte(head, a);
        assert(head[a] == bytes[a]);
    }
}

/// The part of `s` between two byte offsets.
pub fn slice<'a>(s: &'a str, a: usize, b: usize) -> (r: &'a str)
    requires
        sliceable(s@, a as int, b as int),
    ensures
        r@ == slice_of(s@, a as int, b as int),
        encode_utf8(r@) == encode_utf8(s@).subrange(a as int, b as int),
{
    proof {
        encode_utf8_valid_utf8(s@);
        lemma_boundary_in_prefix(encode_utf8(s@), a as int, b as int);
        lemma_boundary_range(encode_utf8(s@), b as int);
    }
    let (head, _) = s.split_at(b);
    let (_, mid) = head.split_at(a);
    proof {
        encode_utf8_decode_utf8(mid@);
        assert(encode_utf8(s@).subrange(0, b as int).subrange(a as int, b as int)
            =~= encode_utf8(s@).subrange(a as int, b as int));
    }
    mid
}

/// The number of UTF-16 code units that encode one character.
pub open spec fn char_units(c: char) -> nat {
    if c as u32 >= 0x10000 {
        2
    } else {
        1
    }
}

/// The number of UTF-16 code units that encode a text.
pub open spec fn utf16_units(s: Seq<char>) -> nat
    decreases s.len(),
{
    if s.len() == 0 {
        0
    } else {
        char_units(s[0]) + utf16_units(s.drop_first())
    }
}

/// A text has at least as many UTF-8 bytes as UTF-16 code units.
pub proof fn lemma_units_within_bytes(s: Seq<char>)
    ensures
        utf16_units(s) <= encode_utf8(s).len(),
    decreases s.len(),
{
    if s.len() > 0 {
        lemma_units_within_bytes(s.drop_first());
        char_is_scalar(s[0]);
    }
}

/// The length of `s` in UTF-16 code units.
pub fn utf16_len(s: &str) -> (r: usize)
    ensures
        r == utf16_units(s@),
{
    let bound = s.as_bytes().len();
    proof {
        lemma_units_within_bytes(s@);
    }
    let chars = chars_of(s);
    let n = chars.len();
    let mut units: usize = 0;
    proof {
        assert(s@.skip(0) =~= s@);
    }
    for i in 0..n
        invariant
            n == chars@.len(),
            chars@ == s@,
            units + utf16_units(s@.skip(i as int)) == utf16_units(s@),
            utf16_units(s@) <= bound,
    {
        proof {
            assert(s@.skip(i as int).drop_first() =~= s@.skip(i + 1));
        }
        units = units + (if chars[i] as u32 >= 0x10000 {
            2usize
        } else {
            1usize
        });
    }
    proof {
        assert(s@.skip(n as int) =~= Seq::<char>::empty());
    }
    units
}

/// The byte offset at which each line starts: 0, and one past every line feed.
pub open spec fn line_starts_of(bytes: Seq<u8>) -> Seq<int>
    decreases bytes.len(),
{
    if bytes.len() == 0 {
        seq![0]
    } else if bytes.last() == 0x0a {
        line_starts_of(bytes.drop_last()).push(bytes.len() as int)
    } else {
        line_starts_of(bytes.drop_last())
    }
}

/// The number of line feeds in `bytes`.
pub open spec fn newline_count(bytes: Seq<u8>) -> nat
    decreases bytes.len(),
{
    if bytes.len() == 0 {
        0
    } else {
        newline_count(bytes.drop_last()) + (if bytes.last() == 0x0a {
            1nat
        } else {
            0nat
        })
    }
}

/// A text has one line more than line feeds. Its first line starts at 0, every other
/// line starts right after a line feed, and later lines start later.
pub proof fn law_lines(bytes: Seq<u8>)
    ensures
        line_starts_of(bytes).len() == newline_count(bytes) + 1,
        line_starts_of(bytes)[0] == 0,
        forall|i: int|
            1 <= i < line_starts_of(bytes).len() ==> 0 < #[trigger] line_starts_of(bytes)[i]
                <= bytes.len() && bytes[line_starts_of(bytes)[i] - 1] == 0x0a,
        forall|i: int, j: int|
            0 <= i < j < line_starts_of(bytes).len() ==> line_starts_of(bytes)[i] < line_starts_of(
                bytes,
            )[j],
    decreases bytes.len(),
{
    if bytes.len() > 0 {
        let front = bytes.drop_last();
        law_lines(front);
        let old_starts = line_starts_of(front);
        let starts = line_starts_of(bytes);
        assert forall|i: int| 1 <= i < starts.len() implies 0 < #[trigger] starts[i] <= bytes.len()
            && bytes[starts[i] - 1] == 0x0a by {
            if i < old_starts.len() {
                assert(old_starts[i] == starts[i]);
                assert(front[starts[i] - 1] == bytes[starts[i] - 1]);
            }
        }
        assert forall|i: int, j: int| 0 <= i < j < starts.len() implies starts[i] < starts[j] by {
            assert(old_starts[i] == starts[i]);
            if j < old_starts.len() {
                assert(old_starts[j] == starts[j]);
            }
        }
    }
}

/// Whether `v` holds the line starts of the text `src`.
pub open spec fn is_line_table(v: Seq<usize>, src: Seq<char>) -> bool {
    let starts = line_starts_of(encode_utf8(src));
    &&& v.len() == starts.len()
    &&& forall|i: int| 0 <= i < v.len() ==> #[trigger] v[i] == starts[i]
}

/// The table of line starts of `src`.
pub fn line_starts(src: &str) -> (r: Vec<usize>)
    ensures
        is_line_table(r@, src@),
{
    let bytes = src.as_bytes();
    let n = bytes.len();
    let mut out: Vec<usize> = Vec::new();
    out.push(0);
    for i in 0..n
        invariant
            n == bytes@.len(),
            out@.len() == line_starts_of(bytes@.take(i as int)).len(),
            forall|k: int|
                0 <= k < out@.len() ==> #[trigger] out@[k] == line_starts_of(
                    bytes@.take(i as int),
                )[k],
    {
        proof {
            assert(bytes@.take(i + 1).drop_last() =~= bytes@.take(i as int));
        }
        if bytes[i] == 0x0a {
            out.push(i + 1);
        }
    }
    proof {
        assert(bytes@.take(n as int) =~= bytes@);
    }
    out
}

/// Counts the line feeds of `src`.
pub fn count_newlines(src: &str) -> (r: usize)
    ensures
        r == newline_count(encode_utf8(src@)),
{
    let bytes = src.as_bytes();
    let n = bytes.len();
    let mut count: usize = 0;
    for i in 0..n
        invariant
            n == bytes@.len(),
            count == newline_count(bytes@.take(i as int)),
            count <= i,
    {
        proof {
            assert(bytes@.take(i + 1).drop_last() =~= bytes@.take(i as int));
        }
        if bytes[i] == 0x0a {
            count = count + 1;
        }
    }
    proof {
        assert(bytes@.take(n as int) =~= bytes@);
    }
    count
}

/// Whether `row` is a line of `src` that starts at or before the character
/// boundary `byte`.
pub open spec fn has_column(src: Seq<char>, row: int, byte: int) -> bool {
    let starts = line_starts_of(encode_utf8(src));
    &&& 0 <= row < starts.len()
    &&& sliceable(src, starts[row], byte)
}

/// The column of the byte offset `byte` on the line `row`, in UTF-16 code units.
/// Columns are 32-bit values.
pub open spec fn column_of(src: Seq<char>, row: int, byte: int) -> u32 {
    utf16_units(slice_of(src, line_starts_of(encode_utf8(src))[row], byte)) as u32
}

/// The UTF-16 column of a byte offset on a line.
pub fn col16(src: &str, line_starts: &Vec<usize>, row: usize, byte: usize) -> (r: u32)
    requires
        is_line_table(line_starts@, src@),
        has_column(src@, row as int, byte as int),
    ensures
        r == column_of(src@, row as int, byte as int),
{
    let start = line_starts[row];
    utf16_len(slice(src, start, byte)) as u32
}

/// Whether `name` holds an ASCII capital letter or an underscore.
pub open spec fn distinctive(name: Seq<char>) -> bool {
    exists|i: int| 0 <= i < name.len() && is_upper_or_underscore(#[trigger] name[i])
}

/// Whether `c` is an ASCII capital letter or an underscore.
pub open spec fn is_upper_or_underscore(c: char) -> bool {
    'A' <= c <= 'Z' || c == '_'
}

/// Whether `name` holds an ASCII capital letter or an underscore.
pub fn has_upper_or_underscore(name: &str) -> (r: bool)
    ensures
        r == distinctive(name@),
{
    let chars = chars_of(name);
    let n = chars.len();
    for i in 0..n
        invariant
            n == chars@.len(),
            chars@ == name@,
            forall|k: int| 0 <= k < i ==> !is_upper_or_underscore(#[trigger] name@[k]),
    {
        let c = chars[i];
        if ('A' <= c && c <= 'Z') || c == '_' {
            assert(is_upper_or_underscore(name@[i as int]));
            return true;
        }
    }
    false
}

/// Whether an identifier may start with `c`.
pub open spec fn is_word_start(c: char) -> bool {
    'A' <= c <= 'Z' || 'a' <= c <= 'z' || c == '_' || c == '$'
}

/// Whether an identifier may hold `c`.
pub open spec fn is_word_char(c: char) -> bool {
    is_word_start(c) || '0' <= c <= '9'
}

/// Whether `name` is a single identifier: a letter, `_` or `$`, then letters,
/// digits, `_` or `$`.
pub open spec fn simple_name(name: Seq<char>) -> bool {
    &&& name.len() > 0
    &&& is_word_start(name[0])
    &&& forall|i: int| 0 <= i < name.len() ==> is_word_char(#[trigger] name[i])
}

fn word_start(c: char) -> (r: bool)
    ensures
        r == is_word_start(c),
{
    ('A' <= c && c <= 'Z') || ('a' <= c && c <= 'z') || c == '_' || c == '$'
}

/// Whether `name` is a single identifier.
pub fn is_simple_name(name: &str) -> (r: bool)
    ensures
        r == simple_name(name@),
{
    let chars = chars_of(name);
    let n = chars.len();
    if n == 0 || !word_start(chars[0]) {
        return false;
    }
    for i in 0..n
        invariant
            n == chars@.len(),
            chars@ == name@,
            forall|k: int| 0 <= k < i ==> is_word_char(#[trigger] name@[k]),
    {
        let c = chars[i];
        if !(word_start(c) || ('0' <= c && c <= '9')) {
            assert(!is_word_char(name@[i as int]));
            return false;
        }
    }
    true
}

/// Whether `word` occurs in `text` at position `i`.
pub open spec fn occurs_at(text: Seq<char>, word: Seq<char>, i: int) -> bool {
    0 <= i && i + word.len() <= text.len() && text.subrange(i, i + word.len()) == word
}

/// Whether `word` occurs in `text`.
pub open spec fn occurs_in(text: Seq<char>, word: Seq<char>) -> bool {
    exists|i: int| occurs_at(text, word, i)
}

/// Whether `text` holds `word` as a contiguous part.
pub fn contains_word(text: &str, word: &str) -> (r: bool)
    ensures
        r == occurs_in(text@, word@),
{
    let t = chars_of(text);
    let w = chars_of(word);
    if w.len() > t.len() {
        return false;
    }
    let n = t.len();
    let m = w.len();
    if m == 0 {
        assert(text@.subrange(0, 0) =~= word@);
        assert(occurs_at(text@, word@, 0));
        return true;
    }
    for i in 0..n - m + 1
        invariant
            n == t@.len(),
            m == w@.len(),
            0 < m <= n,
            t@ == text@,
            w@ == word@,
            forall|k: int| 0 <= k < i ==> !occurs_at(text@, word@, k),
    {
        let mut j: usize = 0;
        while j < m && t[i + j] == w[j]
            invariant
                n == t@.len(),
                m == w@.len(),
                t@ == text@,
                w@ == word@,
                j <= m,
                i + m <= n,
                forall|k: int| 0 <= k < j ==> text@[i + k] == #[trigger] word@[k],
            decreases m - j,
        {
            j = j + 1;
        }
        if j == m {
            assert(text@.subrange(i as int, i + m) =~= word@);
            assert(occurs_at(text@, word@, i as int));
            return true;
        }
        assert(text@.subrange(i as int, i + m)[j as int] != word@[j as int]);
    }
    false
}

/// The number of characters of the longest prefix of `s` that takes at most `budget`
/// UTF-16 code units.
pub open spec fn prefix_within(s: Seq<char>, budget: nat) -> nat
    decreases s.len(),
{
    if s.len() == 0 || char_units(s[0]) > budget {
        0
    } else {
        1 + prefix_within(s.drop_first(), (budget - char_units(s[0])) as nat)
    }
}

/// How many UTF-16 code units of an initializer a signature shows.
pub const INIT_SIGNATURE_UNITS: usize = 100;

/// The signature of a value: `= ` and the start of its initializer, with an
/// ellipsis where the initializer fills the allowance.
pub open spec fn init_signature_of(text: Seq<char>) -> Seq<char> {
    let head = text.take(prefix_within(text, INIT_SIGNATURE_UNITS as nat) as int);
    if utf16_units(text) >= INIT_SIGNATURE_UNITS {
        "= "@ + head + "..."@
    } else {
        "= "@ + head
    }
}

/// The prefix within a budget takes at most that many UTF-16 code units, and one
/// character more would take more than it.
pub proof fn law_prefix_within(s: Seq<char>, budget: nat)
    ensures
        prefix_within(s, budget) <= s.len(),
        utf16_units(s.take(prefix_within(s, budget) as int)) <= budget,
        prefix_within(s, budget) < s.len() ==> utf16_units(
            s.take((prefix_within(s, budget) + 1) as int),
        ) > budget,
    decreases s.len(),
{
    let n = prefix_within(s, budget) as int;
    if s.len() > 0 && char_units(s[0]) <= budget {
        law_prefix_within(s.drop_first(), (budget - char_units(s[0])) as nat);
        assert(s.take(n).drop_first() =~= s.drop_first().take(n - 1));
        if n < s.len() {
            assert(s.take(n + 1).drop_first() =~= s.drop_first().take(n));
        }
    } else if s.len() > 0 {
        assert(s.take(1).drop_first() =~= Seq::<char>::empty());
    }
}

/// The signature shown for a variable or constant with the initializer `text`.
pub fn init_signature(text: &str) -> (r: String)
    ensures
        r@ == init_signature_of(text@),
{
    let chars = chars_of(text);
    let n = chars.len();
    let mut out = String::new();
    out.append("= ");
    let mut i: usize = 0;
    let mut left: usize = INIT_SIGNATURE_UNITS;
    proof {
        assert(text@.skip(0) =~= text@);
        assert(text@.take(0) =~= Seq::<char>::empty());
        law_prefix_within(text@, INIT_SIGNATURE_UNITS as nat);
    }
    let mut open = true;
    while i < n && open
        invariant
            n == chars@.len(),
            chars@ == text@,
            0 <= i <= n,
            left <= INIT_SIGNATURE_UNITS,
            out@ == "= "@ + text@.take(i as int),
            open ==> i + prefix_within(text@.skip(i as int), left as nat) == prefix_within(
                text@,
                INIT_SIGNATURE_UNITS as nat,
            ),
            !open ==> i == prefix_within(text@, INIT_SIGNATURE_UNITS as nat),
        decreases n - i + (if open { 1int } else { 0int }),
    {
        let c = chars[i];
        let units: usize = if c as u32 >= 0x10000 {
            2
        } else {
            1
        };
        if units > left {
            open = false;
        } else {
            proof {
                assert(text@.skip(i as int).drop_first() =~= text@.skip(i + 1));
                assert(text@.take(i as int).push(c) =~= text@.take(i + 1));
                assert(("= "@ + text@.take(i as int)).push(c) =~= "= "@ + text@.take(i as int).push(
                    c,
                ));
            }
            out.push(c);
            left = left - units;
            i = i + 1;
        }
    }
    if utf16_len(text) >= INIT_SIGNATURE_UNITS {
        out.append("...");
    }
    out
}

/// The decimal digits of `n`.
pub open spec fn decimal(n: nat) -> Seq<char>
    decreases n,
{
    if n < 10 {
        seq![digit_char(n)]
    } else {
        decimal(n / 10).push(digit_char(n % 10))
    }
}

/// The character of a decimal digit.
pub open spec fn digit_char(d: nat) -> char {
    (48 + d) as char
}

/// Appends the decimal digits of `n` to `out`.
pub fn append_decimal(out: &mut String, n: u32)
    ensures
        final(out)@ == old(out)@ + decimal(n as nat),
    decreases n,
{
    let ghost before = out@;
    if n >= 10 {
        append_decimal(out, n / 10);
    }
    let d = (48u8 + (n % 10) as u8) as char;
    out.push(d);
    proof {
        if n >= 10 {
            assert(out@ =~= before + decimal(n as nat));
        } else {
            assert(out@ =~= before + decimal(n as nat));
        }
    }
}

/// Whether `c` separates the components of a path.
pub open spec fn is_path_separator(c: char) -> bool {
    c == '/' || c == '\\'
}

/// The position just past the last path separator of `path`.
pub open spec fn base_start(path: Seq<char>) -> int
    decreases path.len(),
{
    if path.len() == 0 {
        0
    } else if is_path_separator(path.last()) {
        path.len() as int
    } else {
        base_start(path.drop_last())
    }
}

/// What follows the last path separator of `path`.
pub open spec fn base_name_of(path: Seq<char>) -> Seq<char> {
    path.skip(base_start(path))
}

/// The last component of a path.
pub fn base_name(path: &str) -> (r: String)
    ensures
        r@ == base_name_of(path@),
{
    let chars = chars_of(path);
    let mut start: usize = chars.len();
    let n = chars.len();
    proof {
        assert(path@.take(n as int) =~= path@);
    }
    while start > 0 && chars[start - 1] != '/' && chars[start - 1] != '\\'
        invariant
            start <= n,
            n == chars@.len(),
            chars@ == path@,
            base_start(path@.take(start as int)) == base_start(path@),
        decreases start,
    {
        proof {
            assert(path@.take(start as int).drop_last() =~= path@.take(start - 1));
        }
        start = start - 1;
    }
    let mut out = String::new();
    for i in start..n
        invariant
            start <= n,
            n == chars@.len(),
            chars@ == path@,
            out@ == path@.subrange(start as int, i as int),
    {
        proof {
            assert(path@.subrange(start as int, i as int).push(path@[i as int]) =~= path@.subrange(
                start as int,
                i + 1,
            ));
        }
        out.push(chars[i]);
    }
    proof {
        assert(path@.skip(start as int) =~= path@.subrange(start as int, n as int));
    }
    out
}

/// The texts of a list of strings.
pub open spec fn texts(v: Seq<String>) -> Seq<Seq<char>> {
    v.map_values(|s: String| s@)
}

/// The parts one after the other, with `sep` between each two.
pub open spec fn join_of(parts: Seq<Seq<char>>, sep: Seq<char>) -> Seq<char>
    decreases parts.len(),
{
    if parts.len() == 0 {
        seq![]
    } else if parts.len() == 1 {
        parts[0]
    } else {
        join_of(parts.drop_last(), sep) + sep + parts.last()
    }
}

/// Joins strings with a separator.
pub fn join(parts: &Vec<String>, sep: &str) -> (r: String)
    ensures
        r@ == join_of(texts(parts@), sep@),
{
    let n = parts.len();
    let mut out = String::new();
    let ghost all = texts(parts@);
    for i in 0..n
        invariant
            n == parts@.len(),
            all == texts(parts@),
            out@ == join_of(all.take(i as int), sep@),
    {
        proof {
            assert(all.take(i + 1).drop_last() =~= all.take(i as int));
            assert(all.take(i + 1).last() == parts@[i as int]@);
            if i == 0 {
                assert(all.take(0) =~= Seq::<Seq<char>>::empty());
                assert(Seq::<char>::empty() + parts@[0]@ =~= parts@[0]@);
            }
        }
        if i > 0 {
            out.append(sep);
        }
        out.append(parts[i].as_str());
    }
    proof {
        assert(all.take(n as int) =~= all);
    }
    out
}

/// Whether `c` delimits strings.
pub open spec fn is_quote(c: char) -> bool {
    c == '"' || c == '\''
}

/// Whether `s` starts and ends with a quote of one sort.
pub open spec fn is_quoted(s: Seq<char>) -> bool {
    &&& s.len() >= 2
    &&& is_quote(s[0])
    &&& s.last() == s[0]
}

/// Whether `s` starts and ends with three quotes of one sort.
pub open spec fn is_triple_quoted(s: Seq<char>) -> bool {
    &&& s.len() >= 6
    &&& is_quote(s[0])
    &&& s[1] == s[0] && s[2] == s[0]
    &&& s[s.len() - 3] == s[0] && s[s.len() - 2] == s[0] && s[s.len() - 1] == s[0]
}

/// What a string literal holds: `s` without its delimiters, which are one or three
/// quotes on either side and may follow an `r`. Escape sequences stay as they are
/// written. Anything but a literal is left as it is.
pub open spec fn unquoted(s: Seq<char>) -> Seq<char> {
    let a: int = if s.len() > 0 && s[0] == 'r' {
        1
    } else {
        0
    };
    if is_triple_quoted(s.skip(a)) {
        s.subrange(a + 3, s.len() - 3)
    } else if is_quoted(s.skip(a)) {
        s.subrange(a + 1, s.len() - 1)
    } else {
        s
    }
}

/// What a string literal holds.
pub fn without_quotes(text: &str) -> (r: String)
    ensures
        r@ == unquoted(text@),
{
    let chars = chars_of(text);
    let n = chars.len();
    let a: usize = if n > 0 && chars[0] == 'r' {
        1
    } else {
        0
    };
    let ghost s = text@.skip(a as int);
    if n < a + 2 {
        return text.to_owned();
    }
    let q = chars[a];
    if (q != '"' && q != '\'') || chars[n - 1] != q {
        return text.to_owned();
    }
    let m: usize = if n >= a + 6 && chars[a + 1] == q && chars[a + 2] == q && chars[n - 3] == q
        && chars[n - 2] == q {
        3
    } else {
        1
    };
    proof {
        assert(s.last() == text@[n - 1]);
        assert(m == 3 <==> is_triple_quoted(s));
    }
    let mut out = String::new();
    for i in a + m..n - m
        invariant
            n == chars@.len(),
            a + 2 * m <= n,
            a <= 1,
            m <= 3,
            chars@ == text@,
            out@ == text@.subrange(a + m, i as int),
    {
        proof {
            assert(text@.subrange(a + m, i as int).push(text@[i as int]) =~= text@.subrange(
                a + m,
                i + 1,
            ));
        }
        out.push(chars[i]);
    }
    out
}

/// Whether `c` is ASCII white space.
pub open spec fn is_space(c: char) -> bool {
    c == ' ' || c == '\t' || c == '\n' || c == '\r' || c == '\u{b}' || c == '\u{c}'
}

/// `s` without the ASCII white space at its start.
pub open spec fn trim_start_of(s: Seq<char>) -> Seq<char>
    decreases s.len(),
{
    if s.len() > 0 && is_space(s[0]) {
        trim_start_of(s.drop_first())
    } else {
        s
    }
}

/// `s` without the ASCII white space at its end.
pub open spec fn trim_end_of(s: Seq<char>) -> Seq<char>
    decreases s.len(),
{
    if s.len() > 0 && is_space(s.last()) {
        trim_end_of(s.drop_last())
    } else {
        s
    }
}

/// `s` without the ASCII white space around it.
pub open spec fn trim_of(s: Seq<char>) -> Seq<char> {
    trim_end_of(trim_start_of(s))
}

fn space(c: char) -> (r: bool)
    ensures
        r == is_space(c),
{
    c == ' ' || c == '\t' || c == '\n' || c == '\r' || c == '\u{b}' || c == '\u{c}'
}

/// The characters from `from` on, without the white space around them.
pub fn trimmed(chars: &Vec<char>, from: usize) -> (r: String)
    requires
        from <= chars@.len(),
    ensures
        r@ == trim_of(chars@.skip(from as int)),
{
    let n = chars.len();
    let mut a: usize = from;
    while a < n && space(chars[a])
        invariant
            n == chars@.len(),
            from <= a <= n,
            trim_start_of(chars@.skip(a as int)) == trim_start_of(chars@.skip(from as int)),
        decreases n - a,
    {
        proof {
            assert(chars@.skip(a as int).drop_first() =~= chars@.skip(a + 1));
        }
        a = a + 1;
    }
    let mut b: usize = n;
    proof {
        assert(chars@.skip(a as int) =~= chars@.subrange(a as int, b as int));
    }
    while b > a && space(chars[b - 1])
        invariant
            n == chars@.len(),
            a <= b <= n,
            trim_end_of(chars@.subrange(a as int, b as int)) == trim_of(chars@.skip(from as int)),
        decreases b,
    {
        proof {
            assert(chars@.subrange(a as int, b as int).drop_last() =~= chars@.subrange(
                a as int,
                b - 1,
            ));
        }
        b = b - 1;
    }
    let mut out = String::new();
    for i in a..b
        invariant
            a <= b <= n,
            n == chars@.len(),
            out@ == chars@.subrange(a as int, i as int),
    {
        proof {
            assert(chars@.subrange(a as int, i as int).push(chars@[i as int]) =~= chars@.subrange(
                a as int,
                i + 1,
            ));
        }
        out.push(chars[i]);
    }
    out
}

} // verus!
