//! Character-level text handling: whitespace, trimming, searching, and
//! splitting a text into lines and joining lines back into a text.
//!
//! What each function computes is defined over `Seq<char>`; the executable
//! functions work on `Vec<char>` and convert from and to strings at the edges.

use vstd::prelude::*;

verus! {

/// `String::push` appends the given character to the end of the string.
pub assume_specification[ String::push ](s: &mut String, ch: char)
    ensures
        final(s)@ == old(s)@.push(ch),
;

/// The characters with the Unicode `White_Space` property.
pub open spec fn is_space(c: char) -> bool {
    let n: u32 = c as u32;
    ||| 0x09 <= n <= 0x0D
    ||| n == 0x20
    ||| n == 0x85
    ||| n == 0xA0
    ||| n == 0x1680
    ||| 0x2000 <= n <= 0x200A
    ||| n == 0x2028
    ||| n == 0x2029
    ||| n == 0x202F
    ||| n == 0x205F
    ||| n == 0x3000
}

/// Number of whitespace characters at the start of `s`.
pub open spec fn leading(s: Seq<char>) -> nat
    decreases s.len(),
{
    if s.len() > 0 && is_space(s[0]) {
        1 + leading(s.skip(1))
    } else {
        0
    }
}

/// Number of whitespace characters at the end of `s`.
pub open spec fn trailing(s: Seq<char>) -> nat
    decreases s.len(),
{
    if s.len() > 0 && is_space(s.last()) {
        1 + trailing(s.drop_last())
    } else {
        0
    }
}

/// `s` without its leading and trailing whitespace.
pub open spec fn trimmed(s: Seq<char>) -> Seq<char> {
    if leading(s) >= s.len() {
        Seq::empty()
    } else {
        s.subrange(leading(s) as int, s.len() - trailing(s))
    }
}

/// `p` occurs in `s` at position `i`.
pub open spec fn occurs_at(s: Seq<char>, p: Seq<char>, i: int) -> bool {
    &&& 0 <= i
    &&& i + p.len() <= s.len()
    &&& s.subrange(i, i + p.len()) == p
}

/// `p` occurs somewhere in `s`.
pub open spec fn contains(s: Seq<char>, p: Seq<char>) -> bool {
    exists|i: int| occurs_at(s, p, i)
}

/// `s` begins with `p`.
pub open spec fn starts_with(s: Seq<char>, p: Seq<char>) -> bool {
    occurs_at(s, p, 0)
}

/// Position of the first line feed in `s`, or `s.len()` if there is none.
pub open spec fn first_newline(s: Seq<char>) -> nat
    decreases s.len(),
{
    if s.len() == 0 || s[0] == '\n' {
        0
    } else {
        1 + first_newline(s.skip(1))
    }
}

/// `line` without one carriage return at its end, if it has one.
pub open spec fn strip_cr(line: Seq<char>) -> Seq<char> {
    if line.len() > 0 && line.last() == '\r' {
        line.drop_last()
    } else {
        line
    }
}

/// The lines of a text. A line ends at a line feed; a carriage return just
/// before that line feed belongs to the line ending. The last line needs no
/// line ending, and a text that ends in a line feed has no empty line after it.
pub open spec fn lines_of(text: Seq<char>) -> Seq<Seq<char>>
    decreases text.len(),
{
    if text.len() == 0 {
        Seq::empty()
    } else {
        let n: nat = first_newline(text);
        if n >= text.len() {
            seq![text]
        } else {
            seq![strip_cr(text.take(n as int))] + lines_of(text.skip(n as int + 1))
        }
    }
}

/// The lines joined by single line feeds, with none after the last line.
pub open spec fn joined(lines: Seq<Seq<char>>) -> Seq<char>
    decreases lines.len(),
{
    if lines.len() == 0 {
        Seq::empty()
    } else if lines.len() == 1 {
        lines[0]
    } else {
        joined(lines.drop_last()) + seq!['\n'] + lines.last()
    }
}

/// The character sequences held by a vector of strings.
pub open spec fn texts(v: Seq<String>) -> Seq<Seq<char>> {
    Seq::new(v.len(), |i: int| v[i]@)
}

/// The character sequences held by a vector of character vectors.
pub open spec fn rows(v: Seq<Vec<char>>) -> Seq<Seq<char>> {
    Seq::new(v.len(), |i: int| v[i]@)
}

/// Before position `leading(s)` all is whitespace, and at it `s` ends or
/// holds another character.
pub proof fn lemma_leading_bound(s: Seq<char>)
    ensures
        leading(s) <= s.len(),
        forall|j: int| 0 <= j < leading(s) ==> is_space(#[trigger] s[j]),
        leading(s) < s.len() ==> !is_space(s[leading(s) as int]),
    decreases s.len(),
{
    if s.len() > 0 && is_space(s[0]) {
        let t = s.skip(1);
        lemma_leading_bound(t);
        assert forall|j: int| 0 <= j < leading(s) implies is_space(#[trigger] s[j]) by {
            if j > 0 {
                assert(s[j] == t[j - 1]);
            }
        }
        if leading(s) < s.len() {
            assert(s[leading(s) as int] == t[leading(t) as int]);
        }
    }
}

/// The last `trailing(s)` characters are whitespace, and before them `s`
/// begins or holds another character.
pub proof fn lemma_trailing_bound(s: Seq<char>)
    ensures
        trailing(s) <= s.len(),
        forall|j: int| s.len() - trailing(s) <= j < s.len() ==> is_space(#[trigger] s[j]),
        trailing(s) < s.len() ==> !is_space(s[s.len() - trailing(s) - 1]),
    decreases s.len(),
{
    if s.len() > 0 && is_space(s.last()) {
        let t = s.drop_last();
        lemma_trailing_bound(t);
        assert forall|j: int| s.len() - trailing(s) <= j < s.len() implies is_space(
            #[trigger] s[j],
        ) by {
            if j < s.len() - 1 {
                assert(s[j] == t[j]);
            }
        }
        if trailing(s) < s.len() {
            assert(s[s.len() - trailing(s) - 1] == t[t.len() - trailing(t) - 1]);
        }
    }
}

/// `leading(s)` is the one position before which all is whitespace and at
/// which `s` ends or holds another character.
pub proof fn lemma_leading_is(s: Seq<char>, a: int)
    requires
        0 <= a <= s.len(),
        forall|j: int| 0 <= j < a ==> is_space(#[trigger] s[j]),
        a == s.len() || !is_space(s[a]),
    ensures
        leading(s) == a,
    decreases a,
{
    if a > 0 {
        let t = s.skip(1);
        assert forall|j: int| 0 <= j < a - 1 implies is_space(#[trigger] t[j]) by {
            assert(t[j] == s[j + 1]);
        }
        lemma_leading_is(t, a - 1);
    }
}

/// `trailing(s)` counts from the one position `b` after which all is
/// whitespace and before which `s` begins or holds another character.
pub proof fn lemma_trailing_is(s: Seq<char>, b: int)
    requires
        0 <= b <= s.len(),
        forall|j: int| b <= j < s.len() ==> is_space(#[trigger] s[j]),
        b == 0 || !is_space(s[b - 1]),
    ensures
        trailing(s) == s.len() - b,
    decreases s.len() - b,
{
    if b < s.len() {
        let t = s.drop_last();
        assert forall|j: int| b <= j < t.len() implies is_space(#[trigger] t[j]) by {
            assert(t[j] == s[j]);
        }
        lemma_trailing_is(t, b);
    }
}

/// `first_newline(s)` is the one position before which there is no line
/// feed and at which `s` ends or holds one.
pub proof fn lemma_first_newline_is(s: Seq<char>, n: int)
    requires
        0 <= n <= s.len(),
        forall|j: int| 0 <= j < n ==> #[trigger] s[j] != '\n',
        n == s.len() || s[n] == '\n',
    ensures
        first_newline(s) == n,
    decreases n,
{
    if n > 0 {
        let t = s.skip(1);
        assert forall|j: int| 0 <= j < n - 1 implies #[trigger] t[j] != '\n' by {
            assert(t[j] == s[j + 1]);
        }
        lemma_first_newline_is(t, n - 1);
    }
}

/// Before position `first_newline(s)` there is no line feed, and at it `s`
/// ends or holds one.
pub proof fn lemma_first_newline_bound(s: Seq<char>)
    ensures
        0 <= first_newline(s) <= s.len(),
        forall|j: int| 0 <= j < first_newline(s) ==> #[trigger] s[j] != '\n',
        first_newline(s) < s.len() ==> s[first_newline(s) as int] == '\n',
    decreases s.len(),
{
    if !(s.len() == 0 || s[0] == '\n') {
        let t = s.skip(1);
        lemma_first_newline_bound(t);
        assert forall|j: int| 0 <= j < first_newline(s) implies #[trigger] s[j] != '\n' by {
            if j > 0 {
                assert(s[j] == t[j - 1]);
            }
        }
        if first_newline(s) < s.len() {
            assert(s[first_newline(s) as int] == t[first_newline(t) as int]);
        }
    }
}

/// Joining is unchanged by how the lines are grouped: a further line adds a
/// line feed and the line.
pub proof fn lemma_joined_push(lines: Seq<Seq<char>>, line: Seq<char>)
    ensures
        joined(lines.push(line)) == if lines.len() == 0 {
            line
        } else {
            joined(lines) + seq!['\n'] + line
        },
{
    let all = lines.push(line);
    assert(all.drop_last() =~= lines);
    assert(all.last() == line);
}

/// The character does not occur in the line.
pub open spec fn has_no(line: Seq<char>, c: char) -> bool {
    forall|j: int| 0 <= j < line.len() ==> #[trigger] line[j] != c
}

/// The line ends in a carriage return.
pub open spec fn ends_in_cr(line: Seq<char>) -> bool {
    line.len() > 0 && line.last() == '\r'
}

/// The lines read back from their text as they were written.
pub open spec fn reads_back(lines: Seq<Seq<char>>) -> bool {
    lines_of(joined(lines)) == lines
}

/// A line in front of others adds the line and a line feed in front of
/// their text.
pub proof fn lemma_joined_front(first: Seq<char>, rest: Seq<Seq<char>>)
    requires
        rest.len() > 0,
    ensures
        joined(seq![first] + rest) == first + seq!['\n'] + joined(rest),
    decreases rest.len(),
{
    let all = seq![first] + rest;
    assert(all.last() == rest.last());
    if rest.len() == 1 {
        assert(all.drop_last() =~= seq![first]);
        assert(joined(seq![first]) == first);
        assert(joined(rest) == rest[0]);
        assert(joined(all) == joined(all.drop_last()) + seq!['\n'] + all.last());
    } else {
        assert(all.drop_last() =~= seq![first] + rest.drop_last());
        lemma_joined_front(first, rest.drop_last());
        assert(joined(all) =~= first + seq!['\n'] + joined(rest));
    }
}

/// What reading makes of lines that were written, none of which holds a
/// line feed: every line but the last loses a carriage return at its end,
/// and an empty last line is gone.
pub open spec fn reread(lines: Seq<Seq<char>>) -> Seq<Seq<char>> {
    if lines.len() == 0 {
        lines
    } else {
        let head = Seq::new((lines.len() - 1) as nat, |i: int| strip_cr(lines[i]));
        if lines.last().len() > 0 {
            head.push(lines.last())
        } else {
            head
        }
    }
}

/// Lines of which none holds a line feed read back from their text as
/// [`reread`] says.
pub proof fn lemma_lines_of_joined(lines: Seq<Seq<char>>)
    requires
        forall|i: int| 0 <= i < lines.len() ==> has_no(#[trigger] lines[i], '\n'),
    ensures
        lines_of(joined(lines)) == reread(lines),
    decreases lines.len(),
{
    if lines.len() == 0 {
        assert(reread(lines) =~= Seq::<Seq<char>>::empty());
    } else if lines.len() == 1 {
        let first = lines[0];
        assert(has_no(first, '\n'));
        if first.len() > 0 {
            lemma_first_newline_is(first, first.len() as int);
            assert(reread(lines) =~= seq![first]);
        } else {
            assert(reread(lines) =~= Seq::<Seq<char>>::empty());
        }
    } else {
        let first = lines[0];
        assert(has_no(first, '\n'));
        let rest = lines.skip(1);
        assert(lines =~= seq![first] + rest);
        lemma_joined_front(first, rest);
        let text = first + seq!['\n'] + joined(rest);
        assert forall|j: int| 0 <= j < first.len() implies #[trigger] text[j] != '\n' by {
            assert(text[j] == first[j]);
        }
        lemma_first_newline_is(text, first.len() as int);
        assert(text.take(first.len() as int) =~= first);
        assert(text.skip(first.len() as int + 1) =~= joined(rest));
        assert forall|i: int| 0 <= i < rest.len() implies has_no(#[trigger] rest[i], '\n') by {
            assert(rest[i] == lines[i + 1]);
        }
        lemma_lines_of_joined(rest);
        assert(rest.last() == lines.last());
        assert(lines_of(text) =~= seq![strip_cr(first)] + reread(rest));
        assert(seq![strip_cr(first)] + reread(rest) =~= reread(lines));
    }
}

/// Lines read back as written if none holds a line feed, none but the last
/// ends in a carriage return, and the last is not empty.
pub proof fn lemma_reads_back(lines: Seq<Seq<char>>)
    requires
        lines.len() > 0,
        forall|i: int| 0 <= i < lines.len() ==> has_no(#[trigger] lines[i], '\n'),
        forall|i: int| 0 <= i < lines.len() - 1 ==> !ends_in_cr(#[trigger] lines[i]),
        lines.last().len() > 0,
    ensures
        reads_back(lines),
{
    lemma_lines_of_joined(lines);
    assert(reread(lines) =~= lines);
}

/// Of two lists of as many lines, the one whose lines are nowhere longer
/// has no longer a text, and a shorter one if one of its lines is shorter.
pub proof fn lemma_joined_len_le(a: Seq<Seq<char>>, b: Seq<Seq<char>>)
    requires
        a.len() == b.len(),
        forall|i: int| 0 <= i < a.len() ==> (#[trigger] a[i]).len() <= b[i].len(),
    ensures
        joined(a).len() <= joined(b).len(),
        (exists|j: int| 0 <= j < a.len() && (#[trigger] a[j]).len() < b[j].len()) ==> joined(
            a,
        ).len() < joined(b).len(),
    decreases a.len(),
{
    if a.len() >= 2 {
        let a0 = a.drop_last();
        let b0 = b.drop_last();
        assert forall|i: int| 0 <= i < a0.len() implies (#[trigger] a0[i]).len() <= b0[i].len() by {
            assert(a0[i] == a[i]);
        }
        lemma_joined_len_le(a0, b0);
        assert(a.last().len() <= b.last().len());
        if exists|j: int| 0 <= j < a.len() && (#[trigger] a[j]).len() < b[j].len() {
            let j = choose|j: int| 0 <= j < a.len() && (#[trigger] a[j]).len() < b[j].len();
            if j < a.len() - 1 {
                assert(a0[j].len() < b0[j].len());
            }
        }
    } else if a.len() == 1 {
        assert(a[0].len() <= b[0].len());
    }
}

/// A carriage return at the end of a line is whitespace: trimming the line
/// with or without it gives the same.
pub proof fn lemma_trimmed_strip_cr(line: Seq<char>)
    ensures
        trimmed(strip_cr(line)) == trimmed(line),
{
    if ends_in_cr(line) {
        let m = line.drop_last();
        lemma_leading_bound(m);
        lemma_trailing_bound(m);
        assert(is_space(line.last()));
        assert(trailing(line) == 1 + trailing(m));
        let a = leading(m) as int;
        assert forall|j: int| 0 <= j < a implies is_space(#[trigger] line[j]) by {
            assert(line[j] == m[j]);
        }
        if a == m.len() {
            lemma_leading_is(line, line.len() as int);
        } else {
            assert(line[a] == m[a]);
            lemma_leading_is(line, a);
            assert(trimmed(line) =~= trimmed(m));
        }
    }
}

/// No line of a text holds a line feed.
pub proof fn lemma_lines_hold_no_newline(text: Seq<char>)
    ensures
        forall|i: int| 0 <= i < lines_of(text).len() ==> has_no(#[trigger] lines_of(text)[i], '\n'),
    decreases text.len(),
{
    if text.len() > 0 {
        let n = first_newline(text);
        lemma_first_newline_bound(text);
        if n < text.len() {
            let rest = text.skip(n as int + 1);
            lemma_lines_hold_no_newline(rest);
            let head = strip_cr(text.take(n as int));
            assert forall|j: int| 0 <= j < head.len() implies #[trigger] head[j] != '\n' by {
                assert(head[j] == text[j]);
            }
            assert forall|i: int| 0 <= i < lines_of(text).len() implies has_no(
                #[trigger] lines_of(text)[i],
                '\n',
            ) by {
                if i > 0 {
                    assert(lines_of(text)[i] == lines_of(rest)[i - 1]);
                }
            }
        }
    }
}

/// Whether `c` has the Unicode `White_Space` property.
pub fn is_whitespace(c: char) -> (b: bool)
    ensures
        b == is_space(c),
{
    let n: u32 = c as u32;
    (0x09 <= n && n <= 0x0D) || n == 0x20 || n == 0x85 || n == 0xA0 || n == 0x1680 || (0x2000 <= n
        && n <= 0x200A) || n == 0x2028 || n == 0x2029 || n == 0x202F || n == 0x205F || n == 0x3000
}

/// The characters of a string slice.
pub(crate) fn chars_of(s: &str) -> (v: Vec<char>)
    ensures
        v@ == s@,
{
    let mut v: Vec<char> = Vec::new();
    for c in it: s.chars()
        invariant
            v@ == it.seq().take(it.index() as int),
            it.seq() == s@,
    {
        v.push(c);
    }
    v
}

/// The string made of the given characters.
pub(crate) fn string_of(v: &Vec<char>) -> (s: String)
    ensures
        s@ == v@,
{
    let mut s = String::new();
    let mut i: usize = 0;
    while i < v.len()
        invariant
            i <= v.len(),
            s@ == v@.take(i as int),
        decreases v.len() - i,
    {
        s.push(v[i]);
        i += 1;
    }
    s
}

/// A copy of the characters of `s` from `from` up to `to`.
pub(crate) fn slice_chars(s: &Vec<char>, from: usize, to: usize) -> (t: Vec<char>)
    requires
        from <= to <= s.len(),
    ensures
        t@ == s@.subrange(from as int, to as int),
{
    let mut t: Vec<char> = Vec::new();
    let mut i: usize = from;
    while i < to
        invariant
            from <= i <= to,
            to <= s.len(),
            t@ == s@.subrange(from as int, i as int),
        decreases to - i,
    {
        t.push(s[i]);
        i += 1;
    }
    t
}

/// `s` without its leading and trailing whitespace.
pub(crate) fn trim_chars(s: &Vec<char>) -> (t: Vec<char>)
    ensures
        t@ == trimmed(s@),
{
    let n = s.len();
    let mut a: usize = 0;
    while a < n && is_whitespace(s[a])
        invariant
            a <= n,
            n == s.len(),
            forall|j: int| 0 <= j < a ==> is_space(#[trigger] s@[j]),
        decreases n - a,
    {
        a += 1;
    }
    proof {
        lemma_leading_is(s@, a as int);
    }
    if a == n {
        return Vec::new();
    }
    let mut b: usize = n;
    while b > a && is_whitespace(s[b - 1])
        invariant
            a <= b <= n,
            n == s.len(),
            forall|j: int| b <= j < n ==> is_space(#[trigger] s@[j]),
        decreases b,
    {
        b -= 1;
    }
    proof {
        lemma_trailing_is(s@, b as int);
    }
    slice_chars(s, a, b)
}

/// Whether `p` occurs in `s` at position `i`.
pub(crate) fn matches_at(s: &Vec<char>, p: &Vec<char>, i: usize) -> (b: bool)
    ensures
        b == occurs_at(s@, p@, i as int),
{
    if p.len() > s.len() || i > s.len() - p.len() {
        return false;
    }
    let mut j: usize = 0;
    while j < p.len()
        invariant
            j <= p.len(),
            i + p.len() <= s.len(),
            forall|k: int| 0 <= k < j ==> s@[i + k] == #[trigger] p@[k],
        decreases p.len() - j,
    {
        if s[i + j] != p[j] {
            assert(s@.subrange(i as int, i + p.len())[j as int] != p@[j as int]);
            return false;
        }
        j += 1;
    }
    assert(s@.subrange(i as int, i + p.len()) =~= p@);
    true
}

/// Whether `s` begins with `p`.
pub(crate) fn starts_with_chars(s: &Vec<char>, p: &Vec<char>) -> (b: bool)
    ensures
        b == starts_with(s@, p@),
{
    matches_at(s, p, 0)
}

/// Whether `p` occurs somewhere in `s`.
pub(crate) fn contains_chars(s: &Vec<char>, p: &Vec<char>) -> (b: bool)
    ensures
        b == contains(s@, p@),
{
    if p.len() > s.len() {
        assert forall|i: int| !occurs_at(s@, p@, i) by {}
        return false;
    }
    let last: usize = s.len() - p.len();
    let mut i: usize = 0;
    while i < last
        invariant
            i <= last,
            last == s.len() - p.len(),
            forall|k: int| 0 <= k < i ==> !occurs_at(s@, p@, k),
        decreases last - i,
    {
        if matches_at(s, p, i) {
            return true;
        }
        i += 1;
    }
    let found = matches_at(s, p, last);
    if !found {
        assert forall|k: int| !occurs_at(s@, p@, k) by {}
    }
    found
}

/// The lines of the text held in `s`.
pub(crate) fn split_chars(s: &Vec<char>) -> (lines: Vec<Vec<char>>)
    ensures
        rows(lines@) == lines_of(s@),
{
    let n = s.len();
    let mut lines: Vec<Vec<char>> = Vec::new();
    let mut start: usize = 0;
    let mut i: usize = 0;
    assert(s@.skip(0) =~= s@);
    assert(rows(lines@) =~= Seq::<Seq<char>>::empty());
    while i < n
        invariant
            start <= i <= n,
            n == s.len(),
            forall|j: int| start <= j < i ==> #[trigger] s@[j] != '\n',
            lines_of(s@) == rows(lines@) + lines_of(s@.skip(start as int)),
        decreases n - i,
    {
        if s[i] == '\n' {
            let ghost rest = s@.skip(start as int);
            let ghost before = rows(lines@);
            proof {
                assert forall|j: int| 0 <= j < i - start implies #[trigger] rest[j] != '\n' by {
                    assert(rest[j] == s@[start + j]);
                }
                lemma_first_newline_is(rest, i - start);
                assert(rest.take(i - start) =~= s@.subrange(start as int, i as int));
                assert(rest.skip(i - start + 1) =~= s@.skip(i + 1));
            }
            let end: usize = if i > start && s[i - 1] == '\r' {
                i - 1
            } else {
                i
            };
            let line = slice_chars(s, start, end);
            proof {
                let whole = s@.subrange(start as int, i as int);
                if i > start && s@[i - 1] == '\r' {
                    assert(whole.last() == '\r');
                    assert(whole.drop_last() =~= line@);
                }
                assert(line@ == strip_cr(whole));
            }
            lines.push(line);
            start = i + 1;
            proof {
                assert(rows(lines@) =~= before + seq![line@]);
                assert(lines_of(s@) =~= rows(lines@) + lines_of(s@.skip(start as int)));
            }
        }
        i += 1;
    }
    if start < n {
        let ghost rest = s@.skip(start as int);
        let ghost before = rows(lines@);
        proof {
            assert forall|j: int| 0 <= j < n - start implies #[trigger] rest[j] != '\n' by {
                assert(rest[j] == s@[start + j]);
            }
            lemma_first_newline_is(rest, n - start);
        }
        let line = slice_chars(s, start, n);
        assert(line@ =~= rest);
        lines.push(line);
        assert(rows(lines@) =~= before + seq![line@]);
    } else {
        assert(s@.skip(start as int).len() == 0);
        assert(rows(lines@) + Seq::<Seq<char>>::empty() =~= rows(lines@));
    }
    lines
}

/// The lines joined by single line feeds.
pub(crate) fn join_chars(lines: &Vec<Vec<char>>) -> (s: Vec<char>)
    ensures
        s@ == joined(rows(lines@)),
{
    let mut s: Vec<char> = Vec::new();
    let mut i: usize = 0;
    assert(rows(lines@).take(0) =~= Seq::<Seq<char>>::empty());
    while i < lines.len()
        invariant
            i <= lines.len(),
            s@ == joined(rows(lines@).take(i as int)),
        decreases lines.len() - i,
    {
        let ghost before = s@;
        if i > 0 {
            s.push('\n');
        }
        let line = &lines[i];
        let mut j: usize = 0;
        while j < line.len()
            invariant
                j <= line.len(),
                s@ == (if i > 0 {
                    before + seq!['\n']
                } else {
                    before
                }) + line@.take(j as int),
            decreases line.len() - j,
        {
            s.push(line[j]);
            j += 1;
        }
        proof {
            let done = rows(lines@).take(i as int);
            assert(line@.take(line@.len() as int) =~= line@);
            lemma_joined_push(done, line@);
            assert(rows(lines@).take(i + 1) =~= done.push(line@));
            if i == 0 {
                assert(before + line@ =~= line@);
            }
        }
        i += 1;
    }
    assert(rows(lines@).take(lines@.len() as int) =~= rows(lines@));
    s
}

/// A string slice without its leading and trailing whitespace.
pub fn trim(s: &str) -> (t: String)
    ensures
        t@ == trimmed(s@),
{
    let chars = chars_of(s);
    let kept = trim_chars(&chars);
    string_of(&kept)
}

/// The lines of a text, each as a string of its own.
pub fn split_lines(text: &str) -> (lines: Vec<String>)
    ensures
        texts(lines@) == lines_of(text@),
{
    let chars = chars_of(text);
    let split = split_chars(&chars);
    strings_of(&split)
}

/// The character vectors of a vector of strings.
pub(crate) fn rows_of(lines: &Vec<String>) -> (split: Vec<Vec<char>>)
    ensures
        rows(split@) == texts(lines@),
{
    let mut split: Vec<Vec<char>> = Vec::new();
    let mut i: usize = 0;
    while i < lines.len()
        invariant
            i <= lines.len(),
            rows(split@) == texts(lines@).take(i as int),
        decreases lines.len() - i,
    {
        let ghost before = rows(split@);
        let line = chars_of(lines[i].as_str());
        split.push(line);
        assert(rows(split@) =~= before.push(lines@[i as int]@));
        assert(texts(lines@).take(i + 1) =~= texts(lines@).take(i as int).push(lines@[i as int]@));
        i += 1;
    }
    assert(texts(lines@).take(lines@.len() as int) =~= texts(lines@));
    split
}

/// The strings of a vector of character vectors.
pub(crate) fn strings_of(split: &Vec<Vec<char>>) -> (lines: Vec<String>)
    ensures
        texts(lines@) == rows(split@),
{
    let mut lines: Vec<String> = Vec::new();
    let mut i: usize = 0;
    while i < split.len()
        invariant
            i <= split.len(),
            texts(lines@) == rows(split@).take(i as int),
        decreases split.len() - i,
    {
        let ghost before = texts(lines@);
        let line = string_of(&split[i]);
        lines.push(line);
        assert(texts(lines@) =~= before.push(split@[i as int]@));
        assert(rows(split@).take(i + 1) =~= rows(split@).take(i as int).push(split@[i as int]@));
        i += 1;
    }
    assert(rows(split@).take(split@.len() as int) =~= rows(split@));
    lines
}

/// The lines joined by single line feeds, with none after the last line.
pub fn join_lines(lines: &Vec<String>) -> (text: String)
    ensures
        text@ == joined(texts(lines@)),
{
    let split = rows_of(lines);
    let chars = join_chars(&split);
    string_of(&chars)
}

} // verus!