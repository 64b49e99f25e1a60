//! Rewriting an SSH client configuration so that the `github.com` host block
//! names a given private key.
//!
//! The configuration is read line by line. A line `Host ...` that mentions
//! `github.com` opens the block, any other `Host ...` line closes it, and
//! every line inside the block that mentions `IdentityFile` is replaced by
//! one canonical `IdentityFile` line, so a block with several such lines ends
//! up with as many identical lines. If no line was replaced, a complete block
//! is added at the end. No other line is touched.

use crate::profile::Profile;
use crate::text::{
    chars_of, contains, contains_chars, is_space, join_chars, joined, lemma_leading_is,
    ends_in_cr, has_no, lemma_joined_len_le, lemma_lines_hold_no_newline, lemma_lines_of_joined,
    lemma_trailing_bound, lemma_trailing_is, lemma_trimmed_strip_cr, lines_of, occurs_at, reread,
    rows, rows_of, slice_chars, strip_cr,
    split_chars, starts_with, starts_with_chars, string_of, strings_of, texts, trailing, trim_chars,
    trimmed,
};
use vstd::prelude::*;

verus! {

/// The line begins a host block.
pub open spec fn is_host_line(line: Seq<char>) -> bool {
    starts_with(trimmed(line), "Host "@)
}

/// The line begins a host block whose names mention `github.com`.
pub open spec fn opens_github(line: Seq<char>) -> bool {
    is_host_line(line) && contains(trimmed(line), "github.com"@)
}

/// The line mentions `IdentityFile`.
pub open spec fn names_identity(line: Seq<char>) -> bool {
    contains(trimmed(line), "IdentityFile"@)
}

/// The canonical line that names `key` as the identity file.
pub open spec fn identity_line(key: Seq<char>) -> Seq<char> {
    "    IdentityFile "@ + key
}

/// Whether a reader that has just read `lines` is inside a `github.com`
/// block: the last `Host` line among them, if any, decides.
pub open spec fn in_block_after(lines: Seq<Seq<char>>) -> bool
    decreases lines.len(),
{
    if lines.len() == 0 {
        false
    } else if opens_github(lines.last()) {
        true
    } else if is_host_line(lines.last()) {
        false
    } else {
        in_block_after(lines.drop_last())
    }
}

/// Line `i` is an `IdentityFile` line inside a `github.com` block.
pub open spec fn is_rewritten(lines: Seq<Seq<char>>, i: int) -> bool {
    &&& 0 <= i < lines.len()
    &&& in_block_after(lines.take(i + 1))
    &&& !opens_github(lines[i])
    &&& names_identity(lines[i])
}

/// The lines with every `IdentityFile` line inside a `github.com` block
/// replaced by the canonical line for `key`.
pub open spec fn rewritten(lines: Seq<Seq<char>>, key: Seq<char>) -> Seq<Seq<char>> {
    Seq::new(
        lines.len(),
        |i: int|
            if is_rewritten(lines, i) {
                identity_line(key)
            } else {
                lines[i]
            },
    )
}

/// Some line is an `IdentityFile` line inside a `github.com` block.
pub open spec fn has_identity(lines: Seq<Seq<char>>) -> bool {
    exists|i: int| is_rewritten(lines, i)
}

/// A complete `github.com` block that names `key`.
pub open spec fn github_block(key: Seq<char>) -> Seq<Seq<char>> {
    seq!["Host github.com"@, "    HostName github.com"@, "    User git"@, identity_line(key)]
}

/// The configuration lines after patching: the rewritten lines, followed by a
/// new block if nothing was rewritten, with an empty line before the new
/// block unless the lines are empty or end in an empty line.
pub open spec fn patched_lines(lines: Seq<Seq<char>>, key: Seq<char>) -> Seq<Seq<char>> {
    if has_identity(lines) {
        rewritten(lines, key)
    } else if lines.len() > 0 && lines.last().len() > 0 {
        lines + seq![Seq::<char>::empty()] + github_block(key)
    } else {
        lines + github_block(key)
    }
}

/// The configuration text after patching.
pub open spec fn patched_text(text: Seq<char>, key: Seq<char>) -> Seq<char> {
    joined(patched_lines(lines_of(text), key))
}

/// Where nothing is rewritten, the rewritten lines are the lines.
pub proof fn lemma_rewritten_none(lines: Seq<Seq<char>>, key: Seq<char>)
    requires
        !has_identity(lines),
    ensures
        rewritten(lines, key) == lines,
{
    assert forall|i: int| 0 <= i < lines.len() implies rewritten(lines, key)[i] == lines[i] by {
        assert(!is_rewritten(lines, i));
    }
    assert(rewritten(lines, key) =~= lines);
}

fn concat_chars(a: &Vec<char>, b: &Vec<char>) -> (joined: Vec<char>)
    ensures
        joined@ == a@ + b@,
{
    let mut out = slice_chars(a, 0, a.len());
    assert(a@.subrange(0, a@.len() as int) =~= a@);
    let mut i: usize = 0;
    while i < b.len()
        invariant
            i <= b.len(),
            out@ == a@ + b@.take(i as int),
        decreases b.len() - i,
    {
        out.push(b[i]);
        assert(b@.take(i + 1) =~= b@.take(i as int).push(b@[i as int]));
        i += 1;
    }
    assert(b@.take(b@.len() as int) =~= b@);
    out
}

/// Patches configuration lines held as character vectors.
pub(crate) fn patch_rows(lines: &Vec<Vec<char>>, key: &Vec<char>) -> (out: Vec<Vec<char>>)
    ensures
        rows(out@) == patched_lines(rows(lines@), key@),
{
    let host = chars_of("Host ");
    let github = chars_of("github.com");
    let identity = chars_of("IdentityFile");
    let indent = chars_of("    IdentityFile ");
    let canonical = concat_chars(&indent, key);
    let ghost all = rows(lines@);
    let mut out: Vec<Vec<char>> = Vec::new();
    let mut in_block = false;
    let mut updated = false;
    let mut i: usize = 0;
    assert(rows(out@) =~= rewritten(all, key@).take(0));
    assert(all.take(0) =~= Seq::<Seq<char>>::empty());
    while i < lines.len()
        invariant
            i <= lines.len(),
            all == rows(lines@),
            host@ == "Host "@,
            github@ == "github.com"@,
            identity@ == "IdentityFile"@,
            canonical@ == identity_line(key@),
            in_block == in_block_after(all.take(i as int)),
            updated == (exists|j: int| 0 <= j < i && is_rewritten(all, j)),
            rows(out@) == rewritten(all, key@).take(i as int),
        decreases lines.len() - i,
    {
        let line = &lines[i];
        let ghost before = rows(out@);
        proof {
            assert(all.take(i + 1).drop_last() =~= all.take(i as int));
            assert(all.take(i + 1).last() == all[i as int]);
            assert(all[i as int] == line@);
        }
        let trimmed_line = trim_chars(line);
        let is_host = starts_with_chars(&trimmed_line, &host);
        let mut replace = false;
        if is_host && contains_chars(&trimmed_line, &github) {
            in_block = true;
        } else {
            if in_block && is_host {
                in_block = false;
            }
            if in_block && contains_chars(&trimmed_line, &identity) {
                replace = true;
            }
        }
        assert(in_block == in_block_after(all.take(i + 1)));
        assert(replace == is_rewritten(all, i as int));
        let next = if replace {
            slice_chars(&canonical, 0, canonical.len())
        } else {
            slice_chars(line, 0, line.len())
        };
        proof {
            assert(canonical@.subrange(0, canonical@.len() as int) =~= canonical@);
            assert(line@.subrange(0, line@.len() as int) =~= line@);
            assert(next@ == rewritten(all, key@)[i as int]);
        }
        out.push(next);
        if replace {
            updated = true;
        }
        proof {
            assert(rows(out@) =~= before.push(next@));
            assert(rewritten(all, key@).take(i + 1) =~= rewritten(all, key@).take(i as int).push(
                next@,
            ));
        }
        i += 1;
    }
    proof {
        assert(rewritten(all, key@).take(lines@.len() as int) =~= rewritten(all, key@));
        assert(updated == has_identity(all));
    }
    if !updated {
        proof {
            lemma_rewritten_none(all, key@);
        }
        let ghost body = rows(out@);
        if out.len() > 0 && out[out.len() - 1].len() > 0 {
            out.push(Vec::new());
            assert(rows(out@) =~= body + seq![Seq::<char>::empty()]);
        }
        let ghost spaced = rows(out@);
        out.push(chars_of("Host github.com"));
        out.push(chars_of("    HostName github.com"));
        out.push(chars_of("    User git"));
        out.push(canonical);
        assert(rows(out@) =~= spaced + github_block(key@));
    }
    out
}

/// Patches configuration lines: see [`patched_lines`].
pub fn patch_lines(lines: &Vec<String>, key: &str) -> (out: Vec<String>)
    ensures
        texts(out@) == patched_lines(texts(lines@), key@),
{
    let split = rows_of(lines);
    let key_chars = chars_of(key);
    let patched = patch_rows(&split, &key_chars);
    strings_of(&patched)
}

/// The SSH client configuration `content`, patched so that its `github.com`
/// block names the profile's key.
pub fn update_ssh_config(content: &str, profile: &Profile) -> (text: String)
    ensures
        text@ == patched_text(content@, profile@.ssh_key),
{
    let chars = chars_of(content);
    let lines = split_chars(&chars);
    let key = chars_of(profile.ssh_key.as_str());
    let patched = patch_rows(&lines, &key);
    let joined_chars = join_chars(&patched);
    string_of(&joined_chars)
}

/// The canonical line, without surrounding whitespace, begins with
/// `IdentityFile`: it mentions `IdentityFile` and begins no host block.
pub proof fn lemma_identity_line_class(key: Seq<char>)
    ensures
        !is_host_line(identity_line(key)),
        !opens_github(identity_line(key)),
        names_identity(identity_line(key)),
{
    reveal_strlit("    IdentityFile ");
    reveal_strlit("IdentityFile");
    reveal_strlit("Host ");
    let line = identity_line(key);
    let word = "IdentityFile"@;
    assert(line.len() == 17 + key.len());
    assert forall|j: int| 0 <= j < 17 implies #[trigger] line[j] == "    IdentityFile "@[j] by {}
    lemma_leading_is(line, 4);
    lemma_trailing_bound(line);
    assert(!is_space(line[15]));
    let end = line.len() - trailing(line);
    assert(end >= 16);
    let t = trimmed(line);
    assert(t == line.subrange(4, end));
    assert(t.subrange(0, 12) =~= word);
    assert(occurs_at(t, word, 0));
    if is_host_line(line) {
        assert(t.subrange(0, 5)[0] == 'H');
    }
}

/// How the lines of a new block are read: the first opens a `github.com`
/// block; the second and third begin no block and do not mention
/// `IdentityFile`.
pub proof fn lemma_block_classes()
    ensures
        opens_github("Host github.com"@),
        !is_host_line("    HostName github.com"@),
        !names_identity("    HostName github.com"@),
        !is_host_line("    User git"@),
        !names_identity("    User git"@),
{
    reveal_strlit("Host github.com");
    reveal_strlit("    HostName github.com");
    reveal_strlit("    User git");
    reveal_strlit("IdentityFile");
    reveal_strlit("github.com");
    reveal_strlit("Host ");
    let word = "IdentityFile"@;
    let first = "Host github.com"@;
    lemma_leading_is(first, 0);
    lemma_trailing_is(first, 15);
    assert(trimmed(first) =~= first);
    assert(first.subrange(0, 5) =~= "Host "@);
    assert(first.subrange(5, 15) =~= "github.com"@);
    assert(occurs_at(first, "Host "@, 0));
    assert(occurs_at(first, "github.com"@, 5));
    let second = "    HostName github.com"@;
    lemma_leading_is(second, 4);
    lemma_trailing_is(second, 23);
    let t2 = trimmed(second);
    assert(t2 == second.subrange(4, 23));
    if is_host_line(second) {
        assert(t2.subrange(0, 5)[4] == ' ');
    }
    assert forall|i: int| !occurs_at(t2, word, i) by {
        if occurs_at(t2, word, i) {
            assert(t2.subrange(i, i + 12)[0] == 'I');
        }
    }
    let third = "    User git"@;
    lemma_leading_is(third, 4);
    lemma_trailing_is(third, 12);
    let t3 = trimmed(third);
    assert(t3 == third.subrange(4, 12));
    if is_host_line(third) {
        assert(t3.subrange(0, 5)[0] == 'H');
    }
    assert forall|i: int| !occurs_at(t3, word, i) by {}
}

/// An empty line begins no host block and does not mention `IdentityFile`.
pub proof fn lemma_empty_line_class()
    ensures
        !is_host_line(Seq::<char>::empty()),
        !names_identity(Seq::<char>::empty()),
{
    reveal_strlit("IdentityFile");
    reveal_strlit("Host ");
    let e = Seq::<char>::empty();
    assert(trimmed(e) =~= e);
    assert forall|i: int| !occurs_at(e, "IdentityFile"@, i) by {}
}

/// Two lists of lines whose first `n` lines agree, place by place, on
/// whether they begin a host block and whether they open a `github.com`
/// block put a reader after `n` lines inside such a block or outside it
/// alike.
pub proof fn lemma_same_blocks(a: Seq<Seq<char>>, b: Seq<Seq<char>>, n: int)
    requires
        0 <= n <= a.len(),
        n <= b.len(),
        forall|i: int|
            0 <= i < n ==> is_host_line(#[trigger] a[i]) == is_host_line(b[i]) && opens_github(
                a[i],
            ) == opens_github(b[i]),
    ensures
        in_block_after(a.take(n)) == in_block_after(b.take(n)),
    decreases n,
{
    if n > 0 {
        lemma_same_blocks(a, b, n - 1);
        assert(a.take(n).drop_last() =~= a.take(n - 1));
        assert(b.take(n).drop_last() =~= b.take(n - 1));
        assert(a.take(n).last() == a[n - 1]);
        assert(b.take(n).last() == b[n - 1]);
    }
}

/// After patching, some line is an `IdentityFile` line inside a `github.com`
/// block, and every such line is the canonical line for the key.
pub proof fn lemma_patched_names_key(lines: Seq<Seq<char>>, key: Seq<char>)
    ensures
        has_identity(patched_lines(lines, key)),
        forall|i: int| #[trigger]
            is_rewritten(patched_lines(lines, key), i) ==> patched_lines(lines, key)[i]
                == identity_line(key),
{
    let p = patched_lines(lines, key);
    lemma_identity_line_class(key);
    if has_identity(lines) {
        let w = choose|i: int| is_rewritten(lines, i);
        assert forall|i: int| 0 <= i < lines.len() implies is_host_line(#[trigger] lines[i])
            == is_host_line(p[i]) && opens_github(lines[i]) == opens_github(p[i]) by {
            if is_rewritten(lines, i) {
                assert(lines.take(i + 1).last() == lines[i]);
            }
        }
        assert forall|i: int| 0 <= i < p.len() implies is_rewritten(p, i) == is_rewritten(
            lines,
            i,
        ) by {
            lemma_same_blocks(lines, p, i + 1);
        }
        assert(is_rewritten(p, w));
    } else {
        lemma_block_classes();
        lemma_empty_line_class();
        let spaced = lines.len() > 0 && lines.last().len() > 0;
        let m: int = if spaced {
            lines.len() as int + 1
        } else {
            lines.len() as int
        };
        assert(p.len() == m + 4);
        assert(p[m] == "Host github.com"@);
        assert(p[m + 1] == "    HostName github.com"@);
        assert(p[m + 2] == "    User git"@);
        assert(p[m + 3] == identity_line(key));
        assert(p.take(m + 1).last() == p[m]);
        assert(p.take(m + 2).last() == p[m + 1]);
        assert(p.take(m + 2).drop_last() =~= p.take(m + 1));
        assert(p.take(m + 3).last() == p[m + 2]);
        assert(p.take(m + 3).drop_last() =~= p.take(m + 2));
        assert(p.take(m + 4).last() == p[m + 3]);
        assert(p.take(m + 4).drop_last() =~= p.take(m + 3));
        assert(in_block_after(p.take(m + 1)));
        assert(in_block_after(p.take(m + 2)));
        assert(in_block_after(p.take(m + 3)));
        assert(in_block_after(p.take(m + 4)));
        assert(is_rewritten(p, m + 3));
        assert forall|i: int| #[trigger] is_rewritten(p, i) implies p[i] == identity_line(key) by {
            if i < lines.len() {
                assert(p.take(i + 1) =~= lines.take(i + 1));
                assert(p[i] == lines[i]);
                assert(is_rewritten(lines, i));
            }
        }
    }
}

/// Patching never removes or reorders lines: every line that is not an
/// `IdentityFile` line inside a `github.com` block is still there, at its
/// place and unchanged.
pub proof fn lemma_patch_keeps_other_lines(lines: Seq<Seq<char>>, key: Seq<char>)
    ensures
        patched_lines(lines, key).len() >= lines.len(),
        forall|i: int|
            0 <= i < lines.len() && !is_rewritten(lines, i) ==> #[trigger] patched_lines(
                lines,
                key,
            )[i] == lines[i],
{
}

/// Patching lines that were patched with the same key changes nothing.
pub proof fn lemma_patch_lines_idempotent(lines: Seq<Seq<char>>, key: Seq<char>)
    ensures
        patched_lines(patched_lines(lines, key), key) == patched_lines(lines, key),
{
    let p = patched_lines(lines, key);
    lemma_patched_names_key(lines, key);
    assert(rewritten(p, key) =~= p);
}

/// The patched lines hold no line feed if the lines and the key hold none.
pub proof fn lemma_patched_hold_no_newline(lines: Seq<Seq<char>>, key: Seq<char>)
    requires
        forall|i: int| 0 <= i < lines.len() ==> has_no(#[trigger] lines[i], '\n'),
        has_no(key, '\n'),
    ensures
        forall|i: int|
            0 <= i < patched_lines(lines, key).len() ==> has_no(
                #[trigger] patched_lines(lines, key)[i],
                '\n',
            ),
{
    reveal_strlit("    IdentityFile ");
    reveal_strlit("Host github.com");
    reveal_strlit("    HostName github.com");
    reveal_strlit("    User git");
    let p = patched_lines(lines, key);
    let canon = identity_line(key);
    assert(has_no(canon, '\n')) by {
        assert forall|j: int| 0 <= j < canon.len() implies #[trigger] canon[j] != '\n' by {
            if j >= 17 {
                assert(canon[j] == key[j - 17]);
            }
        }
    }
    assert(has_no("Host github.com"@, '\n'));
    assert(has_no("    HostName github.com"@, '\n'));
    assert(has_no("    User git"@, '\n'));
    assert(has_no(Seq::<char>::empty(), '\n'));
    assert forall|i: int| 0 <= i < p.len() implies has_no(#[trigger] p[i], '\n') by {
        if i < lines.len() {
            assert(has_no(lines[i], '\n'));
        }
    }
}

/// The lines survive being written and read again, but for what patching
/// restores: the last line is not empty, and every earlier line that ends
/// in a carriage return is an `IdentityFile` line inside a `github.com`
/// block.
pub open spec fn settled(lines: Seq<Seq<char>>) -> bool {
    &&& lines.len() > 0 ==> lines.last().len() > 0
    &&& forall|i: int|
        0 <= i < lines.len() - 1 && ends_in_cr(#[trigger] lines[i]) ==> is_rewritten(lines, i)
}

/// A carriage return at the end of a line does not change how the line is
/// read.
pub proof fn lemma_strip_cr_class(line: Seq<char>)
    ensures
        is_host_line(strip_cr(line)) == is_host_line(line),
        opens_github(strip_cr(line)) == opens_github(line),
        names_identity(strip_cr(line)) == names_identity(line),
{
    lemma_trimmed_strip_cr(line);
}

/// For a key that holds no line feed, patching a text that was patched with
/// the same key changes nothing exactly when the patched lines are
/// [`settled`]. Otherwise the second patch gives a shorter text.
pub proof fn lemma_patch_text_twice(text: Seq<char>, key: Seq<char>)
    requires
        has_no(key, '\n'),
    ensures
        (patched_text(patched_text(text, key), key) == patched_text(text, key)) <==> settled(
            patched_lines(lines_of(text), key),
        ),
        !settled(patched_lines(lines_of(text), key)) ==> patched_text(
            patched_text(text, key),
            key,
        ).len() < patched_text(text, key).len(),
{
    let lines = lines_of(text);
    let p = patched_lines(lines, key);
    let n = p.len() as int;
    lemma_lines_hold_no_newline(text);
    lemma_patched_hold_no_newline(lines, key);
    lemma_lines_of_joined(p);
    let q = reread(p);
    let m = q.len() as int;
    lemma_patched_names_key(lines, key);
    lemma_empty_line_class();
    let w = choose|i: int| is_rewritten(p, i);
    assert(is_rewritten(p, w));
    assert forall|i: int| 0 <= i < m implies is_host_line(#[trigger] q[i]) == is_host_line(p[i])
        && opens_github(q[i]) == opens_github(p[i]) && names_identity(q[i]) == names_identity(
        p[i],
    ) by {
        lemma_strip_cr_class(p[i]);
    }
    assert forall|i: int| 0 <= i < m implies is_rewritten(q, i) == is_rewritten(p, i) by {
        lemma_same_blocks(q, p, i + 1);
    }
    assert(w < m) by {
        if p.last().len() == 0 && w == n - 1 {
            assert(p[w] =~= Seq::<char>::empty());
        }
    }
    assert(is_rewritten(q, w));
    let r = patched_lines(q, key);
    assert(r.len() == m);
    assert forall|i: int| 0 <= i < m implies #[trigger] r[i] == (if is_rewritten(p, i) {
        p[i]
    } else {
        q[i]
    }) by {}
    assert forall|i: int| 0 <= i < m implies (#[trigger] r[i]).len() <= p[i].len() by {}
    if settled(p) {
        assert forall|i: int| 0 <= i < n implies r[i] == p[i] by {
            if i < n - 1 && !is_rewritten(p, i) {
                assert(!ends_in_cr(p[i]));
            }
        }
        assert(r =~= p);
    } else if p.last().len() == 0 {
        let front = p.drop_last();
        assert forall|i: int| 0 <= i < m implies (#[trigger] r[i]).len() <= front[i].len() by {
            assert(front[i] == p[i]);
        }
        lemma_joined_len_le(r, front);
        assert(joined(p) == joined(front) + seq!['\n'] + p.last());
    } else {
        let i = choose|i: int| 0 <= i < n - 1 && ends_in_cr(p[i]) && !is_rewritten(p, i);
        assert(r[i] == strip_cr(p[i]));
        assert(r[i].len() < p[i].len());
        lemma_joined_len_le(r, p);
    }
}

/// The patched lines are [`settled`] if no line and not the key ends in a
/// carriage return, and the last line is not empty where a line is
/// rewritten.
pub proof fn lemma_patched_settled(lines: Seq<Seq<char>>, key: Seq<char>)
    requires
        forall|i: int| 0 <= i < lines.len() ==> !ends_in_cr(#[trigger] lines[i]),
        !ends_in_cr(key),
        has_identity(lines) ==> lines.last().len() > 0,
    ensures
        settled(patched_lines(lines, key)),
{
    reveal_strlit("    IdentityFile ");
    reveal_strlit("Host github.com");
    reveal_strlit("    HostName github.com");
    reveal_strlit("    User git");
    let p = patched_lines(lines, key);
    let canon = identity_line(key);
    assert(canon.len() == 17 + key.len());
    assert(!ends_in_cr(canon)) by {
        if key.len() > 0 {
            assert(canon.last() == key.last());
        }
    }
    assert forall|i: int| 0 <= i < p.len() implies !ends_in_cr(#[trigger] p[i]) by {
        if i < lines.len() {
            assert(!ends_in_cr(lines[i]));
        }
    }
    if has_identity(lines) {
        assert(p.len() == lines.len());
    }
}

/// Patching a text that was patched with the same key changes nothing, if
/// the key holds no line feed and the patched lines are [`settled`].
pub proof fn lemma_patch_text_idempotent(text: Seq<char>, key: Seq<char>)
    requires
        has_no(key, '\n'),
        settled(patched_lines(lines_of(text), key)),
    ensures
        patched_text(patched_text(text, key), key) == patched_text(text, key),
{
    lemma_patch_text_twice(text, key);
}

/// Patching an empty configuration gives exactly one new block.
pub proof fn lemma_patch_empty(key: Seq<char>)
    ensures
        patched_text(Seq::<char>::empty(), key)
            == "Host github.com\n    HostName github.com\n    User git\n    IdentityFile "@ + key,
{
    reveal_strlit("Host github.com\n    HostName github.com\n    User git\n    IdentityFile ");
    reveal_strlit("    IdentityFile ");
    reveal_strlit("Host github.com");
    reveal_strlit("    HostName github.com");
    reveal_strlit("    User git");
    let none = Seq::<Seq<char>>::empty();
    assert(lines_of(Seq::<char>::empty()) =~= none);
    assert(!has_identity(none));
    let p = patched_lines(none, key);
    assert(p =~= github_block(key));
    let three = p.drop_last();
    let two = three.drop_last();
    let one = two.drop_last();
    assert(joined(one) == p[0]);
    assert(joined(two) == joined(one) + seq!['\n'] + p[1]);
    assert(joined(three) == joined(two) + seq!['\n'] + p[2]);
    assert(joined(p) == joined(three) + seq!['\n'] + p[3]);
    assert(joined(p)
        =~= "Host github.com\n    HostName github.com\n    User git\n    IdentityFile "@ + key);
}

} // verus!
