//! Finding mounted sessions and the kernel module.
use crate::text::{chars_of, is_space, is_whitespace, string_of, string_views};
use vstd::prelude::*;
use vstd::string::StringExecFns;

verus! {

/// The lines of a text: what stands between its line ends.
pub open spec fn lines(s: Seq<char>, n: int) -> Seq<Seq<char>>
    decreases n,
{
    if n <= 0 {
        seq![Seq::<char>::empty()]
    } else {
        let p = lines(s, n - 1);
        if s[n - 1] == '\n' {
            p.push(Seq::empty())
        } else {
            p.drop_last().push(p.last().push(s[n - 1]))
        }
    }
}

/// True when `w` stands in `s` at position `i`.
pub open spec fn stands_at(s: Seq<char>, w: Seq<char>, i: int) -> bool {
    0 <= i && i + w.len() <= s.len() && s.subrange(i, i + w.len()) == w
}

/// True when `w` stands somewhere in `s`.
pub open spec fn contains_text(s: Seq<char>, w: Seq<char>) -> bool {
    exists|i: int| stands_at(s, w, i)
}

/// The number of whitespace characters at the start.
pub open spec fn indent(s: Seq<char>) -> int
    decreases s.len(),
{
    if s.len() > 0 && is_space(s[0]) {
        1 + indent(s.skip(1))
    } else {
        0
    }
}

/// The number of characters before the first whitespace.
pub open spec fn word_len(s: Seq<char>) -> int
    decreases s.len(),
{
    if s.len() > 0 && !is_space(s[0]) {
        1 + word_len(s.skip(1))
    } else {
        0
    }
}

/// The first word of a line; nothing where the line is blank.
pub open spec fn first_word(s: Seq<char>) -> Seq<char> {
    let t = s.skip(indent(s));
    t.take(word_len(t))
}

/// The source column of a line of the mount table, if it is that of a session.
pub open spec fn session_source(line: Seq<char>) -> Option<Seq<char>> {
    if contains_text(line, " agfs "@) && first_word(line).len() > 0 {
        Some(first_word(line))
    } else {
        None
    }
}

/// The source columns of the sessions among the first `n` lines.
pub open spec fn sources(ls: Seq<Seq<char>>, n: int) -> Seq<Seq<char>>
    decreases n,
{
    if n <= 0 {
        Seq::empty()
    } else {
        match session_source(ls[n - 1]) {
            Some(w) => sources(ls, n - 1).push(w),
            None => sources(ls, n - 1),
        }
    }
}

/// The session directories that a mount table lists.
pub open spec fn session_dirs(content: Seq<char>) -> Seq<Seq<char>> {
    let ls = lines(content, content.len() as int);
    sources(ls, ls.len() as int)
}

/// True when `w` stands somewhere in the line.
fn line_contains(line: &Vec<char>, w: &Vec<char>) -> (r: bool)
    ensures
        r == contains_text(line@, w@),
{
    let n: usize = line.len();
    let mut i: usize = 0;
    while i <= n
        invariant
            n == line@.len(),
            i <= line@.len() + 1,
            forall|k: int| 0 <= k < i ==> !stands_at(line@, w@, k),
        decreases line@.len() + 1 - i,
    {
        if w.len() > line.len() - i {
            assert(!contains_text(line@, w@)) by {
                assert forall|k: int| !stands_at(line@, w@, k) by {}
            }
            return false;
        }
        let mut j: usize = 0;
        while j < w.len() && line[i + j] == w[j]
            invariant
                j <= w@.len(),
                i + w@.len() <= n,
                n == line@.len(),
                forall|k: int| 0 <= k < j ==> line@[i + k] == #[trigger] w@[k],
            decreases w@.len() - j,
        {
            j += 1;
        }
        if j == w.len() {
            assert forall|k: int| 0 <= k < w@.len() implies line@.subrange(
                i as int,
                i + w@.len(),
            )[k] == #[trigger] w@[k] by {}
            assert(line@.subrange(i as int, i + w@.len()) =~= w@);
            assert(stands_at(line@, w@, i as int));
            return true;
        }
        assert(line@.subrange(i as int, i + w@.len())[j as int] != w@[j as int]);
        if i == line.len() {
            assert(!contains_text(line@, w@)) by {
                assert forall|k: int| !stands_at(line@, w@, k) by {}
            }
            return false;
        }
        i += 1;
    }
    false
}

proof fn lemma_indent(s: Seq<char>, n: int)
    requires
        0 <= n <= s.len(),
        forall|i: int| 0 <= i < n ==> is_space(#[trigger] s[i]),
        n == s.len() || !is_space(s[n]),
    ensures
        indent(s) == n,
    decreases n,
{
    if n > 0 {
        assert(is_space(s[0]));
        let t = s.skip(1);
        assert forall|i: int| 0 <= i < n - 1 implies is_space(#[trigger] t[i]) by {
            assert(is_space(s[i + 1]));
        }
        lemma_indent(t, n - 1);
    }
}

proof fn lemma_word_len(s: Seq<char>, n: int)
    requires
        0 <= n <= s.len(),
        forall|i: int| 0 <= i < n ==> !is_space(#[trigger] s[i]),
        n == s.len() || is_space(s[n]),
    ensures
        word_len(s) == n,
    decreases n,
{
    if n > 0 {
        assert(!is_space(s[0]));
        let t = s.skip(1);
        assert forall|i: int| 0 <= i < n - 1 implies !is_space(#[trigger] t[i]) by {
            assert(!is_space(s[i + 1]));
        }
        lemma_word_len(t, n - 1);
    }
}

/// The first word of a line.
fn word_of(line: &Vec<char>) -> (r: String)
    ensures
        r@ == first_word(line@),
{
    let mut a: usize = 0;
    while a < line.len() && is_whitespace(line[a])
        invariant
            a <= line@.len(),
            forall|i: int| 0 <= i < a ==> is_space(#[trigger] line@[i]),
        decreases line@.len() - a,
    {
        a += 1;
    }
    let mut b: usize = a;
    while b < line.len() && !is_whitespace(line[b])
        invariant
            a <= b <= line@.len(),
            forall|i: int| a <= i < b ==> !is_space(#[trigger] line@[i]),
        decreases line@.len() - b,
    {
        b += 1;
    }
    proof {
        lemma_indent(line@, a as int);
        let t = line@.skip(a as int);
        assert forall|i: int| 0 <= i < b - a implies !is_space(#[trigger] t[i]) by {
            assert(!is_space(line@[i + a]));
        }
        lemma_word_len(t, b - a);
        assert(line@.subrange(a as int, b as int) =~= t.take(b - a));
    }
    string_of(line, a, b)
}

/// Adds the source column of a line, if it is that of a session.
fn add_source(out: &mut Vec<String>, line: &Vec<char>, needle: &Vec<char>)
    requires
        needle@ == " agfs "@,
    ensures
        string_views(final(out)@) == (match session_source(line@) {
            Some(w) => string_views(old(out)@).push(w),
            None => string_views(old(out)@),
        }),
{
    let ghost before = out@;
    if line_contains(line, needle) {
        let w = word_of(line);
        if !w.as_str().is_empty() {
            out.push(w);
            assert(string_views(out@) =~= string_views(before).push(w@));
        }
    }
}

/// The source column of each session in a mount table.
pub fn parse_mounts(content: &str) -> (r: Vec<String>)
    ensures
        string_views(r@) == session_dirs(content@),
{
    let v = chars_of(content);
    let needle = chars_of(" agfs ");
    let mut out: Vec<String> = Vec::new();
    let mut line: Vec<char> = Vec::new();
    let ghost mut done: Seq<Seq<char>> = seq![];
    let mut i: usize = 0;
    proof {
        assert(done.push(line@) =~= lines(v@, 0));
        assert(string_views(out@) =~= sources(done, 0));
    }
    while i < v.len()
        invariant
            i <= v@.len(),
            needle@ == " agfs "@,
            done.push(line@) == lines(v@, i as int),
            string_views(out@) == sources(done, done.len() as int),
        decreases v@.len() - i,
    {
        assert(done.push(line@).drop_last() =~= done);
        if v[i] == '\n' {
            add_source(&mut out, &line, &needle);
            proof {
                lemma_sources_push(done, line@);
                done = done.push(line@);
            }
            line = Vec::new();
            assert(done.push(line@) =~= lines(v@, i + 1));
        } else {
            line.push(v[i]);
        }
        i += 1;
    }
    add_source(&mut out, &line, &needle);
    proof {
        lemma_sources_push(done, line@);
    }
    out
}

proof fn lemma_sources_push(ls: Seq<Seq<char>>, x: Seq<char>)
    ensures
        sources(ls.push(x), ls.len() as int + 1) == (match session_source(x) {
            Some(w) => sources(ls, ls.len() as int).push(w),
            None => sources(ls, ls.len() as int),
        }),
{
    lemma_sources_prefix(ls, x, ls.len() as int);
}

proof fn lemma_sources_prefix(ls: Seq<Seq<char>>, x: Seq<char>, n: int)
    requires
        0 <= n <= ls.len(),
    ensures
        sources(ls.push(x), n) == sources(ls, n),
    decreases n,
{
    if n > 0 {
        lemma_sources_prefix(ls, x, n - 1);
    }
}

/// The path of the kernel module that is installed for a kernel release.
pub fn installed_module(release: &str) -> (r: String)
    ensures
        r@ == "/lib/modules/"@ + release@ + "/extra/agfs.ko"@,
{
    "/lib/modules/".to_owned().concat(release).concat("/extra/agfs.ko")
}

/// A line of the mount table that shows a session names its directory: what
/// stands before the first blank of a line with the type `agfs`.
pub proof fn law_session_lines_are_read(dir: Seq<char>, mnt: Seq<char>, options: Seq<char>)
    requires
        dir.len() > 0,
        forall|i: int| 0 <= i < dir.len() ==> !is_space(#[trigger] dir[i]),
    ensures
        session_source(dir + seq![' '] + mnt + " agfs "@ + options) == Some(dir),
{
    let line = dir + seq![' '] + mnt + " agfs "@ + options;
    let i = (dir.len() + 1 + mnt.len()) as int;
    assert(line.subrange(i, i + " agfs "@.len()) =~= " agfs "@);
    assert(stands_at(line, " agfs "@, i));
    assert(line[0] == dir[0]);
    assert(line.skip(0) =~= line);
    lemma_word(dir, seq![' '] + mnt + " agfs "@ + options);
    assert(line =~= dir + (seq![' '] + mnt + " agfs "@ + options));
    assert(line.take(dir.len() as int) =~= dir);
}

proof fn lemma_word(w: Seq<char>, rest: Seq<char>)
    requires
        forall|i: int| 0 <= i < w.len() ==> !is_space(#[trigger] w[i]),
        rest.len() > 0,
        is_space(rest[0]),
    ensures
        word_len(w + rest) == w.len(),
    decreases w.len(),
{
    let s = w + rest;
    if w.len() == 0 {
        assert(s[0] == rest[0]);
    } else {
        let t = w.skip(1);
        assert forall|i: int| 0 <= i < t.len() implies !is_space(#[trigger] t[i]) by {
            assert(t[i] == w[i + 1]);
        }
        lemma_word(t, rest);
        assert(s[0] == w[0]);
        assert(s.skip(1) =~= t + rest);
    }
}

/// Only lines with the type `agfs` name sessions, and each of them does once.
pub proof fn law_sessions_are_listed(ls: Seq<Seq<char>>, n: int)
    requires
        0 <= n <= ls.len(),
    ensures
        sources(ls, n).len() <= n,
        forall|k: int|
            0 <= k < sources(ls, n).len() ==> exists|i: int|
                0 <= i < n && contains_text(#[trigger] ls[i], " agfs "@) && first_word(ls[i])
                    == #[trigger] sources(ls, n)[k],
        forall|i: int|
            0 <= i < n && contains_text(#[trigger] ls[i], " agfs "@) && first_word(ls[i]).len() > 0
                ==> sources(ls, n).contains(first_word(ls[i])),
    decreases n,
{
    if n > 0 {
        law_sessions_are_listed(ls, n - 1);
        let (a, b) = (sources(ls, n - 1), sources(ls, n));
        assert forall|k: int| 0 <= k < b.len() implies exists|i: int|
            0 <= i < n && contains_text(#[trigger] ls[i], " agfs "@) && first_word(ls[i])
                == #[trigger] b[k] by {
            if k < a.len() {
                assert(b[k] == a[k]);
                let i = choose|i: int|
                    0 <= i < n - 1 && contains_text(#[trigger] ls[i], " agfs "@) && first_word(
                        ls[i],
                    ) == a[k];
                assert(contains_text(ls[i], " agfs "@));
            } else {
                assert(contains_text(ls[n - 1], " agfs "@));
            }
        }
        assert forall|i: int|
            0 <= i < n && contains_text(#[trigger] ls[i], " agfs "@) && first_word(ls[i]).len()
                > 0 implies b.contains(first_word(ls[i])) by {
            if i < n - 1 {
                let k = choose|k: int| 0 <= k < a.len() && a[k] == first_word(ls[i]);
                assert(b[k] == a[k]);
            } else {
                assert(b[a.len() as int] == first_word(ls[i]));
            }
        }
    }
}

} // verus!
