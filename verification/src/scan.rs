//! Scanning text: prefixes, columns, lines, words.

use vstd::prelude::*;
use vstd::string::StrSliceExecFns;
use vstd::string::StringExecFns;

verus! {

/// The characters of a text.
pub fn characters(s: &str) -> (v: Vec<char>)
    ensures
        v@ == s@,
{
    let mut v: Vec<char> = Vec::new();
    for c in it: s.chars()
        invariant
            it.seq() == s@,
            v@ == s@.take(it.index()),
    {
        assert(s@.take(it.index() + 1) =~= s@.take(it.index()).push(c));
        v.push(c);
    }
    assert(s@.take(s@.len() as int) =~= s@);
    v
}

/// Whether the text `p` stands in `s` at place `i`.
pub open spec fn stands_at(s: Seq<char>, p: Seq<char>, i: int) -> bool {
    0 <= i && i + p.len() <= s.len() && s.subrange(i, i + p.len()) == p
}

/// Whether `p` stands in `s` at place `i`.
pub fn found_at(s: &Vec<char>, p: &Vec<char>, i: usize) -> (b: bool)
    ensures
        b == stands_at(s@, p@, i as int),
{
    if p.len() > s.len() || i > s.len() - p.len() {
        return false;
    }
    let mut k: usize = 0;
    while k < p.len()
        invariant
            i + p.len() <= s.len(),
            k <= p.len(),
            forall|j: int| 0 <= j < k ==> #[trigger] p@[j] == s@[i + j],
        decreases p.len() - k,
    {
        if p[k] != s[i + k] {
            assert(s@.subrange(i as int, i + p.len())[k as int] == s@[i + k]);
            return false;
        }
        k = k + 1;
    }
    assert(s@.subrange(i as int, i + p.len()) =~= p@);
    true
}

/// Whether two texts are the same.
pub fn same(a: &str, b: &str) -> (r: bool)
    ensures
        r == (a@ == b@),
{
    let x: Vec<char> = characters(a);
    let y: Vec<char> = characters(b);
    let r: bool = x.len() == y.len() && found_at(&x, &y, 0);
    assert(a@.subrange(0, a@.len() as int) =~= a@);
    r
}

/// Whether `s` starts with `p`.
pub open spec fn begins(s: Seq<char>, p: Seq<char>) -> bool {
    stands_at(s, p, 0)
}

/// Whether `s` ends with `p`.
pub open spec fn ends(s: Seq<char>, p: Seq<char>) -> bool {
    stands_at(s, p, s.len() - p.len())
}

/// Whether `s` starts with `p`.
pub fn starts_with(s: &str, p: &str) -> (b: bool)
    ensures
        b == begins(s@, p@),
{
    found_at(&characters(s), &characters(p), 0)
}

/// What follows `p` in `s`, where `s` starts with it.
pub fn strip_prefix(s: &str, p: &str) -> (r: Option<String>)
    ensures
        r is Some <==> begins(s@, p@),
        r is Some ==> r->0@ == s@.skip(p@.len() as int),
{
    if starts_with(s, p) {
        let rest: &str = s.substring_char(p.unicode_len(), s.unicode_len());
        assert(rest@ =~= s@.skip(p@.len() as int));
        Some(String::from_str(rest))
    } else {
        None
    }
}

/// What comes before `p` in `s`, where `s` ends with it.
pub fn strip_suffix(s: &str, p: &str) -> (r: Option<String>)
    ensures
        r is Some <==> ends(s@, p@),
        r is Some ==> r->0@ == s@.take(s@.len() - p@.len()),
{
    let n: usize = s.unicode_len();
    let m: usize = p.unicode_len();
    if m > n {
        return None;
    }
    if found_at(&characters(s), &characters(p), n - m) {
        let rest: &str = s.substring_char(0, n - m);
        assert(rest@ =~= s@.take(s@.len() - p@.len()));
        Some(String::from_str(rest))
    } else {
        None
    }
}

/// Whether `p` stands anywhere in `s`.
pub open spec fn holds(s: Seq<char>, p: Seq<char>) -> bool {
    exists|i: int| #[trigger] stands_at(s, p, i)
}

/// Whether `p` stands anywhere in `s`.
pub fn contains(s: &str, p: &str) -> (b: bool)
    ensures
        b == holds(s@, p@),
{
    let x: Vec<char> = characters(s);
    let y: Vec<char> = characters(p);
    if y.len() > x.len() {
        return false;
    }
    let last: usize = x.len() - y.len();
    let mut i: usize = 0;
    loop
        invariant
            x@ == s@,
            y@ == p@,
            last == x.len() - y.len(),
            i <= last,
            forall|k: int| 0 <= k < i ==> !#[trigger] stands_at(s@, p@, k),
        decreases last - i,
    {
        if found_at(&x, &y, i) {
            return true;
        }
        if i == last {
            return false;
        }
        i = i + 1;
    }
}

/// Whether a character is white space.
pub open spec fn space(c: char) -> bool {
    ||| '\u{9}' <= c <= '\u{d}'
    ||| c == ' '
    ||| c == '\u{85}'
    ||| c == '\u{a0}'
    ||| c == '\u{1680}'
    ||| '\u{2000}' <= c <= '\u{200a}'
    ||| c == '\u{2028}'
    ||| c == '\u{2029}'
    ||| c == '\u{202f}'
    ||| c == '\u{205f}'
    ||| c == '\u{3000}'
}

/// Whether a character is white space.
pub fn is_space(c: char) -> (b: bool)
    ensures
        b == space(c),
{
    ('\u{9}' <= c && c <= '\u{d}') || c == ' ' || c == '\u{85}' || c == '\u{a0}' || c == '\u{1680}'
        || ('\u{2000}' <= c && c <= '\u{200a}') || c == '\u{2028}' || c == '\u{2029}'
        || c == '\u{202f}' || c == '\u{205f}' || c == '\u{3000}'
}

/// A text without the white space before it.
pub open spec fn trimmed_front(s: Seq<char>) -> Seq<char>
    decreases s.len(),
{
    if s.len() > 0 && space(s[0]) {
        trimmed_front(s.skip(1))
    } else {
        s
    }
}

/// A text without the white space behind it.
pub open spec fn trimmed_back(s: Seq<char>) -> Seq<char>
    decreases s.len(),
{
    if s.len() > 0 && space(s.last()) {
        trimmed_back(s.drop_last())
    } else {
        s
    }
}

/// A text without the white space around it.
pub open spec fn trimmed(s: Seq<char>) -> Seq<char> {
    trimmed_back(trimmed_front(s))
}

/// A text without the white space around it.
pub fn trim(s: &str) -> (t: String)
    ensures
        t@ == trimmed(s@),
{
    let cs: Vec<char> = characters(s);
    let mut a: usize = 0;
    let mut b: usize = cs.len();
    assert(s@.subrange(0, b as int) =~= s@);
    while a < b && is_space(cs[a])
        invariant
            b == cs.len(),
            cs@ == s@,
            a <= b,
            trimmed_front(s@.subrange(a as int, b as int)) == trimmed_front(s@),
        decreases b - a,
    {
        assert(s@.subrange(a as int, b as int).skip(1) =~= s@.subrange(a + 1, b as int));
        a = a + 1;
    }
    let ghost mid = s@.subrange(a as int, b as int);
    assert(mid == trimmed_front(s@));
    while a < b && is_space(cs[b - 1])
        invariant
            cs@ == s@,
            a <= b <= cs.len(),
            trimmed_back(s@.subrange(a as int, b as int)) == trimmed_back(mid),
        decreases b - a,
    {
        assert(s@.subrange(a as int, b as int).drop_last() =~= s@.subrange(a as int, b - 1));
        b = b - 1;
    }
    String::from_str(s.substring_char(a, b))
}

/// Where the character `c` first stands in `s`; the length of `s` where it does not.
pub open spec fn until(s: Seq<char>, c: char) -> nat
    decreases s.len(),
{
    if s.len() == 0 || s[0] == c {
        0
    } else {
        1 + until(s.skip(1), c)
    }
}

/// The place of the first `c` is the place before which there is none.
pub proof fn lemma_until(s: Seq<char>, c: char, i: int)
    requires
        0 <= i <= s.len(),
        forall|k: int| 0 <= k < i ==> #[trigger] s[k] != c,
        i < s.len() ==> s[i] == c,
    ensures
        until(s, c) == i,
    decreases s.len(),
{
    if i > 0 {
        let rest = s.skip(1);
        assert forall|k: int| 0 <= k < i - 1 implies #[trigger] rest[k] != c by {
            assert(rest[k] == s[k + 1]);
        }
        lemma_until(rest, c, i - 1);
    }
}

/// There is no `c` before the place of the first one, and one there, if it is a place of the text.
pub proof fn lemma_until_found(s: Seq<char>, c: char)
    ensures
        until(s, c) <= s.len(),
        forall|k: int| 0 <= k < until(s, c) ==> #[trigger] s[k] != c,
        until(s, c) < s.len() ==> s[until(s, c) as int] == c,
    decreases s.len(),
{
    if s.len() > 0 && s[0] != c {
        let rest = s.skip(1);
        lemma_until_found(rest, c);
        assert forall|k: int| 0 <= k < until(s, c) implies #[trigger] s[k] != c by {
            if k > 0 {
                assert(rest[k - 1] == s[k]);
            }
        }
    }
}

/// The text before the first `c`, and the text behind it, where there is one.
pub open spec fn cut(s: Seq<char>, c: char) -> (Seq<char>, Option<Seq<char>>) {
    let i = until(s, c) as int;
    if i < s.len() {
        (s.take(i), Some(s.skip(i + 1)))
    } else {
        (s, None)
    }
}

/// The views of a text that was cut.
pub open spec fn cut_view(r: (&str, Option<&str>)) -> (Seq<char>, Option<Seq<char>>) {
    (
        r.0@,
        match r.1 {
            Some(t) => Some(t@),
            None => None,
        },
    )
}

/// Cuts a text at the first `c`.
pub fn cut_at<'a>(s: &'a str, c: char) -> (r: (&'a str, Option<&'a str>))
    ensures
        cut_view(r) == cut(s@, c),
{
    let cs: Vec<char> = characters(s);
    let n: usize = cs.len();
    let mut i: usize = 0;
    while i < n
        invariant_except_break
            forall|k: int| 0 <= k < i ==> #[trigger] cs@[k] != c,
        invariant
            n == cs.len(),
            i <= n,
            forall|k: int| 0 <= k < i ==> #[trigger] cs@[k] != c,
        ensures
            i < n ==> cs@[i as int] == c,
        decreases n - i,
    {
        if cs[i] == c {
            break;
        }
        i = i + 1;
    }
    proof {
        lemma_until(s@, c, i as int);
    }
    if i < n {
        let a: &str = s.substring_char(0, i);
        let b: &str = s.substring_char(i + 1, n);
        assert(a@ =~= s@.take(i as int));
        assert(b@ =~= s@.skip(i + 1));
        (a, Some(b))
    } else {
        (s, None)
    }
}

/// A line without the carriage return before its line feed.
pub open spec fn chomped(line: Seq<char>) -> Seq<char> {
    if line.len() > 0 && line.last() == '\r' {
        line.drop_last()
    } else {
        line
    }
}

/// The lines of a text. A line feed ends a line; what follows the last one is a line where there
/// is anything.
pub open spec fn lines_of(s: Seq<char>) -> Seq<Seq<char>>
    decreases s.len(),
{
    if s.len() == 0 {
        seq![]
    } else {
        match cut(s, '\n') {
            (line, Some(rest)) => if rest.len() < s.len() {
                seq![chomped(line)] + lines_of(rest)
            } else {
                seq![]
            },
            (line, None) => seq![line],
        }
    }
}

/// The views of a list of texts.
pub open spec fn views(v: Seq<&str>) -> Seq<Seq<char>> {
    Seq::new(v.len(), |i: int| v[i]@)
}

/// The texts of a list.
pub open spec fn texts(v: Seq<String>) -> Seq<Seq<char>> {
    Seq::new(v.len(), |i: int| v[i]@)
}

/// The lines of a text.
pub fn lines<'a>(s: &'a str) -> (v: Vec<&'a str>)
    ensures
        views(v@) == lines_of(s@),
{
    let mut v: Vec<&'a str> = Vec::new();
    let mut rest: &'a str = s;
    assert(views(v@) + lines_of(s@) =~= lines_of(s@));
    while rest.unicode_len() > 0
        invariant
            views(v@) + lines_of(rest@) == lines_of(s@),
        decreases rest@.len(),
    {
        let ghost before = views(v@);
        let (line, more) = cut_at(rest, '\n');
        match more {
            Some(next) => {
                let n: usize = line.unicode_len();
                let kept: &'a str = if n > 0 && line.get_char(n - 1) == '\r' {
                    line.substring_char(0, n - 1)
                } else {
                    line
                };
                proof {
                    assert(kept@ =~= chomped(line@));
                    assert(next@.len() < rest@.len());
                    assert(lines_of(rest@) == seq![chomped(line@)] + lines_of(next@));
                }
                v.push(kept);
                assert(views(v@) =~= before.push(kept@));
                assert(views(v@) + lines_of(next@) =~= before + lines_of(rest@));
                rest = next;
            },
            None => {
                v.push(line);
                assert(views(v@) =~= before.push(line@));
                assert(views(v@) =~= before + lines_of(rest@));
                return v;
            },
        }
    }
    assert(views(v@) =~= lines_of(s@));
    v
}

/// Whether the word `w` stands in `s` at place `i`, with white space or an end of `s` on either
/// side.
pub open spec fn word_at(s: Seq<char>, w: Seq<char>, i: int) -> bool {
    &&& stands_at(s, w, i)
    &&& i == 0 || space(s[i - 1])
    &&& i + w.len() == s.len() || space(s[i + w.len()])
}

/// Whether `w`, which is not empty and holds no white space, is one of the words of `s`.
pub open spec fn has_word(s: Seq<char>, w: Seq<char>) -> bool {
    exists|i: int| #[trigger] word_at(s, w, i)
}

/// Whether `w` is one of the words of `s`.
pub fn contains_word(s: &str, w: &str) -> (b: bool)
    ensures
        b == has_word(s@, w@),
{
    let x: Vec<char> = characters(s);
    let y: Vec<char> = characters(w);
    if y.len() > x.len() {
        return false;
    }
    let last: usize = x.len() - y.len();
    let mut i: usize = 0;
    loop
        invariant
            x@ == s@,
            y@ == w@,
            last == x.len() - y.len(),
            i <= last,
            forall|k: int| 0 <= k < i ==> !#[trigger] word_at(s@, w@, k),
        decreases last - i,
    {
        if found_at(&x, &y, i) && (i == 0 || is_space(x[i - 1])) && (i == last || is_space(
            x[i + y.len()],
        )) {
            assert(word_at(s@, w@, i as int));
            return true;
        }
        if i == last {
            return false;
        }
        i = i + 1;
    }
}

/// A text starts with its front and ends with its back, and holds what stands in its middle.
pub proof fn law_parts_are_found(a: Seq<char>, b: Seq<char>, c: Seq<char>)
    ensures
        begins(a + b, a),
        ends(a + b, b),
        holds(a + b + c, b),
        begins(a, b) && begins(b, a) ==> a == b,
        ends(a, b) && ends(b, a) ==> a == b,
        b.len() > a.len() ==> !begins(a, b) && !ends(a, b),
{
    assert((a + b).subrange(0, a.len() as int) =~= a);
    assert((a + b).subrange(a.len() as int, (a + b).len() as int) =~= b);
    let s = a + b + c;
    assert(s.subrange(a.len() as int, (a.len() + b.len()) as int) =~= b);
    assert(stands_at(s, b, a.len() as int));
    if a.len() == b.len() {
        assert(a.subrange(0, a.len() as int) =~= a);
        assert(b.subrange(0, b.len() as int) =~= b);
    }
}

/// Trimming takes white space away at both ends and nothing else: the rest stands in the text with
/// nothing but white space around it, and neither starts nor ends with any.
pub proof fn law_trimming_takes_space_at_the_ends(a: Seq<char>, s: Seq<char>, b: Seq<char>)
    requires
        forall|i: int| 0 <= i < a.len() ==> space(#[trigger] a[i]),
        forall|i: int| 0 <= i < b.len() ==> space(#[trigger] b[i]),
        s.len() > 0,
        !space(s[0]),
        !space(s.last()),
    ensures
        trimmed(a + s + b) == s,
{
    lemma_front_is_trimmed(a, s + b);
    assert(a + s + b =~= a + (s + b));
    lemma_back_is_trimmed(s, b);
}

/// White space before a text is taken away.
proof fn lemma_front_is_trimmed(a: Seq<char>, s: Seq<char>)
    requires
        forall|i: int| 0 <= i < a.len() ==> space(#[trigger] a[i]),
        s.len() > 0,
        !space(s[0]),
    ensures
        trimmed_front(a + s) == s,
    decreases a.len(),
{
    if a.len() > 0 {
        let rest = a.skip(1);
        assert forall|i: int| 0 <= i < rest.len() implies space(#[trigger] rest[i]) by {
            assert(rest[i] == a[i + 1]);
        }
        assert(space(a[0]));
        assert((a + s)[0] == a[0]);
        assert((a + s).skip(1) =~= rest + s);
        lemma_front_is_trimmed(rest, s);
    } else {
        assert(a + s =~= s);
    }
}

/// White space behind a text is taken away.
proof fn lemma_back_is_trimmed(s: Seq<char>, b: Seq<char>)
    requires
        forall|i: int| 0 <= i < b.len() ==> space(#[trigger] b[i]),
        s.len() > 0,
        !space(s.last()),
    ensures
        trimmed_back(s + b) == s,
    decreases b.len(),
{
    if b.len() > 0 {
        let rest = b.drop_last();
        assert forall|i: int| 0 <= i < rest.len() implies space(#[trigger] rest[i]) by {
            assert(rest[i] == b[i]);
        }
        assert(space(b[b.len() - 1]));
        assert((s + b).last() == b.last());
        assert((s + b).drop_last() =~= s + rest);
        lemma_back_is_trimmed(s, rest);
    } else {
        assert(s + b =~= s);
    }
}

/// A text is cut at the first of its separators: what comes before it holds none, and what follows
/// is the rest; a text without one is not cut.
pub proof fn law_texts_are_cut_at_the_first(a: Seq<char>, b: Seq<char>, c: char)
    requires
        !a.contains(c),
    ensures
        cut(a + seq![c] + b, c) == (a, Some(b)),
        cut(a, c) == (a, None::<Seq<char>>),
{
    let s = a + seq![c] + b;
    assert forall|k: int| 0 <= k < a.len() implies #[trigger] a[k] != c && s[k] != c by {
        assert(a.contains(a[k]));
    }
    lemma_until(a, c, a.len() as int);
    lemma_until(s, c, a.len() as int);
    assert(s[a.len() as int] == c);
    assert(s.take(a.len() as int) =~= a);
    assert(s.skip((a.len() + 1) as int) =~= b);
}

/// The lines of a text are its first line, without a carriage return at its end, and the lines of
/// the rest; a text without a line feed is one line, and no text has none.
pub proof fn law_lines_follow_each_other(a: Seq<char>, b: Seq<char>)
    requires
        !a.contains('\n'),
    ensures
        lines_of(a + seq!['\n'] + b).len() == 1 + lines_of(b).len(),
        lines_of(a + seq!['\n'] + b).skip(1) == lines_of(b),
        a.len() == 0 || a.last() != '\r' ==> lines_of(a + seq!['\n'] + b)[0] == a,
        a.len() > 0 && a.last() == '\r' ==> lines_of(a + seq!['\n'] + b)[0] == a.drop_last(),
        a.len() > 0 ==> lines_of(a) == seq![a],
        lines_of(Seq::<char>::empty()) == Seq::<Seq<char>>::empty(),
{
    law_texts_are_cut_at_the_first(a, b, '\n');
    let s = a + seq!['\n'] + b;
    assert(lines_of(s) == seq![chomped(a)] + lines_of(b));
    assert(lines_of(s).skip(1) =~= lines_of(b));
}

/// A word is found where white space or an end stands on either side of it, and not within another
/// word.
pub proof fn law_words_stand_alone(a: Seq<char>, w: Seq<char>, b: Seq<char>)
    requires
        w.len() > 0,
    ensures
        (a.len() == 0 || space(a.last())) && (b.len() == 0 || space(b[0])) ==> has_word(
            a + w + b,
            w,
        ),
        has_word(w, w),
        b.len() > 0 && !space(b[0]) ==> !word_at(a + w + b, w, a.len() as int),
        a.len() > 0 && !space(a.last()) ==> !word_at(a + w + b, w, a.len() as int),
{
    let s = a + w + b;
    let i = a.len() as int;
    assert(s.subrange(i, i + w.len()) =~= w);
    assert(stands_at(s, w, i));
    if (a.len() == 0 || space(a.last())) && (b.len() == 0 || space(b[0])) {
        assert(word_at(s, w, i));
    }
    assert(w.subrange(0, w.len() as int) =~= w);
    assert(word_at(w, w, 0));
}

} // verus!
