//! What the operations on texts come to, said of whole texts.

use vstd::prelude::*;

use crate::text::{
    before, begins, decimal, digit, ends, find_char, find_from, first_chars, holds, joined,
    lemma_before_irreflexive, lemma_find_char, lemma_find_from, lemma_trim_start_len,
    lemma_word_len, lines_of, matches_at, occurrences, signed_decimal, small, strip_return, trim,
    trim_end, trim_end_of, trim_of, trim_start, trim_start_of, white_space, word_len, words,
};

verus! {

/// A text begins with another if that is a prefix of it, and ends with another if
/// that is a suffix of it.
pub proof fn law_ends(hay: Seq<char>, needle: Seq<char>)
    ensures
        begins(hay, needle) <==> needle.is_prefix_of(hay),
        ends(hay, needle) <==> needle.is_suffix_of(hay),
{
}

/// A text holds another exactly if that stands between two parts of it.
pub proof fn law_holds(hay: Seq<char>, needle: Seq<char>)
    ensures
        holds(hay, needle) <==> exists|a: Seq<char>, b: Seq<char>| hay == #[trigger] (a + needle + b),
{
    if holds(hay, needle) {
        let i = choose|i: int| matches_at(hay, needle, i);
        assert(hay =~= hay.take(i) + needle + hay.skip(i + needle.len()));
    }
    if exists|a: Seq<char>, b: Seq<char>| hay == #[trigger] (a + needle + b) {
        let (a, b) = choose|a: Seq<char>, b: Seq<char>| hay == #[trigger] (a + needle + b);
        lemma_stands(a, needle, b);
    }
}

proof fn lemma_stands(a: Seq<char>, needle: Seq<char>, b: Seq<char>)
    ensures
        matches_at(a + needle + b, needle, a.len() as int),
{
    let hay = a + needle + b;
    assert(hay.subrange(a.len() as int, (a.len() + needle.len()) as int) =~= needle);
}

/// The first place of a text in another: it stands there, and no earlier.
pub proof fn law_first_place(a: Seq<char>, needle: Seq<char>, b: Seq<char>)
    requires
        forall|x: Seq<char>, y: Seq<char>| a + needle + b == #[trigger] (x + needle + y) ==> x.len()
            >= a.len(),
    ensures
        find_from(a + needle + b, needle, 0) == Some(a.len() as int),
{
    let hay = a + needle + b;
    lemma_find_from(hay, needle, 0);
    lemma_stands(a, needle, b);
    let i = find_from(hay, needle, 0)->0;
    assert(hay =~= hay.take(i) + needle + hay.skip(i + needle.len()));
}

/// A text of white space.
pub open spec fn blank(s: Seq<char>) -> bool {
    forall|i: int| 0 <= i < s.len() ==> white_space(#[trigger] s[i])
}

/// White space around a text that begins and ends with something else is taken
/// off, and nothing more.
pub proof fn law_trim(a: Seq<char>, s: Seq<char>, b: Seq<char>)
    requires
        blank(a),
        blank(b),
        s.len() > 0 ==> !white_space(s[0]) && !white_space(s.last()),
    ensures
        trim(a + s + b) == s,
        s.len() > 0 ==> trim_start(a + s + b) == s + b,
{
    if s.len() == 0 {
        assert(a + s + b =~= a + b);
        lemma_blank_start(a + b);
        assert(s =~= seq![]);
    } else {
        assert(a + s + b =~= a + (s + b));
        lemma_start(a, s + b);
        lemma_end(s, b);
    }
}

proof fn lemma_blank_start(a: Seq<char>)
    requires
        blank(a),
    ensures
        trim_start(a).len() == 0,
        trim(a).len() == 0,
    decreases a.len(),
{
    if a.len() > 0 {
        assert(white_space(a[0]));
        assert forall|i: int| 0 <= i < a.len() - 1 implies white_space(
            #[trigger] a.drop_first()[i],
        ) by {
            assert(white_space(a[i + 1]));
        }
        lemma_blank_start(a.drop_first());
    }
}

pub proof fn lemma_start(a: Seq<char>, s: Seq<char>)
    requires
        blank(a),
        s.len() > 0,
        !white_space(s[0]),
    ensures
        trim_start(a + s) == s,
    decreases a.len(),
{
    if a.len() > 0 {
        assert(white_space(a[0]));
        assert forall|i: int| 0 <= i < a.len() - 1 implies white_space(
            #[trigger] a.drop_first()[i],
        ) by {
            assert(white_space(a[i + 1]));
        }
        assert((a + s).drop_first() =~= a.drop_first() + s);
        lemma_start(a.drop_first(), s);
    } else {
        assert(a + s =~= s);
    }
}

proof fn lemma_end(s: Seq<char>, b: Seq<char>)
    requires
        blank(b),
        s.len() > 0,
        !white_space(s.last()),
    ensures
        trim_end(s + b) == s,
    decreases b.len(),
{
    if b.len() > 0 {
        assert(white_space(b[b.len() - 1]));
        assert forall|i: int| 0 <= i < b.len() - 1 implies white_space(
            #[trigger] b.drop_last()[i],
        ) by {
            assert(white_space(b[i]));
        }
        assert((s + b).drop_last() =~= s + b.drop_last());
        lemma_end(s, b.drop_last());
    } else {
        assert(s + b =~= s);
    }
}

/// A text of nothing but the given character.
pub open spec fn all_of(s: Seq<char>, c: char) -> bool {
    forall|i: int| 0 <= i < s.len() ==> #[trigger] s[i] == c
}

/// Copies of a character around a text that has none at its ends are taken off,
/// and nothing more.
pub proof fn law_trim_of(a: Seq<char>, s: Seq<char>, b: Seq<char>, c: char)
    requires
        all_of(a, c),
        all_of(b, c),
        s.len() > 0,
        s[0] != c,
        s.last() != c,
    ensures
        trim_of(a + s + b, c) == s,
        trim_start_of(a + s, c) == s,
        trim_end_of(s + b, c) == s,
{
    assert(a + s + b =~= a + (s + b));
    lemma_start_of(a, s + b, c);
    lemma_start_of(a, s, c);
    lemma_end_of(s, b, c);
}

pub proof fn lemma_start_of(a: Seq<char>, s: Seq<char>, c: char)
    requires
        all_of(a, c),
        s.len() > 0,
        s[0] != c,
    ensures
        trim_start_of(a + s, c) == s,
    decreases a.len(),
{
    if a.len() > 0 {
        assert((a + s)[0] == a[0]);
        assert((a + s).drop_first() =~= a.drop_first() + s);
        lemma_start_of(a.drop_first(), s, c);
    } else {
        assert(a + s =~= s);
    }
}

pub proof fn lemma_end_of(s: Seq<char>, b: Seq<char>, c: char)
    requires
        all_of(b, c),
        s.len() > 0,
        s.last() != c,
    ensures
        trim_end_of(s + b, c) == s,
    decreases b.len(),
{
    if b.len() > 0 {
        assert((s + b).last() == b[b.len() - 1]);
        assert((s + b).drop_last() =~= s + b.drop_last());
        lemma_end_of(s, b.drop_last(), c);
    } else {
        assert(s + b =~= s);
    }
}

/// Joined texts: none gives nothing, one gives itself, and two lists joined
/// have the separator between them.
pub proof fn law_joined(a: Seq<Seq<char>>, b: Seq<Seq<char>>, x: Seq<char>, sep: Seq<char>)
    ensures
        joined(seq![], sep).len() == 0,
        joined(seq![x], sep) == x,
        a.len() > 0 && b.len() > 0 ==> joined(a + b, sep) == joined(a, sep) + sep + joined(b, sep),
    decreases b.len(),
{
    if a.len() > 0 && b.len() > 0 {
        assert((a + b).drop_last() =~= a + b.drop_last());
        if b.len() == 1 {
            assert(a + b.drop_last() =~= a);
        } else {
            law_joined(a, b.drop_last(), x, sep);
            assert(joined(a + b, sep) =~= joined(a, sep) + sep + joined(b, sep));
        }
    }
}

/// A text without white space.
pub open spec fn solid(s: Seq<char>) -> bool {
    forall|i: int| 0 <= i < s.len() ==> !white_space(#[trigger] s[i])
}

/// The words of a text: a text without white space is one word, and white space
/// parts the words before it from those behind it.
pub proof fn law_words(a: Seq<char>, c: char, b: Seq<char>)
    requires
        white_space(c),
    ensures
        words(seq![]).len() == 0,
        a.len() > 0 && solid(a) ==> words(a) == seq![a],
        words(a + seq![c] + b) == words(a) + words(b),
    decreases a.len(),
{
    if a.len() > 0 && solid(a) {
        lemma_solid_word(a);
    }
    let s = a + seq![c] + b;
    let t = trim_start(a);
    if t.len() == 0 {
        lemma_all_blank(a);
        assert(s =~= a.push(c) + b);
        assert(blank(a.push(c)));
        lemma_start_skip(a.push(c), b);
        assert(words(a) + words(b) =~= words(b));
        lemma_words_trim(s);
        lemma_words_trim(b);
    } else {
        let k = lemma_start_at(a);
        assert(a =~= a.take(k) + t);
        assert(s =~= a.take(k) + (t + seq![c] + b));
        lemma_trim_start_len(a);
        lemma_start(a.take(k), t + seq![c] + b);
        let n = word_len(t) as int;
        lemma_word_len(t);
        lemma_word_cut(t, c, b);
        assert(n > 0);
        let rest = t.skip(n);
        assert((t + seq![c] + b).skip(n) =~= rest + seq![c] + b);
        assert((t + seq![c] + b).take(n) =~= t.take(n));
        law_words(rest, c, b);
        assert(words(s) =~= words(a) + words(b));
    }
}

proof fn lemma_words_trim(s: Seq<char>)
    ensures
        words(s) == words(trim_start(s)),
{
    crate::text::lemma_trim_start_idempotent(s);
}

proof fn lemma_solid_word(a: Seq<char>)
    requires
        a.len() > 0,
        solid(a),
    ensures
        words(a) == seq![a],
{
    assert(!white_space(a[0]));
    lemma_solid_len(a);
    assert(a.skip(a.len() as int) =~= seq![]);
    assert(a.take(a.len() as int) =~= a);
    let none: Seq<char> = seq![];
    assert(words(none) =~= seq![]);
    assert(words(a) =~= seq![a]);
}

pub proof fn lemma_solid_len(a: Seq<char>)
    requires
        solid(a),
    ensures
        word_len(a) == a.len(),
    decreases a.len(),
{
    if a.len() > 0 {
        assert(!white_space(a[0]));
        assert forall|i: int| 0 <= i < a.len() - 1 implies !white_space(
            #[trigger] a.drop_first()[i],
        ) by {
            assert(!white_space(a[i + 1]));
        }
        lemma_solid_len(a.drop_first());
    }
}

proof fn lemma_all_blank(a: Seq<char>)
    requires
        trim_start(a).len() == 0,
    ensures
        blank(a),
    decreases a.len(),
{
    if a.len() > 0 {
        lemma_all_blank(a.drop_first());
        assert forall|i: int| 0 <= i < a.len() implies white_space(#[trigger] a[i]) by {
            if i > 0 {
                assert(white_space(a.drop_first()[i - 1]));
            }
        }
    }
}

proof fn lemma_start_skip(a: Seq<char>, b: Seq<char>)
    requires
        blank(a),
    ensures
        trim_start(a + b) == trim_start(b),
    decreases a.len(),
{
    if a.len() > 0 {
        assert(white_space(a[0]));
        assert forall|i: int| 0 <= i < a.len() - 1 implies white_space(
            #[trigger] a.drop_first()[i],
        ) by {
            assert(white_space(a[i + 1]));
        }
        assert((a + b).drop_first() =~= a.drop_first() + b);
        lemma_start_skip(a.drop_first(), b);
    } else {
        assert(a + b =~= b);
    }
}

proof fn lemma_start_at(a: Seq<char>) -> (k: int)
    ensures
        0 <= k <= a.len(),
        blank(a.take(k)),
        trim_start(a) == a.skip(k),
    decreases a.len(),
{
    if a.len() > 0 && white_space(a[0]) {
        let k = lemma_start_at(a.drop_first());
        assert forall|i: int| 0 <= i < k + 1 implies white_space(#[trigger] a.take(k + 1)[i]) by {
            if i > 0 {
                assert(white_space(a.drop_first().take(k)[i - 1]));
            }
        }
        assert(a.drop_first().skip(k) =~= a.skip(k + 1));
        k + 1
    } else {
        assert(a.skip(0) =~= a);
        0
    }
}

pub proof fn lemma_word_cut(t: Seq<char>, c: char, b: Seq<char>)
    requires
        white_space(c),
    ensures
        word_len(t + seq![c] + b) == word_len(t),
    decreases t.len(),
{
    if t.len() == 0 {
        assert((t + seq![c] + b)[0] == c);
    } else {
        assert((t + seq![c] + b)[0] == t[0]);
        if !white_space(t[0]) {
            assert((t + seq![c] + b).drop_first() =~= t.drop_first() + seq![c] + b);
            lemma_word_cut(t.drop_first(), c, b);
        }
    }
}

/// The lines of a text: a line feed ends a line, alone or behind a carriage
/// return, and what follows are the further lines.
pub proof fn law_lines(line: Seq<char>, rest: Seq<char>)
    requires
        !line.contains('\n'),
    ensures
        lines_of(seq![]).len() == 0,
        line.len() > 0 ==> lines_of(line) == seq![line],
        line.len() == 0 || line.last() != '\r' ==> lines_of(line + seq!['\n'] + rest) == seq![line]
            + lines_of(rest),
        lines_of(line + seq!['\r', '\n'] + rest) == seq![line] + lines_of(rest),
{
    lemma_find_char(line, '\n', 0);
    if find_char(line, '\n', 0) is Some {
        assert(line.contains(line[find_char(line, '\n', 0)->0]));
    }
    lemma_line_at(line, rest);
    let other = line.push('\r');
    assert(line + seq!['\r', '\n'] + rest =~= other + seq!['\n'] + rest);
    assert(!other.contains('\n')) by {
        if other.contains('\n') {
            let i = choose|i: int| 0 <= i < other.len() && other[i] == '\n';
            assert(line[i] == '\n');
        }
    }
    lemma_line_at(other, rest);
    assert(strip_return(other) =~= line);
}

proof fn lemma_line_at(line: Seq<char>, rest: Seq<char>)
    requires
        !line.contains('\n'),
    ensures
        lines_of(line + seq!['\n'] + rest) == seq![strip_return(line)] + lines_of(rest),
{
    let s = line + seq!['\n'] + rest;
    let n = line.len() as int;
    lemma_find_char(s, '\n', 0);
    assert(s[n] == '\n');
    let i = find_char(s, '\n', 0)->0;
    if i < n {
        assert(line[i] == '\n');
    }
    assert(s.take(n) =~= line);
    assert(s.skip(n + 1) =~= rest);
}

/// What stands behind a line feed are further lines, whatever stands before it.
pub proof fn law_lines_behind(a: Seq<char>, b: Seq<char>)
    ensures
        lines_of(a + seq!['\n'] + b) == lines_of(a + seq!['\n']) + lines_of(b),
    decreases a.len(),
{
    let none: Seq<char> = seq![];
    lemma_find_char(a, '\n', 0);
    match find_char(a, '\n', 0) {
        Some(i) => {
            let line = a.take(i);
            let rest = a.skip(i + 1);
            if line.contains('\n') {
                let j = choose|j: int| 0 <= j < line.len() && line[j] == '\n';
                assert(a[j] == '\n');
            }
            assert(a + seq!['\n'] + b =~= line + seq!['\n'] + (rest + seq!['\n'] + b));
            assert(a + seq!['\n'] =~= line + seq!['\n'] + (rest + seq!['\n']));
            lemma_line_at(line, rest + seq!['\n'] + b);
            lemma_line_at(line, rest + seq!['\n']);
            law_lines_behind(rest, b);
            assert(lines_of(a + seq!['\n'] + b) =~= lines_of(a + seq!['\n']) + lines_of(b));
        },
        None => {
            if a.contains('\n') {
                let j = choose|j: int| 0 <= j < a.len() && a[j] == '\n';
                assert(a[j] == '\n');
            }
            lemma_line_at(a, b);
            assert(a + seq!['\n'] =~= a + seq!['\n'] + none);
            lemma_line_at(a, none);
            assert(lines_of(none) =~= seq![]);
            assert(lines_of(a + seq!['\n'] + b) =~= lines_of(a + seq!['\n']) + lines_of(b));
        },
    }
}

/// The number that digits write.
pub open spec fn number_of(s: Seq<char>) -> int
    decreases s.len(),
{
    if s.len() == 0 {
        0
    } else {
        10 * number_of(s.drop_last()) + (s.last() as int - '0' as int)
    }
}

/// A number is written in digits, without leading zeros, and the digits give it
/// back; a negative one has a minus sign before them.
pub proof fn law_decimal(n: nat)
    ensures
        number_of(decimal(n)) == n,
        decimal(n).len() > 0,
        forall|i: int| 0 <= i < decimal(n).len() ==> '0' <= #[trigger] decimal(n)[i] <= '9',
        n > 0 ==> decimal(n)[0] != '0',
        signed_decimal(n as int) == decimal(n),
        n > 0 ==> signed_decimal(-(n as int)) == seq!['-'] + decimal(n),
    decreases n,
{
    reveal_with_fuel(number_of, 2);
    if n < 10 {
        assert(seq![digit(n)].drop_last() =~= seq![]);
    } else {
        law_decimal(n / 10);
        let front = decimal(n / 10);
        assert(decimal(n).drop_last() =~= front);
        assert forall|i: int| 0 <= i < decimal(n).len() implies '0' <= #[trigger] decimal(n)[i]
            <= '9' by {
            if i < front.len() {
                assert(decimal(n)[i] == front[i]);
            }
        }
        assert(decimal(n)[0] == front[0]);
    }
}

/// The order of texts: a proper prefix comes first, and else the first
/// characters that differ decide.
pub proof fn law_before(p: Seq<char>, a: Seq<char>, b: Seq<char>)
    requires
        b.len() > 0,
        a.len() > 0 ==> (a[0] as int) < (b[0] as int),
    ensures
        before(p + a, p + b),
        !before(p + b, p + a),
        !before(p, p),
    decreases p.len(),
{
    lemma_before_irreflexive(p);
    if p.len() > 0 {
        assert((p + a).drop_first() =~= p.drop_first() + a);
        assert((p + b).drop_first() =~= p.drop_first() + b);
        law_before(p.drop_first(), a, b);
    } else {
        assert(p + a =~= a);
        assert(p + b =~= b);
    }
}

/// The beginning of a text: as much of it as asked for, or all of it.
pub proof fn law_first_chars(s: Seq<char>, n: nat)
    ensures
        first_chars(s, n).is_prefix_of(s),
        first_chars(s, n).len() <= n,
        first_chars(s, n).len() < n ==> first_chars(s, n) == s,
{
}

/// A text is counted in another exactly if that holds it, and as often as it
/// fits in without overlap.
pub proof fn law_occurrences(hay: Seq<char>, needle: Seq<char>)
    requires
        needle.len() > 0,
    ensures
        occurrences(hay, needle, 0) > 0 <==> holds(hay, needle),
        occurrences(hay, needle, 0) * needle.len() <= hay.len(),
{
    lemma_find_from(hay, needle, 0);
    if holds(hay, needle) {
        let i = choose|i: int| matches_at(hay, needle, i);
        assert(matches_at(hay, needle, i));
    }
    if find_from(hay, needle, 0) is Some {
        assert(matches_at(hay, needle, find_from(hay, needle, 0)->0));
    }
    lemma_fit(hay, needle, 0);
}

proof fn lemma_fit(hay: Seq<char>, needle: Seq<char>, from: int)
    requires
        needle.len() > 0,
        0 <= from <= hay.len(),
    ensures
        occurrences(hay, needle, from) * needle.len() <= hay.len() - from,
    decreases hay.len() - from,
{
    lemma_find_from(hay, needle, from);
    match find_from(hay, needle, from) {
        Some(i) => {
            lemma_fit(hay, needle, i + needle.len());
            let rest = occurrences(hay, needle, i + needle.len());
            assert((1 + rest) * needle.len() == needle.len() + rest * needle.len())
                by (nonlinear_arith);
        },
        None => {
            assert(0 * needle.len() == 0);
        },
    }
}

/// Behind one more copy of a text that it is not yet part of, a text holds it
/// once more.
pub proof fn law_occurrence_more(a: Seq<char>, needle: Seq<char>, b: Seq<char>)
    requires
        needle.len() > 0,
        forall|x: Seq<char>, y: Seq<char>| a + needle + b == #[trigger] (x + needle + y) ==> x.len()
            >= a.len(),
    ensures
        occurrences(a + needle + b, needle, 0) == 1 + occurrences(b, needle, 0),
{
    law_first_place(a, needle, b);
    let hay = a + needle + b;
    let n = a.len() + needle.len();
    assert(hay.skip(n as int) =~= b);
    lemma_occurrences_skip(hay, needle, n as int, 0);
}

proof fn lemma_occurrences_skip(hay: Seq<char>, needle: Seq<char>, n: int, from: int)
    requires
        needle.len() > 0,
        0 <= n <= hay.len(),
        0 <= from <= hay.len() - n,
    ensures
        occurrences(hay, needle, n + from) == occurrences(hay.skip(n), needle, from),
    decreases hay.len() - n - from,
{
    let rest = hay.skip(n);
    lemma_find_from(hay, needle, n + from);
    lemma_find_from(rest, needle, from);
    assert forall|i: int| 0 <= i implies (#[trigger] matches_at(rest, needle, i) <==> matches_at(
        hay,
        needle,
        n + i,
    )) by {
        if i + needle.len() <= rest.len() {
            assert(rest.subrange(i, i + needle.len()) =~= hay.subrange(
                n + i,
                n + i + needle.len(),
            ));
        }
    }
    match find_from(rest, needle, from) {
        Some(i) => {
            assert(matches_at(hay, needle, n + i));
            let j = find_from(hay, needle, n + from)->0;
            assert(matches_at(rest, needle, j - n) <==> matches_at(hay, needle, n + (j - n)));
            assert(i == j - n);
            lemma_occurrences_skip(hay, needle, n, i + needle.len());
        },
        None => {
            if find_from(hay, needle, n + from) is Some {
                let j = find_from(hay, needle, n + from)->0;
                assert(matches_at(rest, needle, j - n) <==> matches_at(hay, needle, n + (j - n)));
            }
        },
    }
}

/// An ASCII text in small letters: every capital is its small letter, every other
/// character stays, and nothing is left to do.
pub proof fn law_small(s: Seq<char>)
    requires
        crate::text::ascii(s),
    ensures
        small(s).len() == s.len(),
        forall|i: int|
            0 <= i < s.len() ==> #[trigger] small(s)[i] as u32 == if 'A' as u32 <= s[i] as u32
                <= 'Z' as u32 {
                (s[i] as u32 - 'A' as u32 + 'a' as u32) as int
            } else {
                s[i] as u32 as int
            },
        small(small(s)) == small(s),
{
    assert forall|i: int| 0 <= i < s.len() implies (#[trigger] small(s)[i] as u32) < 128 by {
        assert((s[i] as u32) < 128);
    }
    assert(small(small(s)) =~= small(s));
}

/// The characters that are white space, by their numbers; and among the ASCII ones
/// the letters and digits.
pub proof fn law_characters(c: char)
    ensures
        white_space(c) <==> seq![
            0x9u32, 0xa, 0xb, 0xc, 0xd, 0x20, 0x85, 0xa0, 0x1680, 0x2000, 0x2001, 0x2002, 0x2003,
            0x2004, 0x2005, 0x2006, 0x2007, 0x2008, 0x2009, 0x200a, 0x2028, 0x2029, 0x202f, 0x205f,
            0x3000,
        ].contains(c as u32),
        white_space('\n') && white_space(' ') && white_space('\t') && white_space('\r'),
        (c as u32) < 128 ==> (crate::text::letter(c) <==> 'a' <= c <= 'z' || 'A' <= c <= 'Z' || '0'
            <= c <= '9'),
{
    let all = seq![
        0x9u32, 0xa, 0xb, 0xc, 0xd, 0x20, 0x85, 0xa0, 0x1680, 0x2000, 0x2001, 0x2002, 0x2003,
        0x2004, 0x2005, 0x2006, 0x2007, 0x2008, 0x2009, 0x200a, 0x2028, 0x2029, 0x202f, 0x205f,
        0x3000,
    ];
    assert(all[0] == 9 && all[1] == 10 && all[2] == 11 && all[3] == 12 && all[4] == 13);
    assert(all[5] == 0x20 && all[6] == 0x85 && all[7] == 0xa0 && all[8] == 0x1680);
    assert(all[9] == 0x2000 && all[10] == 0x2001 && all[11] == 0x2002 && all[12] == 0x2003);
    assert(all[13] == 0x2004 && all[14] == 0x2005 && all[15] == 0x2006 && all[16] == 0x2007);
    assert(all[17] == 0x2008 && all[18] == 0x2009 && all[19] == 0x200a && all[20] == 0x2028);
    assert(all[21] == 0x2029 && all[22] == 0x202f && all[23] == 0x205f && all[24] == 0x3000);
}

} // verus!
