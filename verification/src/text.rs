//! Text as sequences of characters: searching, trimming, splitting, joining
//! and the decimal notation of integers.
//!
//! The specification side works on `Seq<char>`, the view of `str` and
//! `String`; the executable side decodes a `str` once into a `Vec<char>`.

use vstd::prelude::*;

verus! {

/// Whether a character has the Unicode `White_Space` property.
pub open spec fn white_space(c: char) -> bool {
    let n = c as u32;
    ||| 0x9 <= n <= 0xd
    ||| n == 0x20
    ||| n == 0x85
    ||| n == 0xa0
    ||| n == 0x1680
    ||| 0x2000 <= n <= 0x200a
    ||| 0x2028 <= n <= 0x2029
    ||| n == 0x202f
    ||| n == 0x205f
    ||| n == 0x3000
}

/// Whether a character is alphabetic or numeric in Unicode.
pub uninterp spec fn alphanumeric(c: char) -> bool;

/// The Unicode lowercase mapping of a text.
pub uninterp spec fn lowercase(s: Seq<char>) -> Seq<char>;

/// A text of ASCII characters.
pub open spec fn ascii(s: Seq<char>) -> bool {
    forall|i: int| 0 <= i < s.len() ==> (#[trigger] s[i] as u32) < 128
}

/// Whether an ASCII character is a letter or a digit.
pub open spec fn ascii_letter(c: char) -> bool {
    '0' <= c <= '9' || 'A' <= c <= 'Z' || 'a' <= c <= 'z'
}

/// A character with a small letter for an ASCII capital.
pub open spec fn small_char(c: char) -> char {
    if 'A' <= c <= 'Z' {
        (c as u32 + 32) as char
    } else {
        c
    }
}

/// Whether a character is a letter or a digit: in ASCII one of those, and in
/// Unicode an alphabetic or a numeric one.
pub open spec fn letter(c: char) -> bool {
    if (c as u32) < 128 {
        ascii_letter(c)
    } else {
        alphanumeric(c)
    }
}

/// A text in small letters: an ASCII text character by character, and any other
/// by the Unicode mapping.
pub open spec fn small(s: Seq<char>) -> Seq<char> {
    if ascii(s) {
        Seq::new(s.len(), |i: int| small_char(s[i]))
    } else {
        lowercase(s)
    }
}

/// Whether a character has the Unicode `White_Space` property.
pub fn is_white(c: char) -> (r: bool)
    ensures
        r == white_space(c),
{
    let n: u32 = c as u32;
    0x9 <= n && n <= 0xd || n == 0x20 || n == 0x85 || n == 0xa0 || n == 0x1680 || 0x2000 <= n && n
        <= 0x200a || n == 0x2028 || n == 0x2029 || n == 0x202f || n == 0x205f || n == 0x3000
}

/// `char::is_alphanumeric`: the Unicode property, named `alphanumeric`. Of the
/// ASCII characters exactly the letters and the digits have it.
#[verifier::external_body]
pub(crate) fn is_alnum(c: char) -> (r: bool)
    ensures
        r == alphanumeric(c),
        (c as u32) < 128 ==> r == ascii_letter(c),
{
    c.is_alphanumeric()
}

/// `str::to_lowercase`: the Unicode mapping, named `lowercase`. It maps an
/// ASCII text character by character, capitals to small letters and every other
/// character to itself.
#[verifier::external_body]
pub(crate) fn to_lower(s: &str) -> (r: String)
    ensures
        r@ == lowercase(s@),
        ascii(s@) ==> r@ == Seq::new(s@.len(), |i: int| small_char(s@[i])),
{
    s.to_lowercase()
}

/// `==` on `str`: the same characters in the same order.
#[verifier::external_body]
pub(crate) fn same(a: &str, b: &str) -> (r: bool)
    ensures
        r == (a@ == b@),
{
    a == b
}

/// `String::push` appends one character.
pub assume_specification[ String::push ](s: &mut String, c: char)
    ensures
        final(s)@ == old(s)@.push(c),
;

/// `String::push_str` appends a text.
pub assume_specification[ String::push_str ](s: &mut String, t: &str)
    ensures
        final(s)@ == old(s)@ + t@,
;

/// The characters of a text.
pub fn to_chars(s: &str) -> (r: Vec<char>)
    ensures
        r@ == s@,
{
    let mut r: Vec<char> = Vec::new();
    for c in it: s.chars()
        invariant
            r@ == it.seq().take(it.index()),
            it.seq() == s@,
    {
        r.push(c);
    }
    r
}

/// The text made of the given characters.
pub fn from_chars(cs: &[char]) -> (r: String)
    ensures
        r@ == cs@,
{
    let mut r = String::new();
    let mut i: usize = 0;
    while i < cs.len()
        invariant
            i <= cs.len(),
            r@ == cs@.take(i as int),
        decreases cs.len() - i,
    {
        r.push(cs[i]);
        i = i + 1;
    }
    assert(cs@.take(i as int) =~= cs@);
    r
}


// ---- Searching -------------------------------------------------------------

/// `needle` stands in `hay` at position `i`.
pub open spec fn matches_at(hay: Seq<char>, needle: Seq<char>, i: int) -> bool {
    &&& 0 <= i
    &&& i + needle.len() <= hay.len()
    &&& hay.subrange(i, i + needle.len()) == needle
}

/// `needle` stands somewhere in `hay`.
pub open spec fn holds(hay: Seq<char>, needle: Seq<char>) -> bool {
    exists|i: int| matches_at(hay, needle, i)
}

/// `hay` begins with `needle`.
pub open spec fn begins(hay: Seq<char>, needle: Seq<char>) -> bool {
    matches_at(hay, needle, 0)
}

/// `hay` ends with `needle`.
pub open spec fn ends(hay: Seq<char>, needle: Seq<char>) -> bool {
    matches_at(hay, needle, hay.len() - needle.len())
}

/// The first position at or after `from` where `needle` stands in `hay`.
pub open spec fn find_from(hay: Seq<char>, needle: Seq<char>, from: int) -> Option<int>
    decreases hay.len() + 1 - from,
{
    if from < 0 || from + needle.len() > hay.len() {
        None
    } else if matches_at(hay, needle, from) {
        Some(from)
    } else {
        find_from(hay, needle, from + 1)
    }
}

/// The first position of `c` at or after `from`.
pub open spec fn find_char(s: Seq<char>, c: char, from: int) -> Option<int>
    decreases s.len() - from,
{
    if from < 0 || from >= s.len() {
        None
    } else if s[from] == c {
        Some(from)
    } else {
        find_char(s, c, from + 1)
    }
}

/// `find_from` finds the least position, and finds one whenever there is one.
pub proof fn lemma_find_from(hay: Seq<char>, needle: Seq<char>, from: int)
    requires
        0 <= from,
    ensures
        find_from(hay, needle, from) matches Some(i) ==> from <= i && matches_at(hay, needle, i)
            && forall|j: int| from <= j < i ==> !matches_at(hay, needle, j),
        find_from(hay, needle, from) is None ==> forall|j: int|
            from <= j ==> !matches_at(hay, needle, j),
    decreases hay.len() + 1 - from,
{
    if from + needle.len() <= hay.len() && !matches_at(hay, needle, from) {
        lemma_find_from(hay, needle, from + 1);
    }
}

/// `find_char` finds the least position, and finds one whenever there is one.
pub proof fn lemma_find_char(s: Seq<char>, c: char, from: int)
    requires
        0 <= from,
    ensures
        find_char(s, c, from) matches Some(i) ==> from <= i < s.len() && s[i] == c && forall|j: int|
            from <= j < i ==> s[j] != c,
        find_char(s, c, from) is None ==> forall|j: int| from <= j < s.len() ==> s[j] != c,
    decreases s.len() - from,
{
    if from < s.len() && s[from] != c {
        lemma_find_char(s, c, from + 1);
    }
}

pub fn match_here(hay: &[char], needle: &[char], at: usize) -> (r: bool)
    ensures
        r == matches_at(hay@, needle@, at as int),
{
    if at > hay.len() || needle.len() > hay.len() - at {
        return false;
    }
    let mut k: usize = 0;
    while k < needle.len()
        invariant
            k <= needle.len(),
            at + needle.len() <= hay.len(),
            forall|j: int| 0 <= j < k ==> hay@[at + j] == needle@[j],
        decreases needle.len() - k,
    {
        if hay[at + k] != needle[k] {
            assert(hay@.subrange(at as int, at + needle@.len())[k as int] == hay@[at + k]);
            return false;
        }
        k = k + 1;
    }
    assert(hay@.subrange(at as int, at + needle@.len()) =~= needle@);
    true
}

/// The first position at or after `from` where `needle` stands in `hay`.
pub fn find(hay: &[char], needle: &[char], from: usize) -> (r: Option<usize>)
    ensures
        match r {
            Some(i) => find_from(hay@, needle@, from as int) == Some(i as int),
            None => find_from(hay@, needle@, from as int) is None,
        },
{
    let mut i: usize = from;
    while i <= hay.len() && needle.len() <= hay.len() - i
        invariant
            from <= i,
            find_from(hay@, needle@, from as int) == find_from(hay@, needle@, i as int),
        decreases hay.len() + 1 - i,
    {
        if match_here(hay, needle, i) {
            return Some(i);
        }
        if i == hay.len() {
            assert(find_from(hay@, needle@, i + 1) is None);
            return None;
        }
        i = i + 1;
    }
    None
}

/// The first position of `c` at or after `from`.
pub fn find_one(s: &[char], c: char, from: usize) -> (r: Option<usize>)
    ensures
        match r {
            Some(i) => find_char(s@, c, from as int) == Some(i as int),
            None => find_char(s@, c, from as int) is None,
        },
{
    let mut i: usize = from;
    while i < s.len()
        invariant
            from <= i,
            find_char(s@, c, from as int) == find_char(s@, c, i as int),
        decreases s.len() - i,
    {
        if s[i] == c {
            return Some(i);
        }
        i = i + 1;
    }
    None
}

/// Whether `needle` stands somewhere in `hay`.
pub fn contains_text(hay: &[char], needle: &[char]) -> (r: bool)
    ensures
        r == holds(hay@, needle@),
{
    let found = find(hay, needle, 0);
    proof {
        lemma_find_from(hay@, needle@, 0);
    }
    match found {
        Some(i) => {
            assert(matches_at(hay@, needle@, i as int));
            true
        },
        None => false,
    }
}

// ---- Trimming --------------------------------------------------------------

/// Without leading white space.
pub open spec fn trim_start(s: Seq<char>) -> Seq<char>
    decreases s.len(),
{
    if s.len() > 0 && white_space(s[0]) {
        trim_start(s.drop_first())
    } else {
        s
    }
}

/// Without trailing white space.
pub open spec fn trim_end(s: Seq<char>) -> Seq<char>
    decreases s.len(),
{
    if s.len() > 0 && white_space(s.last()) {
        trim_end(s.drop_last())
    } else {
        s
    }
}

/// Without leading and trailing white space.
pub open spec fn trim(s: Seq<char>) -> Seq<char> {
    trim_end(trim_start(s))
}

/// Without leading `c`s.
pub open spec fn trim_start_of(s: Seq<char>, c: char) -> Seq<char>
    decreases s.len(),
{
    if s.len() > 0 && s[0] == c {
        trim_start_of(s.drop_first(), c)
    } else {
        s
    }
}

/// Without trailing `c`s.
pub open spec fn trim_end_of(s: Seq<char>, c: char) -> Seq<char>
    decreases s.len(),
{
    if s.len() > 0 && s.last() == c {
        trim_end_of(s.drop_last(), c)
    } else {
        s
    }
}

/// Without leading and trailing `c`s.
pub open spec fn trim_of(s: Seq<char>, c: char) -> Seq<char> {
    trim_end_of(trim_start_of(s, c), c)
}

/// Taking characters off the ends leaves a part of a text that has none of them
/// at its ends.
pub proof fn lemma_trim_of(s: Seq<char>, c: char) -> (r: (int, int))
    ensures
        0 <= r.0 <= r.1 <= s.len(),
        trim_of(s, c) == s.subrange(r.0, r.1),
        r.0 < r.1 ==> s[r.0] != c && s[r.1 - 1] != c,
        s.len() > 0 && s[0] != c && s.last() != c ==> trim_of(s, c) == s,
{
    let a = lemma_trim_start_of(s, c);
    let t = trim_start_of(s, c);
    let b = lemma_trim_end_of(t, c);
    assert(trim_of(s, c) =~= s.subrange(a, a + b));
    (a, a + b)
}

proof fn lemma_trim_start_of(s: Seq<char>, c: char) -> (r: int)
    ensures
        0 <= r <= s.len(),
        trim_start_of(s, c) == s.subrange(r, s.len() as int),
        r < s.len() ==> s[r] != c,
    decreases s.len(),
{
    if s.len() > 0 && s[0] == c {
        let r = lemma_trim_start_of(s.drop_first(), c);
        assert(s.drop_first().subrange(r, s.len() - 1) =~= s.subrange(r + 1, s.len() as int));
        r + 1
    } else {
        assert(s.subrange(0, s.len() as int) =~= s);
        0
    }
}

proof fn lemma_trim_end_of(s: Seq<char>, c: char) -> (r: int)
    ensures
        0 <= r <= s.len(),
        trim_end_of(s, c) == s.subrange(0, r),
        r > 0 ==> s[r - 1] != c,
    decreases s.len(),
{
    if s.len() > 0 && s.last() == c {
        let r = lemma_trim_end_of(s.drop_last(), c);
        assert(s.drop_last().subrange(0, r) =~= s.subrange(0, r));
        r
    } else {
        assert(s.subrange(0, s.len() as int) =~= s);
        s.len() as int
    }
}

/// The index of the first character that is not white space.
pub fn skip_white(s: &[char], from: usize) -> (r: usize)
    requires
        from <= s.len(),
    ensures
        from <= r <= s.len(),
        s@.skip(r as int) == trim_start(s@.skip(from as int)),
{
    let mut i: usize = from;
    while i < s.len() && is_white(s[i])
        invariant
            from <= i <= s.len(),
            trim_start(s@.skip(from as int)) == trim_start(s@.skip(i as int)),
        decreases s.len() - i,
    {
        assert(s@.skip(i as int).drop_first() =~= s@.skip(i + 1));
        i = i + 1;
    }
    i
}

/// The index behind the last character of `s[from..to]` that is not white space.
pub fn back_white(s: &[char], from: usize, to: usize) -> (r: usize)
    requires
        from <= to <= s.len(),
    ensures
        from <= r <= to,
        s@.subrange(from as int, r as int) == trim_end(s@.subrange(from as int, to as int)),
{
    let mut i: usize = to;
    while i > from && is_white(s[i - 1])
        invariant
            from <= i <= to <= s.len(),
            trim_end(s@.subrange(from as int, to as int)) == trim_end(
                s@.subrange(from as int, i as int),
            ),
        decreases i - from,
    {
        assert(s@.subrange(from as int, i as int).drop_last() =~= s@.subrange(
            from as int,
            i - 1,
        ));
        i = i - 1;
    }
    i
}

pub fn trim_start_chars(s: &[char]) -> (r: Vec<char>)
    ensures
        r@ == trim_start(s@),
{
    let i = skip_white(s, 0);
    assert(s@.skip(0) =~= s@);
    assert(s@.skip(i as int) =~= s@.subrange(i as int, s@.len() as int));
    copy_range(s, i, s.len())
}

pub fn trim_chars(s: &[char]) -> (r: Vec<char>)
    ensures
        r@ == trim(s@),
{
    let i = skip_white(s, 0);
    let j = back_white(s, i, s.len());
    assert(s@.skip(0) =~= s@);
    assert(s@.skip(i as int) =~= s@.subrange(i as int, s@.len() as int));
    copy_range(s, i, j)
}

pub fn trim_end_chars(s: &[char]) -> (r: Vec<char>)
    ensures
        r@ == trim_end(s@),
{
    let j = back_white(s, 0, s.len());
    assert(s@.subrange(0, s@.len() as int) =~= s@);
    copy_range(s, 0, j)
}

pub fn trim_start_of_chars(s: &[char], c: char) -> (r: Vec<char>)
    ensures
        r@ == trim_start_of(s@, c),
{
    let mut i: usize = 0;
    assert(s@.skip(0) =~= s@);
    while i < s.len() && s[i] == c
        invariant
            0 <= i <= s.len(),
            trim_start_of(s@, c) == trim_start_of(s@.skip(i as int), c),
        decreases s.len() - i,
    {
        assert(s@.skip(i as int).drop_first() =~= s@.skip(i + 1));
        i = i + 1;
    }
    assert(s@.skip(i as int) =~= s@.subrange(i as int, s@.len() as int));
    copy_range(s, i, s.len())
}

pub fn trim_end_of_chars(s: &[char], c: char) -> (r: Vec<char>)
    ensures
        r@ == trim_end_of(s@, c),
{
    let mut i: usize = s.len();
    assert(s@.subrange(0, s@.len() as int) =~= s@);
    while i > 0 && s[i - 1] == c
        invariant
            0 <= i <= s.len(),
            trim_end_of(s@, c) == trim_end_of(s@.subrange(0, i as int), c),
        decreases i,
    {
        assert(s@.subrange(0, i as int).drop_last() =~= s@.subrange(0, i - 1));
        i = i - 1;
    }
    copy_range(s, 0, i)
}

pub fn trim_of_chars(s: &[char], c: char) -> (r: Vec<char>)
    ensures
        r@ == trim_of(s@, c),
{
    let front = trim_start_of_chars(s, c);
    trim_end_of_chars(&front, c)
}

/// A copy of `s[from..to]`.
pub fn copy_range(s: &[char], from: usize, to: usize) -> (r: Vec<char>)
    requires
        from <= to <= s.len(),
    ensures
        r@ == s@.subrange(from as int, to as int),
{
    let mut r: Vec<char> = Vec::new();
    let mut i: usize = from;
    while i < to
        invariant
            from <= i <= to <= s.len(),
            r@ == s@.subrange(from as int, i as int),
        decreases to - i,
    {
        r.push(s[i]);
        assert(s@.subrange(from as int, i as int).push(s@[i as int]) =~= s@.subrange(
            from as int,
            i + 1,
        ));
        i = i + 1;
    }
    r
}


// ---- Order -----------------------------------------------------------------

/// The order of texts: character by character, a proper prefix first.
pub open spec fn before(a: Seq<char>, b: Seq<char>) -> bool
    decreases a.len(),
{
    if b.len() == 0 {
        false
    } else if a.len() == 0 {
        true
    } else if a[0] != b[0] {
        (a[0] as int) < (b[0] as int)
    } else {
        before(a.drop_first(), b.drop_first())
    }
}

/// The order of texts is never mutual, and what does not come before carries
/// over.
pub proof fn lemma_before_order(a: Seq<char>, b: Seq<char>, c: Seq<char>)
    ensures
        before(a, b) ==> !before(b, a),
        !before(a, b) && !before(b, c) ==> !before(a, c),
    decreases a.len(),
{
    if a.len() > 0 && b.len() > 0 {
        let rest = if c.len() > 0 {
            c.drop_first()
        } else {
            c
        };
        lemma_before_order(a.drop_first(), b.drop_first(), rest);
    }
}

pub proof fn lemma_before_irreflexive(a: Seq<char>)
    ensures
        !before(a, a),
    decreases a.len(),
{
    if a.len() > 0 {
        lemma_before_irreflexive(a.drop_first());
    }
}

pub proof fn lemma_before_transitive(a: Seq<char>, b: Seq<char>, c: Seq<char>)
    requires
        before(a, b),
        before(b, c),
    ensures
        before(a, c),
    decreases a.len(),
{
    if a.len() > 0 && a[0] == b[0] && b[0] == c[0] {
        lemma_before_transitive(a.drop_first(), b.drop_first(), c.drop_first());
    }
}

pub proof fn lemma_before_total(a: Seq<char>, b: Seq<char>)
    ensures
        a == b || before(a, b) || before(b, a),
    decreases a.len(),
{
    if a.len() > 0 && b.len() > 0 && a[0] == b[0] {
        lemma_before_total(a.drop_first(), b.drop_first());
        if a.drop_first() == b.drop_first() {
            assert(a =~= seq![a[0]] + a.drop_first());
            assert(b =~= seq![b[0]] + b.drop_first());
        }
    } else if a.len() == 0 && b.len() == 0 {
        assert(a =~= b);
    }
}

fn chars_before(a: &[char], b: &[char]) -> (r: bool)
    ensures
        r == before(a@, b@),
{
    let mut i: usize = 0;
    assert(a@.skip(0) =~= a@);
    assert(b@.skip(0) =~= b@);
    while i < a.len() && i < b.len()
        invariant
            i <= a.len(),
            i <= b.len(),
            before(a@, b@) == before(a@.skip(i as int), b@.skip(i as int)),
        decreases a.len() - i,
    {
        if a[i] != b[i] {
            return a[i] < b[i];
        }
        assert(a@.skip(i as int).drop_first() =~= a@.skip(i + 1));
        assert(b@.skip(i as int).drop_first() =~= b@.skip(i + 1));
        i = i + 1;
    }
    i < b.len()
}

/// Whether `a` stands strictly before `b`.
pub fn str_before(a: &str, b: &str) -> (r: bool)
    ensures
        r == before(a@, b@),
{
    chars_before(&to_chars(a), &to_chars(b))
}

// ---- Whole texts -----------------------------------------------------------

/// Whether `needle` stands somewhere in `hay`.
pub fn contains_str(hay: &str, needle: &str) -> (r: bool)
    ensures
        r == holds(hay@, needle@),
{
    contains_text(&to_chars(hay), &to_chars(needle))
}

/// Whether `hay` begins with `needle`.
pub fn starts_str(hay: &str, needle: &str) -> (r: bool)
    ensures
        r == begins(hay@, needle@),
{
    match_here(&to_chars(hay), &to_chars(needle), 0)
}

/// Whether `hay` ends with `needle`.
pub fn ends_str(hay: &str, needle: &str) -> (r: bool)
    ensures
        r == ends(hay@, needle@),
{
    let h = to_chars(hay);
    let n = to_chars(needle);
    h.len() >= n.len() && match_here(&h, &n, h.len() - n.len())
}

/// The text without leading and trailing white space.
pub fn trim_str(s: &str) -> (r: String)
    ensures
        r@ == trim(s@),
{
    from_chars(&trim_chars(&to_chars(s)))
}

/// Two texts, one behind the other.
pub fn cat(a: &str, b: &str) -> (r: String)
    ensures
        r@ == a@ + b@,
{
    let mut r = a.to_owned();
    r.push_str(b);
    r
}

/// Three texts, one behind the other.
pub fn cat3(a: &str, b: &str, c: &str) -> (r: String)
    ensures
        r@ == a@ + b@ + c@,
{
    let mut r = a.to_owned();
    r.push_str(b);
    r.push_str(c);
    r
}

/// The parts with `sep` between neighbours.
pub open spec fn joined(parts: Seq<Seq<char>>, sep: Seq<char>) -> Seq<char>
    decreases parts.len(),
{
    if parts.len() == 0 {
        seq![]
    } else if parts.len() == 1 {
        parts[0]
    } else {
        joined(parts.drop_last(), sep) + sep + parts.last()
    }
}

/// The parts with `sep` between neighbours.
pub fn join(parts: &Vec<String>, sep: &str) -> (r: String)
    ensures
        r@ == joined(parts.deep_view(), sep@),
{
    let mut r = String::new();
    let mut i: usize = 0;
    let ghost all = parts.deep_view();
    while i < parts.len()
        invariant
            i <= parts.len(),
            all == parts.deep_view(),
            r@ == joined(all.take(i as int), sep@),
        decreases parts.len() - i,
    {
        if i > 0 {
            r.push_str(sep);
        }
        r.push_str(parts[i].as_str());
        assert(all.take(i + 1).drop_last() =~= all.take(i as int));
        assert(all.take(i + 1).last() == parts@[i as int]@);
        assert(r@ =~= joined(all.take(i + 1), sep@));
        i = i + 1;
    }
    assert(all.take(i as int) =~= all);
    r
}

/// A line without the carriage return that stood before its line feed.
pub open spec fn strip_return(s: Seq<char>) -> Seq<char> {
    if s.len() > 0 && s.last() == '\r' {
        s.drop_last()
    } else {
        s
    }
}

/// The lines of a text. A line ends at a line feed, which may follow a
/// carriage return; what stands behind the last line feed is a line unless it
/// is empty.
pub open spec fn lines_of(s: Seq<char>) -> Seq<Seq<char>>
    decreases s.len(),
    via lines_of_ends
{
    if s.len() == 0 {
        seq![]
    } else {
        match find_char(s, '\n', 0) {
            None => seq![s],
            Some(i) => seq![strip_return(s.take(i))] + lines_of(s.skip(i + 1)),
        }
    }
}

#[via_fn]
proof fn lines_of_ends(s: Seq<char>) {
    lemma_find_char(s, '\n', 0);
}

/// The lines of a text.
pub fn split_lines(s: &str) -> (r: Vec<String>)
    ensures
        r.deep_view() == lines_of(s@),
{
    let cs = to_chars(s);
    let mut r: Vec<String> = Vec::new();
    let mut at: usize = 0;
    assert(cs@.skip(0) =~= cs@);
    assert(r.deep_view() + lines_of(cs@) =~= lines_of(cs@));
    while at < cs.len()
        invariant
            at <= cs.len(),
            cs@ == s@,
            r.deep_view() + lines_of(cs@.skip(at as int)) == lines_of(s@),
        decreases cs.len() - at,
    {
        let ghost rest = cs@.skip(at as int);
        let ghost done = r.deep_view();
        let next = find_one(&cs, '\n', at);
        proof {
            lemma_find_char_skip(cs@, '\n', at as int);
            lemma_find_char(cs@, '\n', at as int);
        }
        match next {
            None => {
                r.push(from_chars(&copy_range(&cs, at, cs.len())));
                assert(r@.last()@ =~= rest);
                assert(r.deep_view() =~= done + seq![rest]);
                assert(lines_of(rest) =~= seq![rest]);
                at = cs.len();
                assert(lines_of(cs@.skip(at as int)) =~= seq![]);
            },
            Some(i) => {
                let mut end: usize = i;
                assert(rest.take(i - at) =~= cs@.subrange(at as int, i as int));
                if end > at && cs[end - 1] == '\r' {
                    end = end - 1;
                    assert(rest.take(i - at).drop_last() =~= cs@.subrange(at as int, end as int));
                }
                r.push(from_chars(&copy_range(&cs, at, end)));
                assert(r@.last()@ == strip_return(rest.take(i - at)));
                assert(r.deep_view() =~= done + seq![strip_return(rest.take(i - at))]);
                assert(rest.skip(i - at + 1) =~= cs@.skip(i + 1));
                assert(done + (seq![strip_return(rest.take(i - at))] + lines_of(cs@.skip(i + 1)))
                    =~= r.deep_view() + lines_of(cs@.skip(i + 1)));
                at = i + 1;
            },
        }
    }
    assert(lines_of(cs@.skip(at as int)) =~= seq![]);
    assert(r.deep_view() + Seq::<Seq<char>>::empty() =~= r.deep_view());
    r
}

/// Searching a tail is searching the whole text from there on.
pub proof fn lemma_find_char_skip(s: Seq<char>, c: char, from: int)
    requires
        0 <= from <= s.len(),
    ensures
        match find_char(s, c, from) {
            Some(i) => find_char(s.skip(from), c, 0) == Some(i - from),
            None => find_char(s.skip(from), c, 0) is None,
        },
{
    lemma_find_char(s, c, from);
    lemma_find_char(s.skip(from), c, 0);
    assert forall|j: int| 0 <= j < s.len() - from implies s.skip(from)[j] == s[from + j] by {}
    match find_char(s, c, from) {
        Some(i) => {
            assert(s.skip(from)[i - from] == c);
        },
        None => {},
    }
    match find_char(s.skip(from), c, 0) {
        Some(k) => {
            assert(s[from + k] == c);
        },
        None => {},
    }
}

/// How many leading characters are not white space.
pub open spec fn word_len(s: Seq<char>) -> nat
    decreases s.len(),
{
    if s.len() == 0 || white_space(s[0]) {
        0
    } else {
        1 + word_len(s.drop_first())
    }
}

pub proof fn lemma_word_len(s: Seq<char>)
    ensures
        word_len(s) <= s.len(),
    decreases s.len(),
{
    if s.len() > 0 && !white_space(s[0]) {
        lemma_word_len(s.drop_first());
    }
}

pub proof fn lemma_trim_start_len(s: Seq<char>)
    ensures
        trim_start(s).len() <= s.len(),
        trim_start(s).len() > 0 ==> !white_space(trim_start(s)[0]),
    decreases s.len(),
{
    if s.len() > 0 && white_space(s[0]) {
        lemma_trim_start_len(s.drop_first());
    }
}

/// The maximal runs of characters that are not white space.
pub open spec fn words(s: Seq<char>) -> Seq<Seq<char>>
    decreases s.len(),
    via words_ends
{
    let t = trim_start(s);
    if t.len() == 0 {
        seq![]
    } else {
        seq![t.take(word_len(t) as int)] + words(t.skip(word_len(t) as int))
    }
}

#[via_fn]
proof fn words_ends(s: Seq<char>) {
    lemma_trim_start_len(s);
    lemma_word_len(trim_start(s));
}

/// The index behind the word that starts at `from`.
pub fn skip_word(s: &[char], from: usize) -> (r: usize)
    requires
        from <= s.len(),
    ensures
        from <= r <= s.len(),
        r - from == word_len(s@.skip(from as int)),
{
    let mut i: usize = from;
    while i < s.len() && !is_white(s[i])
        invariant
            from <= i <= s.len(),
            word_len(s@.skip(from as int)) == (i - from) + word_len(s@.skip(i as int)),
        decreases s.len() - i,
    {
        assert(s@.skip(i as int).drop_first() =~= s@.skip(i + 1));
        i = i + 1;
    }
    i
}

/// The maximal runs of characters that are not white space.
pub fn split_words(s: &str) -> (r: Vec<String>)
    ensures
        r.deep_view() == words(s@),
{
    let cs = to_chars(s);
    let mut r: Vec<String> = Vec::new();
    let mut at: usize = skip_white(&cs, 0);
    assert(cs@.skip(0) =~= cs@);
    proof {
        lemma_trim_start_len(cs@);
        lemma_trim_start_idempotent(cs@);
    }
    assert(words(cs@.skip(at as int)) =~= words(cs@));
    assert(r.deep_view() + words(cs@) =~= words(cs@));
    while at < cs.len()
        invariant
            at <= cs.len(),
            cs@ == s@,
            at < cs.len() ==> !white_space(cs@[at as int]),
            r.deep_view() + words(cs@.skip(at as int)) == words(s@),
        decreases cs.len() - at,
    {
        let ghost t = cs@.skip(at as int);
        let ghost done = r.deep_view();
        let end = skip_word(&cs, at);
        assert(trim_start(t) == t);
        r.push(from_chars(&copy_range(&cs, at, end)));
        assert(r@.last()@ =~= t.take(word_len(t) as int));
        assert(r.deep_view() =~= done + seq![t.take(word_len(t) as int)]);
        assert(t.skip(word_len(t) as int) =~= cs@.skip(end as int));
        let next = skip_white(&cs, end);
        proof {
            lemma_trim_start_len(cs@.skip(end as int));
            lemma_trim_start_idempotent(cs@.skip(end as int));
            assert(words(cs@.skip(next as int)) =~= words(cs@.skip(end as int)));
            assert(done + (seq![t.take(word_len(t) as int)] + words(cs@.skip(end as int)))
                =~= r.deep_view() + words(cs@.skip(next as int)));
            assert(word_len(t) >= 1);
        }
        at = next;
    }
    assert(words(cs@.skip(at as int)) =~= seq![]);
    assert(r.deep_view() + Seq::<Seq<char>>::empty() =~= r.deep_view());
    r
}

pub proof fn lemma_trim_start_idempotent(s: Seq<char>)
    ensures
        trim_start(trim_start(s)) == trim_start(s),
    decreases s.len(),
{
    if s.len() > 0 && white_space(s[0]) {
        lemma_trim_start_idempotent(s.drop_first());
    }
}

// ---- Counting and cutting ----------------------------------------------------

/// How often `needle` stands in `hay` from a place on, without overlap. The
/// empty text stands before every character and at the end.
pub open spec fn occurrences(hay: Seq<char>, needle: Seq<char>, from: int) -> nat
    decreases hay.len() - from,
    via occurrences_ends
{
    if from < 0 || from > hay.len() {
        0
    } else if needle.len() == 0 {
        (hay.len() - from + 1) as nat
    } else {
        match find_from(hay, needle, from) {
            Some(i) => 1 + occurrences(hay, needle, i + needle.len()),
            None => 0,
        }
    }
}

#[via_fn]
proof fn occurrences_ends(hay: Seq<char>, needle: Seq<char>, from: int) {
    if 0 <= from {
        lemma_find_from(hay, needle, from);
    }
}

proof fn lemma_occurrences_bound(hay: Seq<char>, needle: Seq<char>, from: int)
    requires
        0 <= from <= hay.len(),
        needle.len() > 0,
    ensures
        occurrences(hay, needle, from) <= hay.len() - from,
    decreases hay.len() - from,
{
    lemma_find_from(hay, needle, from);
    match find_from(hay, needle, from) {
        Some(i) => {
            lemma_occurrences_bound(hay, needle, i + needle.len());
        },
        None => {},
    }
}

/// How often `needle` stands in `hay`, without overlap; nothing where the
/// number is too large to count.
pub fn count_str(hay: &str, needle: &str) -> (r: Option<usize>)
    ensures
        match r {
            Some(n) => n == occurrences(hay@, needle@, 0),
            None => occurrences(hay@, needle@, 0) > usize::MAX,
        },
{
    let h = to_chars(hay);
    let n = to_chars(needle);
    if n.len() == 0 {
        if h.len() == usize::MAX {
            return None;
        }
        return Some(h.len() + 1);
    }
    let mut count: usize = 0;
    let mut at: usize = 0;
    loop
        invariant
            at <= h@.len(),
            n@.len() > 0,
            n@ == needle@,
            h@ == hay@,
            count <= at,
            occurrences(h@, n@, 0) == count + occurrences(h@, n@, at as int),
        decreases h@.len() - at,
    {
        assert(h.len() == h@.len());
        proof {
            lemma_find_from(h@, n@, at as int);
        }
        match find(&h, &n, at) {
            Some(i) => {
                assert(n.len() == n@.len());
                at = i + n.len();
                count = count + 1;
            },
            None => {
                return Some(count);
            },
        }
    }
}

/// The first `n` characters, or all if there are fewer.
pub open spec fn first_chars(s: Seq<char>, n: nat) -> Seq<char> {
    if n < s.len() {
        s.take(n as int)
    } else {
        s
    }
}

/// The first `n` characters, or all if there are fewer.
pub fn take_chars(s: &str, n: usize) -> (r: String)
    ensures
        r@ == first_chars(s@, n as nat),
{
    let cs = to_chars(s);
    let end: usize = if n < cs.len() {
        n
    } else {
        cs.len()
    };
    let part = copy_range(&cs, 0, end);
    assert(part@ =~= first_chars(s@, n as nat));
    from_chars(&part)
}

// ---- Numbers ---------------------------------------------------------------

/// The character of a decimal digit.
pub open spec fn digit(n: nat) -> char {
    (('0' as int) + n) as char
}

/// Decimal notation.
pub open spec fn decimal(n: nat) -> Seq<char>
    decreases n,
{
    if n < 10 {
        seq![digit(n)]
    } else {
        decimal(n / 10).push(digit(n % 10))
    }
}

fn digit_char(n: u64) -> (r: char)
    requires
        n < 10,
    ensures
        r == digit(n as nat),
{
    match n {
        0 => '0',
        1 => '1',
        2 => '2',
        3 => '3',
        4 => '4',
        5 => '5',
        6 => '6',
        7 => '7',
        8 => '8',
        _ => '9',
    }
}

/// Decimal notation.
pub fn show_u64(n: u64) -> (r: String)
    ensures
        r@ == decimal(n as nat),
    decreases n,
{
    if n < 10 {
        let mut r = String::new();
        r.push(digit_char(n));
        r
    } else {
        let mut r = show_u64(n / 10);
        r.push(digit_char(n % 10));
        r
    }
}

/// Decimal notation with a sign in front of negative numbers.
pub open spec fn signed_decimal(n: int) -> Seq<char> {
    if n < 0 {
        seq!['-'] + decimal((-n) as nat)
    } else {
        decimal(n as nat)
    }
}

/// Decimal notation with a sign in front of negative numbers.
pub fn show_i64(n: i64) -> (r: String)
    ensures
        r@ == signed_decimal(n as int),
{
    if n < 0 {
        let size: u64 = if n == i64::MIN {
            0x8000_0000_0000_0000
        } else {
            (-n) as u64
        };
        let mut r = String::new();
        r.push('-');
        r.push_str(show_u64(size).as_str());
        assert(r@ =~= signed_decimal(n as int));
        r
    } else {
        show_u64(n as u64)
    }
}

} // verus!
