//! Reading the replies of the language model, and making names and blocks from
//! them.

use vstd::prelude::*;

use crate::ids::uuid_text;
use crate::json::{parse_json, parsed_json, Json, JsonValue};
use crate::text::{
    ascii, ascii_letter, copy_range, find, find_char, find_from, find_one, from_chars, is_alnum,
    lemma_find_char, lemma_find_from, lemma_trim_of, letter, small, small_char, to_chars, to_lower,
    trim, trim_chars, trim_of, trim_of_chars,
};
use crate::tree::block::{text_content, Block, BlockContent, BlockM, BlockType};

verus! {

broadcast use vstd::std_specs::vec::group_vec_axioms;

/// What stands in the first code block that is marked as JSON, trimmed.
pub open spec fn fenced_json(text: Seq<char>) -> Option<Seq<char>> {
    match find_from(text, "```json"@, 0) {
        Some(start) => {
            let after = text.skip(start + "```json"@.len());
            match find_from(after, "```"@, 0) {
                Some(end) => Some(trim(after.take(end))),
                None => None,
            }
        },
        None => None,
    }
}

/// The text from the first opening brace or bracket on.
pub open spec fn from_bracket(text: Seq<char>) -> Option<Seq<char>> {
    match (find_char(text, '{', 0), find_char(text, '[', 0)) {
        (Some(b), Some(k)) => Some(
            text.skip(
                if b < k {
                    b
                } else {
                    k
                },
            ),
        ),
        (Some(b), None) => Some(text.skip(b)),
        (None, Some(k)) => Some(text.skip(k)),
        (None, None) => None,
    }
}

/// The JSON in a reply: in a code block that is marked so, or else from the
/// first opening brace or bracket on.
pub open spec fn json_block(text: Seq<char>) -> Option<Seq<char>> {
    match fenced_json(text) {
        Some(b) => Some(b),
        None => from_bracket(text),
    }
}

/// The JSON in a reply, or the reply if there is none in it.
pub open spec fn payload(text: Seq<char>) -> Seq<char> {
    match json_block(text) {
        Some(b) => b,
        None => text,
    }
}

fn find_fenced(cs: &Vec<char>) -> (r: Option<String>)
    ensures
        r.deep_view() == fenced_json(cs@),
{
    let mark = to_chars("```json");
    let fence = to_chars("```");
    match find(cs, &mark, 0) {
        Some(start) => {
            proof {
                lemma_find_from(cs@, mark@, 0);
                assert(start + mark@.len() <= cs@.len());
            }
            let total: usize = cs.len();
            let after = copy_range(cs, start + mark.len(), total);
            assert(after@ =~= cs@.skip(start + mark@.len()));
            match find(&after, &fence, 0) {
                Some(end) => {
                    proof {
                        lemma_find_from(after@, fence@, 0);
                    }
                    let body = copy_range(&after, 0, end);
                    assert(body@ =~= after@.take(end as int));
                    Some(from_chars(&trim_chars(&body)))
                },
                None => None,
            }
        },
        None => None,
    }
}

/// The JSON in a reply.
pub fn extract_json_block(text: &str) -> (r: Option<String>)
    ensures
        r.deep_view() == json_block(text@),
{
    let cs = to_chars(text);
    match find_fenced(&cs) {
        Some(b) => Some(b),
        None => {
            proof {
                lemma_find_char(cs@, '{', 0);
                lemma_find_char(cs@, '[', 0);
            }
            let brace = find_one(&cs, '{', 0);
            let bracket = find_one(&cs, '[', 0);
            let at: usize = match (brace, bracket) {
                (Some(b), Some(k)) => if b < k {
                    b
                } else {
                    k
                },
                (Some(b), None) => b,
                (None, Some(k)) => k,
                (None, None) => {
                    return None;
                },
            };
            let rest = copy_range(&cs, at, cs.len());
            assert(rest@ =~= cs@.skip(at as int));
            Some(from_chars(&rest))
        },
    }
}

/// The JSON in a reply, or the reply if there is none in it.
pub fn json_payload(text: &str) -> (r: String)
    ensures
        r@ == payload(text@),
{
    match extract_json_block(text) {
        Some(b) => b,
        None => text.to_owned(),
    }
}

/// The value in a reply, if there is a reply and it holds one.
pub open spec fn reply_value(reply: Option<Seq<char>>) -> Option<Json> {
    match reply {
        None => None,
        Some(text) => match parsed_json(payload(text)) {
            Ok(j) => Some(j),
            Err(_) => None,
        },
    }
}

/// The value in a reply, if there is a reply and it holds one.
pub fn read_reply(reply: Option<String>) -> (r: Option<JsonValue>)
    ensures
        r.deep_view() == reply_value(reply.deep_view()),
{
    match reply {
        None => None,
        Some(text) => match parse_json(json_payload(text.as_str()).as_str()) {
            Ok(j) => Some(j),
            Err(_) => None,
        },
    }
}

/// A letter, a digit, a hyphen or an underscore stays; anything else becomes a
/// hyphen.
pub open spec fn slug_char(c: char, stays: bool) -> char {
    if stays || c == '-' || c == '_' {
        c
    } else {
        '-'
    }
}

/// A name with hyphens for spaces and punctuation, and none at its ends;
/// `letters` tells which characters are letters or digits.
pub open spec fn hyphenated(s: Seq<char>, letters: Seq<bool>) -> Seq<char> {
    trim_of(Seq::new(s.len(), |i: int| slug_char(s[i], letters[i])), '-')
}

/// Which characters are letters or digits.
pub open spec fn letters_of(s: Seq<char>) -> Seq<bool> {
    Seq::new(s.len(), |i: int| letter(s[i]))
}

/// A name in small letters without spaces and punctuation.
pub open spec fn slug_of(s: Seq<char>) -> Seq<char> {
    small(hyphenated(s, letters_of(s)))
}

/// A name with hyphens for spaces and punctuation, and none at its ends;
/// `letters` tells which characters are letters or digits.
pub fn hyphenate(cs: &Vec<char>, letters: &Vec<bool>) -> (r: Vec<char>)
    requires
        letters@.len() == cs@.len(),
    ensures
        r@ == hyphenated(cs@, letters@),
{
    let ghost want = Seq::new(cs@.len(), |i: int| slug_char(cs@[i], letters@[i]));
    let mut out: Vec<char> = Vec::new();
    let mut i: usize = 0;
    while i < cs.len()
        invariant
            i <= cs.len(),
            letters@.len() == cs@.len(),
            want == Seq::new(cs@.len(), |i: int| slug_char(cs@[i], letters@[i])),
            out@ == want.take(i as int),
        decreases cs.len() - i,
    {
        let c = cs[i];
        if letters[i] || c == '-' || c == '_' {
            out.push(c);
        } else {
            out.push('-');
        }
        assert(want.take(i + 1) =~= want.take(i as int).push(want[i as int]));
        i = i + 1;
    }
    assert(want.take(i as int) =~= want);
    trim_of_chars(&out, '-')
}

/// A name in small letters without spaces and punctuation.
pub fn slugify(s: &str) -> (r: String)
    ensures
        r@ == slug_of(s@),
{
    let cs = to_chars(s);
    let mut letters: Vec<bool> = Vec::new();
    while letters.len() < cs.len()
        invariant
            letters@.len() <= cs@.len(),
            letters@ == letters_of(cs@).take(letters@.len() as int),
        decreases cs.len() - letters.len(),
    {
        let ghost done = letters@;
        letters.push(is_alnum(cs[letters.len()]));
        assert(letters@ =~= letters_of(cs@).take((done.len() + 1) as int));
    }
    assert(letters@ =~= letters_of(cs@));
    let slug = from_chars(&hyphenate(&cs, &letters));
    to_lower(slug.as_str())
}

/// A name has no hyphens at its ends before its letters are made small.
pub proof fn law_slug_trimmed(s: Seq<char>, letters: Seq<bool>)
    ensures
        ({
            let t = hyphenated(s, letters);
            t.len() > 0 ==> t[0] != '-' && t.last() != '-'
        }),
{
    let m = Seq::new(s.len(), |i: int| slug_char(s[i], letters[i]));
    let _ = lemma_trim_of(m, '-');
}

/// A small letter, a digit, a hyphen or an underscore.
pub open spec fn plain_char(c: char) -> bool {
    'a' <= c <= 'z' || '0' <= c <= '9' || c == '-' || c == '_'
}

proof fn lemma_small_char(c: char)
    requires
        ascii_letter(c) || c == '-' || c == '_',
    ensures
        (c as u32) < 128,
        plain_char(small_char(c)),
        small_char(c) == '-' <==> c == '-',
{
}

proof fn lemma_plain_char(c: char)
    requires
        plain_char(c),
    ensures
        (c as u32) < 128,
        small_char(c) == c,
        slug_char(c, letter(c)) == c,
{
}

/// A text of small letters, digits, hyphens and underscores without a hyphen at
/// its ends is a name already.
proof fn lemma_slug_same(u: Seq<char>)
    requires
        forall|i: int| 0 <= i < u.len() ==> plain_char(#[trigger] u[i]),
        u.len() > 0 ==> u[0] != '-' && u.last() != '-',
    ensures
        slug_of(u) == u,
{
    let n = Seq::new(u.len(), |i: int| slug_char(u[i], letters_of(u)[i]));
    assert forall|i: int| 0 <= i < u.len() implies n[i] == #[trigger] u[i] && small_char(u[i])
        == u[i] && (u[i] as u32) < 128 by {
        lemma_plain_char(u[i]);
    }
    assert(n =~= u);
    let (a, b) = lemma_trim_of(u, '-');
    assert(hyphenated(u, letters_of(u)) =~= u);
    assert(ascii(u));
    assert(small(u) =~= u);
}

/// A name made of an ASCII text has only small letters, digits, hyphens and
/// underscores, no hyphen at its ends, and is no longer than the text; made
/// into a name again it stays as it is.
pub proof fn law_slug_plain(s: Seq<char>)
    requires
        ascii(s),
    ensures
        forall|i: int| 0 <= i < slug_of(s).len() ==> plain_char(#[trigger] slug_of(s)[i]),
        slug_of(s).len() > 0 ==> slug_of(s)[0] != '-' && slug_of(s).last() != '-',
        slug_of(s).len() <= s.len(),
        slug_of(slug_of(s)) == slug_of(s),
{
    let m = Seq::new(s.len(), |i: int| slug_char(s[i], letters_of(s)[i]));
    let (a, b) = lemma_trim_of(m, '-');
    let t = m.subrange(a, b);
    let u = Seq::new(t.len(), |i: int| small_char(t[i]));
    assert forall|i: int| 0 <= i < t.len() implies (#[trigger] t[i] as u32) < 128 && plain_char(
        small_char(t[i]),
    ) && (small_char(t[i]) == '-' <==> t[i] == '-') by {
        assert((s[a + i] as u32) < 128);
        assert(t[i] == slug_char(s[a + i], letter(s[a + i])));
        lemma_small_char(t[i]);
    }
    assert(ascii(t));
    assert(slug_of(s) == u);
    assert forall|i: int| 0 <= i < u.len() implies plain_char(#[trigger] u[i]) by {
        assert(plain_char(small_char(t[i])));
    }
    if u.len() > 0 {
        assert(t[0] == m[a] && t.last() == m[b - 1]);
        assert(u[0] == small_char(t[0]) && u.last() == small_char(t[t.len() - 1]));
    }
    lemma_slug_same(u);
}

/// A new block that holds a text.
pub open spec fn fresh_text_block(
    b: BlockM,
    ty: BlockType,
    text: Seq<char>,
    author: Seq<char>,
) -> bool {
    &&& uuid_text(b.id, '7')
    &&& b.ty == ty
    &&& b.content == text_content(text)
    &&& b.children.len() == 0
    &&& b.parent is None
    &&& b.version == 0
    &&& b.embedding is None
    &&& b.embedding_version == 0
    &&& b.meta.created_by == author
    &&& b.meta.updated_at == b.meta.created_at
}

/// A new block that holds a text.
pub fn text_block(ty: BlockType, text: &str, author: &str) -> (r: Block)
    ensures
        fresh_text_block(r.deep_view(), ty, text@, author@),
{
    Block::new(ty, BlockContent::text(text), author)
}

} // verus!
