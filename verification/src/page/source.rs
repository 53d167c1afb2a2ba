//! What a page takes from its source, and what is written back.

use vstd::prelude::*;
use vstd::string::StringSliceAdditionalSpecFns;

use crate::error::{WikiError, WikiErrorM};
use crate::json::{compact, entries_put, member, Json, JsonValue};
use crate::page::block::{block_of, kind_name, named_type, Block, BlockM, CustomBlockTypeM};
use crate::page::doc::{
    attr_entries, attrs_of, blake3_hex, blocks_read, body_of, component_of, content_name, derivation_stale,
    draft_of, drafted, drafts_in, drafts_of, first_heading, found_blocks, fresh_page, front_of, hand_made,
    is_block_node, markdown_of, new_chain, node_children, node_type, node_value, offset_of, raw_of, read_tree,
    source_parts, span_of, status_name, texts_of, title_only, tree_cuts_well, trees_cut_well, ContentType, DerivationChain,
    DerivationRule, Document, DocumentM, DocumentStatus, DraftM, FrontmatterM, SourceM, SpaceId,
    SpaceIdM,
};
use crate::page::markdown::{
    ast_text, ast_texts, ast_to_html, ast_to_string, md_to_html, tree_outcome,
};
use crate::page::registry::{renderer_name, MarkdownRenderer, Render};
use crate::page::validate::checked;
use crate::text::{
    begins, ends, find_char, find_from, joined, lemma_find_char, lines_of, trim, trim_end_of, trim_of, trim_start,
    trim_start_of, white_space, word_len, words,
};
use crate::time::Timestamp;
use crate::text_law::{
    all_of, blank, law_ends, law_trim, law_trim_of, law_words, lemma_solid_len, lemma_start,
    lemma_word_cut, solid,
};

verus! {

// ---- Front matter ----------------------------------------------------------

/// A source with front matter is taken apart at the first line of hyphens behind
/// it: what stands between is the front matter, and what follows, but for the white
/// space before it, is the body.
pub proof fn law_source_closed(space: Seq<char>, yaml: Seq<char>, rest: Seq<char>)
    requires
        blank(space),
        yaml.len() > 0,
        !white_space(yaml[0]),
        find_from(yaml + "\n---"@ + rest, "\n---"@, 0) == Some(yaml.len() as int),
    ensures
        source_parts(space + ("---\n"@ + yaml + "\n---"@ + rest)) == (SourceM::Closed {
            yaml,
            body: trim_start(rest),
        }),
        body_of(space + ("---\n"@ + yaml + "\n---"@ + rest)) == trim_start(rest),
{
    reveal_strlit("---\n");
    reveal_strlit("---\r\n");
    reveal_strlit("\n---");
    let t = "---\n"@ + yaml + "\n---"@ + rest;
    lemma_start(space, t);
    assert(t.subrange(0, 4) =~= "---\n"@);
    let behind = t.skip(3);
    let inner = yaml + "\n---"@ + rest;
    assert(behind =~= seq!['\n'] + inner);
    assert(blank(seq!['\n']));
    lemma_start(seq!['\n'], inner);
    assert(inner.take(yaml.len() as int) =~= yaml);
    assert(inner.skip(yaml.len() as int + 4) =~= rest);
}

/// A source that does not begin with a line of hyphens has no front matter: all
/// of it is the body, and its title is that of its first heading.
pub proof fn law_source_plain(space: Seq<char>, text: Seq<char>, parsed: Option<FrontmatterM>)
    requires
        blank(space),
        text.len() > 0,
        !white_space(text[0]),
        !"---\n"@.is_prefix_of(text),
        !"---\r\n"@.is_prefix_of(text),
    ensures
        body_of(space + text) == space + text,
        front_of(space + text, parsed).title == first_heading(lines_of(space + text)),
        front_of(space + text, parsed).tags is None,
        front_of(space + text, parsed).author is None,
        front_of(space + text, parsed).status is None,
{
    lemma_start(space, text);
    law_ends(text, "---\n"@);
    law_ends(text, "---\r\n"@);
}

/// Front matter that is opened and never closed is none: all of the source is the
/// body, and nothing is set.
pub proof fn law_source_open(space: Seq<char>, rest: Seq<char>, parsed: Option<FrontmatterM>)
    requires
        blank(space),
        find_from(trim_start(seq!['\n'] + rest), "\n---"@, 0) is None,
    ensures
        body_of(space + ("---\n"@ + rest)) == space + ("---\n"@ + rest),
        front_of(space + ("---\n"@ + rest), parsed).title is None,
        front_of(space + ("---\n"@ + rest), parsed).author is None,
        front_of(space + ("---\n"@ + rest), parsed).tags is None,
        front_of(space + ("---\n"@ + rest), parsed).status is None,
{
    reveal_strlit("---\n");
    let t = "---\n"@ + rest;
    lemma_start(space, t);
    assert(t.subrange(0, 4) =~= "---\n"@);
    assert(t.skip(3) =~= seq!['\n'] + rest);
}

/// Front matter that is closed sets what was read from it, and nothing where it
/// could not be read.
pub proof fn law_front_read(raw: Seq<char>, front: FrontmatterM)
    requires
        source_parts(raw) is Closed,
    ensures
        front_of(raw, Some(front)) == front,
        front_of(raw, None).title is None,
        front_of(raw, None).author is None,
        front_of(raw, None).content_type is None,
        front_of(raw, None).status is None,
{
}

/// The first heading is that of the first line that begins with a number sign:
/// what follows its number signs, but for the white space around it.
pub proof fn law_first_heading(
    a: Seq<Seq<char>>,
    signs: Seq<char>,
    text: Seq<char>,
    b: Seq<Seq<char>>,
)
    requires
        forall|i: int| 0 <= i < a.len() ==> (#[trigger] a[i]).len() == 0 || a[i][0] != '#',
        all_of(signs, '#'),
        signs.len() > 0,
        text.len() > 0,
        text[0] != '#',
    ensures
        first_heading(a + seq![signs + text] + b) == Some(trim(text)),
        first_heading(a) is None,
    decreases a.len(),
{
    let lines = a + seq![signs + text] + b;
    if a.len() == 0 {
        assert(lines[0] == signs + text);
        assert(lines[0][0] == signs[0]);
        crate::text_law::lemma_start_of(signs, text, '#');
    } else {
        assert(lines[0] == a[0]);
        assert(lines.drop_first() =~= a.drop_first() + seq![signs + text] + b);
        assert forall|i: int| 0 <= i < a.drop_first().len() implies (
        #[trigger] a.drop_first()[i]).len() == 0 || a.drop_first()[i][0] != '#' by {
            assert(a[i + 1].len() == 0 || a[i + 1][0] != '#');
        }
        law_first_heading(a.drop_first(), signs, text, b);
    }
}

/// A page as it is made takes what its front matter sets, and what it does not
/// set is as for a page that nobody described.
pub proof fn law_fresh_page(
    d: DocumentM,
    front: FrontmatterM,
    content_type: ContentType,
    status: DocumentStatus,
    raw: Seq<char>,
    body: Seq<char>,
    space_id: SpaceIdM,
)
    requires
        fresh_page(d, front, content_type, status, raw, body, space_id),
    ensures
        front.title matches Some(t) ==> d.title == t,
        front.title is None ==> d.title == "Untitled"@,
        front.author matches Some(a) ==> d.author == a,
        front.author is None ==> d.author == "unknown"@,
        front.tags matches Some(t) ==> d.tags == t,
        front.tags is None ==> d.tags.len() == 0,
        d.path == front.path,
        d.icon == front.icon,
        d.cover == front.cover,
        d.space_id == space_id,
        d.content_type == content_type,
        d.status == status,
        d.raw_markdown == raw,
        d.version == 0,
        d.created_at == d.updated_at,
        d.summary is None && d.overview is None,
        d.derivation matches Some(c) && c.l2_hash == blake3_hex(body),
{
}

/// A page made by hand has the title and the author that it is made with.
pub proof fn law_hand_made(title: Seq<char>, author: Seq<char>)
    ensures
        hand_made(title, author).title == Some(title),
        hand_made(title, author).author == Some(author),
        hand_made(title, author).tags is None && hand_made(title, author).path is None,
{
}

/// A summary that was derived from a body goes stale exactly when the source
/// comes to have a body of another hash; a page without one is always stale.
pub proof fn law_derivation_stale(d: DocumentM, body: Seq<char>, raw: Seq<char>)
    requires
        d.derivation matches Some(c) ==> c.l2_hash == blake3_hex(body),
    ensures
        d.derivation is Some && body_of(raw) == body ==> !derivation_stale(
            DocumentM { raw_markdown: raw, ..d },
        ),
        d.derivation is Some && blake3_hex(body_of(raw)) != blake3_hex(body) ==> derivation_stale(
            DocumentM { raw_markdown: raw, ..d },
        ),
        d.derivation is None ==> derivation_stale(d),
{
}

// ---- Components ------------------------------------------------------------

/// A word with an equals sign is an attribute: the key before the first one, and
/// behind it the value, without the quotes around it.
pub proof fn law_attribute(key: Seq<char>, value: Seq<char>)
    requires
        !key.contains('='),
        value.len() > 0,
        value[0] != '"' && value[0] != '\'',
        value.last() != '"' && value.last() != '\'' && value.last() != '/',
    ensures
        attr_entries(seq![key + seq!['=', '"'] + value + seq!['"']]) == seq![
            (key, Json::Str(value)),
        ],
        attr_entries(seq![key + seq!['=', '\''] + value + seq!['\'']]) == seq![
            (key, Json::Str(value)),
        ],
        attr_entries(seq![key + seq!['='] + value]) == seq![(key, Json::Str(value))],
        attr_entries(seq![key]).len() == 0,
{
    let none: Seq<Seq<char>> = seq![];
    lemma_find_char(key, '=', 0);
    if find_char(key, '=', 0) is Some {
        assert(key.contains(key[find_char(key, '=', 0)->0]));
    }
    assert(seq![key].drop_last() =~= none);
    assert(attr_entries(none) =~= seq![]);
    let a = key + seq!['=', '"'] + value + seq!['"'];
    let b = key + seq!['=', '\''] + value + seq!['\''];
    let c = key + seq!['='] + value;
    lemma_attribute(key, seq!['"'] + value + seq!['"']);
    assert(a =~= key + seq!['='] + (seq!['"'] + value + seq!['"']));
    law_trim_of(seq!['"'], value, seq!['"'], '"');
    law_trim_of(seq![], value, seq![], '"');
    law_trim_of(seq![], value, seq![], '\'');
    crate::text_law::lemma_end_of(value, seq![], '/');
    assert(seq![] + value + seq![] =~= value);
    assert(value + seq![] =~= value);
    assert(seq![] + value =~= value);
    lemma_attribute(key, seq!['\''] + value + seq!['\'']);
    assert(b =~= key + seq!['='] + (seq!['\''] + value + seq!['\'']));
    let q = seq!['\''] + value + seq!['\''];
    law_trim_of(seq!['\''], value, seq!['\''], '\'');
    law_trim_of(seq![], q, seq![], '"');
    assert(seq![] + q + seq![] =~= q);
    lemma_attribute(key, value);
}

proof fn lemma_attribute(key: Seq<char>, v: Seq<char>)
    requires
        !key.contains('='),
    ensures
        attr_entries(seq![key + seq!['='] + v]) == seq![
            (key, Json::Str(trim_end_of(trim_of(trim_of(v, '"'), '\''), '/'))),
        ],
{
    let w = key + seq!['='] + v;
    let none: Seq<Seq<char>> = seq![];
    assert(seq![w].drop_last() =~= none);
    assert(attr_entries(none) =~= seq![]);
    lemma_find_char(w, '=', 0);
    assert(w[key.len() as int] == '=');
    let i = find_char(w, '=', 0)->0;
    if i < key.len() {
        assert(key[i] == '=');
        assert(key.contains('='));
    }
    assert(w.take(i) =~= key);
    assert(w.skip(i + 1) =~= v);
    assert(attr_entries(seq![w]) =~= seq![
        (key, Json::Str(trim_end_of(trim_of(trim_of(v, '"'), '\''), '/'))),
    ]);
}

/// The attributes of two lists of words are those of the first and then those of
/// the second.
pub proof fn law_attributes(a: Seq<Seq<char>>, b: Seq<Seq<char>>)
    ensures
        attr_entries(a + b) == attr_entries(a) + attr_entries(b),
    decreases b.len(),
{
    if b.len() > 0 {
        assert((a + b).drop_last() =~= a + b.drop_last());
        law_attributes(a, b.drop_last());
        assert(attr_entries(a + b) =~= attr_entries(a) + attr_entries(b));
    } else {
        assert(a + b =~= a);
        assert(attr_entries(a + b) =~= attr_entries(a) + attr_entries(b));
    }
}

/// A component is a tag that closes itself: its name gives the kind of block and
/// the words behind the name its attributes. A name that is no kind of block makes
/// no component, and neither does anything that is no such tag.
pub proof fn law_component(name: Seq<char>, c: char, rest: Seq<char>)
    requires
        name.len() > 0,
        solid(name),
        white_space(c),
        rest.len() > 0,
        !white_space(rest.last()),
    ensures
        named_type(name) is Custom ==> component_of(
            seq!['<'] + (name + seq![c] + rest) + seq!['/', '>'],
        ) is None,
        !(named_type(name) is Custom) ==> component_of(
            seq!['<'] + (name + seq![c] + rest) + seq!['/', '>'],
        ) == Some((named_type(name), Json::Object(entries_put(seq![], attr_entries(words(rest)))))),
{
    reveal_strlit("/>");
    let none: Seq<char> = seq![];
    let inner = name + seq![c] + rest;
    let h = seq!['<'] + inner + seq!['/', '>'];
    law_trim(none, h, none);
    assert(none + h + none =~= h);
    assert(h.subrange(h.len() - 2, h.len() as int) =~= "/>"@);
    assert(h.subrange(1, h.len() - 2) =~= inner);
    assert(!white_space(name[0]));
    law_trim(none, inner, none);
    assert(none + inner + none =~= inner);
    lemma_word_cut(name, c, rest);
    lemma_solid_len(name);
    assert(inner.take(name.len() as int) =~= name);
    assert(inner.skip(name.len() as int + 1) =~= rest);
}

// ---- Nodes -----------------------------------------------------------------

/// The types of node that make a block of their own.
pub proof fn law_block_nodes(t: Seq<char>)
    ensures
        is_block_node(t) <==> seq![
            "heading"@, "paragraph"@, "code"@, "list"@, "listItem"@, "blockquote"@,
            "thematicBreak"@, "table"@, "tableRow"@, "tableCell"@, "image"@, "link"@, "emphasis"@,
            "strong"@, "inlineCode"@, "text"@, "break"@, "delete"@, "definition"@,
            "footnoteDefinition"@, "footnoteReference"@,
        ].contains(t),
{
    let all = seq![
        "heading"@, "paragraph"@, "code"@, "list"@, "listItem"@, "blockquote"@,
        "thematicBreak"@, "table"@, "tableRow"@, "tableCell"@, "image"@, "link"@, "emphasis"@,
        "strong"@, "inlineCode"@, "text"@, "break"@, "delete"@, "definition"@,
        "footnoteDefinition"@, "footnoteReference"@,
    ];
    assert(all[0] == "heading"@ && all[1] == "paragraph"@ && all[2] == "code"@ && all[3] == "list"@);
    assert(all[4] == "listItem"@ && all[5] == "blockquote"@ && all[6] == "thematicBreak"@);
    assert(all[7] == "table"@ && all[8] == "tableRow"@ && all[9] == "tableCell"@);
    assert(all[10] == "image"@ && all[11] == "link"@ && all[12] == "emphasis"@);
    assert(all[13] == "strong"@ && all[14] == "inlineCode"@ && all[15] == "text"@);
    assert(all[16] == "break"@ && all[17] == "delete"@ && all[18] == "definition"@);
    assert(all[19] == "footnoteDefinition"@ && all[20] == "footnoteReference"@);
}

/// The source of a node is what stands between the places where it says that it
/// starts and ends; a node without such places has none.
pub proof fn law_node_source(node: Json, a: Seq<u8>, r: Seq<u8>, b: Seq<u8>)
    requires
        r.len() > 0,
    ensures
        offset_of(node, "start"@) == Some(a.len() as u64) && offset_of(node, "end"@) == Some(
            (a.len() + r.len()) as u64,
        ) && a.len() + r.len() + b.len() <= u64::MAX ==> raw_of(node, a + r + b) == r,
        offset_of(node, "start"@) is None || offset_of(node, "end"@) is None ==> raw_of(
            node,
            a + r + b,
        ).len() == 0,
{
    if offset_of(node, "start"@) == Some(a.len() as u64) && offset_of(node, "end"@) == Some(
        (a.len() + r.len()) as u64,
    ) && a.len() + r.len() + b.len() <= u64::MAX {
        assert((a + r + b).subrange(a.len() as int, (a.len() + r.len()) as int) =~= r);
    }
}

/// A node becomes the blocks of its own and then those of its children, in order.
pub proof fn law_drafts(node: Json, a: Seq<Json>, b: Seq<Json>, source: Seq<u8>)
    ensures
        drafts_in(a + b, source) == drafts_in(a, source) + drafts_in(b, source),
        drafts_in(seq![node], source) == drafts_of(node, source),
        member(node, "children"@) == Some(Json::Array(a)) ==> drafts_of(node, source) == (match draft_of(
            node,
            source,
        ) {
            Some(d) => seq![d],
            None => Seq::empty(),
        }) + drafts_in(a, source),
        !(member(node, "children"@) matches Some(Json::Array(_))) ==> drafts_of(node, source) == (
        match draft_of(node, source) {
            Some(d) => seq![d],
            None => Seq::empty(),
        }),
    decreases b.len(),
{
    let none: Seq<Json> = seq![];
    assert(seq![node].drop_last() =~= none);
    assert(drafts_in(none, source) =~= seq![]);
    assert(drafts_in(seq![node], source) =~= drafts_of(node, source));
    if b.len() > 0 {
        assert((a + b).drop_last() =~= a + b.drop_last());
        law_drafts(node, a, b.drop_last(), source);
        assert(drafts_in(a + b, source) =~= drafts_in(a, source) + drafts_in(b, source));
    } else {
        assert(a + b =~= a);
        assert(drafts_in(a + b, source) =~= drafts_in(a, source) + drafts_in(b, source));
    }
}

/// What a node makes: of markup that is a component a structured block with its
/// kind, its data and its markup; of other markup, and of a node of Markdown, a
/// block with the node, its type and its source; of anything else none.
pub proof fn law_draft(node: Json, source: Seq<u8>)
    ensures
        member(node, "type"@) == Some(Json::Str("html"@)) ==> match (
            component_of(match member(node, "value"@) {
                Some(Json::Str(v)) => v,
                _ => ""@,
            }),
            draft_of(node, source),
        ) {
            (Some(c), Some(DraftM::Custom { ty, data, raw })) => ty == c.0 && data == c.1 && raw == (
            match member(node, "value"@) {
                Some(Json::Str(v)) => v,
                _ => ""@,
            }),
            (None, Some(DraftM::Markdown { ast, node_type, raw })) => ast == node && node_type
                == "html"@ && raw == raw_of(node, source),
            _ => false,
        },
        forall|t: Seq<char>|
            member(node, "type"@) == Some(Json::Str(t)) && t != "html"@ ==> match draft_of(
                node,
                source,
            ) {
                Some(DraftM::Markdown { ast, node_type, raw }) => #[trigger] is_block_node(t) && ast
                    == node && node_type == t && raw == raw_of(node, source),
                None => !is_block_node(t),
                _ => false,
            },
{
}

/// The text of a tree: that of a text node is its value, that of a piece of code
/// its value between backquotes, and that of any other node the texts of its
/// children, in order.
pub proof fn law_ast_text(node: Json, v: Seq<char>, a: Seq<Json>, b: Seq<Json>)
    ensures
        member(node, "type"@) == Some(Json::Str("text"@)) && member(node, "value"@) == Some(
            Json::Str(v),
        ) ==> ast_text(node) == v,
        member(node, "type"@) == Some(Json::Str("inlineCode"@)) && member(node, "value"@) == Some(
            Json::Str(v),
        ) ==> ast_text(node) == seq!['`'] + v + seq!['`'],
        !(member(node, "type"@) matches Some(Json::Str(t)) && (t == "text"@ || t == "inlineCode"@))
            && member(node, "children"@) == Some(Json::Array(a)) ==> ast_text(node) == ast_texts(a),
        ast_texts(a + b) == ast_texts(a) + ast_texts(b),
        ast_texts(seq![node]) == ast_text(node),
        ast_texts(seq![]).len() == 0,
    decreases b.len(),
{
    reveal_strlit("`");
    reveal_strlit("text");
    reveal_strlit("inlineCode");
    assert("text"@.len() != "inlineCode"@.len());
    assert("`"@ =~= seq!['`']);
    let none: Seq<Json> = seq![];
    assert(seq![node].drop_last() =~= none);
    assert(ast_texts(none) =~= seq![]);
    assert(ast_texts(seq![node]) =~= ast_text(node));
    if b.len() > 0 {
        assert((a + b).drop_last() =~= a + b.drop_last());
        law_ast_text(node, v, a, b.drop_last());
        assert(ast_texts(a + b) =~= ast_texts(a) + ast_texts(b));
    } else {
        assert(a + b =~= a);
        assert(ast_texts(a + b) =~= ast_texts(a) + ast_texts(b));
    }
}

// ---- Writing ---------------------------------------------------------------

/// A page as it is written holds each of its fields on a line of its own, behind
/// the name of the field.
pub proof fn law_written_fields(d: DocumentM, created: Seq<char>) -> (r: Seq<
    (Seq<char>, Seq<char>),
>)
    ensures
        r.len() == 7,
        markdown_of(d, created) == r[0].0 + ("title: "@ + d.title + "\n"@) + r[0].1,
        markdown_of(d, created) == r[1].0 + ("content_type: "@ + content_name(d.content_type)
            + "\n"@) + r[1].1,
        markdown_of(d, created) == r[2].0 + ("status: "@ + status_name(d.status) + "\n"@) + r[2].1,
        markdown_of(d, created) == r[3].0 + ("author: "@ + d.author + "\n"@) + r[3].1,
        markdown_of(d, created) == r[4].0 + ("created_at: "@ + created + "\n"@) + r[4].1,
        d.path matches Some(p) ==> markdown_of(d, created) == r[5].0 + ("path: "@ + p + "\n"@)
            + r[5].1,
        d.tags.len() > 0 ==> markdown_of(d, created) == r[6].0 + ("tags: ["@ + joined(
            d.tags,
            ", "@,
        ) + "]\n"@) + r[6].1,
        "---\n"@.is_prefix_of(markdown_of(d, created)),
        ("---\n\n"@ + texts_of(d.blocks)).is_suffix_of(markdown_of(d, created)),
{
    let m = markdown_of(d, created);
    let a = "title: "@ + d.title + "\n"@;
    let b = "content_type: "@ + content_name(d.content_type) + "\n"@;
    let c = if d.tags.len() > 0 {
        "tags: ["@ + joined(d.tags, ", "@) + "]\n"@
    } else {
        seq![]
    };
    let e = "status: "@ + status_name(d.status) + "\n"@;
    let f = match d.path {
        Some(p) => "path: "@ + p + "\n"@,
        None => seq![],
    };
    let g = "author: "@ + d.author + "\n"@;
    let h = "created_at: "@ + created + "\n"@;
    let end = "---\n\n"@ + texts_of(d.blocks);
    let p0 = "---\n"@;
    let p1 = p0 + a;
    let p2 = p1 + b;
    let p3 = p2 + c;
    let p4 = p3 + e;
    let p5 = p4 + f;
    let p6 = p5 + g;
    let p7 = p6 + h;
    let s6 = h + end;
    let s5 = g + s6;
    let s4 = f + s5;
    let s3 = e + s4;
    let s2 = c + s3;
    let s1 = b + s2;
    lemma_assoc(p7, "---\n\n"@, texts_of(d.blocks));
    lemma_assoc(p6, h, end);
    lemma_assoc(p5, g, s6);
    lemma_assoc(p4, f, s5);
    lemma_assoc(p3, e, s4);
    lemma_assoc(p2, c, s3);
    lemma_assoc(p1, b, s2);
    lemma_assoc(p0, a, s1);
    assert(m == p7 + end);
    assert(p0.is_prefix_of(p0 + (a + s1)));
    assert(end.is_suffix_of(p7 + end));
    seq![(p0, s1), (p1, s2), (p3, s4), (p5, s6), (p6, end), (p4, s5), (p2, s3)]
}

proof fn lemma_assoc(x: Seq<char>, y: Seq<char>, z: Seq<char>)
    ensures
        x + y + z == x + (y + z),
{
    assert(x + y + z =~= x + (y + z));
}

/// The text of blocks is that of the first ones and then that of the others; a
/// block of Markdown is written as it was read, a structured one as a tag with its
/// kind and its data.
pub proof fn law_texts(a: Seq<BlockM>, b: Seq<BlockM>, x: BlockM)
    ensures
        texts_of(a + b) == texts_of(a) + texts_of(b),
        texts_of(seq![]).len() == 0,
        x matches BlockM::Markdown(m) ==> texts_of(seq![x]) == m.raw,
        x matches BlockM::Custom(c) ==> texts_of(seq![x]) == "<"@ + kind_name(c.ty) + " data="@
            + compact(c.data) + " />\n"@,
    decreases b.len(),
{
    let none: Seq<BlockM> = seq![];
    assert(seq![x].drop_last() =~= none);
    assert(texts_of(none) =~= seq![]);
    assert(texts_of(seq![x]) =~= x.diffable_text());
    if b.len() > 0 {
        assert((a + b).drop_last() =~= a + b.drop_last());
        law_texts(a, b.drop_last(), x);
        assert(texts_of(a + b) =~= texts_of(a) + texts_of(b));
    } else {
        assert(a + b =~= a);
        assert(texts_of(a + b) =~= texts_of(a) + texts_of(b));
    }
}

/// Looking blocks up by their identities gives those that are there, in the order
/// of the identities.
pub proof fn law_found_blocks(bs: Seq<BlockM>, ids: Seq<Seq<char>>)
    ensures
        found_blocks(bs, ids) == ids.filter(
            |id: Seq<char>| block_of(bs, id) is Some,
        ).map_values(|id: Seq<char>| block_of(bs, id)->0),
    decreases ids.len(),
{
    reveal(Seq::filter);
    let f = |id: Seq<char>| block_of(bs, id) is Some;
    let g = |id: Seq<char>| block_of(bs, id)->0;
    if ids.len() > 0 {
        law_found_blocks(bs, ids.drop_last());
        if f(ids.last()) {
            assert(ids.filter(f).map_values(g) =~= ids.drop_last().filter(f).map_values(g).push(
                g(ids.last()),
            ));
        }
    }
    assert(found_blocks(bs, ids) =~= ids.filter(f).map_values(g));
}

/// A page is accepted exactly if it has a title, and a source or blocks.
pub proof fn law_checked(d: DocumentM)
    ensures
        checked(d) is Ok <==> d.title.len() > 0 && (d.raw_markdown.len() > 0 || d.blocks.len() > 0),
        checked(d) matches Err(e) ==> e is Invalid,
{
}

/// A block is rendered by what is registered for Markdown, or for its kind.
pub proof fn law_renderer_name(b: BlockM)
    ensures
        b is Markdown ==> renderer_name(b) == "markdown"@,
        b matches BlockM::Custom(c) ==> renderer_name(b) == kind_name(c.ty),
{
}

/// The names of the statuses and of the kinds of content.
pub proof fn law_names()
    ensures
        status_name(DocumentStatus::Active) == "active"@,
        status_name(DocumentStatus::Frozen) == "frozen"@,
        status_name(DocumentStatus::Hidden) == "hidden"@,
        status_name(DocumentStatus::Archived) == "archived"@,
        content_name(ContentType::Article) == "article"@,
        content_name(ContentType::SmartTable) == "smart_table"@,
        content_name(ContentType::Workflow) == "workflow"@,
        content_name(ContentType::Flowchart) == "flowchart"@,
        content_name(ContentType::Mindmap) == "mindmap"@,
        content_name(ContentType::Audio) == "audio"@,
        content_name(ContentType::Video) == "video"@,
        content_name(ContentType::Artwork) == "artwork"@,
        content_name(ContentType::Playlist) == "playlist"@,
        kind_name(CustomBlockTypeM::SmartTable) == "SmartTable"@,
        kind_name(CustomBlockTypeM::Workflow) == "Workflow"@,
        kind_name(CustomBlockTypeM::Mindmap) == "Mindmap"@,
        kind_name(CustomBlockTypeM::AudioPlayer) == "AudioPlayer"@,
        kind_name(CustomBlockTypeM::VideoPlayer) == "VideoPlayer"@,
        kind_name(CustomBlockTypeM::Artwork) == "Artwork"@,
        kind_name(CustomBlockTypeM::Playlist) == "Playlist"@,
        kind_name(CustomBlockTypeM::Mermaid) == "Mermaid"@,
{
}

/// A block that was drafted carries what the draft says and who wrote it.
pub proof fn law_drafted(b: Block, d: DraftM, author: Seq<char>)
    requires
        drafted(b, d, author),
    ensures
        d matches DraftM::Markdown { ast, node_type, raw } ==> (b matches Block::Markdown(m)
            && m.ast.deep_view() == ast && m.node_type@ == node_type && vstd::utf8::encode_utf8(
            m.raw@,
        ) == raw && m.meta.created_by@ == author && m.version == 0 && m.embedding is None),
        d matches DraftM::Custom { ty, data, raw } ==> (b matches Block::Custom(c)
            && c.ty.deep_view() == ty && c.data.deep_view() == data && c.raw@ == raw
            && c.meta.created_by@ == author && c.version == 0 && c.embedding is None
            && c.children@.len() == 0 && c.parent is None),
{
}

/// A source is read as the drafts of its tree, in order; where the tree does not
/// come about, its error is what is returned.
pub proof fn law_blocks_read(md: Seq<char>, r: Result<Vec<Block>, WikiError>, i: int)
    requires
        blocks_read(md, r),
    ensures
        r matches Ok(bs) ==> (crate::page::markdown::tree_of(md) matches Ok(tree) && bs@.len()
            == drafts_of(tree, vstd::utf8::encode_utf8(md)).len() && (0 <= i < bs@.len() ==> drafted(
            bs@[i],
            drafts_of(tree, vstd::utf8::encode_utf8(md))[i],
            "system"@,
        ))),
        crate::page::markdown::tree_of(md) matches Err(e) ==> (r matches Err(x)
            && x.deep_view() matches WikiErrorM::Invalid(s) && e.1.is_suffix_of(s)),
{
    if let Err(e) = crate::page::markdown::tree_of(md) {
        if e.0 {
            assert(e.1.is_suffix_of("serialize ast: "@ + e.1));
        } else {
            assert(e.1.is_suffix_of("markdown parse: "@ + e.1));
        }
    }
}

/// The plain text of a block: of one of Markdown the text of its tree, where its
/// source is one, and else its source; of a structured one the text in its data.
pub proof fn law_plain_text(b: BlockM)
    ensures
        b matches BlockM::Custom(c) ==> b.plain_text() == crate::json::all_text(c.data),
        b matches BlockM::Markdown(m) ==> match crate::json::parsed_json(m.raw) {
            Ok(tree) => b.plain_text() == ast_text(tree),
            Err(_) => b.plain_text() == m.raw,
        },
{
}

/// A tree that does not come about is told with what went wrong, reading or
/// writing it.
pub proof fn law_tree_outcome(tree: Json, why: Seq<char>)
    ensures
        tree_outcome(Ok(tree)) == Ok::<Json, WikiErrorM>(tree),
        tree_outcome(Err((false, why))) == Err::<Json, WikiErrorM>(
            WikiErrorM::Invalid("markdown parse: "@ + why),
        ),
        tree_outcome(Err((true, why))) == Err::<Json, WikiErrorM>(
            WikiErrorM::Invalid("serialize ast: "@ + why),
        ),
{
}

// ---- Calls -----------------------------------------------------------------

/// A page may be written to only where it may be read, and is found by a search
/// exactly where it may be read: while it is active or frozen. Only an active one
/// may be written to.
pub proof fn law_status_access(s: DocumentStatus, read: bool, write: bool, search: bool)
    requires
        call_ensures(DocumentStatus::is_readable, (&s,), read),
        call_ensures(DocumentStatus::is_writable, (&s,), write),
        call_ensures(DocumentStatus::is_searchable, (&s,), search),
    ensures
        write ==> read,
        search <==> read,
        write <==> s == DocumentStatus::Active,
        !read <==> s == DocumentStatus::Hidden || s == DocumentStatus::Archived,
{
}

/// Setting the summary of a page notes the rule for it, and leaves the overview and
/// its rule; setting the overview the other way round.
pub proof fn law_summary_set(
    d: &mut Document,
    text: String,
    rule: DerivationRule,
    out: (),
    e: &mut Document,
    other: String,
    by: DerivationRule,
    done: (),
)
    requires
        call_ensures(Document::set_summary, (d, text, rule), out),
        call_ensures(Document::set_overview, (e, other, by), done),
    ensures
        final(d).deep_view().summary == Some(text@),
        final(d).deep_view().overview == old(d).deep_view().overview,
        final(d).deep_view().blocks == old(d).deep_view().blocks,
        old(d).deep_view().derivation matches Some(c) ==> (final(d).deep_view().derivation matches Some(n) && n.l0_rule == Some(rule.deep_view()) && n.l1_rule
            == c.l1_rule && n.l2_hash == c.l2_hash),
        final(e).deep_view().overview == Some(other@),
        final(e).deep_view().summary == old(e).deep_view().summary,
        final(e).deep_view().blocks == old(e).deep_view().blocks,
        old(e).deep_view().derivation matches Some(c) ==> (final(e).deep_view().derivation matches Some(n) && n.l1_rule == Some(by.deep_view()) && n.l0_rule
            == c.l0_rule && n.l2_hash == c.l2_hash),
{
}

/// What was derived from a text is stale for another exactly if that has another
/// hash.
pub proof fn law_chain(
    text: &str,
    now: Timestamp,
    c: DerivationChain,
    other: &str,
    stale: bool,
)
    requires
        call_ensures(DerivationChain::new_at, (text, now), c),
        call_ensures(DerivationChain::is_stale, (&c, other), stale),
    ensures
        stale <==> blake3_hex(text@) != blake3_hex(other@),
        text@ == other@ ==> !stale,
        c.last_derived == now,
        c.l0_rule is None && c.l1_rule is None,
{
    assert(c.deep_view().l2_hash == blake3_hex(text@));
}

/// Rules are noted each at its own place.
pub proof fn law_chain_rules(
    c: &mut DerivationChain,
    rule: DerivationRule,
    out: (),
    e: &mut DerivationChain,
    by: DerivationRule,
    done: (),
)
    requires
        call_ensures(DerivationChain::set_l1, (c, rule), out),
        call_ensures(DerivationChain::set_l0, (e, by), done),
    ensures
        final(c).deep_view().l1_rule == Some(rule.deep_view()),
        final(c).deep_view().l0_rule == old(c).deep_view().l0_rule,
        final(c).deep_view().l2_hash == old(c).deep_view().l2_hash,
        final(e).deep_view().l0_rule == Some(by.deep_view()),
        final(e).deep_view().l1_rule == old(e).deep_view().l1_rule,
        final(e).deep_view().l2_hash == old(e).deep_view().l2_hash,
{
}

/// A space is named by its library and then its wiki.
pub proof fn law_space_message(library: &str, wiki: &str, s: SpaceId, r: String)
    requires
        call_ensures(SpaceId::new, (library, wiki), s),
        call_ensures(SpaceId::message, (&s,), r),
    ensures
        (library@ + seq!['/']).is_prefix_of(r@),
        wiki@.is_suffix_of(r@),
        r@.len() == library@.len() + 1 + wiki@.len(),
{
    reveal_strlit("/");
    assert("/"@ =~= seq!['/']);
    assert(s.deep_view().library == library@ && s.deep_view().wiki == wiki@);
    assert((library@ + seq!['/']).is_prefix_of(r@));
    assert(wiki@.is_suffix_of(r@));
}

// ---- Calls -----------------------------------------------------------------

/// A block of Markdown is shown as its source is; a structured one is not shown.
pub proof fn law_rendered(
    renderer: &MarkdownRenderer,
    block: &Block,
    shown: Result<String, WikiError>,
    md: &str,
    html: String,
    of_tree: String,
)
    requires
        call_ensures(<MarkdownRenderer as Render>::render, (renderer, block), shown),
        call_ensures(md_to_html, (md,), html),
        call_ensures(ast_to_html, (md,), of_tree),
    ensures
        shown is Ok,
        block.deep_view() matches BlockM::Markdown(m) ==> m.raw == md@ ==> shown->Ok_0@ == html@,
        block.deep_view() is Custom ==> shown->Ok_0@.len() == 0,
        of_tree@ == html@,
{
}

/// The text of a tree that is given as JSON is the text of its nodes; what is no
/// JSON has none.
pub proof fn law_tree_text(input: &str, r: Option<String>)
    requires
        call_ensures(ast_to_string, (input,), r),
    ensures
        r is None <==> crate::json::parsed_json(input@) is Err,
        crate::json::parsed_json(input@) matches Ok(tree) ==> r.deep_view() == Some(ast_text(tree)),
{
}

proof fn lemma_trees_cut_well(nodes: Seq<Json>, source: Seq<u8>)
    ensures
        trees_cut_well(nodes, source) <==> forall|i: int|
            0 <= i < nodes.len() ==> tree_cuts_well(#[trigger] nodes[i], source),
    decreases nodes.len(),
{
    if nodes.len() > 0 {
        let front = nodes.drop_last();
        lemma_trees_cut_well(front, source);
        if trees_cut_well(nodes, source) {
            assert forall|i: int| 0 <= i < nodes.len() implies tree_cuts_well(
                #[trigger] nodes[i],
                source,
            ) by {
                if i < front.len() {
                    assert(front[i] == nodes[i]);
                }
            }
        }
        if forall|i: int| 0 <= i < nodes.len() ==> tree_cuts_well(#[trigger] nodes[i], source) {
            assert forall|i: int| 0 <= i < front.len() implies tree_cuts_well(
                #[trigger] front[i],
                source,
            ) by {
                assert(front[i] == nodes[i]);
            }
            assert(tree_cuts_well(nodes[nodes.len() - 1], source));
        }
    }
}

/// A tree cuts its source well exactly if its root does, where that becomes a block
/// of Markdown, and every tree below the root does.
pub proof fn law_tree_cuts(node: Json, a: Seq<Json>, source: Seq<u8>)
    ensures
        ({
            let own = draft_of(node, source) matches Some(DraftM::Markdown { .. }) ==> (span_of(
                node,
                source,
            ) matches Some(p) ==> vstd::utf8::is_char_boundary(source, p.1)
                && vstd::utf8::is_char_boundary(source.subrange(0, p.1), p.0));
            &&& member(node, "children"@) == Some(Json::Array(a)) ==> (tree_cuts_well(node, source)
                <==> own && forall|i: int|
                0 <= i < a.len() ==> tree_cuts_well(#[trigger] a[i], source))
            &&& !(member(node, "children"@) matches Some(Json::Array(_))) ==> (tree_cuts_well(
                node,
                source,
            ) <==> own)
        }),
{
    lemma_trees_cut_well(a, source);
}

/// A tree is turned into blocks exactly if it cuts the source well, and then into
/// as many as it has drafts; else the fault is named.
pub proof fn law_read_tree(tree: &JsonValue, md: &str, r: Result<Vec<Block>, WikiError>)
    requires
        call_ensures(read_tree, (tree, md), r),
    ensures
        r is Ok <==> tree_cuts_well(tree.deep_view(), md.spec_bytes()),
        r matches Ok(bs) ==> bs@.len() == drafts_of(tree.deep_view(), md.spec_bytes()).len(),
        r matches Err(e) ==> e.deep_view() == WikiErrorM::Invalid(
            "markdown position inside a character"@,
        ),
{
}

/// The kind of a node is the text that it gives as its type; one that gives none is
/// of an unknown kind.
pub proof fn law_node_type(node: Json, t: Seq<char>)
    ensures
        member(node, "type"@) == Some(Json::Str(t)) ==> node_type(node) == t,
        !(member(node, "type"@) matches Some(Json::Str(_))) ==> node_type(node) == "unknown"@,
{
}

} // verus!
