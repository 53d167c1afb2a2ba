//! Markdown: its syntax tree as JSON, its HTML, and the text in a tree.

use vstd::prelude::*;

use crate::error::{outcome, WikiError, WikiErrorM};
use crate::json::{
    from_outside, json_of, lemma_member_below, member, parse_json, parsed_json, text_of, Json,
    JsonValue,
};
use crate::text::{cat, cat3};

verus! {

broadcast use vstd::std_specs::vec::group_vec_axioms;

/// The HTML of a Markdown text.
pub uninterp spec fn html_of(md: Seq<char>) -> Seq<char>;

/// The syntax tree of a Markdown text with the GitHub extensions. An error
/// comes with its words, and with whether the tree was built and only its
/// JSON failed.
pub uninterp spec fn tree_of(md: Seq<char>) -> Result<Json, (bool, Seq<char>)>;

/// `markdown::to_html`, named `html_of`. By its documentation it does not fail,
/// because Markdown has no syntax errors; what the crate asserts of its own
/// events while it compiles them is left to it.
#[verifier::external_body]
pub(crate) fn render(md: &str) -> (r: String)
    ensures
        r@ == html_of(md@),
{
    markdown::to_html(md)
}

/// `markdown::to_mdast` with the options `gfm`, the tree turned into JSON by
/// `serde_json::to_value`; the result is named `tree_of`. What the crate asserts
/// of its own events while it builds the tree is left to it.
#[verifier::external_body]
pub(crate) fn syntax_tree(md: &str) -> (r: Result<serde_json::Value, (bool, String)>)
    ensures
        match r {
            Ok(v) => tree_of(md@) == Ok::<Json, (bool, Seq<char>)>(json_of(v)),
            Err(e) => tree_of(md@) == Err::<Json, (bool, Seq<char>)>((e.0, e.1@)),
        },
{
    match markdown::to_mdast(md, &markdown::ParseOptions::gfm()) {
        Ok(node) => serde_json::to_value(node).map_err(|e| (true, e.to_string())),
        Err(e) => Err((false, e.to_string())),
    }
}

/// What was made of a syntax tree, or the error to report: whether it was the
/// tree that could not be written, and why.
pub open spec fn tree_outcome(r: Result<Json, (bool, Seq<char>)>) -> Result<Json, WikiErrorM> {
    match r {
        Ok(j) => Ok(j),
        Err(e) => Err(
            WikiErrorM::Invalid(
                (if e.0 {
                    "serialize ast: "@
                } else {
                    "markdown parse: "@
                }) + e.1,
            ),
        ),
    }
}

/// The syntax tree of a Markdown text, or the error to report.
pub open spec fn ast_outcome(md: Seq<char>) -> Result<Json, WikiErrorM> {
    tree_outcome(tree_of(md))
}

/// The error to report: whether it was the tree that could not be written, and
/// why.
pub fn tree_error(written: bool, why: &str) -> (r: WikiError)
    ensures
        tree_outcome(Err((written, why@))) == Err::<Json, WikiErrorM>(r.deep_view()),
{
    if written {
        WikiError::Invalid(cat("serialize ast: ", why))
    } else {
        WikiError::Invalid(cat("markdown parse: ", why))
    }
}

/// The syntax tree of a Markdown text as JSON.
pub fn parse_to_ast(md: &str) -> (r: Result<JsonValue, WikiError>)
    ensures
        outcome(r) == ast_outcome(md@),
{
    match syntax_tree(md) {
        Ok(v) => Ok(from_outside(v)),
        Err(e) => Err(tree_error(e.0, e.1.as_str())),
    }
}

/// The HTML of a Markdown text.
pub fn md_to_html(md: &str) -> (r: String)
    ensures
        r@ == html_of(md@),
{
    render(md)
}

/// The HTML of a tree, from the Markdown that it was read from.
pub fn ast_to_html(raw_md: &str) -> (r: String)
    ensures
        r@ == html_of(raw_md@),
{
    render(raw_md)
}

/// The text in a syntax tree: that of its text nodes, and inline code between
/// back quotes.
pub open spec fn ast_text(node: Json) -> Seq<char>
    decreases node,
{
    let value = match text_of(member(node, "value"@)) {
        Some(s) => s,
        None => seq![],
    };
    if text_of(member(node, "type"@)) == Some("text"@) {
        value
    } else if text_of(member(node, "type"@)) == Some("inlineCode"@) {
        "`"@ + value + "`"@
    } else {
        match member(node, "children"@) {
            Some(Json::Array(a)) => {
                proof {
                    lemma_member_below(node, "children"@);
                }
                ast_texts(a)
            },
            _ => seq![],
        }
    }
}

/// The texts of several nodes, one behind the other.
pub open spec fn ast_texts(nodes: Seq<Json>) -> Seq<char>
    decreases nodes,
{
    if nodes.len() == 0 {
        seq![]
    } else {
        ast_texts(nodes.drop_last()) + ast_text(nodes[nodes.len() - 1])
    }
}

/// The text in a syntax tree.
pub fn extract_text(node: &JsonValue) -> (r: String)
    ensures
        r@ == ast_text(node.deep_view()),
    decreases node.deep_view(),
{
    let kind = node.get_str("type");
    let value = match node.get_str("value") {
        Some(s) => s.to_owned(),
        None => String::new(),
    };
    if let Some(t) = kind {
        if crate::text::same(t, "text") {
            return value;
        }
        proof {
            reveal_strlit("text");
            reveal_strlit("inlineCode");
        }
        if crate::text::same(t, "inlineCode") {
            return cat3("`", value.as_str(), "`");
        }
    }
    let mut out = String::new();
    if let Some(v) = node.get("children") {
        if let Some(a) = v.as_array() {
            let ghost all = a.deep_view();
            proof {
                lemma_member_below(node.deep_view(), "children"@);
            }
            let mut i: usize = 0;
            assert(out@ =~= ast_texts(all.take(0)));
            while i < a.len()
                invariant
                    i <= a.len(),
                    all == a.deep_view(),
                    decreases_to!(node.deep_view() => all),
                    out@ == ast_texts(all.take(i as int)),
                decreases a.len() - i,
            {
                assert(all[i as int] == a@[i as int].deep_view());
                assert(decreases_to!(all => all[i as int]));
                let part = extract_text(&a[i]);
                out.push_str(part.as_str());
                assert(all.take(i + 1).drop_last() =~= all.take(i as int));
                i = i + 1;
            }
            assert(all.take(i as int) =~= all);
        }
    }
    out
}

/// The text in a tree given as JSON text; nothing where that is no JSON.
pub open spec fn tree_text(input: Seq<char>) -> Option<Seq<char>> {
    match parsed_json(input) {
        Ok(j) => Some(ast_text(j)),
        Err(_) => None,
    }
}

/// The text in a tree given as JSON text.
pub fn ast_to_string(input: &str) -> (r: Option<String>)
    ensures
        r.deep_view() == tree_text(input@),
{
    match parse_json(input) {
        Ok(v) => Some(extract_text(&v)),
        Err(_) => None,
    }
}

} // verus!
