//! What reading a page gives back of writing it.

use vstd::prelude::*;

use crate::page::doc::{
    body_of, content_name, markdown_of, source_parts, status_name, texts_of, ContentType,
    DocumentM, DocumentStatus, SourceM,
};
use crate::text::{find_from, joined, lemma_find_from, matches_at, trim_start, white_space};

verus! {

/// A text without a line feed.
pub open spec fn one_line(s: Seq<char>) -> bool {
    !s.contains('\n')
}

/// The fields of a page that are written into its front matter have no line
/// feeds.
pub open spec fn plain_fields(d: DocumentM) -> bool {
    &&& one_line(d.title)
    &&& one_line(d.author)
    &&& d.path matches Some(p) ==> one_line(p)
    &&& forall|i: int| 0 <= i < d.tags.len() ==> one_line(#[trigger] d.tags[i])
}

/// Whole lines, none of which begins with a hyphen.
pub open spec fn whole_lines(s: Seq<char>) -> bool {
    &&& s.len() > 0
    &&& s[0] != '-'
    &&& s.last() == '\n'
    &&& forall|j: int| 0 <= j < s.len() - 1 && #[trigger] s[j] == '\n' ==> s[j + 1] != '-'
}

pub proof fn lemma_lines_add(a: Seq<char>, b: Seq<char>)
    requires
        whole_lines(a),
        whole_lines(b),
    ensures
        whole_lines(a + b),
{
    let s = a + b;
    assert forall|j: int| 0 <= j < s.len() - 1 && #[trigger] s[j] == '\n' implies s[j + 1]
        != '-' by {
        if j < a.len() - 1 {
            assert(a[j] == '\n');
        } else if j >= a.len() {
            assert(b[j - a.len()] == '\n');
        }
    }
}

/// A key, a field and an end make a line.
pub proof fn lemma_line(key: Seq<char>, field: Seq<char>, end: Seq<char>)
    requires
        key.len() > 0,
        key[0] != '-',
        one_line(key),
        one_line(field),
        end.len() > 0,
        end.last() == '\n',
        one_line(end.drop_last()),
    ensures
        whole_lines(key + field + end),
{
    let s = key + field + end;
    assert forall|j: int| 0 <= j < s.len() - 1 implies #[trigger] s[j] != '\n' by {
        if j < key.len() {
            assert(key.contains(key[j]));
        } else if j < key.len() + field.len() {
            assert(field.contains(field[j - key.len()]));
        } else {
            assert(end.drop_last().contains(end.drop_last()[j - key.len() - field.len()]));
        }
    }
}

proof fn lemma_joined_line(parts: Seq<Seq<char>>, sep: Seq<char>)
    requires
        one_line(sep),
        forall|i: int| 0 <= i < parts.len() ==> one_line(#[trigger] parts[i]),
    ensures
        one_line(joined(parts, sep)),
    decreases parts.len(),
{
    if parts.len() > 1 {
        let front = parts.drop_last();
        assert forall|i: int| 0 <= i < front.len() implies one_line(#[trigger] front[i]) by {
            assert(front[i] == parts[i]);
        }
        lemma_joined_line(front, sep);
        lemma_line_add(joined(front, sep), sep);
        assert(one_line(parts[parts.len() - 1]));
        lemma_line_add(joined(front, sep) + sep, parts.last());
    }
}

proof fn lemma_line_add(a: Seq<char>, b: Seq<char>)
    requires
        one_line(a),
        one_line(b),
    ensures
        one_line(a + b),
{
    let s = a + b;
    if s.contains('\n') {
        let i = choose|i: int| 0 <= i < s.len() && s[i] == '\n';
        if i < a.len() {
            assert(a.contains(a[i]));
        } else {
            assert(b.contains(b[i - a.len()]));
        }
    }
}

/// A source made of hyphens, whole lines, hyphens and a body is taken apart
/// again.
pub proof fn lemma_parts(lines: Seq<char>, body: Seq<char>)
    requires
        whole_lines(lines),
        !white_space(lines[0]),
    ensures
        source_parts("---\n"@ + lines + "---\n\n"@ + body) == (SourceM::Closed {
            yaml: lines.drop_last(),
            body: trim_start(body),
        }),
{
    reveal_strlit("---\n");
    reveal_strlit("---\r\n");
    reveal_strlit("---\n\n");
    reveal_strlit("\n---");
    let raw = "---\n"@ + lines + "---\n\n"@ + body;
    let rest = lines + "---\n\n"@ + body;
    let n = lines.len() - 1;
    assert(!white_space(raw[0]));
    assert(trim_start(raw) == raw);
    assert(raw.subrange(0, 4) =~= "---\n"@);
    assert(raw.skip(3) =~= seq!['\n'] + rest);
    assert(raw.skip(3).drop_first() =~= rest);
    assert(rest[0] == lines[0]);
    assert(trim_start(rest) == rest);
    assert(trim_start(raw.skip(3)) == rest);
    assert(rest.subrange(n, n + 4) =~= "\n---"@);
    assert(matches_at(rest, "\n---"@, n));
    assert forall|j: int| 0 <= j < n implies !matches_at(rest, "\n---"@, j) by {
        if matches_at(rest, "\n---"@, j) {
            let part = rest.subrange(j, j + 4);
            assert(part[0] == '\n' && part[1] == '-');
            assert(lines[j] == '\n');
            assert(rest[j + 1] == lines[j + 1]);
        }
    }
    lemma_find_from(rest, "\n---"@, 0);
    assert(find_from(rest, "\n---"@, 0) == Some(n));
    assert(rest.take(n) =~= lines.drop_last());
    let behind = rest.skip(n + 4);
    assert(behind =~= seq!['\n', '\n'] + body);
    assert(behind.drop_first() =~= seq!['\n'] + body);
    assert(behind.drop_first().drop_first() =~= body);
    assert(trim_start(behind) == trim_start(behind.drop_first()));
    assert(trim_start(behind.drop_first()) == trim_start(body));
}

pub proof fn lemma_content_line(t: ContentType)
    ensures
        one_line(content_name(t)),
{
    reveal_strlit("article");
    reveal_strlit("smart_table");
    reveal_strlit("workflow");
    reveal_strlit("flowchart");
    reveal_strlit("mindmap");
    reveal_strlit("audio");
    reveal_strlit("video");
    reveal_strlit("artwork");
    reveal_strlit("playlist");
}

pub proof fn lemma_status_line(s: DocumentStatus)
    ensures
        one_line(status_name(s)),
{
    reveal_strlit("active");
    reveal_strlit("frozen");
    reveal_strlit("hidden");
    reveal_strlit("archived");
}

/// Reading the source that a page is written as gives back the text of its
/// blocks as the body, the white space before it aside.
pub proof fn law_written_page_read_back(d: DocumentM, created: Seq<char>)
    requires
        plain_fields(d),
        one_line(created),
    ensures
        body_of(markdown_of(d, created)) == trim_start(texts_of(d.blocks)),
{
    reveal_strlit("title: ");
    reveal_strlit("content_type: ");
    reveal_strlit("tags: [");
    reveal_strlit(", ");
    reveal_strlit("]\n");
    reveal_strlit("status: ");
    reveal_strlit("path: ");
    reveal_strlit("author: ");
    reveal_strlit("created_at: ");
    reveal_strlit("\n");
    let end = "\n"@;
    assert(end.drop_last() =~= seq![]);
    assert("]\n"@.drop_last() =~= seq![']']);
    let a = "title: "@ + d.title + end;
    let b = "content_type: "@ + content_name(d.content_type) + end;
    let c = if d.tags.len() > 0 {
        "tags: ["@ + joined(d.tags, ", "@) + "]\n"@
    } else {
        seq![]
    };
    let e = "status: "@ + status_name(d.status) + end;
    let f = match d.path {
        Some(p) => "path: "@ + p + end,
        None => seq![],
    };
    let g = "author: "@ + d.author + end;
    let h = "created_at: "@ + created + end;
    lemma_line("title: "@, d.title, end);
    lemma_content_line(d.content_type);
    lemma_line("content_type: "@, content_name(d.content_type), end);
    lemma_lines_add(a, b);
    let ab = a + b;
    if d.tags.len() > 0 {
        lemma_joined_line(d.tags, ", "@);
        lemma_line("tags: ["@, joined(d.tags, ", "@), "]\n"@);
        lemma_lines_add(ab, c);
    } else {
        assert(ab + c =~= ab);
    }
    let abc = ab + c;
    lemma_status_line(d.status);
    lemma_line("status: "@, status_name(d.status), end);
    lemma_lines_add(abc, e);
    let abce = abc + e;
    match d.path {
        Some(p) => {
            lemma_line("path: "@, p, end);
            lemma_lines_add(abce, f);
        },
        None => {
            assert(abce + f =~= abce);
        },
    }
    let abcef = abce + f;
    lemma_line("author: "@, d.author, end);
    lemma_lines_add(abcef, g);
    lemma_line("created_at: "@, created, end);
    lemma_lines_add(abcef + g, h);
    let lines = abcef + g + h;
    assert(lines[0] == 't');
    assert(markdown_of(d, created) =~= "---\n"@ + lines + "---\n\n"@ + texts_of(d.blocks));
    lemma_parts(lines, texts_of(d.blocks));
}

} // verus!
