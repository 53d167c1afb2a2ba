//! Which renderer shows which kind of block.

use vstd::prelude::*;

use crate::error::{outcome, WikiError, WikiErrorM};
use crate::page::block::{kind_name, Block, BlockM};
use crate::page::markdown::{ast_to_html, html_of};
use crate::seqs::{first_index, lemma_first_index, lemma_first_index_is};
use crate::text::{cat, same};

verus! {

/// Shows blocks as HTML.
pub trait Render: Sized {
    fn render(&self, block: &Block) -> (r: Result<String, WikiError>);
}

/// Shows blocks of Markdown.
pub struct MarkdownRenderer {}

/// The HTML of a block of Markdown, and nothing for any other.
pub open spec fn markdown_html(b: BlockM) -> Seq<char> {
    match b {
        BlockM::Markdown(m) => html_of(m.raw),
        BlockM::Custom(_) => seq![],
    }
}

impl Render for MarkdownRenderer {
    fn render(&self, block: &Block) -> (r: Result<String, WikiError>)
        ensures
            outcome(r) == Ok::<Seq<char>, WikiErrorM>(markdown_html(block.deep_view())),
    {
        match block {
            Block::Markdown(b) => Ok(ast_to_html(b.raw.as_str())),
            Block::Custom(_) => {
                let r = String::new();
                assert(r@ =~= seq![]);
                Ok(r)
            },
        }
    }
}

/// Renderers by the name of the kind that they show.
pub struct BlockTypeRegistry<R> {
    pub renderers: Vec<(String, R)>,
}

/// Whether an entry has a name.
pub open spec fn is_named<R>(name: Seq<char>) -> spec_fn((String, R)) -> bool {
    |e: (String, R)| e.0@ == name
}

/// The renderer of a name.
pub open spec fn renderer_of<R>(r: BlockTypeRegistry<R>, name: Seq<char>) -> Option<R> {
    match first_index(r.renderers@, is_named(name)) {
        Some(i) => Some(r.renderers@[i].1),
        None => None,
    }
}

/// The name that the renderer of a block is found under.
pub open spec fn renderer_name(b: BlockM) -> Seq<char> {
    match b {
        BlockM::Markdown(_) => "markdown"@,
        BlockM::Custom(c) => kind_name(c.ty),
    }
}

/// The error of a block that has no renderer.
pub open spec fn no_renderer(b: BlockM) -> WikiErrorM {
    WikiErrorM::Invalid(
        match b {
            BlockM::Markdown(_) => "no markdown renderer"@,
            BlockM::Custom(c) => "no renderer for "@ + kind_name(c.ty),
        },
    )
}

impl<R: Render> BlockTypeRegistry<R> {
    fn position(&self, name: &str) -> (r: Option<usize>)
        ensures
            match r {
                Some(i) => i < self.renderers@.len() && first_index(
                    self.renderers@,
                    is_named::<R>(name@),
                ) == Some(i as int),
                None => first_index(self.renderers@, is_named::<R>(name@)) is None,
            },
    {
        let ghost all = self.renderers@;
        let ghost p = is_named::<R>(name@);
        let mut i: usize = 0;
        while i < self.renderers.len()
            invariant
                i <= self.renderers.len(),
                all == self.renderers@,
                p == is_named::<R>(name@),
                forall|k: int| 0 <= k < i ==> !p(#[trigger] all[k]),
            decreases self.renderers.len() - i,
        {
            assert(all[i as int].0@ == self.renderers@[i as int].0@);
            if same(self.renderers[i].0.as_str(), name) {
                proof {
                    lemma_first_index_is(all, p, i as int);
                }
                return Some(i);
            }
            i = i + 1;
        }
        proof {
            lemma_first_index(all, p);
        }
        None
    }

    /// A registry that shows Markdown by a renderer, and nothing else.
    pub fn new(markdown: R) -> (r: BlockTypeRegistry<R>)
        ensures
            renderer_of(r, "markdown"@) == Some(markdown),
            forall|name: Seq<char>|
                name != "markdown"@ ==> #[trigger] renderer_of(r, name) is None,
    {
        let mut r = BlockTypeRegistry { renderers: Vec::new() };
        let ghost empty = r;
        r.register("markdown", markdown);
        proof {
            assert forall|name: Seq<char>| name != "markdown"@ implies #[trigger] renderer_of(
                r,
                name,
            ) is None by {
                lemma_first_index(empty.renderers@, is_named(name));
            }
        }
        r
    }

    /// Sets the renderer of a name.
    pub fn register(&mut self, name: &str, renderer: R)
        ensures
            renderer_of(*final(self), name@) == Some(renderer),
            forall|other: Seq<char>|
                other != name@ ==> #[trigger] renderer_of(*final(self), other) == renderer_of(
                    *old(self),
                    other,
                ),
    {
        let ghost was = self.renderers@;
        let found = self.position(name);
        match found {
            Some(i) => {
                self.renderers.set(i, (name.to_owned(), renderer));
            },
            None => {
                self.renderers.push((name.to_owned(), renderer));
            },
        }
        proof {
            let now = self.renderers@;
            lemma_first_index(was, is_named::<R>(name@));
            match found {
                Some(i) => {
                    lemma_first_index_is(now, is_named::<R>(name@), i as int);
                },
                None => {
                    lemma_first_index_is(now, is_named::<R>(name@), was.len() as int);
                },
            }
            assert forall|other: Seq<char>| other != name@ implies #[trigger] renderer_of(
                *self,
                other,
            ) == renderer_of(*old(self), other) by {
                let p = is_named::<R>(other);
                lemma_first_index(was, p);
                lemma_first_index(now, p);
                match first_index(was, p) {
                    Some(k) => {
                        assert(p(was[k]));
                        assert(now[k] == was[k]);
                        lemma_first_index_is(now, p, k);
                    },
                    None => {
                        if first_index(now, p) is Some {
                            let k = first_index(now, p)->0;
                            assert(p(now[k]));
                            if k < was.len() {
                                assert(!p(was[k]));
                            }
                        }
                    },
                }
            }
        }
    }

    /// The renderer of a name.
    pub fn get(&self, name: &str) -> (r: Option<&R>)
        ensures
            match r {
                Some(x) => renderer_of(*self, name@) == Some(*x),
                None => renderer_of(*self, name@) is None,
            },
    {
        match self.position(name) {
            Some(i) => Some(&self.renderers[i].1),
            None => None,
        }
    }

    /// Shows a block by the renderer of its kind: what that renderer gives, or
    /// the error that there is none.
    pub fn render(&self, block: &Block) -> (r: Result<String, WikiError>)
        ensures
            match renderer_of(*self, renderer_name(block.deep_view())) {
                Some(x) => call_ensures(R::render, (&x, block), r),
                None => outcome(r) == Err::<Seq<char>, WikiErrorM>(
                    no_renderer(block.deep_view()),
                ),
            },
    {
        match block {
            Block::Markdown(_) => match self.get("markdown") {
                Some(x) => x.render(block),
                None => Err(WikiError::Invalid("no markdown renderer".to_owned())),
            },
            Block::Custom(b) => match self.get(b.ty.as_str()) {
                Some(x) => x.render(block),
                None => Err(WikiError::Invalid(cat("no renderer for ", b.ty.as_str()))),
            },
        }
    }
}

} // verus!
