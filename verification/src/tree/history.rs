//! Undoing and redoing changes of a document.

use vstd::prelude::*;

use crate::tree::doc::{Document, DocumentM};

verus! {

broadcast use vstd::std_specs::vec::group_vec_axioms;

/// What a document was before its changes, and what it was before they were
/// undone; the latest last.
#[derive(Debug, PartialEq)]
pub struct History {
    pub done: Vec<Document>,
    pub undone: Vec<Document>,
}

/// What a `History` holds.
#[verifier::ext_equal]
pub struct HistoryM {
    pub done: Seq<DocumentM>,
    pub undone: Seq<DocumentM>,
}

impl DeepView for History {
    type V = HistoryM;

    open spec fn deep_view(&self) -> HistoryM {
        HistoryM {
            done: self.done.deep_view(),
            undone: self.undone.deep_view(),
        }
    }
}

impl Clone for History {
    fn clone(&self) -> (r: Self)
        ensures
            r.deep_view() == self.deep_view(),
    {
        History {
            done: self.done.clone(),
            undone: self.undone.clone(),
        }
    }
}

/// The history after a change of a document.
pub open spec fn noted(h: HistoryM, before: DocumentM) -> HistoryM {
    HistoryM { done: h.done.push(before), undone: seq![] }
}

/// The document before its last change, with the history after undoing it.
pub open spec fn stepped_back(h: HistoryM, current: DocumentM) -> Option<(DocumentM, HistoryM)> {
    if h.done.len() == 0 {
        None
    } else {
        Some(
            (
                h.done.last(),
                HistoryM { done: h.done.drop_last(), undone: h.undone.push(current) },
            ),
        )
    }
}

/// The document before its last undoing, with the history after redoing it.
pub open spec fn stepped_forth(h: HistoryM, current: DocumentM) -> Option<(DocumentM, HistoryM)> {
    if h.undone.len() == 0 {
        None
    } else {
        Some(
            (
                h.undone.last(),
                HistoryM { done: h.done.push(current), undone: h.undone.drop_last() },
            ),
        )
    }
}

impl History {
    pub fn new() -> (r: History)
        ensures
            r.deep_view() == (HistoryM { done: seq![], undone: seq![] }),
    {
        let r = History { done: Vec::new(), undone: Vec::new() };
        assert(r.deep_view().done =~= seq![]);
        assert(r.deep_view().undone =~= seq![]);
        r
    }

    /// Notes a change of a document, given as it was before.
    pub fn note(&mut self, before: Document)
        ensures
            final(self).deep_view() == noted(old(self).deep_view(), before.deep_view()),
    {
        let ghost was = self.deep_view();
        let ghost m = before.deep_view();
        self.done.push(before);
        self.undone = Vec::new();
        assert(self.deep_view().done =~= was.done.push(m));
        assert(self.deep_view().undone =~= seq![]);
    }

    /// The document before its last change, if there was one.
    pub fn undo(&mut self, current: Document) -> (r: Option<Document>)
        ensures
            match stepped_back(old(self).deep_view(), current.deep_view()) {
                Some((d, h)) => r.deep_view() == Some(d) && final(self).deep_view() == h,
                None => r is None && final(self).deep_view() == old(self).deep_view(),
            },
    {
        let ghost was = self.deep_view();
        let ghost m = current.deep_view();
        match self.done.pop() {
            Some(d) => {
                self.undone.push(current);
                assert(self.deep_view().done =~= was.done.drop_last());
                assert(self.deep_view().undone =~= was.undone.push(m));
                Some(d)
            },
            None => {
                assert(self.deep_view().done =~= was.done);
                assert(self.deep_view().undone =~= was.undone);
                None
            },
        }
    }

    /// The document before its last undoing, if there was one since the last
    /// change.
    pub fn redo(&mut self, current: Document) -> (r: Option<Document>)
        ensures
            match stepped_forth(old(self).deep_view(), current.deep_view()) {
                Some((d, h)) => r.deep_view() == Some(d) && final(self).deep_view() == h,
                None => r is None && final(self).deep_view() == old(self).deep_view(),
            },
    {
        let ghost was = self.deep_view();
        let ghost m = current.deep_view();
        match self.undone.pop() {
            Some(d) => {
                self.done.push(current);
                assert(self.deep_view().done =~= was.done.push(m));
                assert(self.deep_view().undone =~= was.undone.drop_last());
                Some(d)
            },
            None => {
                assert(self.deep_view().done =~= was.done);
                assert(self.deep_view().undone =~= was.undone);
                None
            },
        }
    }
}

/// Undoing a change gives the document as it was before, and redoing it gives
/// it as it was after; the history is then what it was.
pub proof fn law_undo_redo(h: HistoryM, before: DocumentM, after: DocumentM)
    ensures
        ({
            let changed = noted(h, before);
            stepped_back(changed, after) matches Some((d, undone)) && d == before && (stepped_forth(
                undone,
                d,
            ) matches Some((e, redone)) && e == after && redone == changed)
        }),
{
    let changed = noted(h, before);
    let undone = HistoryM { done: changed.done.drop_last(), undone: changed.undone.push(after) };
    let redone = HistoryM {
        done: undone.done.push(before),
        undone: undone.undone.drop_last(),
    };
    assert(redone.done =~= changed.done);
    assert(redone.undone =~= changed.undone);
}

/// After a change there is nothing to redo.
pub proof fn law_change_forgets_undone(h: HistoryM, before: DocumentM, after: DocumentM)
    ensures
        stepped_forth(noted(h, before), after) is None,
{
}

} // verus!
