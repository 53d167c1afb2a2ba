//! The unit of text that retrieval works on.

use vstd::prelude::*;

verus! {

/// A piece of text with the path to where it stands.
#[derive(Debug, PartialEq)]
pub struct TextUnit {
    pub id: String,
    pub text: String,
    pub path: Vec<String>,
}

/// What a `TextUnit` holds.
#[verifier::ext_equal]
pub struct TextUnitM {
    pub id: Seq<char>,
    pub text: Seq<char>,
    pub path: Seq<Seq<char>>,
}

impl DeepView for TextUnit {
    type V = TextUnitM;

    open spec fn deep_view(&self) -> TextUnitM {
        TextUnitM {
            id: self.id.deep_view(),
            text: self.text.deep_view(),
            path: self.path.deep_view(),
        }
    }
}

impl Clone for TextUnit {
    fn clone(&self) -> (r: Self)
        ensures
            r.deep_view() == self.deep_view(),
    {
        TextUnit {
            id: self.id.clone(),
            text: self.text.clone(),
            path: self.path.clone(),
        }
    }
}

} // verus!
