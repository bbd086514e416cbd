//! The unit of the corpus.

use vstd::prelude::*;

verus! {

/// An article of the corpus. Nothing is assumed of the identifier: two
/// documents may carry the same one and still count as two.
#[derive(Clone, Debug)]
pub struct Document {
    pub id: i64,
    pub title: String,
    pub url: String,
    pub text: String,
}

/// The text a document is indexed by: its title, a space, its body.
pub open spec fn indexed_text(doc: Document) -> Seq<char> {
    doc.title@ + seq![' '] + doc.text@
}

impl Document {
    /// The text the document is indexed by.
    pub fn full_text(&self) -> (text: String)
        ensures
            text@ == indexed_text(*self),
    {
        let mut text = self.title.clone();
        proof {
            reveal_strlit(" ");
        }
        text.append(" ");
        text.append(self.text.as_str());
        assert(text@ =~= indexed_text(*self));
        text
    }
}

} // verus!
