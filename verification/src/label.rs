//! A text label of the user interface.

use vstd::prelude::*;

verus! {

/// A piece of text shown in the user interface.
pub struct Label {
    text: String,
}

impl View for Label {
    type V = Seq<char>;

    closed spec fn view(&self) -> Seq<char> {
        self.text@
    }
}

impl Label {
    pub fn new(text: String) -> (r: Label)
        ensures
            r@ == text@,
    {
        Label { text }
    }

    /// The text of the label.
    pub fn text(&self) -> (r: &String)
        ensures
            r@ == self@,
    {
        &self.text
    }
}

} // verus!
