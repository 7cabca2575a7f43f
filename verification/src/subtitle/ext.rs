//! Tokenized access to a subtitle's text.

use vstd::prelude::*;

use crate::subtitle::Subtitle;
use crate::tokenize::{cat_tokens, spec_tokens, token_models, tokenize, Token};

verus! {

/// Access to the words and whitespace runs of a subtitle's text, in order
/// and without loss: concatenating the returned tokens reproduces the text.
pub trait SubtitleExt {
    /// The characters of the text being tokenized.
    spec fn text_view(&self) -> Seq<char>;

    /// All the words and whitespace runs of the text, in order.  For
    /// example, `"  This is  some text. "` yields the fragments `"  "`,
    /// `"This"`, `" "`, `"is"`, `"  "`, `"some"`, `" "`, `"text."`, `" "`.
    fn words_and_spaces(&self) -> (r: Vec<Token>)
        ensures
            token_models(r@) == spec_tokens(self.text_view()),
            cat_tokens(token_models(r@)) == self.text_view(),
    ;
}

impl SubtitleExt for Subtitle {
    open spec fn text_view(&self) -> Seq<char> {
        self.text@
    }

    fn words_and_spaces(&self) -> (r: Vec<Token>) {
        tokenize(self.text.as_str())
    }
}

} // verus!
