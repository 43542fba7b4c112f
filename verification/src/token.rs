//! The identity discriminator of a chain node: the start sentinel (`Root`),
//! the end sentinel (`End`), or an interned word (`Value`).

use vstd::prelude::*;

verus! {

/// Mathematical image of a token: the word is abstracted to its character
/// sequence, so that contracts can speak of tokens independently of which
/// `String` allocation carries the text.
pub enum Tok {
    Root,
    Value(Seq<char>),
    End,
}

/// A chain node's identity: start-of-line sentinel, end-of-line sentinel, or
/// a concrete word.
pub enum MarkovToken {
    Root,
    Value(String),
    End,
}

impl View for MarkovToken {
    type V = Tok;

    open spec fn view(&self) -> Tok {
        match self {
            MarkovToken::Root => Tok::Root,
            MarkovToken::Value(w) => Tok::Value(w@),
            MarkovToken::End => Tok::End,
        }
    }
}

impl MarkovToken {
    /// True exactly of the start sentinel.
    pub fn is_root(&self) -> (r: bool)
        ensures
            r == (self@ is Root),
    {
        matches!(self, MarkovToken::Root)
    }

    /// True exactly of the end sentinel.
    pub fn is_end(&self) -> (r: bool)
        ensures
            r == (self@ is End),
    {
        matches!(self, MarkovToken::End)
    }
}

} // verus!
