//! The lexical units of the markup.
use vstd::prelude::*;

verus! {

/// One lexical unit.
#[derive(Clone, Debug, PartialEq, Eq)]
pub enum Token {
    /// The end of a line.
    NewLine,
    /// `#`
    NumberSign,
    /// One space.
    Space,
    /// `'''`
    TripleApos,
    /// `<<<`
    TripleLt,
    /// A run of bytes that holds no delimiter.
    Word(Vec<u8>),
}

/// What a [`Token`] stands for.
pub enum TokenView {
    NewLine,
    NumberSign,
    Space,
    TripleApos,
    TripleLt,
    Word(Seq<u8>),
}

impl View for Token {
    type V = TokenView;

    open spec fn view(&self) -> TokenView {
        match self {
            Token::NewLine => TokenView::NewLine,
            Token::NumberSign => TokenView::NumberSign,
            Token::Space => TokenView::Space,
            Token::TripleApos => TokenView::TripleApos,
            Token::TripleLt => TokenView::TripleLt,
            Token::Word(bytes) => TokenView::Word(bytes@),
        }
    }
}

impl TokenView {
    /// The bytes of the text that the token was read from.
    pub open spec fn bytes(self) -> Seq<u8> {
        match self {
            TokenView::NewLine => seq![0x0au8],
            TokenView::NumberSign => seq![0x23u8],
            TokenView::Space => seq![0x20u8],
            TokenView::TripleApos => seq![0x27u8, 0x27u8, 0x27u8],
            TokenView::TripleLt => seq![0x3cu8, 0x3cu8, 0x3cu8],
            TokenView::Word(bytes) => bytes,
        }
    }
}

} // verus!
