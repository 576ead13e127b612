//! The document that a parser hands to the generator.
use vstd::prelude::*;

verus! {

/// What an element is marked with.
#[derive(Clone, Debug, PartialEq, Eq)]
pub enum Attribute {
    /// A name under which the element can be referred to.
    Id(String),
    /// A class that the element is styled by.
    Role(String),
}

/// The kinds of inline elements.
#[derive(Clone, Copy, Debug, PartialEq, Eq)]
pub enum Tag {
    Code,
    Em,
    Strong,
    Sub,
    Sup,
}

/// A piece of running text.
#[derive(Debug, PartialEq, Eq)]
pub enum Item {
    /// Highlighted text.
    Mark(Text, Vec<Attribute>),
    /// One space.
    Space,
    /// Text in an inline element.
    Tag(Tag, Text, Vec<Attribute>),
    /// A word.
    Word(String),
}

/// Running text: its pieces in order.
#[derive(Debug, PartialEq, Eq)]
pub struct Text {
    pub items: Vec<Item>,
}

/// A block of the document.
#[derive(Debug, PartialEq, Eq)]
pub enum Node {
    HorizontalRule,
    PageBreak,
    Paragraph(Text),
}

impl Tag {
    /// The name of the HTML element that the tag is written as.
    pub open spec fn name_text(self) -> Seq<char> {
        match self {
            Tag::Code => "code"@,
            Tag::Em => "em"@,
            Tag::Strong => "strong"@,
            Tag::Sub => "sub"@,
            Tag::Sup => "sup"@,
        }
    }

    /// The name of the HTML element that the tag is written as.
    pub fn name(&self) -> (name: &'static str)
        ensures
            name@ == self.name_text(),
    {
        match self {
            Tag::Code => "code",
            Tag::Em => "em",
            Tag::Strong => "strong",
            Tag::Sub => "sub",
            Tag::Sup => "sup",
        }
    }
}

} // verus!
