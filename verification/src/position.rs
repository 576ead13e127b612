//! Lines and columns.
use vstd::prelude::*;

verus! {

/// The byte that ends a line.
pub const NEWLINE: u8 = 0x0a;

/// A place in a text: line and column, both counted from 1.
#[derive(Clone, Copy, Debug, PartialEq, Eq)]
pub struct Pos {
    pub line: usize,
    pub column: usize,
}

/// A place in a text of any length: what a [`Pos`] stands for.
pub struct Cursor {
    pub line: nat,
    pub column: nat,
}

impl View for Pos {
    type V = Cursor;

    open spec fn view(&self) -> Cursor {
        Cursor { line: self.line as nat, column: self.column as nat }
    }
}

impl Pos {
    /// The place at `line` and `column`.
    pub fn new(line: usize, column: usize) -> (pos: Pos)
        ensures
            pos.line == line,
            pos.column == column,
    {
        Pos { line, column }
    }
}

impl Cursor {
    /// Where every text begins.
    pub open spec fn start() -> Cursor {
        Cursor { line: 1, column: 1 }
    }

    /// The place after one more byte: a newline opens the next line at column
    /// 1, any other byte moves one column on.
    pub open spec fn step(self, byte: u8) -> Cursor {
        if byte == NEWLINE {
            Cursor { line: self.line + 1, column: 1 }
        } else {
            Cursor { line: self.line, column: self.column + 1 }
        }
    }

    /// The place after all of `bytes`, taken in order.
    pub open spec fn after(self, bytes: Seq<u8>) -> Cursor
        decreases bytes.len(),
    {
        if bytes.len() == 0 {
            self
        } else {
            self.after(bytes.drop_last()).step(bytes.last())
        }
    }
}

/// Moving over `first` and then over `second` is moving over both at once.
pub proof fn lemma_after_concat(from: Cursor, first: Seq<u8>, second: Seq<u8>)
    ensures
        from.after(first + second) == from.after(first).after(second),
    decreases second.len(),
{
    if second.len() == 0 {
        assert(first + second =~= first);
    } else {
        lemma_after_concat(from, first, second.drop_last());
        assert((first + second).drop_last() =~= first + second.drop_last());
        assert((first + second).last() == second.last());
    }
}

/// Moving over one byte is one step.
pub proof fn lemma_after_one(from: Cursor, byte: u8)
    ensures
        from.after(seq![byte]) == from.step(byte),
{
    let one = seq![byte];
    assert(one.drop_last() =~= Seq::<u8>::empty());
    assert(from.after(one) == from.after(one.drop_last()).step(one.last()));
}

/// Over bytes that hold no newline the line stays and the column grows by
/// their number.
pub proof fn lemma_after_same_line(from: Cursor, bytes: Seq<u8>)
    requires
        forall|i: int| 0 <= i < bytes.len() ==> bytes[i] != NEWLINE,
    ensures
        from.after(bytes) == (Cursor { line: from.line, column: from.column + bytes.len() }),
    decreases bytes.len(),
{
    if bytes.len() > 0 {
        lemma_after_same_line(from, bytes.drop_last());
    }
}

/// A newline puts the cursor at column 1 of the next line, and the bytes
/// behind it are counted from there.
pub proof fn lemma_after_newline(from: Cursor, rest: Seq<u8>)
    ensures
        from.after(seq![NEWLINE] + rest) == (Cursor { line: from.line + 1, column: 1 }).after(rest),
{
    let line = seq![NEWLINE];
    lemma_after_concat(from, line, rest);
    assert(line.drop_last() =~= Seq::<u8>::empty());
    assert(from.after(line) == from.after(line.drop_last()).step(line.last()));
}

} // verus!
