//! Reading tokens from a source of bytes.
use vstd::prelude::*;
use crate::error::Error;
use crate::grammar::behind;
use crate::grammar::block_rest;
use crate::grammar::block_step;
use crate::grammar::closes_block;
use crate::grammar::comment;
use crate::grammar::ending;
use crate::grammar::exactly;
use crate::grammar::in_line;
use crate::grammar::in_word;
use crate::grammar::is_byte;
use crate::grammar::is_delimiter;
use crate::grammar::lemma_advance_twice;
use crate::grammar::lemma_block_rest_step;
use crate::grammar::lemma_comment_used;
use crate::grammar::lemma_lex_used;
use crate::grammar::lemma_repeated_next;
use crate::grammar::lemma_run_len;
use crate::grammar::lemma_run_len_from;
use crate::grammar::lemma_run_len_is;
use crate::grammar::lemma_then;
use crate::grammar::lex;
use crate::grammar::next_line;
use crate::grammar::repeated;
use crate::grammar::run_len;
use crate::grammar::skip_while;
use crate::grammar::slashes;
use crate::grammar::taken;
use crate::grammar::triple;
use crate::grammar::word;
use crate::grammar::Outcome;
use crate::grammar::Pull;
use crate::grammar::Reading;
use crate::grammar::Skip;
use crate::grammar::APOSTROPHE;
use crate::grammar::CARRIAGE_RETURN;
use crate::grammar::LESS_THAN;
use crate::grammar::NUMBER_SIGN;
use crate::grammar::SLASH;
use crate::grammar::SPACE;
use crate::position::lemma_after_one;
use crate::position::Cursor;
use crate::position::Pos;
use crate::position::NEWLINE;
use crate::source::ByteSource;
use crate::token::Token;
use crate::token::TokenView;

verus! {

/// The number of bytes that the lexer asks of its source at a time.
pub const BUFFER_SIZE: usize = 4096;

/// A reader of tokens. It takes the bytes of its source front to back,
/// through a buffer of its own, and knows the line and column of the byte that
/// it will take next.
pub struct Lexer<R: ByteSource> {
    buffer: Vec<u8>,
    buffer_index: usize,
    buffer_size: usize,
    column: usize,
    line: usize,
    reader: R,
}

/// Whether `result` is what `skip` calls for when passing over bytes takes
/// the stream from `before` to `after`. Where the source could not be read,
/// which happens only to a source that is not reliable, nothing is owed but
/// that `after` was reached from `before`.
pub open spec fn skipped(
    result: Result<(), Error>,
    before: Reading,
    after: Reading,
    skip: Skip,
) -> bool {
    match result {
        Ok(()) => {
            &&& skip.failure is None
            &&& skip.used <= before.pending.len()
            &&& after == before.advance(skip.used)
        },
        Err(error) => {
            &&& error.place() == after.place
            &&& if error is Source {
                !before.reliable && after.reached_from(before)
            } else {
                &&& skip.failure == error.outcome()
                &&& skip.used <= before.pending.len()
                &&& after == before.advance(skip.used)
            }
        },
    }
}

/// Whether `result` is what `pull` calls for when a read takes the stream
/// from `before` to `after`. Where the source could not be read, which
/// happens only to a source that is not reliable, nothing is owed but that
/// `after` was reached from `before`.
pub open spec fn pulled(
    result: Result<Token, Error>,
    before: Reading,
    after: Reading,
    pull: Pull,
) -> bool {
    match result {
        Ok(token) => {
            &&& pull.outcome == Outcome::Token(token@)
            &&& pull.used <= before.pending.len()
            &&& after == before.advance(pull.used)
        },
        Err(error) => {
            &&& error.place() == after.place
            &&& if error is Source {
                !before.reliable && after.reached_from(before)
            } else {
                &&& Some(pull.outcome) == error.outcome()
                &&& pull.used <= before.pending.len()
                &&& after == before.advance(pull.used)
            }
        },
    }
}

/// What `tokens` stand for, one by one.
pub open spec fn views(tokens: Seq<Token>) -> Seq<TokenView> {
    tokens.map_values(|token: Token| token@)
}

/// Whether `tokens` and `error` are what reading all the tokens comes to
/// when it takes the stream from `before` to `after`: all the tokens of the
/// stream, and the failure that ends them. Where the source could not be
/// read, which happens only to a source that is not reliable, the tokens are
/// those that were read before.
pub open spec fn pulled_all(
    tokens: Seq<Token>,
    error: Error,
    before: Reading,
    after: Reading,
) -> bool {
    &&& error.place() == after.place
    &&& after.reached_from(before)
    &&& views(tokens).is_prefix_of(crate::grammar::tokens(before.pending))
    &&& if error is Source {
        !before.reliable
    } else {
        &&& views(tokens) == crate::grammar::tokens(before.pending)
        &&& error.outcome() == Some(ending(before.pending))
        &&& after == before.advance(taken(before.pending))
    }
}

/// Whether `byte` ends a word.
pub fn ends_word(byte: u8) -> (ends: bool)
    ensures
        ends == is_delimiter(byte),
{
    byte == SPACE || byte == 0x2a || byte == 0x5f || byte == 0x60 || byte == NUMBER_SIGN || byte
        == 0x5b || byte == 0x5e || byte == 0x7e || byte == 0x3a || byte == NEWLINE || byte
        == CARRIAGE_RETURN || byte == 0x09
}

/// Whether `byte` leaves the line open.
pub fn within_line(byte: u8) -> (within: bool)
    ensures
        within == (byte != NEWLINE),
{
    byte != NEWLINE
}

impl<R: ByteSource> View for Lexer<R> {
    type V = Reading;

    /// The bytes that are still to be read, those in the buffer first, and
    /// the place of the first of them.
    closed spec fn view(&self) -> Reading {
        Reading {
            pending: self.buffered() + self.reader.remaining(),
            place: Cursor { line: self.line as nat, column: self.column as nat },
            reliable: self.reader.reliable(),
        }
    }
}

impl<R: ByteSource> Lexer<R> {
    /// The bytes in the buffer that have not been read.
    spec fn buffered(&self) -> Seq<u8> {
        if self.has_byte() {
            self.buffer@.subrange(self.buffer_index as int, self.buffer_size as int)
        } else {
            Seq::empty()
        }
    }

    /// Whether the buffer holds a byte that has not been read.
    spec fn has_byte(&self) -> bool {
        self.buffer_index < self.buffer_size
    }

    /// What holds of every lexer: its buffer has its size, line and column
    /// are counted from 1, and both can be counted on to the end of the
    /// source.
    pub closed spec fn wf(&self) -> bool {
        &&& self.buffer.len() == BUFFER_SIZE
        &&& self.buffer_size <= BUFFER_SIZE
        &&& 1 <= self.line
        &&& 1 <= self.column
        &&& self.line + self@.pending.len() <= usize::MAX
        &&& self.column + self@.pending.len() <= usize::MAX
    }

    /// A lexer at the beginning of what `reader` will hand out. The source
    /// must be short enough for its lines and columns to be counted.
    pub fn new(reader: R) -> (lexer: Self)
        requires
            reader.remaining().len() < usize::MAX,
        ensures
            lexer.wf(),
            lexer@ == (Reading {
                pending: reader.remaining(),
                place: Cursor::start(),
                reliable: reader.reliable(),
            }),
    {
        let lexer = Lexer {
            buffer: vec![0u8; BUFFER_SIZE],
            buffer_index: BUFFER_SIZE,
            buffer_size: 0,
            column: 1,
            line: 1,
            reader,
        };
        assert(lexer@.pending =~= lexer.reader.remaining());
        lexer
    }

    /// Takes the byte `actual`, which is the next one, and moves the cursor
    /// over it.
    fn advance(&mut self, actual: u8)
        requires
            old(self).wf(),
            old(self).has_byte(),
            actual == old(self)@.pending[0],
        ensures
            final(self).wf(),
            old(self)@.pending.len() >= 1,
            final(self)@ == old(self)@.advance(1),
    {
        proof {
            assert(self.buffered().len() > 0);
            assert(self@.pending.take(1) =~= seq![actual]);
            lemma_after_one(self@.place, actual);
        }
        self.buffer_index += 1;
        if actual == NEWLINE {
            self.line += 1;
            self.column = 1;
        } else {
            self.column += 1;
        }
        proof {
            assert(self@.pending =~= old(self)@.pending.skip(1));
        }
    }

    /// Passes over the rest of the line. The newline stays.
    fn advance_to_eol(&mut self) -> (r: Result<(), Error>)
        requires
            old(self).wf(),
        ensures
            final(self).wf(),
            skipped(r, old(self)@, final(self)@, skip_while(old(self)@.pending, in_line())),
    {
        self.advance_while(within_line, Ghost(in_line()))
    }

    /// Passes over bytes as long as `predicate` holds of them. `keep` is
    /// what `predicate` computes.
    fn advance_while<F: Fn(u8) -> bool>(&mut self, predicate: F, Ghost(keep): Ghost<
        spec_fn(u8) -> bool,
    >) -> (r: Result<(), Error>)
        requires
            old(self).wf(),
            forall|byte: u8| call_requires(predicate, (byte,)),
            forall|byte: u8, kept: bool|
                call_ensures(predicate, (byte,), kept) ==> kept == keep(byte),
        ensures
            final(self).wf(),
            skipped(r, old(self)@, final(self)@, skip_while(old(self)@.pending, keep)),
    {
        let ghost start = self@;
        let ghost mut used: nat = 0;
        proof {
            lemma_advance_twice(start, 0, 0);
        }
        loop
            invariant
                self.wf(),
                start == old(self)@,
                used <= start.pending.len(),
                self@ == start.advance(used),
                forall|i: int| 0 <= i < used ==> keep(#[trigger] start.pending[i]),
                forall|byte: u8| call_requires(predicate, (byte,)),
                forall|byte: u8, kept: bool|
                    call_ensures(predicate, (byte,), kept) ==> kept == keep(byte),
            decreases self@.pending.len(),
        {
            proof {
                lemma_then(start, used);
            }
            match self.current_char() {
                Ok(actual) => {
                    if !predicate(actual) {
                        proof {
                            lemma_run_len_is(start.pending, keep, used);
                        }
                        return Ok(());
                    }
                    self.advance(actual);
                    proof {
                        used = used + 1;
                    }
                },
                Err(error) => {
                    proof {
                        if error is Eof {
                            lemma_run_len_is(start.pending, keep, used);
                        }
                    }
                    return Err(error);
                },
            }
        }
    }

    /// At the beginning of a line within a block comment: takes the slashes
    /// at its front, four at most, and says whether the line is the one that
    /// closes the comment.
    fn closing_line(&mut self) -> (r: Result<bool, Error>)
        requires
            old(self).wf(),
        ensures
            final(self).wf(),
            match r {
                Ok(closes) => {
                    &&& closes == closes_block(old(self)@.pending)
                    &&& slashes(old(self)@.pending) < old(self)@.pending.len()
                    &&& final(self)@ == old(self)@.advance(slashes(old(self)@.pending))
                    &&& closes ==> slashes(old(self)@.pending) == 4
                },
                Err(error) => {
                    &&& error.place() == final(self)@.place
                    &&& error is Eof || error is Source
                    &&& error is Source ==> !final(self)@.reliable && final(self)@.reached_from(
                        old(self)@,
                    )
                    &&& error is Eof ==> {
                        &&& slashes(old(self)@.pending) == old(self)@.pending.len()
                        &&& final(self)@ == old(self)@.advance(slashes(old(self)@.pending))
                    }
                },
            },
    {
        let ghost start = self@;
        let mut count: usize = 0;
        proof {
            lemma_advance_twice(start, 0, 0);
            lemma_run_len(start.pending, is_byte(SLASH));
        }
        while count < 4
            invariant
                self.wf(),
                start == old(self)@,
                count <= 4,
                count <= start.pending.len(),
                self@ == start.advance(count as nat),
                forall|i: int| 0 <= i < count ==> #[trigger] start.pending[i] == SLASH,
            decreases 4 - count,
        {
            proof {
                lemma_then(start, count as nat);
            }
            match self.current_char() {
                Ok(actual) => {
                    if actual != SLASH {
                        proof {
                            lemma_run_len_is(start.pending, is_byte(SLASH), count as nat);
                        }
                        return Ok(false);
                    }
                    self.advance(actual);
                    count += 1;
                },
                Err(error) => {
                    proof {
                        if error is Eof {
                            lemma_run_len_is(start.pending, is_byte(SLASH), count as nat);
                        }
                    }
                    return Err(error);
                },
            }
        }
        proof {
            lemma_then(start, 4);
            lemma_run_len_from(start.pending, is_byte(SLASH), 4);
        }
        match self.current_char() {
            Ok(actual) => Ok(actual == NEWLINE),
            Err(error) => Err(error),
        }
    }

    /// From within a line of a block comment: passes over the rest of the
    /// line, its newline and the slashes at the front of the next line, and
    /// says whether that line closes the comment.
    fn next_block_line(&mut self) -> (r: Result<bool, Error>)
        requires
            old(self).wf(),
        ensures
            final(self).wf(),
            match r {
                Ok(closes) => {
                    &&& run_len(old(self)@.pending, in_line()) < old(self)@.pending.len()
                    &&& block_step(old(self)@.pending) < old(self)@.pending.len()
                    &&& closes == closes_block(next_line(old(self)@.pending))
                    &&& final(self)@ == old(self)@.advance(block_step(old(self)@.pending))
                },
                Err(error) => skipped(
                    Err(error),
                    old(self)@,
                    final(self)@,
                    block_rest(old(self)@.pending),
                ),
            },
    {
        let ghost start = self@;
        let ghost run = run_len(start.pending, in_line());
        let ghost next = next_line(start.pending);
        proof {
            lemma_then(start, 0);
            lemma_run_len(start.pending, in_line());
        }
        self.advance_to_eol()?;
        proof {
            lemma_then(start, run);
            assert(self@.pending[0] == start.pending[run as int]);
        }
        self.eat(NEWLINE)?;
        proof {
            lemma_then(start, run + 1);
            assert(self@.pending =~= next);
            lemma_run_len(next, is_byte(SLASH));
            if slashes(next) == next.len() {
                assert forall|i: int| 0 <= i < next.len() implies #[trigger] next[i]
                    != NEWLINE by {
                    assert(is_byte(SLASH)(next[i]));
                }
                lemma_run_len_is(next, in_line(), next.len());
                assert(block_rest(next) == (Skip {
                    failure: Some(Outcome::Eof),
                    used: next.len(),
                }));
                assert(!closes_block(next));
                assert(block_rest(start.pending) == (Skip {
                    failure: Some(Outcome::Eof),
                    used: run + 1 + next.len(),
                }));
            }
        }
        self.closing_line()
    }

    /// Passes over what is left of a block comment, from within one of its
    /// lines to the end of the line of four slashes that closes it.
    fn block_rest(&mut self) -> (r: Result<(), Error>)
        requires
            old(self).wf(),
        ensures
            final(self).wf(),
            skipped(r, old(self)@, final(self)@, block_rest(old(self)@.pending)),
    {
        let ghost start = self@;
        let ghost mut used: nat = 0;
        proof {
            lemma_then(start, 0);
        }
        loop
            invariant
                self.wf(),
                start == old(self)@,
                used <= start.pending.len(),
                self@ == start.advance(used),
                block_rest(start.pending) == behind(used, block_rest(self@.pending)),
            decreases self@.pending.len(),
        {
            let ghost line = self@;
            proof {
                lemma_then(start, used);
            }
            match self.next_block_line() {
                Ok(closes) => {
                    proof {
                        lemma_block_rest_step(line.pending);
                    }
                    if closes {
                        return Ok(());
                    }
                    proof {
                        used = used + block_step(line.pending);
                    }
                },
                Err(error) => {
                    return Err(error);
                },
            }
        }
    }

    /// Passes over a comment, which two slashes open. The newline behind it
    /// stays.
    fn comment(&mut self) -> (r: Result<(), Error>)
        requires
            old(self).wf(),
        ensures
            final(self).wf(),
            skipped(r, old(self)@, final(self)@, comment(old(self)@.pending)),
    {
        let ghost start = self@;
        proof {
            lemma_then(start, 0);
        }
        self.eat(SLASH)?;
        proof {
            lemma_repeated_next(start.pending, SLASH, 1);
            lemma_then(start, 1);
        }
        self.eat(SLASH)?;
        proof {
            lemma_then(start, 2);
        }
        let third = self.current_char()?;
        if third == SLASH {
            proof {
                lemma_then(start, 3);
            }
            self.advance(third);
            self.block_rest()
        } else {
            self.advance_to_eol()
        }
    }

    /// The next byte. It stays in the stream.
    fn current_char(&mut self) -> (r: Result<u8, Error>)
        requires
            old(self).wf(),
        ensures
            final(self).wf(),
            final(self)@ == old(self)@,
            match r {
                Ok(byte) => {
                    &&& final(self).has_byte()
                    &&& final(self)@.pending.len() > 0
                    &&& byte == final(self)@.pending[0]
                },
                Err(error) => {
                    &&& error.place() == final(self)@.place
                    &&& error is Eof || error is Source
                    &&& error is Source ==> !final(self)@.reliable
                    &&& error is Eof ==> final(self)@.pending.len() == 0
                },
            },
    {
        self.read_if_needed()?;
        Ok(self.buffer[self.buffer_index])
    }

    /// Takes the next byte if it is `expected`, and fails if it is not.
    fn eat(&mut self, expected: u8) -> (r: Result<(), Error>)
        requires
            old(self).wf(),
        ensures
            final(self).wf(),
            skipped(r, old(self)@, final(self)@, repeated(old(self)@.pending, expected, 1)),
    {
        proof {
            lemma_advance_twice(self@, 0, 0);
        }
        let actual = self.current_char()?;
        if actual == expected {
            self.advance(actual);
            Ok(())
        } else {
            Err(Error::UnexpectedChar { actual, expected, pos: self.pos() })
        }
    }

    /// Reads the end of a line.
    fn newline(&mut self) -> (r: Result<Token, Error>)
        requires
            old(self).wf(),
        ensures
            final(self).wf(),
            pulled(
                r,
                old(self)@,
                final(self)@,
                exactly(old(self)@.pending, NEWLINE, 1, TokenView::NewLine),
            ),
    {
        self.eat(NEWLINE)?;
        Ok(Token::NewLine)
    }

    /// Reads a number sign.
    fn number_sign(&mut self) -> (r: Result<Token, Error>)
        requires
            old(self).wf(),
        ensures
            final(self).wf(),
            pulled(
                r,
                old(self)@,
                final(self)@,
                exactly(old(self)@.pending, NUMBER_SIGN, 1, TokenView::NumberSign),
            ),
    {
        self.eat(NUMBER_SIGN)?;
        Ok(Token::NumberSign)
    }

    /// The place of the byte that will be read next.
    pub fn pos(&self) -> (pos: Pos)
        ensures
            pos@ == self@.place,
    {
        Pos::new(self.line, self.column)
    }

    /// Fills the buffer from the source if all of it has been read.
    fn read_if_needed(&mut self) -> (r: Result<(), Error>)
        requires
            old(self).wf(),
        ensures
            final(self).wf(),
            final(self)@ == old(self)@,
            match r {
                Ok(()) => final(self).has_byte(),
                Err(error) => {
                    &&& error.place() == final(self)@.place
                    &&& error is Eof || error is Source
                    &&& error is Source ==> !final(self)@.reliable
                    &&& error is Eof ==> final(self)@.pending.len() == 0
                },
            },
    {
        if self.buffer_index >= self.buffer_size {
            let ghost before = self.reader.remaining();
            assert(self@.pending =~= before);
            match self.reader.read(&mut self.buffer) {
                Ok(count) => {
                    self.buffer_size = count;
                    if count == 0 {
                        assert(self@.pending =~= before);
                        return Err(Error::Eof { pos: self.pos() });
                    }
                    self.buffer_index = 0;
                    assert(self.buffered() =~= self.buffer@.take(count as int));
                    assert(self@.pending =~= before);
                },
                Err(failure) => {
                    assert(self@.pending =~= before);
                    return Err(Error::Source { failure, pos: self.pos() });
                },
            }
        }
        Ok(())
    }

    /// Reads a space.
    fn space(&mut self) -> (r: Result<Token, Error>)
        requires
            old(self).wf(),
        ensures
            final(self).wf(),
            pulled(
                r,
                old(self)@,
                final(self)@,
                exactly(old(self)@.pending, SPACE, 1, TokenView::Space),
            ),
    {
        self.eat(SPACE)?;
        Ok(Token::Space)
    }

    /// Reads the next token. What it is, and how many bytes it takes, is
    /// what [`lex`] says of the bytes that are still to be read; the cursor
    /// moves over the bytes taken. At the end of the source the result is
    /// [`Error::Eof`].
    pub fn token(&mut self) -> (r: Result<Token, Error>)
        requires
            old(self).wf(),
        ensures
            final(self).wf(),
            pulled(r, old(self)@, final(self)@, lex(old(self)@.pending)),
        decreases old(self)@.pending.len(),
    {
        let ghost start = self@;
        proof {
            lemma_then(start, 0);
        }
        let actual = self.current_char()?;
        if actual == SLASH {
            proof {
                lemma_comment_used(start.pending);
                lemma_then(start, comment(start.pending).used);
            }
            self.comment()?;
            self.token()
        } else if actual == LESS_THAN {
            self.triple_lt()
        } else if actual == APOSTROPHE {
            self.triple_apos()
        } else if actual == NEWLINE {
            self.newline()
        } else if actual == CARRIAGE_RETURN {
            proof {
                lemma_then(start, 1);
            }
            self.advance(actual);
            self.token()
        } else if actual == NUMBER_SIGN {
            self.number_sign()
        } else if actual == SPACE {
            self.space()
        } else {
            self.word()
        }
    }

    /// Reads three apostrophes.
    #[verifier::rlimit(40)]
    fn triple_apos(&mut self) -> (r: Result<Token, Error>)
        requires
            old(self).wf(),
        ensures
            final(self).wf(),
            pulled(
                r,
                old(self)@,
                final(self)@,
                triple(old(self)@.pending, APOSTROPHE, TokenView::TripleApos),
            ),
    {
        let ghost start = self@;
        proof {
            lemma_then(start, 0);
        }
        self.eat(APOSTROPHE)?;
        proof {
            lemma_repeated_next(start.pending, APOSTROPHE, 2);
            lemma_then(start, 1);
        }
        self.eat(APOSTROPHE)?;
        proof {
            lemma_repeated_next(start.pending.skip(1), APOSTROPHE, 1);
            lemma_then(start, 2);
        }
        self.eat(APOSTROPHE)?;
        Ok(Token::TripleApos)
    }

    /// Reads three times `<`.
    #[verifier::rlimit(40)]
    fn triple_lt(&mut self) -> (r: Result<Token, Error>)
        requires
            old(self).wf(),
        ensures
            final(self).wf(),
            pulled(
                r,
                old(self)@,
                final(self)@,
                triple(old(self)@.pending, LESS_THAN, TokenView::TripleLt),
            ),
    {
        let ghost start = self@;
        proof {
            lemma_then(start, 0);
        }
        self.eat(LESS_THAN)?;
        proof {
            lemma_repeated_next(start.pending, LESS_THAN, 2);
            lemma_then(start, 1);
        }
        self.eat(LESS_THAN)?;
        proof {
            lemma_repeated_next(start.pending.skip(1), LESS_THAN, 1);
            lemma_then(start, 2);
        }
        self.eat(LESS_THAN)?;
        Ok(Token::TripleLt)
    }

    /// Reads a word: the bytes up to the next delimiter or the end of the
    /// source.
    fn word(&mut self) -> (r: Result<Token, Error>)
        requires
            old(self).wf(),
            old(self)@.pending.len() > 0,
        ensures
            final(self).wf(),
            pulled(r, old(self)@, final(self)@, word(old(self)@.pending)),
    {
        let ghost start = self@;
        let mut bytes: Vec<u8> = Vec::new();
        proof {
            lemma_advance_twice(start, 0, 0);
            assert(bytes@ =~= start.pending.take(0));
        }
        loop
            invariant
                self.wf(),
                start == old(self)@,
                start.pending.len() > 0,
                bytes.len() <= start.pending.len(),
                bytes@ == start.pending.take(bytes.len() as int),
                self@ == start.advance(bytes.len() as nat),
                forall|i: int| 0 <= i < bytes.len() ==> !is_delimiter(#[trigger] start.pending[i]),
            decreases self@.pending.len(),
        {
            proof {
                lemma_then(start, bytes.len() as nat);
            }
            match self.current_char() {
                Ok(actual) => {
                    if ends_word(actual) {
                        proof {
                            lemma_run_len_is(start.pending, in_word(), bytes.len() as nat);
                        }
                        if bytes.len() == 0 {
                            return Err(Error::InvalidWordStart { actual, pos: self.pos() });
                        }
                        return Ok(Token::Word(bytes));
                    }
                    bytes.push(actual);
                    self.advance(actual);
                    proof {
                        assert(bytes@ =~= start.pending.take(bytes.len() as int));
                    }
                },
                Err(error) => {
                    if error.is_eof() && bytes.len() > 0 {
                        proof {
                            lemma_run_len_is(start.pending, in_word(), bytes.len() as nat);
                        }
                        return Ok(Token::Word(bytes));
                    }
                    return Err(error);
                },
            }
        }
    }

    /// Reads tokens up to the end of the source or the first failure, and
    /// returns them with what ended the reading.
    pub fn tokens(&mut self) -> (r: (Vec<Token>, Error))
        requires
            old(self).wf(),
        ensures
            final(self).wf(),
            pulled_all(r.0@, r.1, old(self)@, final(self)@),
    {
        let ghost start = self@;
        let ghost mut used: nat = 0;
        let mut read: Vec<Token> = Vec::new();
        proof {
            lemma_then(start, 0);
            assert(views(read@) + crate::grammar::tokens(start.pending)
                =~= crate::grammar::tokens(start.pending));
        }
        loop
            invariant
                self.wf(),
                start == old(self)@,
                used <= start.pending.len(),
                self@ == start.advance(used),
                crate::grammar::tokens(start.pending) == views(read@) + crate::grammar::tokens(
                    self@.pending,
                ),
                ending(start.pending) == ending(self@.pending),
                taken(start.pending) == used + taken(self@.pending),
            decreases self@.pending.len(),
        {
            let ghost now = self@;
            let ghost rest = crate::grammar::tokens(now.pending);
            proof {
                lemma_then(start, used);
                lemma_lex_used(now.pending);
                assert((views(read@) + rest).subrange(0, read@.len() as int) =~= views(read@));
            }
            match self.token() {
                Ok(token) => {
                    proof {
                        used = used + lex(now.pending).used;
                        assert(views(read@.push(token)) =~= views(read@).push(token@));
                        assert(views(read@) + rest =~= views(read@).push(token@)
                            + crate::grammar::tokens(self@.pending));
                    }
                    read.push(token);
                },
                Err(error) => {
                    proof {
                        if !(error is Source) {
                            assert(views(read@) + rest =~= views(read@));
                        }
                    }
                    return (read, error);
                },
            }
        }
    }

    /// Reads the next token, as [`Lexer::token`] does. There is always a
    /// next result: at the end of the source it is [`Error::Eof`].
    pub fn next(&mut self) -> (r: Option<Result<Token, Error>>)
        requires
            old(self).wf(),
        ensures
            final(self).wf(),
            r matches Some(result) && pulled(
                result,
                old(self)@,
                final(self)@,
                lex(old(self)@.pending),
            ),
    {
        Some(self.token())
    }
}

} // verus!
