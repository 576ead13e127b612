//! What reading tokens from a stream of bytes comes to.
//!
//! Everything here is mathematics: the functions say, for any sequence of
//! bytes, which token stands at its front, how many bytes that token takes
//! and where the cursor then is. The lexer is proved against them.
use vstd::prelude::*;
use crate::position::Cursor;
use crate::position::NEWLINE;
use crate::token::TokenView;

verus! {

/// `/`
pub const SLASH: u8 = 0x2f;

/// `<`
pub const LESS_THAN: u8 = 0x3c;

/// `'`
pub const APOSTROPHE: u8 = 0x27;

/// The carriage return.
pub const CARRIAGE_RETURN: u8 = 0x0d;

/// `#`
pub const NUMBER_SIGN: u8 = 0x23;

/// The space.
pub const SPACE: u8 = 0x20;

/// Whether `byte` ends a word: a space, one of ``* _ ` # [ ^ ~ :``, a
/// newline, a carriage return or a tab.
pub open spec fn is_delimiter(byte: u8) -> bool {
    ||| byte == SPACE
    ||| byte == 0x2a
    ||| byte == 0x5f
    ||| byte == 0x60
    ||| byte == NUMBER_SIGN
    ||| byte == 0x5b
    ||| byte == 0x5e
    ||| byte == 0x7e
    ||| byte == 0x3a
    ||| byte == NEWLINE
    ||| byte == CARRIAGE_RETURN
    ||| byte == 0x09
}

/// The bytes that may stand in a word.
pub open spec fn in_word() -> spec_fn(u8) -> bool {
    |byte: u8| !is_delimiter(byte)
}

/// The bytes that do not end a line.
pub open spec fn in_line() -> spec_fn(u8) -> bool {
    |byte: u8| byte != NEWLINE
}

/// The one byte `wanted`.
pub open spec fn is_byte(wanted: u8) -> spec_fn(u8) -> bool {
    |byte: u8| byte == wanted
}

/// The length of the longest run at the front of `s` whose bytes all meet
/// `keep`.
pub open spec fn run_len(s: Seq<u8>, keep: spec_fn(u8) -> bool) -> nat
    decreases s.len(),
{
    if s.len() > 0 && keep(s[0]) {
        1 + run_len(s.skip(1), keep)
    } else {
        0
    }
}

/// How an attempt to read a token ends.
pub enum Outcome {
    /// With a token.
    Token(TokenView),
    /// At the end of the stream.
    Eof,
    /// At `actual`, where only `expected` can stand.
    UnexpectedChar { actual: u8, expected: u8 },
    /// At `actual`, where a word was to begin.
    InvalidWordStart { actual: u8 },
}

/// One attempt to read a token: how it ends, and the number of bytes that it
/// takes from the stream.
pub struct Pull {
    pub outcome: Outcome,
    pub used: nat,
}

/// One attempt to pass over bytes: the failure that stops it, if any, and
/// the number of bytes that it takes from the stream.
pub struct Skip {
    pub failure: Option<Outcome>,
    pub used: nat,
}

/// A stream that is being read: the bytes still ahead, the place of the
/// first of them, and whether the source they come from never fails.
pub struct Reading {
    pub pending: Seq<u8>,
    pub place: Cursor,
    pub reliable: bool,
}

impl Reading {
    /// The stream after `used` more bytes have been taken from it.
    pub open spec fn advance(self, used: nat) -> Reading {
        Reading {
            pending: self.pending.skip(used as int),
            place: self.place.after(self.pending.take(used as int)),
            reliable: self.reliable,
        }
    }

    /// Whether the stream is what `before` becomes once some of its bytes
    /// have been taken.
    pub open spec fn reached_from(self, before: Reading) -> bool {
        &&& self.pending.len() <= before.pending.len()
        &&& self == before.advance((before.pending.len() - self.pending.len()) as nat)
    }
}

/// Why a demand for `expected` at index `at` of `s` is not met.
pub open spec fn mismatch(s: Seq<u8>, at: nat, expected: u8) -> Outcome {
    if at < s.len() {
        Outcome::UnexpectedChar { actual: s[at as int], expected }
    } else {
        Outcome::Eof
    }
}

/// Passing over `count` bytes that must all be `wanted`: it stops at the
/// first byte that is another, or at the end of the stream.
pub open spec fn repeated(s: Seq<u8>, wanted: u8, count: nat) -> Skip {
    let run = run_len(s, is_byte(wanted));
    if run >= count {
        Skip { failure: None, used: count }
    } else {
        Skip { failure: Some(mismatch(s, run, wanted)), used: run }
    }
}

/// Reading the token that is `count` times `wanted`.
pub open spec fn exactly(s: Seq<u8>, wanted: u8, count: nat, token: TokenView) -> Pull {
    let demand = repeated(s, wanted, count);
    Pull {
        outcome: match demand.failure {
            Some(failure) => failure,
            None => Outcome::Token(token),
        },
        used: demand.used,
    }
}

/// Reading the token that is three times `wanted`.
pub open spec fn triple(s: Seq<u8>, wanted: u8, token: TokenView) -> Pull {
    exactly(s, wanted, 3, token)
}

/// Passing over the longest run of bytes that meet `keep`. The byte that
/// ends the run stays in the stream; a stream that ends first is a failure.
pub open spec fn skip_while(s: Seq<u8>, keep: spec_fn(u8) -> bool) -> Skip {
    let run = run_len(s, keep);
    Skip { failure: if run < s.len() { None } else { Some(Outcome::Eof) }, used: run }
}

/// Whether `line` begins with the line of four slashes that closes a block
/// comment.
pub open spec fn closes_block(line: Seq<u8>) -> bool {
    &&& line.len() >= 5
    &&& line[0] == SLASH
    &&& line[1] == SLASH
    &&& line[2] == SLASH
    &&& line[3] == SLASH
    &&& line[4] == NEWLINE
}

/// Passing over the rest of a block comment, from within one of its lines:
/// up to the end of the closing line, whose newline stays in the stream.
pub open spec fn block_rest(s: Seq<u8>) -> Skip
    decreases s.len(),
{
    let run = run_len(s, in_line());
    if run >= s.len() {
        Skip { failure: Some(Outcome::Eof), used: run }
    } else {
        let next = s.skip(run + 1 as int);
        if closes_block(next) {
            Skip { failure: None, used: run + 5 }
        } else {
            let rest = block_rest(next);
            Skip { failure: rest.failure, used: run + 1 + rest.used }
        }
    }
}

/// Passing over the comment at the front of `s`. Two slashes open a comment
/// that runs to the end of the line; a third slash makes it a block comment,
/// which runs to the next line that is four slashes and nothing else. The
/// newline that follows either kind stays in the stream.
pub open spec fn comment(s: Seq<u8>) -> Skip {
    let opening = repeated(s, SLASH, 2);
    if opening.failure is Some {
        opening
    } else if s.len() > 2 && s[2] == SLASH {
        let rest = block_rest(s.skip(3));
        Skip { failure: rest.failure, used: 3 + rest.used }
    } else {
        let rest = skip_while(s.skip(2), in_line());
        Skip { failure: rest.failure, used: 2 + rest.used }
    }
}

/// Reading the word at the front of `s`: its longest run of bytes that are
/// no delimiters. No word is empty.
pub open spec fn word(s: Seq<u8>) -> Pull {
    let run = run_len(s, in_word());
    if run == 0 {
        Pull { outcome: Outcome::InvalidWordStart { actual: s[0] }, used: 0 }
    } else {
        Pull { outcome: Outcome::Token(TokenView::Word(s.take(run as int))), used: run }
    }
}

/// `skip`, made after `used` bytes were passed over.
pub open spec fn behind(used: nat, skip: Skip) -> Skip {
    Skip { failure: skip.failure, used: used + skip.used }
}

/// The number of slashes at the front of `s`, as far as a closing line has
/// them: four at most.
pub open spec fn slashes(s: Seq<u8>) -> nat {
    let run = run_len(s, is_byte(SLASH));
    if run < 4 {
        run
    } else {
        4
    }
}

/// The line behind the one that `s` begins in.
pub open spec fn next_line(s: Seq<u8>) -> Seq<u8> {
    s.skip(run_len(s, in_line()) + 1 as int)
}

/// The number of bytes from within a line of a block comment up to where
/// the next line shows whether it closes the comment: the rest of the line,
/// its newline, and the slashes at the front of the next line.
pub open spec fn block_step(s: Seq<u8>) -> nat {
    run_len(s, in_line()) + 1 + slashes(next_line(s))
}

/// `pull`, made after `used` bytes were passed over.
pub open spec fn later(used: nat, pull: Pull) -> Pull {
    Pull { outcome: pull.outcome, used: used + pull.used }
}

/// Reading one token from the front of `s`. The first byte decides: a slash
/// opens a comment, which is passed over; `<` and `'` must come three times;
/// a carriage return is passed over; newline, `#` and space are tokens of
/// their own; anything else begins a word.
pub open spec fn lex(s: Seq<u8>) -> Pull
    decreases s.len(),
{
    if s.len() == 0 {
        Pull { outcome: Outcome::Eof, used: 0 }
    } else if s[0] == SLASH {
        let skipped = comment(s);
        match skipped.failure {
            Some(failure) => Pull { outcome: failure, used: skipped.used },
            None => {
                proof {
                    lemma_comment_used(s);
                }
                later(skipped.used, lex(s.skip(skipped.used as int)))
            },
        }
    } else if s[0] == LESS_THAN {
        triple(s, LESS_THAN, TokenView::TripleLt)
    } else if s[0] == APOSTROPHE {
        triple(s, APOSTROPHE, TokenView::TripleApos)
    } else if s[0] == NEWLINE {
        Pull { outcome: Outcome::Token(TokenView::NewLine), used: 1 }
    } else if s[0] == CARRIAGE_RETURN {
        later(1, lex(s.skip(1)))
    } else if s[0] == NUMBER_SIGN {
        Pull { outcome: Outcome::Token(TokenView::NumberSign), used: 1 }
    } else if s[0] == SPACE {
        Pull { outcome: Outcome::Token(TokenView::Space), used: 1 }
    } else {
        word(s)
    }
}

/// The number of bytes at the front of `s` that a read passes over before
/// its token begins: comments and carriage returns.
pub open spec fn ignored(s: Seq<u8>) -> nat
    decreases s.len(),
{
    if s.len() > 0 && s[0] == CARRIAGE_RETURN {
        1 + ignored(s.skip(1))
    } else if s.len() > 0 && s[0] == SLASH && comment(s).failure is None {
        proof {
            lemma_comment_used(s);
        }
        comment(s).used + ignored(s.skip(comment(s).used as int))
    } else {
        0
    }
}

/// The tokens read from `s`, one after the other, up to the end of the
/// stream or the first failure.
pub open spec fn tokens(s: Seq<u8>) -> Seq<TokenView>
    decreases s.len(),
{
    let pull = lex(s);
    match pull.outcome {
        Outcome::Token(token) => {
            proof {
                lemma_lex_used(s);
            }
            seq![token] + tokens(s.skip(pull.used as int))
        },
        _ => Seq::empty(),
    }
}

/// How reading all the tokens of `s` ends: at the end of the stream, or
/// with the first failure.
pub open spec fn ending(s: Seq<u8>) -> Outcome
    decreases s.len(),
{
    let pull = lex(s);
    match pull.outcome {
        Outcome::Token(_) => {
            proof {
                lemma_lex_used(s);
            }
            ending(s.skip(pull.used as int))
        },
        other => other,
    }
}

/// The number of bytes that reading all the tokens of `s` takes: the bytes
/// of the tokens, those that are passed over, and those that the read which
/// ends in no token takes.
pub open spec fn taken(s: Seq<u8>) -> nat
    decreases s.len(),
{
    let pull = lex(s);
    match pull.outcome {
        Outcome::Token(_) => {
            proof {
                lemma_lex_used(s);
            }
            pull.used + taken(s.skip(pull.used as int))
        },
        _ => pull.used,
    }
}

/// `s` without the comments and carriage returns that reading passes over,
/// as far as tokens are read from it.
pub open spec fn text(s: Seq<u8>) -> Seq<u8>
    decreases s.len(),
{
    let pull = lex(s);
    match pull.outcome {
        Outcome::Token(_) => {
            proof {
                lemma_lex_used(s);
            }
            s.subrange(ignored(s) as int, pull.used as int) + text(s.skip(pull.used as int))
        },
        _ => Seq::empty(),
    }
}

/// The bytes of all of `tokens`, in order.
pub open spec fn spelled(tokens: Seq<TokenView>) -> Seq<u8>
    decreases tokens.len(),
{
    if tokens.len() == 0 {
        Seq::empty()
    } else {
        tokens[0].bytes() + spelled(tokens.skip(1))
    }
}

/// A run is no longer than the stream, every byte of it meets `keep`, and
/// the byte behind it, if there is one, does not.
pub proof fn lemma_run_len(s: Seq<u8>, keep: spec_fn(u8) -> bool)
    ensures
        run_len(s, keep) <= s.len(),
        forall|i: int| 0 <= i < run_len(s, keep) ==> keep(#[trigger] s[i]),
        run_len(s, keep) < s.len() ==> !keep(s[run_len(s, keep) as int]),
    decreases s.len(),
{
    if s.len() > 0 && keep(s[0]) {
        let rest = s.skip(1);
        lemma_run_len(rest, keep);
        assert forall|i: int| 0 <= i < run_len(s, keep) implies keep(#[trigger] s[i]) by {
            if i > 0 {
                assert(s[i] == rest[i - 1]);
            }
        }
        if run_len(s, keep) < s.len() {
            assert(s[run_len(s, keep) as int] == rest[run_len(rest, keep) as int]);
        }
    }
}

/// A stretch at the front of `s` whose bytes all meet `keep`, and which ends
/// with the stream or before a byte that does not, is the run.
pub proof fn lemma_run_len_is(s: Seq<u8>, keep: spec_fn(u8) -> bool, len: nat)
    requires
        len <= s.len(),
        forall|i: int| 0 <= i < len ==> keep(#[trigger] s[i]),
        len == s.len() || !keep(s[len as int]),
    ensures
        run_len(s, keep) == len,
    decreases len,
{
    if len > 0 {
        let rest = s.skip(1);
        assert forall|i: int| 0 <= i < len - 1 implies keep(#[trigger] rest[i]) by {
            assert(rest[i] == s[i + 1]);
        }
        if len < s.len() {
            assert(rest[len - 1] == s[len as int]);
        }
        lemma_run_len_is(rest, keep, (len - 1) as nat);
    }
}

/// A run that begins with `len` bytes which meet `keep` goes on as the run
/// of what follows them.
pub proof fn lemma_run_len_from(s: Seq<u8>, keep: spec_fn(u8) -> bool, len: nat)
    requires
        len <= s.len(),
        forall|i: int| 0 <= i < len ==> keep(#[trigger] s[i]),
    ensures
        run_len(s, keep) == len + run_len(s.skip(len as int), keep),
{
    let rest = s.skip(len as int);
    let more = run_len(rest, keep);
    lemma_run_len(rest, keep);
    assert forall|i: int| 0 <= i < len + more implies keep(#[trigger] s[i]) by {
        if i >= len {
            assert(s[i] == rest[i - len]);
        }
    }
    if len + more < s.len() {
        assert(s[(len + more) as int] == rest[more as int]);
    }
    lemma_run_len_is(s, keep, len + more);
}

/// Taking bytes in two steps is taking them in one.
pub proof fn lemma_advance_twice(from: Reading, first: nat, second: nat)
    requires
        first + second <= from.pending.len(),
    ensures
        from.advance(first).advance(second) == from.advance(first + second),
        from.advance(first + second).reached_from(from),
        from.advance(0) == from,
{
    let mid = from.advance(first);
    assert(mid.pending.skip(second as int) =~= from.pending.skip((first + second) as int));
    assert(from.pending.take((first + second) as int) =~= from.pending.take(first as int)
        + mid.pending.take(second as int));
    crate::position::lemma_after_concat(
        from.place,
        from.pending.take(first as int),
        mid.pending.take(second as int),
    );
    assert(from.pending.skip(0) =~= from.pending);
    assert(from.pending.take(0) =~= Seq::<u8>::empty());
}

/// Whatever follows `used` bytes of `from` follows `from`.
pub proof fn lemma_then(from: Reading, used: nat)
    requires
        used <= from.pending.len(),
    ensures
        from.advance(0) == from,
        from.advance(used).reached_from(from),
        forall|to: Reading| #[trigger]
            to.reached_from(from.advance(used)) ==> to.reached_from(from),
        forall|more: nat|
            more <= from.pending.len() - used ==> #[trigger] from.advance(used).advance(more)
                == from.advance(used + more),
{
    lemma_advance_twice(from, used, 0);
    assert forall|to: Reading| #[trigger]
        to.reached_from(from.advance(used)) implies to.reached_from(from) by {
        lemma_reached_twice(from, from.advance(used), to);
    }
    assert forall|more: nat| more <= from.pending.len() - used implies #[trigger] from.advance(
        used,
    ).advance(more) == from.advance(used + more) by {
        lemma_advance_twice(from, used, more);
    }
}

/// A stream that was reached from a stream that was reached from `from` was
/// reached from `from`.
pub proof fn lemma_reached_twice(from: Reading, mid: Reading, to: Reading)
    requires
        mid.reached_from(from),
        to.reached_from(mid),
    ensures
        to.reached_from(from),
{
    lemma_advance_twice(
        from,
        (from.pending.len() - mid.pending.len()) as nat,
        (mid.pending.len() - to.pending.len()) as nat,
    );
}

/// What is left of a block comment is passed over within the stream, and
/// where that succeeds a newline follows.
pub proof fn lemma_block_rest_used(s: Seq<u8>)
    ensures
        block_rest(s).used <= s.len(),
        block_rest(s).failure is None ==> 5 <= block_rest(s).used < s.len() && s[block_rest(
            s,
        ).used as int] == NEWLINE,
        block_rest(s).failure is Some ==> block_rest(s).failure == Some(Outcome::Eof)
            && block_rest(s).used == s.len(),
    decreases s.len(),
{
    lemma_run_len(s, in_line());
    let run = run_len(s, in_line());
    if run < s.len() {
        let next = s.skip(run + 1 as int);
        if closes_block(next) {
            assert(next[4] == s[run + 5 as int]);
        } else {
            lemma_block_rest_used(next);
            let more = block_rest(next).used;
            if block_rest(next).failure is None {
                assert(next[more as int] == s[run + 1 + more as int]);
            }
        }
    }
}

/// Behind one byte that is `wanted`, one byte less is demanded.
pub proof fn lemma_repeated_next(s: Seq<u8>, wanted: u8, count: nat)
    requires
        s.len() > 0,
        s[0] == wanted,
    ensures
        repeated(s, wanted, count + 1) == behind(1, repeated(s.skip(1), wanted, count)),
{
    let rest = s.skip(1);
    lemma_run_len(rest, is_byte(wanted));
    let run = run_len(rest, is_byte(wanted));
    if run < rest.len() {
        assert(rest[run as int] == s[1 + run as int]);
    }
}

/// From behind `len` bytes of a line of a block comment, what is left of the
/// comment is what was left of it before, less those bytes.
pub proof fn lemma_block_rest_from(s: Seq<u8>, len: nat)
    requires
        len <= s.len(),
        forall|i: int| 0 <= i < len ==> #[trigger] s[i] != NEWLINE,
    ensures
        block_rest(s).failure == block_rest(s.skip(len as int)).failure,
        block_rest(s).used == len + block_rest(s.skip(len as int)).used,
{
    let rest = s.skip(len as int);
    lemma_run_len_from(s, in_line(), len);
    lemma_run_len(rest, in_line());
    let run = run_len(rest, in_line());
    if run < rest.len() {
        assert(s.skip(len + run + 1 as int) =~= rest.skip(run + 1 as int));
    }
}

/// One line on in a block comment: either the next line closes the comment,
/// or what is left of the comment is what is left of it behind the slashes of
/// that line.
pub proof fn lemma_block_rest_step(s: Seq<u8>)
    requires
        run_len(s, in_line()) < s.len(),
    ensures
        block_step(s) <= s.len(),
        closes_block(next_line(s)) ==> block_rest(s) == (Skip {
            failure: None,
            used: block_step(s),
        }),
        !closes_block(next_line(s)) ==> block_rest(s) == behind(
            block_step(s),
            block_rest(s.skip(block_step(s) as int)),
        ),
{
    let run = run_len(s, in_line());
    let next = next_line(s);
    let count = slashes(next);
    lemma_run_len(next, is_byte(SLASH));
    if closes_block(next) {
        lemma_run_len_from(next, is_byte(SLASH), 4);
    } else {
        assert forall|i: int| 0 <= i < count implies #[trigger] next[i] != NEWLINE by {
            assert(is_byte(SLASH)(next[i]));
        }
        lemma_block_rest_from(next, count);
        assert(next.skip(count as int) =~= s.skip(block_step(s) as int));
    }
}

/// A comment is passed over within the stream. Where that succeeds it took
/// at least its two slashes, and a newline follows it.
pub proof fn lemma_comment_used(s: Seq<u8>)
    ensures
        comment(s).used <= s.len(),
        comment(s).failure is None ==> 2 <= comment(s).used < s.len() && s[comment(s).used as int]
            == NEWLINE,
        comment(s).failure matches Some(failure) ==> !(failure is Token),
{
    lemma_run_len(s, is_byte(SLASH));
    if repeated(s, SLASH, 2).failure is None {
        if s.len() > 2 && s[2] == SLASH {
            let rest = s.skip(3);
            lemma_block_rest_used(rest);
            if block_rest(rest).failure is None {
                assert(rest[block_rest(rest).used as int] == s[3 + block_rest(rest).used as int]);
            }
        } else {
            let rest = s.skip(2);
            lemma_run_len(rest, in_line());
            let run = run_len(rest, in_line());
            if run < rest.len() {
                assert(rest[run as int] == s[2 + run as int]);
            }
        }
    }
}

/// A read stays within the stream, and one that gives a token takes at
/// least one byte.
pub proof fn lemma_lex_used(s: Seq<u8>)
    ensures
        lex(s).used <= s.len(),
        lex(s).outcome is Token ==> lex(s).used >= 1,
    decreases s.len(),
{
    if s.len() == 0 {
    } else if s[0] == SLASH {
        lemma_comment_used(s);
        if comment(s).failure is None {
            lemma_lex_used(s.skip(comment(s).used as int));
        }
    } else if s[0] == LESS_THAN {
        lemma_run_len(s, is_byte(LESS_THAN));
    } else if s[0] == APOSTROPHE {
        lemma_run_len(s, is_byte(APOSTROPHE));
    } else if s[0] == CARRIAGE_RETURN {
        lemma_lex_used(s.skip(1));
    } else {
        lemma_run_len(s, in_word());
    }
}

/// Where a word can begin: at a byte that is no delimiter and opens neither
/// a comment nor one of the tokens of three.
pub open spec fn begins_word(byte: u8) -> bool {
    !is_delimiter(byte) && byte != SLASH && byte != LESS_THAN && byte != APOSTROPHE
}

/// Where a word begins, the token read is a word: the longest run of bytes
/// that are no delimiters, byte for byte as the stream has it.
pub proof fn lemma_word_is_run(s: Seq<u8>)
    requires
        s.len() > 0,
        begins_word(s[0]),
    ensures
        1 <= run_len(s, in_word()) <= s.len(),
        lex(s) == (Pull {
            outcome: Outcome::Token(TokenView::Word(s.take(run_len(s, in_word()) as int))),
            used: run_len(s, in_word()),
        }),
        forall|i: int| 0 <= i < run_len(s, in_word()) ==> !is_delimiter(#[trigger] s[i]),
        run_len(s, in_word()) < s.len() ==> is_delimiter(s[run_len(s, in_word()) as int]),
{
    lemma_run_len(s, in_word());
}

/// A stream that holds no delimiter, and at whose front a word can begin, is
/// read as one word that is the whole stream; the next read is at its end.
pub proof fn lemma_one_word(s: Seq<u8>)
    requires
        s.len() > 0,
        begins_word(s[0]),
        forall|i: int| 0 <= i < s.len() ==> !is_delimiter(#[trigger] s[i]),
    ensures
        tokens(s) == seq![TokenView::Word(s)],
        ending(s) == Outcome::Eof,
{
    lemma_run_len_is(s, in_word(), s.len());
    assert(s.take(s.len() as int) =~= s);
    let rest = s.skip(s.len() as int);
    assert(rest.len() == 0);
    assert(tokens(rest) =~= Seq::<TokenView>::empty());
    assert(ending(rest) == Outcome::Eof);
    assert(tokens(s) =~= seq![TokenView::Word(s)]);
}

/// The bytes of a token are the bytes that its read took from the stream,
/// behind the comments and carriage returns that the read passed over.
pub proof fn lemma_token_span(s: Seq<u8>)
    requires
        lex(s).outcome is Token,
    ensures
        ignored(s) <= lex(s).used <= s.len(),
        lex(s).outcome matches Outcome::Token(token) && s.subrange(
            ignored(s) as int,
            lex(s).used as int,
        ) == token.bytes(),
    decreases s.len(),
{
    lemma_lex_used(s);
    if s[0] == SLASH {
        lemma_comment_used(s);
        let rest = s.skip(comment(s).used as int);
        lemma_token_span(rest);
        lemma_lex_used(rest);
        assert(s.subrange(ignored(s) as int, lex(s).used as int) =~= rest.subrange(
            ignored(rest) as int,
            lex(rest).used as int,
        ));
    } else if s[0] == LESS_THAN {
        lemma_run_len(s, is_byte(LESS_THAN));
        assert(s.subrange(0, 3) =~= TokenView::TripleLt.bytes());
    } else if s[0] == APOSTROPHE {
        lemma_run_len(s, is_byte(APOSTROPHE));
        assert(s.subrange(0, 3) =~= TokenView::TripleApos.bytes());
    } else if s[0] == NEWLINE {
        assert(s.subrange(0, 1) =~= TokenView::NewLine.bytes());
    } else if s[0] == CARRIAGE_RETURN {
        let rest = s.skip(1);
        lemma_token_span(rest);
        lemma_lex_used(rest);
        assert(s.subrange(ignored(s) as int, lex(s).used as int) =~= rest.subrange(
            ignored(rest) as int,
            lex(rest).used as int,
        ));
    } else if s[0] == NUMBER_SIGN {
        assert(s.subrange(0, 1) =~= TokenView::NumberSign.bytes());
    } else if s[0] == SPACE {
        assert(s.subrange(0, 1) =~= TokenView::Space.bytes());
    } else {
        lemma_run_len(s, in_word());
    }
}

/// The bytes of the tokens read from a stream, put together, are the stream
/// without the comments and carriage returns that reading passes over.
pub proof fn lemma_tokens_spell_text(s: Seq<u8>)
    ensures
        spelled(tokens(s)) == text(s),
    decreases s.len(),
{
    let pull = lex(s);
    match pull.outcome {
        Outcome::Token(token) => {
            lemma_lex_used(s);
            lemma_token_span(s);
            let rest = s.skip(pull.used as int);
            lemma_tokens_spell_text(rest);
            let all = seq![token] + tokens(rest);
            assert(all.skip(1) =~= tokens(rest));
            assert(all[0] == token);
        },
        _ => {},
    }
}

/// From a stream that holds neither a slash nor a carriage return reading
/// passes over nothing: the tokens spell the stream itself, as far as they
/// are read.
pub proof fn lemma_plain_text(s: Seq<u8>)
    requires
        forall|i: int| 0 <= i < s.len() ==> #[trigger] s[i] != SLASH && s[i] != CARRIAGE_RETURN,
    ensures
        text(s).len() <= s.len(),
        text(s) == s.take(text(s).len() as int),
        spelled(tokens(s)) == s.take(text(s).len() as int),
    decreases s.len(),
{
    lemma_tokens_spell_text(s);
    let pull = lex(s);
    match pull.outcome {
        Outcome::Token(_) => {
            lemma_lex_used(s);
            let rest = s.skip(pull.used as int);
            assert forall|i: int| 0 <= i < rest.len() implies #[trigger] rest[i] != SLASH && rest[i]
                != CARRIAGE_RETURN by {
                assert(rest[i] == s[i + pull.used]);
            }
            lemma_plain_text(rest);
            assert(text(s) =~= s.take(text(s).len() as int));
        },
        _ => {
            assert(text(s) =~= s.take(0));
        },
    }
}

} // verus!
