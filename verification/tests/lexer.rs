use asciidoctor::error::Error;
use asciidoctor::lexer::ends_word;
use asciidoctor::lexer::Lexer;
use asciidoctor::lexer::BUFFER_SIZE;
use asciidoctor::position::Pos;
use asciidoctor::source::ByteSource;
use asciidoctor::source::MemorySource;
use asciidoctor::source::SourceError;
use asciidoctor::token::Token;

/// A source that hands out one byte at a time.
struct Trickle {
    data: Vec<u8>,
    offset: usize,
}

impl ByteSource for Trickle {
    fn remaining(&self) -> vstd::seq::Seq<u8> {
        panic!("only for proofs")
    }

    fn reliable(&self) -> bool {
        panic!("only for proofs")
    }

    fn read(&mut self, buf: &mut Vec<u8>) -> Result<usize, SourceError> {
        if self.offset >= self.data.len() || buf.is_empty() {
            return Ok(0);
        }
        buf[0] = self.data[self.offset];
        self.offset += 1;
        Ok(1)
    }
}

/// A source that hands out its bytes and then fails.
struct Broken {
    data: Vec<u8>,
    offset: usize,
}

impl ByteSource for Broken {
    fn remaining(&self) -> vstd::seq::Seq<u8> {
        panic!("only for proofs")
    }

    fn reliable(&self) -> bool {
        panic!("only for proofs")
    }

    fn read(&mut self, buf: &mut Vec<u8>) -> Result<usize, SourceError> {
        if self.offset >= self.data.len() {
            return Err(SourceError { message: String::from("gone") });
        }
        let count = std::cmp::min(buf.len(), self.data.len() - self.offset);
        buf[..count].copy_from_slice(&self.data[self.offset..self.offset + count]);
        self.offset += count;
        Ok(count)
    }
}

fn word(text: &str) -> Token {
    Token::Word(text.as_bytes().to_vec())
}

/// All the tokens of `lexer` and the failure that ends them.
fn run<R: ByteSource>(lexer: &mut Lexer<R>) -> (Vec<Token>, Error) {
    let mut tokens = Vec::new();
    loop {
        match lexer.token() {
            Ok(token) => tokens.push(token),
            Err(error) => return (tokens, error),
        }
    }
}

fn lex(input: &[u8]) -> (Vec<Token>, Error) {
    let mut lexer = Lexer::new(MemorySource::new(input.to_vec()));
    run(&mut lexer)
}

/// The bytes that a token was read from.
fn spell(token: &Token) -> Vec<u8> {
    match token {
        Token::NewLine => b"\n".to_vec(),
        Token::NumberSign => b"#".to_vec(),
        Token::Space => b" ".to_vec(),
        Token::TripleApos => b"'''".to_vec(),
        Token::TripleLt => b"<<<".to_vec(),
        Token::Word(bytes) => bytes.clone(),
    }
}

fn spell_all(tokens: &[Token]) -> Vec<u8> {
    let mut bytes = Vec::new();
    for token in tokens {
        bytes.extend(spell(token));
    }
    bytes
}

#[test]
fn empty_source_is_at_its_end() {
    let (tokens, error) = lex(b"");
    assert!(tokens.is_empty());
    assert_eq!(error, Error::Eof { pos: Pos::new(1, 1) });
}

#[test]
fn run_without_delimiter_is_one_word() {
    let (tokens, error) = lex(b"hello");
    assert_eq!(tokens, vec![word("hello")]);
    assert_eq!(error, Error::Eof { pos: Pos::new(1, 6) });
}

#[test]
fn each_run_is_one_word() {
    let (tokens, error) = lex(b"foo bar\nbaz-1.0");
    assert_eq!(
        tokens,
        vec![word("foo"), Token::Space, word("bar"), Token::NewLine, word("baz-1.0")]
    );
    assert!(error.is_eof());
}

#[test]
fn word_ends_at_every_delimiter() {
    for delimiter in b" *_`#[^~:\n\r\t" {
        let mut input = b"ab".to_vec();
        input.push(*delimiter);
        let mut lexer = Lexer::new(MemorySource::new(input));
        assert_eq!(lexer.token(), Ok(word("ab")));
        assert_eq!(lexer.pos(), Pos::new(1, 3));
    }
}

#[test]
fn delimiters_are_the_twelve() {
    let mut count = 0;
    for byte in 0..=255u8 {
        let expected = b" *_`#[^~:\n\r\t".contains(&byte);
        assert_eq!(ends_word(byte), expected);
        if expected {
            count += 1;
        }
    }
    assert_eq!(count, 12);
}

#[test]
fn slash_inside_a_word_opens_no_comment() {
    let (tokens, error) = lex(b"a//b c<<<d e'''/");
    assert_eq!(
        tokens,
        vec![word("a//b"), Token::Space, word("c<<<d"), Token::Space, word("e'''/")]
    );
    assert!(error.is_eof());
}

#[test]
fn tokens_spell_the_text_without_comments() {
    let input = b"one two\n// hidden words\n#three'''\r\n////\nhidden\n/////\n////\n<<< four";
    let (tokens, error) = lex(input);
    assert!(error.is_eof());
    assert_eq!(spell_all(&tokens), b"one two\n\n#three'''\n\n<<< four".to_vec());
}

#[test]
fn plain_text_is_spelled_byte_for_byte() {
    let input = b"# A title\nsome words here\n\nand more <<< '''\n";
    let (tokens, error) = lex(input);
    assert!(error.is_eof());
    assert_eq!(spell_all(&tokens), input.to_vec());
}

#[test]
fn column_counts_bytes_without_newline() {
    let mut lexer = Lexer::new(MemorySource::new(b"abc  #de".to_vec()));
    assert_eq!(lexer.pos(), Pos::new(1, 1));
    assert_eq!(lexer.token(), Ok(word("abc")));
    assert_eq!(lexer.pos(), Pos::new(1, 4));
    assert_eq!(lexer.token(), Ok(Token::Space));
    assert_eq!(lexer.pos(), Pos::new(1, 5));
    assert_eq!(lexer.token(), Ok(Token::Space));
    assert_eq!(lexer.pos(), Pos::new(1, 6));
    assert_eq!(lexer.token(), Ok(Token::NumberSign));
    assert_eq!(lexer.pos(), Pos::new(1, 7));
    assert_eq!(lexer.token(), Ok(word("de")));
    assert_eq!(lexer.pos(), Pos::new(1, 9));
}

#[test]
fn newline_starts_the_next_line_at_column_one() {
    let mut lexer = Lexer::new(MemorySource::new(b"ab\ncde\n\nf".to_vec()));
    assert_eq!(lexer.token(), Ok(word("ab")));
    assert_eq!(lexer.pos(), Pos::new(1, 3));
    assert_eq!(lexer.token(), Ok(Token::NewLine));
    assert_eq!(lexer.pos(), Pos::new(2, 1));
    assert_eq!(lexer.token(), Ok(word("cde")));
    assert_eq!(lexer.pos(), Pos::new(2, 4));
    assert_eq!(lexer.token(), Ok(Token::NewLine));
    assert_eq!(lexer.pos(), Pos::new(3, 1));
    assert_eq!(lexer.token(), Ok(Token::NewLine));
    assert_eq!(lexer.pos(), Pos::new(4, 1));
    assert_eq!(lexer.token(), Ok(word("f")));
    assert_eq!(lexer.pos(), Pos::new(4, 2));
}

#[test]
fn single_line_comment() {
    let (tokens, error) = lex(b"// hidden\nword");
    assert_eq!(tokens, vec![Token::NewLine, word("word")]);
    assert_eq!(error, Error::Eof { pos: Pos::new(2, 5) });
}

#[test]
fn multi_line_comment() {
    let (tokens, error) = lex(b"////\nhidden\n////\nword");
    assert_eq!(tokens, vec![Token::NewLine, word("word")]);
    assert_eq!(error, Error::Eof { pos: Pos::new(4, 5) });
}

#[test]
fn multi_line_comment_hides_all_its_lines() {
    let (tokens, _) = lex(b"a\n////\nb c\n\n// d\n///\n/////\n//// e\n ////\n////\nf");
    assert_eq!(tokens, vec![word("a"), Token::NewLine, Token::NewLine, word("f")]);
}

#[test]
fn multi_line_comment_opens_with_three_slashes() {
    let (tokens, _) = lex(b"/// note\nhidden\n////\nshown");
    assert_eq!(tokens, vec![Token::NewLine, word("shown")]);
}

#[test]
fn multi_line_comment_without_end_runs_to_the_end() {
    let (tokens, error) = lex(b"x\n////\nhidden\n///\nmore");
    assert_eq!(tokens, vec![word("x"), Token::NewLine]);
    assert_eq!(error, Error::Eof { pos: Pos::new(5, 5) });
    let (tokens, error) = lex(b"////\nhidden\n////");
    assert!(tokens.is_empty());
    assert_eq!(error, Error::Eof { pos: Pos::new(3, 5) });
}

#[test]
fn comment_without_newline_runs_to_the_end() {
    let (tokens, error) = lex(b"a // rest");
    assert_eq!(tokens, vec![word("a"), Token::Space]);
    assert_eq!(error, Error::Eof { pos: Pos::new(1, 10) });
    let (tokens, error) = lex(b"//");
    assert!(tokens.is_empty());
    assert_eq!(error, Error::Eof { pos: Pos::new(1, 3) });
}

#[test]
fn lone_slash_is_unexpected() {
    let (tokens, error) = lex(b"a /b");
    assert_eq!(tokens, vec![word("a"), Token::Space]);
    assert_eq!(error, Error::UnexpectedChar { actual: b'b', expected: b'/', pos: Pos::new(1, 4) });
    let (_, error) = lex(b"/");
    assert_eq!(error, Error::Eof { pos: Pos::new(1, 2) });
}

#[test]
fn triple_lt() {
    let (tokens, error) = lex(b"<<<a<<<<");
    assert_eq!(tokens, vec![Token::TripleLt, word("a<<<<")]);
    assert!(error.is_eof());
    let (tokens, _) = lex(b"<<<<<<");
    assert_eq!(tokens, vec![Token::TripleLt, Token::TripleLt]);
}

#[test]
fn triple_lt_cut_short() {
    let (tokens, error) = lex(b"<<x");
    assert!(tokens.is_empty());
    assert_eq!(error, Error::UnexpectedChar { actual: b'x', expected: b'<', pos: Pos::new(1, 3) });
    let (_, error) = lex(b"<\n");
    assert_eq!(error, Error::UnexpectedChar { actual: b'\n', expected: b'<', pos: Pos::new(1, 2) });
    let (_, error) = lex(b"<<");
    assert_eq!(error, Error::Eof { pos: Pos::new(1, 3) });
}

#[test]
fn triple_apos() {
    let (tokens, error) = lex(b"'''\n'''");
    assert_eq!(tokens, vec![Token::TripleApos, Token::NewLine, Token::TripleApos]);
    assert_eq!(error, Error::Eof { pos: Pos::new(2, 4) });
}

#[test]
fn triple_apos_cut_short() {
    let (tokens, error) = lex(b"a ''b");
    assert_eq!(tokens, vec![word("a"), Token::Space]);
    assert_eq!(error, Error::UnexpectedChar { actual: b'b', expected: b'\'', pos: Pos::new(1, 5) });
    let (_, error) = lex(b"'");
    assert_eq!(error, Error::Eof { pos: Pos::new(1, 2) });
}

#[test]
fn failure_stays_where_it_is() {
    let mut lexer = Lexer::new(MemorySource::new(b"<<x".to_vec()));
    let first = lexer.token();
    assert_eq!(
        first,
        Err(Error::UnexpectedChar { actual: b'x', expected: b'<', pos: Pos::new(1, 3) })
    );
    assert_eq!(lexer.pos(), Pos::new(1, 3));
    assert_eq!(lexer.token(), Ok(word("x")));
}

#[test]
fn spaces_come_one_by_one() {
    let (tokens, _) = lex(b"   ");
    assert_eq!(tokens, vec![Token::Space, Token::Space, Token::Space]);
}

#[test]
fn number_sign() {
    let (tokens, _) = lex(b"##a#");
    assert_eq!(tokens, vec![Token::NumberSign, Token::NumberSign, word("a"), Token::NumberSign]);
}

#[test]
fn carriage_return_is_passed_over() {
    let (tokens, error) = lex(b"a\r\n\r\rb\r");
    assert_eq!(tokens, vec![word("a"), Token::NewLine, word("b")]);
    assert_eq!(error, Error::Eof { pos: Pos::new(2, 5) });
}

#[test]
fn delimiter_that_is_no_token_cannot_begin_a_word() {
    for delimiter in b"*_`[^~:\t" {
        let mut input = b"a ".to_vec();
        input.push(*delimiter);
        input.push(b'b');
        let mut lexer = Lexer::new(MemorySource::new(input));
        assert_eq!(lexer.token(), Ok(word("a")));
        assert_eq!(lexer.token(), Ok(Token::Space));
        let expected = Error::InvalidWordStart { actual: *delimiter, pos: Pos::new(1, 3) };
        assert_eq!(lexer.token(), Err(expected.clone()));
        assert_eq!(lexer.token(), Err(expected));
        assert_eq!(lexer.pos(), Pos::new(1, 3));
    }
}

#[test]
fn word_longer_than_the_buffer() {
    let mut input = vec![b'a'; 3 * BUFFER_SIZE + 17];
    input.extend_from_slice(b" b");
    let (tokens, error) = lex(&input);
    assert_eq!(
        tokens,
        vec![Token::Word(vec![b'a'; 3 * BUFFER_SIZE + 17]), Token::Space, word("b")]
    );
    assert_eq!(error, Error::Eof { pos: Pos::new(1, 3 * BUFFER_SIZE + 20) });
}

#[test]
fn comment_end_across_the_buffer() {
    for shift in 0..8 {
        let mut input = b"////\n".to_vec();
        while input.len() < BUFFER_SIZE - 6 + shift {
            input.push(b'x');
        }
        input.extend_from_slice(b"\n////\nword");
        let (tokens, error) = lex(&input);
        assert_eq!(tokens, vec![Token::NewLine, word("word")]);
        assert_eq!(error, Error::Eof { pos: Pos::new(4, 5) });
    }
}

#[test]
fn tokens_across_the_buffer() {
    for shift in 0..6 {
        let mut input = vec![b' '; BUFFER_SIZE - 3 + shift];
        input.extend_from_slice(b"<<<'''//c\nw");
        let (tokens, _) = lex(&input);
        let mut expected = vec![Token::Space; BUFFER_SIZE - 3 + shift];
        expected.extend(vec![Token::TripleLt, Token::TripleApos, Token::NewLine, word("w")]);
        assert_eq!(tokens, expected);
    }
}

#[test]
fn source_of_single_bytes_reads_the_same() {
    let input = b"one two\n// hidden\n#three'''\r\n////\nhidden\n////\n<<< four";
    let mut lexer = Lexer::new(Trickle { data: input.to_vec(), offset: 0 });
    let (tokens, error) = run(&mut lexer);
    assert_eq!((tokens, error), lex(input));
}

#[test]
fn failure_of_the_source_comes_through() {
    let mut lexer = Lexer::new(Broken { data: b"ab\ncd ".to_vec(), offset: 0 });
    assert_eq!(lexer.token(), Ok(word("ab")));
    assert_eq!(lexer.token(), Ok(Token::NewLine));
    assert_eq!(lexer.token(), Ok(word("cd")));
    assert_eq!(lexer.token(), Ok(Token::Space));
    let failure = SourceError { message: String::from("gone") };
    assert_eq!(lexer.token(), Err(Error::Source { failure, pos: Pos::new(2, 4) }));
}

#[test]
fn next_is_always_some() {
    let mut lexer = Lexer::new(MemorySource::new(b"a".to_vec()));
    assert_eq!(lexer.next(), Some(Ok(word("a"))));
    assert_eq!(lexer.next(), Some(Err(Error::Eof { pos: Pos::new(1, 2) })));
    assert_eq!(lexer.next(), Some(Err(Error::Eof { pos: Pos::new(1, 2) })));
}

#[test]
fn error_knows_its_place() {
    let error = Error::InvalidWordStart { actual: b'*', pos: Pos::new(3, 9) };
    assert_eq!(error.pos(), Pos::new(3, 9));
    assert!(!error.is_eof());
    assert!(Error::Eof { pos: Pos::new(1, 1) }.is_eof());
}

#[test]
fn memory_source_hands_out_its_bytes_in_order() {
    let mut source = MemorySource::new(b"abcde".to_vec());
    let mut buf = vec![0u8; 3];
    assert_eq!(source.read(&mut buf), Ok(3));
    assert_eq!(buf, b"abc".to_vec());
    assert_eq!(source.read(&mut buf), Ok(2));
    assert_eq!(buf[..2].to_vec(), b"de".to_vec());
    assert_eq!(source.read(&mut buf), Ok(0));
    assert_eq!(source.read(&mut buf), Ok(0));
}

#[test]
fn all_tokens_at_once() {
    let mut lexer = Lexer::new(MemorySource::new(b"# a\n// c\nb".to_vec()));
    let (tokens, error) = lexer.tokens();
    assert_eq!(
        tokens,
        vec![Token::NumberSign, Token::Space, word("a"), Token::NewLine, Token::NewLine, word("b")]
    );
    assert_eq!(error, Error::Eof { pos: Pos::new(3, 2) });
    assert_eq!(lexer.pos(), Pos::new(3, 2));
    let (tokens, error) = lexer.tokens();
    assert!(tokens.is_empty());
    assert!(error.is_eof());
}

#[test]
fn all_tokens_end_with_the_first_failure() {
    let mut lexer = Lexer::new(MemorySource::new(b"a <<b c".to_vec()));
    let (tokens, error) = lexer.tokens();
    assert_eq!(tokens, vec![word("a"), Token::Space]);
    assert_eq!(error, Error::UnexpectedChar { actual: b'b', expected: b'<', pos: Pos::new(1, 5) });
    let (tokens, error) = lexer.tokens();
    assert_eq!(tokens, vec![word("b"), Token::Space, word("c")]);
    assert_eq!(error, Error::Eof { pos: Pos::new(1, 8) });
}

#[test]
fn all_tokens_of_a_broken_source_are_those_read_before() {
    let mut lexer = Lexer::new(Broken { data: b"ab cd".to_vec(), offset: 0 });
    let (tokens, error) = lexer.tokens();
    assert_eq!(tokens, vec![word("ab"), Token::Space]);
    let failure = SourceError { message: String::from("gone") };
    assert_eq!(error, Error::Source { failure, pos: Pos::new(1, 6) });
}
