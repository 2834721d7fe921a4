//! The tokenizer: a cursor over an in-memory byte source with a pushback
//! stack, and the dispatch that turns bytes into tokens.
use vstd::prelude::*;
use crate::lexical::{
    after, comment_len, dashes, decimal, dot, dots, in_class, indicator, is_digit,
    lemma_decimal_prefix, lemma_lex_comment, lemma_lex_spaces, lemma_run, lemma_skip_skip,
    lemma_version_bound, lex, lex_directive, lex_lexeme, lex_number, lex_scalar, lex_version, name,
    run, starts_with, yaml_keyword, ByteClass,
};
use crate::token::{byte_chars, token_view, Token, YamlVersion};

verus! {

/// A YAML tokenizer: takes a byte stream and hands out its tokens one by one.
pub struct Tokenizer {
    /// The bytes not yet read from the source, last byte first, so that a
    /// read is a pop from the end.
    source: Vec<u8>,
    /// Bytes handed back after a read; the last one pushed is read first.
    stack: Vec<u8>,
}

impl View for Tokenizer {
    /// The unread stream: the pushback stack from its top down, then the
    /// bytes the source has not handed out yet.
    type V = Seq<u8>;

    closed spec fn view(&self) -> Seq<u8> {
        self.stack@.reverse() + self.source@.reverse()
    }
}

proof fn lemma_reverse_push(s: Seq<u8>, b: u8)
    ensures
        s.push(b).reverse() == seq![b] + s.reverse(),
{
    assert(s.push(b).reverse() =~= seq![b] + s.reverse());
}

proof fn lemma_reverse_pop(s: Seq<u8>)
    requires
        s.len() > 0,
    ensures
        s.reverse() == seq![s.last()] + s.drop_last().reverse(),
{
    assert(s.reverse() =~= seq![s.last()] + s.drop_last().reverse());
}

/// Whether `b` is in `class`.
fn class_contains(class: ByteClass, b: u8) -> (r: bool)
    ensures
        r == in_class(class, b),
{
    let digit = '0' as u8 <= b && b <= '9' as u8;
    let letter = ('A' as u8 <= b && b <= 'Z' as u8) || ('a' as u8 <= b && b <= 'z' as u8);
    match class {
        ByteClass::Space => b == '\n' as u8 || b == ' ' as u8 || b == '\t' as u8,
        ByteClass::Digit => digit,
        ByteClass::ScalarByte => letter || digit,
        ByteClass::NameByte => letter || digit || b == '-' as u8 || b == '_' as u8,
    }
}

/// The token of a single-byte indicator, if `b` is one.
fn indicator_token(b: u8) -> (r: Option<Token>)
    ensures
        token_view(r) == indicator(b),
{
    if b == '[' as u8 {
        Some(Token::SequenceStart)
    } else if b == ']' as u8 {
        Some(Token::SequenceEnd)
    } else if b == '{' as u8 {
        Some(Token::MappingStart)
    } else if b == '}' as u8 {
        Some(Token::MappingEnd)
    } else if b == ':' as u8 {
        Some(Token::MappingSeparator)
    } else if b == ',' as u8 {
        Some(Token::CollectionSeparator)
    } else if b == '?' as u8 {
        Some(Token::ComplexKey)
    } else if b == '!' as u8 {
        Some(Token::Tag)
    } else if b == '\'' as u8 {
        Some(Token::SingleQuote)
    } else if b == '"' as u8 {
        Some(Token::DoubleQuote)
    } else if b == '|' as u8 {
        Some(Token::Literal)
    } else if b == '>' as u8 {
        Some(Token::Folded)
    } else {
        None
    }
}

/// The bytes `--`.
fn dashes_literal() -> (r: [u8; 2])
    ensures
        r@ == dashes(),
{
    let r: [u8; 2] = ['-' as u8, '-' as u8];
    assert(r@ =~= dashes());
    r
}

/// The bytes `..`.
fn dots_literal() -> (r: [u8; 2])
    ensures
        r@ == dots(),
{
    let r: [u8; 2] = ['.' as u8, '.' as u8];
    assert(r@ =~= dots());
    r
}

/// The byte `.`.
fn dot_literal() -> (r: [u8; 1])
    ensures
        r@ == dot(),
{
    let r: [u8; 1] = ['.' as u8];
    assert(r@ =~= dot());
    r
}

/// The bytes `YAML ` that follow the `%` of a version directive.
fn yaml_keyword_literal() -> (r: [u8; 5])
    ensures
        r@ == yaml_keyword(),
{
    let r: [u8; 5] = ['Y' as u8, 'A' as u8, 'M' as u8, 'L' as u8, ' ' as u8];
    assert(r@ =~= yaml_keyword());
    r
}

/// Relies on `String::from_utf8`: bytes below 0x80 are valid UTF-8, and each
/// decodes to the character with the same code.
#[verifier::external_body]
fn ascii_string(bytes: Vec<u8>) -> (r: String)
    requires
        forall|i: int| 0 <= i < bytes@.len() ==> bytes@[i] < 0x80,
    ensures
        r@ == byte_chars(bytes@),
{
    String::from_utf8(bytes).unwrap_or_default()
}

impl Tokenizer {
    /// Creates a tokenizer over the bytes of `input`.
    pub fn new(input: Vec<u8>) -> (r: Tokenizer)
        ensures
            r@ == input@,
    {
        let mut source: Vec<u8> = Vec::new();
        let mut i: usize = input.len();
        while i > 0
            invariant
                i <= input.len(),
                source@.reverse() == input@.subrange(i as int, input.len() as int),
            decreases i,
        {
            i = i - 1;
            proof {
                lemma_reverse_push(source@, input[i as int]);
            }
            source.push(input[i]);
            assert(source@.reverse() =~= input@.subrange(i as int, input.len() as int));
        }
        assert(Seq::<u8>::empty().reverse() =~= Seq::<u8>::empty());
        assert(input@.subrange(0, input.len() as int) =~= input@);
        Tokenizer { source, stack: Vec::new() }
    }

    /// Reads the next byte from the source, bypassing the pushback stack.
    fn read_character(&mut self) -> (r: Option<u8>)
        ensures
            final(self).stack == old(self).stack,
            old(self).source@.len() == 0 ==> r is None && final(self).source@ == old(self).source@,
            old(self).source@.len() > 0 ==> r == Some(old(self).source@.last())
                && final(self).source@ == old(self).source@.drop_last(),
    {
        self.source.pop()
    }

    /// Takes the next byte of the stream: from the pushback stack where it
    /// holds any, else from the source; `None` once both are empty.
    pub fn pop(&mut self) -> (r: Option<u8>)
        ensures
            old(self)@.len() == 0 ==> r is None && final(self)@ == old(self)@,
            old(self)@.len() > 0 ==> r == Some(old(self)@[0]) && final(self)@ == old(self)@.skip(1),
    {
        if self.stack.len() == 0 {
            proof {
                assert(self.stack@.reverse() =~= Seq::<u8>::empty());
                assert(old(self)@ =~= self.source@.reverse());
                if self.source@.len() > 0 {
                    lemma_reverse_pop(self.source@);
                }
            }
            let r = self.read_character();
            proof {
                assert(self.stack@.reverse() =~= Seq::<u8>::empty());
                assert(self@ =~= self.source@.reverse());
                if r is Some {
                    assert(self@ =~= old(self)@.skip(1));
                }
            }
            r
        } else {
            proof {
                lemma_reverse_pop(self.stack@);
            }
            let r = self.stack.pop();
            assert(self@ =~= old(self)@.skip(1));
            r
        }
    }

    /// Puts `b` back in front of the stream.
    fn push_back(&mut self, b: u8)
        ensures
            final(self)@ == seq![b] + old(self)@,
    {
        proof {
            lemma_reverse_push(self.stack@, b);
        }
        self.stack.push(b);
        assert(self@ =~= seq![b] + old(self)@);
    }

    /// Tries to read `literal` from the front of the stream. On a match the
    /// bytes are retired and the result is `true`; otherwise every byte read
    /// is handed back in reverse order, the stream is left as it was, and the
    /// result is `false`.
    pub fn consume(&mut self, literal: &[u8]) -> (r: bool)
        ensures
            r == starts_with(old(self)@, literal@),
            r ==> final(self)@ == old(self)@.skip(literal@.len() as int),
            !r ==> final(self)@ == old(self)@,
    {
        let mut eaten: Vec<u8> = Vec::new();
        let mut i: usize = 0;
        while i < literal.len()
            invariant
                i <= literal@.len(),
                eaten@ == literal@.subrange(0, i as int),
                old(self)@ == eaten@ + self@,
            decreases literal@.len() - i,
        {
            let matched = match self.pop() {
                Some(b) => {
                    eaten.push(b);
                    b == literal[i]
                },
                None => false,
            };
            if matched {
                i = i + 1;
                assert(eaten@ =~= literal@.subrange(0, i as int));
                assert(old(self)@ =~= eaten@ + self@);
            } else {
                assert(!starts_with(old(self)@, literal@)) by {
                    if old(self)@.len() >= literal@.len() {
                        assert(old(self)@.subrange(0, literal@.len() as int)[i as int]
                            != literal@[i as int]);
                    }
                }
                while eaten.len() > 0
                    invariant
                        old(self)@ == eaten@ + self@,
                    decreases eaten@.len(),
                {
                    let b = eaten.pop().unwrap();
                    self.push_back(b);
                    assert(old(self)@ =~= eaten@ + self@);
                }
                assert(old(self)@ =~= self@);
                return false;
            }
        }
        assert(old(self)@.subrange(0, literal@.len() as int) =~= literal@);
        assert(self@ =~= old(self)@.skip(literal@.len() as int));
        true
    }

    /// Reads the longest run of bytes in `class` from the front of the stream
    /// and returns it; the byte that ends the run stays in the stream.
    fn take_run(&mut self, class: ByteClass) -> (r: Vec<u8>)
        ensures
            r@ == old(self)@.take(run(old(self)@, class) as int),
            final(self)@ == old(self)@.skip(run(old(self)@, class) as int),
    {
        let mut eaten: Vec<u8> = Vec::new();
        loop
            invariant
                old(self)@ == eaten@ + self@,
                run(old(self)@, class) == eaten@.len() + run(self@, class),
            ensures
                old(self)@ == eaten@ + self@,
                run(self@, class) == 0,
                run(old(self)@, class) == eaten@.len(),
            decreases self@.len(),
        {
            let ghost before = self@;
            match self.pop() {
                Some(b) => {
                    if class_contains(class, b) {
                        eaten.push(b);
                        assert(old(self)@ =~= eaten@ + self@);
                    } else {
                        self.push_back(b);
                        assert(self@ =~= before);
                        break;
                    }
                },
                None => {
                    break;
                },
            }
        }
        assert(eaten@ =~= old(self)@.take(eaten@.len() as int));
        assert(self@ =~= old(self)@.skip(eaten@.len() as int));
        eaten
    }

    /// Discards the run of whitespace at the front of the stream.
    fn throw_away_whitespace(&mut self)
        ensures
            final(self)@ == old(self)@.skip(run(old(self)@, ByteClass::Space) as int),
    {
        let _ = self.take_run(ByteClass::Space);
    }

    /// Discards the rest of a comment: bytes through the first line feed, or
    /// to the end of the stream.
    fn throw_away_comment(&mut self)
        ensures
            final(self)@ == old(self)@.skip(comment_len(old(self)@) as int),
    {
        let ghost mut n: nat = 0;
        loop
            invariant_except_break
                comment_len(old(self)@) == n + comment_len(self@),
            invariant
                n <= old(self)@.len(),
                self@ == old(self)@.skip(n as int),
            ensures
                comment_len(old(self)@) == n,
            decreases self@.len(),
        {
            let ghost before = self@;
            match self.pop() {
                Some(b) => {
                    proof {
                        n = n + 1;
                    }
                    assert(self@ =~= old(self)@.skip(n as int));
                    if b == '\n' as u8 {
                        break;
                    }
                },
                None => {
                    break;
                },
            }
        }
    }

    /// Reads a scalar: the longest run of letters and digits at the front of
    /// the stream (empty where the first byte is neither).
    fn consume_scalar(&mut self) -> (r: Token)
        ensures
            r@ == lex_scalar(old(self)@).0,
            final(self)@ == old(self)@.skip(lex_scalar(old(self)@).1 as int),
    {
        let eaten = self.take_run(ByteClass::ScalarByte);
        proof {
            lemma_run(old(self)@, ByteClass::ScalarByte);
        }
        Token::Scalar(ascii_string(eaten))
    }

    /// Reads an anchor or alias name: the longest run of letters, digits,
    /// `-` and `_` at the front of the stream.
    fn consume_anchor(&mut self) -> (r: String)
        ensures
            r@ == name(old(self)@),
            final(self)@ == old(self)@.skip(run(old(self)@, ByteClass::NameByte) as int),
    {
        let eaten = self.take_run(ByteClass::NameByte);
        proof {
            lemma_run(old(self)@, ByteClass::NameByte);
        }
        ascii_string(eaten)
    }

    /// Reads a decimal number: all the digits at the front of the stream are
    /// retired; the result is their value, or `None` where there is none or
    /// the value does not fit in `usize`.
    fn consume_number(&mut self) -> (r: Option<usize>)
        ensures
            r is None <==> lex_number(old(self)@).0 is None,
            r matches Some(v) ==> lex_number(old(self)@).0 == Some(v as nat),
            final(self)@ == old(self)@.skip(lex_number(old(self)@).1 as int),
    {
        let digits = self.take_run(ByteClass::Digit);
        proof {
            lemma_run(old(self)@, ByteClass::Digit);
        }
        if digits.len() == 0 {
            return None;
        }
        let mut value: usize = 0;
        let mut i: usize = 0;
        while i < digits.len()
            invariant
                i <= digits@.len(),
                digits@ == old(self)@.take(run(old(self)@, ByteClass::Digit) as int),
                self@ == old(self)@.skip(run(old(self)@, ByteClass::Digit) as int),
                forall|j: int| 0 <= j < digits@.len() ==> is_digit(#[trigger] digits@[j]),
                value == decimal(digits@.take(i as int)),
            decreases digits@.len() - i,
        {
            let digit = (digits[i] - '0' as u8) as usize;
            assert(digits@.take(i + 1).drop_last() =~= digits@.take(i as int));
            if value > (usize::MAX - digit) / 10 {
                proof {
                    assert(value * 10 + digit > usize::MAX) by (nonlinear_arith)
                        requires
                            value > (usize::MAX - digit) / 10,
                            digit <= 9,
                    ;
                    lemma_decimal_prefix(digits@, i + 1);
                }
                return None;
            }
            assert(value * 10 + digit <= usize::MAX) by (nonlinear_arith)
                requires
                    value <= (usize::MAX - digit) / 10,
                    digit <= 9,
            ;
            value = value * 10 + digit;
            i = i + 1;
        }
        assert(digits@.take(i as int) =~= digits@);
        Some(value)
    }

    /// Reads `major.minor` from the front of the stream. Reading stops at
    /// the first part that is missing; what was read stays retired.
    fn consume_yaml_version(&mut self) -> (r: Option<YamlVersion>)
        ensures
            r is None <==> lex_version(old(self)@).0 is None,
            r matches Some(v) ==> lex_version(old(self)@).0 == Some(
                (v.major as nat, v.minor as nat),
            ),
            final(self)@ == old(self)@.skip(lex_version(old(self)@).1 as int),
    {
        let ghost s = old(self)@;
        proof {
            lemma_run(s, ByteClass::Digit);
        }
        let major = match self.consume_number() {
            Some(n) => n,
            None => {
                return None;
            },
        };
        let ghost n1 = run(s, ByteClass::Digit) as int;
        if !self.consume(dot_literal().as_slice()) {
            return None;
        }
        proof {
            lemma_skip_skip(s, n1, 1);
            lemma_run(s.skip(n1 + 1), ByteClass::Digit);
            lemma_skip_skip(s, n1 + 1, run(s.skip(n1 + 1), ByteClass::Digit) as int);
        }
        let minor = match self.consume_number() {
            Some(n) => n,
            None => {
                return None;
            },
        };
        Some(YamlVersion { major, minor })
    }

    /// Reads a directive after its `%`: `YAML major.minor` gives the version;
    /// any other text gives `Other`. A keyword that does not match is left in
    /// the stream; after `YAML `, what was read stays retired.
    fn consume_directive(&mut self) -> (r: Token)
        ensures
            r@ == lex_directive(old(self)@).0,
            final(self)@ == old(self)@.skip(lex_directive(old(self)@).1 as int),
    {
        if self.consume(yaml_keyword_literal().as_slice()) {
            proof {
                lemma_version_bound(old(self)@.skip(5));
                lemma_skip_skip(old(self)@, 5, lex_version(old(self)@.skip(5)).1 as int);
            }
            match self.consume_yaml_version() {
                Some(version) => Token::YamlDirective(version),
                None => Token::Other,
            }
        } else {
            assert(old(self)@.skip(0) =~= old(self)@);
            Token::Other
        }
    }

    /// Reads the lexeme that starts with `c`, a byte just taken from the
    /// stream that is neither whitespace nor `#`.
    fn consume_lexeme(&mut self, c: u8) -> (r: Token)
        ensures
            lex_lexeme(seq![c] + old(self)@).1 <= 1 + old(self)@.len(),
            r@ == lex_lexeme(seq![c] + old(self)@).0,
            final(self)@ == (seq![c] + old(self)@).skip(lex_lexeme(seq![c] + old(self)@).1 as int),
    {
        let ghost rest = old(self)@;
        let ghost s = seq![c] + rest;
        assert(s.skip(1) =~= rest);
        let token = match indicator_token(c) {
            Some(t) => t,
            None => {
                if c == '-' as u8 {
                    if self.consume(dashes_literal().as_slice()) {
                        proof {
                            lemma_skip_skip(s, 1, 2);
                        }
                        Token::DocumentStart
                    } else {
                        Token::SequenceEntry
                    }
                } else if c == '.' as u8 && self.consume(dots_literal().as_slice()) {
                    proof {
                        lemma_skip_skip(s, 1, 2);
                    }
                    Token::DocumentEnd
                } else if c == '&' as u8 || c == '*' as u8 {
                    proof {
                        lemma_run(rest, ByteClass::NameByte);
                        lemma_skip_skip(s, 1, run(rest, ByteClass::NameByte) as int);
                    }
                    let name = self.consume_anchor();
                    if c == '&' as u8 {
                        Token::Anchor(name)
                    } else {
                        Token::Alias(name)
                    }
                } else if c == '%' as u8 {
                    proof {
                        if starts_with(rest, yaml_keyword()) {
                            lemma_version_bound(rest.skip(5));
                        }
                        lemma_skip_skip(s, 1, lex_directive(rest).1 as int);
                    }
                    self.consume_directive()
                } else {
                    // The byte starts a scalar (a lone `.` too): hand it back
                    // and read the run.
                    self.push_back(c);
                    assert(self@ =~= s);
                    proof {
                        lemma_run(s, ByteClass::ScalarByte);
                    }
                    self.consume_scalar()
                }
            },
        };
        token
    }

    /// Hands out the next token of the stream, or `None` once it is
    /// exhausted. Whitespace and comments are discarded on the way and yield
    /// no token of their own.
    pub fn next_token(&mut self) -> (r: Option<Token>)
        ensures
            token_view(r) == lex(old(self)@).0,
            final(self)@ == old(self)@.skip(lex(old(self)@).1 as int),
            r is None ==> final(self)@.len() == 0,
    {
        let ghost mut skipped: nat = 0;
        loop
            invariant
                skipped <= old(self)@.len(),
                self@ == old(self)@.skip(skipped as int),
                lex(old(self)@) == after(skipped, lex(self@)),
            decreases self@.len(),
        {
            let ghost s = self@;
            let c = match self.pop() {
                Some(c) => c,
                None => {
                    return None;
                },
            };
            let ghost rest = self@;
            if c == '\n' as u8 || c == ' ' as u8 || c == '\t' as u8 {
                self.throw_away_whitespace();
                proof {
                    lemma_lex_spaces(rest);
                    let k = run(rest, ByteClass::Space) as int;
                    lemma_skip_skip(old(self)@, skipped as int, 1);
                    lemma_skip_skip(old(self)@, skipped as int + 1, k);
                    skipped = skipped + 1 + k as nat;
                }
                continue;
            }
            if c == '#' as u8 {
                self.throw_away_comment();
                proof {
                    lemma_lex_comment(rest);
                    let k = comment_len(rest) as int;
                    lemma_skip_skip(old(self)@, skipped as int, 1);
                    lemma_skip_skip(old(self)@, skipped as int + 1, k);
                    skipped = skipped + 1 + k as nat;
                }
                continue;
            }
            assert(s =~= seq![c] + rest);
            let token = self.consume_lexeme(c);
            proof {
                lemma_skip_skip(old(self)@, skipped as int, lex_lexeme(s).1 as int);
            }
            return Some(token);
        }
    }
}

} // verus!
