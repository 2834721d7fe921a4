//! The lexical grammar, stated over byte sequences.
//!
//! `lex(s)` says what one call of the tokenizer yields on the unread stream
//! `s` and how many bytes of `s` that call retires. Bytes are written as
//! their ASCII codes.
use vstd::prelude::*;
use crate::token::{byte_chars, TokenView};

verus! {

/// The classes of bytes that make up a lexeme.
#[derive(Clone, Copy, PartialEq, Eq, Debug, Structural)]
pub enum ByteClass {
    /// Line feed, space and tab.
    Space,
    /// `0` to `9`.
    Digit,
    /// ASCII letters and digits: the bytes of a scalar.
    ScalarByte,
    /// ASCII letters, digits, `-` and `_`: the bytes of an anchor name.
    NameByte,
}

/// Whitespace between tokens.
pub open spec fn is_space(b: u8) -> bool {
    b == 0x0a || b == 0x20 || b == 0x09  // line feed, space, tab
}

/// A decimal digit.
pub open spec fn is_digit(b: u8) -> bool {
    0x30 <= b <= 0x39  // `0` to `9`
}

/// An ASCII letter.
pub open spec fn is_letter(b: u8) -> bool {
    (0x41 <= b <= 0x5a) || (0x61 <= b <= 0x7a)  // `A` to `Z`, `a` to `z`
}

/// Whether `b` belongs to `class`.
pub open spec fn in_class(class: ByteClass, b: u8) -> bool {
    match class {
        ByteClass::Space => is_space(b),
        ByteClass::Digit => is_digit(b),
        ByteClass::ScalarByte => is_letter(b) || is_digit(b),
        ByteClass::NameByte => is_letter(b) || is_digit(b) || b == 0x2d || b == 0x5f,
    }
}

/// The length of the longest prefix of `s` whose bytes are all in `class`.
pub open spec fn run(s: Seq<u8>, class: ByteClass) -> nat
    decreases s.len(),
{
    if s.len() > 0 && in_class(class, s[0]) {
        1 + run(s.skip(1), class)
    } else {
        0
    }
}

/// Whether `s` begins with `lit`.
pub open spec fn starts_with(s: Seq<u8>, lit: Seq<u8>) -> bool {
    lit.len() <= s.len() && s.subrange(0, lit.len() as int) == lit
}

/// The value of a run of decimal digits, most significant first.
pub open spec fn decimal(digits: Seq<u8>) -> nat
    decreases digits.len(),
{
    if digits.len() == 0 {
        0
    } else {
        decimal(digits.drop_last()) * 10 + (digits.last() - 0x30) as nat
    }
}

/// The two dashes that complete a `---` marker after its first dash.
pub open spec fn dashes() -> Seq<u8> {
    seq![0x2du8, 0x2du8]
}

/// The two dots that complete a `...` marker after its first dot.
pub open spec fn dots() -> Seq<u8> {
    seq![0x2eu8, 0x2eu8]
}

/// The dot between the two numbers of a version.
pub open spec fn dot() -> Seq<u8> {
    seq![0x2eu8]
}

/// `YAML ` (with its trailing space), the only directive name understood.
pub open spec fn yaml_keyword() -> Seq<u8> {
    seq![0x59u8, 0x41u8, 0x4du8, 0x4cu8, 0x20u8]
}

/// A result of `lex` preceded by `k` discarded bytes.
pub open spec fn after(k: nat, r: (Option<TokenView>, nat)) -> (Option<TokenView>, nat) {
    (r.0, k + r.1)
}

/// One call of the tokenizer on the unread stream `s`: the token it yields
/// (`None` once the stream is exhausted) and the number of bytes it retires.
/// Whitespace and comments are discarded before the token.
pub open spec fn lex(s: Seq<u8>) -> (Option<TokenView>, nat)
    decreases s.len(),
{
    if s.len() == 0 {
        (None, 0)
    } else if is_space(s[0]) {
        after(1, lex(s.skip(1)))
    } else if s[0] == 0x23 { // `#`
        after(1, lex_comment(s.skip(1)))
    } else {
        let (t, n) = lex_lexeme(s);
        (Some(t), n)
    }
}

/// The tokenizer inside a comment: bytes are discarded through the first line
/// feed, and lexing goes on after it.
pub open spec fn lex_comment(s: Seq<u8>) -> (Option<TokenView>, nat)
    decreases s.len(),
{
    if s.len() == 0 {
        (None, 0)
    } else if s[0] == 0x0a { // line feed
        after(1, lex(s.skip(1)))
    } else {
        after(1, lex_comment(s.skip(1)))
    }
}

/// The token that a single-byte indicator stands for.
pub open spec fn indicator(b: u8) -> Option<TokenView> {
    if b == 0x5b { // `[`
        Some(TokenView::SequenceStart)
    } else if b == 0x5d { // `]`
        Some(TokenView::SequenceEnd)
    } else if b == 0x7b { // `{`
        Some(TokenView::MappingStart)
    } else if b == 0x7d { // `}`
        Some(TokenView::MappingEnd)
    } else if b == 0x3a { // `:`
        Some(TokenView::MappingSeparator)
    } else if b == 0x2c { // `,`
        Some(TokenView::CollectionSeparator)
    } else if b == 0x3f { // `?`
        Some(TokenView::ComplexKey)
    } else if b == 0x21 { // `!`
        Some(TokenView::Tag)
    } else if b == 0x27 { // `'`
        Some(TokenView::SingleQuote)
    } else if b == 0x22 { // `"`
        Some(TokenView::DoubleQuote)
    } else if b == 0x7c { // `|`
        Some(TokenView::Literal)
    } else if b == 0x3e { // `>`
        Some(TokenView::Folded)
    } else {
        None
    }
}

/// A scalar: the longest run of letters and digits at the start of `s`
/// (possibly empty, in which case nothing is retired).
pub open spec fn lex_scalar(s: Seq<u8>) -> (TokenView, nat) {
    let k = run(s, ByteClass::ScalarByte);
    (TokenView::Scalar(byte_chars(s.take(k as int))), k)
}

/// An anchor or alias name: the longest run of name bytes at the start of `s`.
pub open spec fn name(s: Seq<u8>) -> Seq<char> {
    byte_chars(s.take(run(s, ByteClass::NameByte) as int))
}

/// A lexeme on a stream `s` that starts with neither whitespace nor `#`.
pub open spec fn lex_lexeme(s: Seq<u8>) -> (TokenView, nat)
    recommends
        s.len() > 0,
{
    let c = s[0];
    let rest = s.skip(1);
    if indicator(c) is Some {
        (indicator(c)->0, 1)
    } else if c == 0x2d { // `-`
        if starts_with(rest, dashes()) {
            (TokenView::DocumentStart, 3)
        } else {
            (TokenView::SequenceEntry, 1)
        }
    } else if c == 0x2e && starts_with(rest, dots()) { // `.`
        (TokenView::DocumentEnd, 3)
    } else if c == 0x26 { // `&`
        (TokenView::Anchor(name(rest)), 1 + run(rest, ByteClass::NameByte))
    } else if c == 0x2a { // `*`
        (TokenView::Alias(name(rest)), 1 + run(rest, ByteClass::NameByte))
    } else if c == 0x25 { // `%`
        let (t, n) = lex_directive(rest);
        (t, 1 + n)
    } else {
        lex_scalar(s)
    }
}

/// A decimal number at the start of `s`: its value, or `None` where there is
/// no digit or the value does not fit in `usize`, and the digits retired.
pub open spec fn lex_number(s: Seq<u8>) -> (Option<nat>, nat) {
    let k = run(s, ByteClass::Digit);
    let v = decimal(s.take(k as int));
    (if k == 0 || v > usize::MAX { None } else { Some(v) }, k)
}

/// `major.minor` at the start of `s`, and the bytes retired: retiring stops
/// at the first part that is missing.
pub open spec fn lex_version(s: Seq<u8>) -> (Option<(nat, nat)>, nat) {
    let (major, n1) = lex_number(s);
    let u = s.skip(n1 as int);
    match major {
        None => (None, n1),
        Some(a) => if !starts_with(u, dot()) {
            (None, n1)
        } else {
            let (minor, n2) = lex_number(u.skip(1));
            match minor {
                None => (None, n1 + 1 + n2),
                Some(b) => (Some((a, b)), n1 + 1 + n2),
            }
        },
    }
}

/// A directive after its `%`: `YAML major.minor` gives the version; anything
/// else gives `Other`, with the part that was read retired.
pub open spec fn lex_directive(s: Seq<u8>) -> (TokenView, nat) {
    if !starts_with(s, yaml_keyword()) {
        (TokenView::Other, 0)
    } else {
        let (v, n) = lex_version(s.skip(5));
        match v {
            Some((a, b)) => (TokenView::YamlDirective(a, b), 5 + n),
            None => (TokenView::Other, 5 + n),
        }
    }
}

/// The length of what is left of a comment on `s`: through the first line
/// feed, or all of `s` where it holds none.
pub open spec fn comment_len(s: Seq<u8>) -> nat
    decreases s.len(),
{
    if s.len() == 0 {
        0
    } else if s[0] == 0x0a { // line feed
        1
    } else {
        1 + comment_len(s.skip(1))
    }
}

/// The bytes of `s` up to `run(s, class)` are in `class`, and the byte after
/// them, if any, is not.
pub proof fn lemma_run(s: Seq<u8>, class: ByteClass)
    ensures
        run(s, class) <= s.len(),
        forall|i: int| 0 <= i < run(s, class) ==> in_class(class, #[trigger] s[i]),
        run(s, class) < s.len() ==> !in_class(class, s[run(s, class) as int]),
    decreases s.len(),
{
    if s.len() > 0 && in_class(class, s[0]) {
        lemma_run(s.skip(1), class);
        assert forall|i: int| 0 <= i < run(s, class) implies in_class(class, #[trigger] s[i]) by {
            if i > 0 {
                assert(s[i] == s.skip(1)[i - 1]);
            }
        }
    }
}

/// Discarding a run of whitespace before lexing changes only the count.
pub proof fn lemma_lex_spaces(s: Seq<u8>)
    ensures
        run(s, ByteClass::Space) <= s.len(),
        lex(s) == after(
            run(s, ByteClass::Space),
            lex(s.skip(run(s, ByteClass::Space) as int)),
        ),
    decreases s.len(),
{
    if s.len() > 0 && is_space(s[0]) {
        let t = s.skip(1);
        lemma_lex_spaces(t);
        assert(t.skip(run(t, ByteClass::Space) as int) =~= s.skip(run(s, ByteClass::Space) as int));
    } else {
        assert(s.skip(0) =~= s);
    }
}

/// Discarding the rest of a comment before lexing changes only the count.
pub proof fn lemma_lex_comment(s: Seq<u8>)
    ensures
        comment_len(s) <= s.len(),
        lex_comment(s) == after(comment_len(s), lex(s.skip(comment_len(s) as int))),
    decreases s.len(),
{
    if s.len() == 0 {
        assert(s.skip(0) =~= s);
    } else if s[0] != 0x0a {
        let t = s.skip(1);
        lemma_lex_comment(t);
        assert(t.skip(comment_len(t) as int) =~= s.skip(comment_len(s) as int));
    }
}

/// A prefix of a run of digits has a value no larger than the whole run.
pub proof fn lemma_decimal_prefix(d: Seq<u8>, i: int)
    requires
        0 <= i <= d.len(),
    ensures
        decimal(d.take(i)) <= decimal(d),
    decreases d.len(),
{
    if i < d.len() {
        lemma_decimal_prefix(d.drop_last(), i);
        assert(d.drop_last().take(i) =~= d.take(i));
    } else {
        assert(d.take(i) =~= d);
    }
}

/// Skipping `a` bytes and then `b` more is skipping `a + b`.
pub proof fn lemma_skip_skip(s: Seq<u8>, a: int, b: int)
    requires
        0 <= a,
        0 <= b,
        a + b <= s.len(),
    ensures
        s.skip(a).skip(b) == s.skip(a + b),
{
    assert(s.skip(a).skip(b) =~= s.skip(a + b));
}

/// A version never retires more bytes than the stream holds.
pub proof fn lemma_version_bound(s: Seq<u8>)
    ensures
        lex_version(s).1 <= s.len(),
{
    lemma_run(s, ByteClass::Digit);
    let n1 = run(s, ByteClass::Digit) as int;
    let u = s.skip(n1);
    if starts_with(u, dot()) {
        lemma_run(u.skip(1), ByteClass::Digit);
    }
}

/// A comment's remainder ends with its line feed, or runs to the end of `s`.
pub proof fn lemma_comment_end(s: Seq<u8>)
    ensures
        comment_len(s) <= s.len(),
        (comment_len(s) >= 1 && s[comment_len(s) - 1] == 0x0a) || comment_len(s) == s.len(),
    decreases s.len(),
{
    if s.len() > 0 && s[0] != 0x0a {
        lemma_comment_end(s.skip(1));
    }
}

/// Cutting `s` after the line feed that ends a comment leaves its length as
/// it is.
pub proof fn lemma_comment_len_prefix(s: Seq<u8>, m: int)
    requires
        comment_len(s) <= m <= s.len(),
        comment_len(s) >= 1,
        s[comment_len(s) - 1] == 0x0a,
    ensures
        comment_len(s.take(m)) == comment_len(s),
    decreases s.len(),
{
    if s[0] != 0x0a {
        lemma_comment_len_prefix(s.skip(1), m - 1);
        assert(s.take(m).skip(1) =~= s.skip(1).take(m - 1));
    }
}

} // verus!
