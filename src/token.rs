//! Tokens and their mathematical model.
use vstd::prelude::*;

verus! {

/// The version named by a `%YAML major.minor` directive.
#[derive(Clone, Copy, PartialEq, Eq, Debug, Structural)]
pub struct YamlVersion {
    pub major: usize,
    pub minor: usize,
}

/// The kinds of line break that YAML distinguishes.
#[derive(Clone, Copy, PartialEq, Eq, Debug, Structural)]
pub enum LineBreakType {
    Generic,
    LineSeparator,
    ParagraphSeparator,
}

/// One lexical token of the stream.
#[derive(PartialEq, Debug)]
pub enum Token {
    /// `[`: the start of a flow sequence.
    SequenceStart,
    /// `]`: the end of a flow sequence.
    SequenceEnd,
    /// `{`: the start of a flow mapping.
    MappingStart,
    /// `}`: the end of a flow mapping.
    MappingEnd,
    /// `-`: an entry of a sequence.
    SequenceEntry,
    /// `:`: separates a key from its value.
    MappingSeparator,
    /// `,`: separates the entries of a flow collection.
    CollectionSeparator,
    /// `?`: a complex (non-scalar) key.
    ComplexKey,
    /// `!`: a tag property.
    Tag,
    /// `&name`: an anchor definition.
    Anchor(String),
    /// `*name`: a use of an anchor.
    Alias(String),
    /// `|`: a literal block scalar.
    Literal,
    /// `>`: a folded block scalar.
    Folded,
    /// `'`: a single quote.
    SingleQuote,
    /// `"`: a double quote.
    DoubleQuote,
    /// `#`: a comment.
    Comment,
    /// `%YAML major.minor`: a version directive.
    YamlDirective(YamlVersion),
    /// `@` or `` ` ``: reserved for future use.
    Reserved,
    /// `---`: the start of a document.
    DocumentStart,
    /// `...`: the end of a document.
    DocumentEnd,
    /// A bare run of letters and digits.
    Scalar(String),
    /// A construct the tokenizer does not support, such as a directive other
    /// than a well-formed `%YAML major.minor`.
    Other,
}

/// The mathematical value of a [`Token`]: text payloads become sequences of
/// characters and the version becomes a pair of naturals.
pub ghost enum TokenView {
    SequenceStart,
    SequenceEnd,
    MappingStart,
    MappingEnd,
    SequenceEntry,
    MappingSeparator,
    CollectionSeparator,
    ComplexKey,
    Tag,
    Anchor(Seq<char>),
    Alias(Seq<char>),
    Literal,
    Folded,
    SingleQuote,
    DoubleQuote,
    Comment,
    YamlDirective(nat, nat),
    Reserved,
    DocumentStart,
    DocumentEnd,
    Scalar(Seq<char>),
    Other,
}

impl View for Token {
    type V = TokenView;

    open spec fn view(&self) -> TokenView {
        match self {
            Token::SequenceStart => TokenView::SequenceStart,
            Token::SequenceEnd => TokenView::SequenceEnd,
            Token::MappingStart => TokenView::MappingStart,
            Token::MappingEnd => TokenView::MappingEnd,
            Token::SequenceEntry => TokenView::SequenceEntry,
            Token::MappingSeparator => TokenView::MappingSeparator,
            Token::CollectionSeparator => TokenView::CollectionSeparator,
            Token::ComplexKey => TokenView::ComplexKey,
            Token::Tag => TokenView::Tag,
            Token::Anchor(name) => TokenView::Anchor(name@),
            Token::Alias(name) => TokenView::Alias(name@),
            Token::Literal => TokenView::Literal,
            Token::Folded => TokenView::Folded,
            Token::SingleQuote => TokenView::SingleQuote,
            Token::DoubleQuote => TokenView::DoubleQuote,
            Token::Comment => TokenView::Comment,
            Token::YamlDirective(v) => TokenView::YamlDirective(v.major as nat, v.minor as nat),
            Token::Reserved => TokenView::Reserved,
            Token::DocumentStart => TokenView::DocumentStart,
            Token::DocumentEnd => TokenView::DocumentEnd,
            Token::Scalar(text) => TokenView::Scalar(text@),
            Token::Other => TokenView::Other,
        }
    }
}

/// The model of an optional token, as the tokenizer hands it out.
pub open spec fn token_view(t: Option<Token>) -> Option<TokenView> {
    match t {
        Some(tok) => Some(tok@),
        None => None,
    }
}

/// The characters that a run of bytes stands for, one character per byte.
pub open spec fn byte_chars(bytes: Seq<u8>) -> Seq<char> {
    bytes.map_values(|b: u8| b as char)
}

} // verus!
