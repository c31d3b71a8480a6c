//! The values that a parse yields, the errors it reports, and their
//! mathematical views.
use vstd::prelude::*;

verus! {

/// One morpheme line of a chunk: its surface form and its feature string.
#[derive(Debug, Clone, PartialEq, Eq)]
pub struct Token {
    pub surface: String,
    pub feature: String,
}

/// A chunk (bunsetsu) of a parsed sentence.
#[derive(Debug, Clone, PartialEq, Eq)]
pub struct Chunk {
    pub id: usize,
    /// The id of the chunk that this chunk depends on; `-1` for the root.
    pub head: isize,
    /// The dependency type (such as `'D'`); `None` where it is unknown.
    pub dep_type: Option<char>,
    pub tokens: Vec<Token>,
}

/// A sentence as a list of chunks, in the order of the input.
#[derive(Debug, Clone, PartialEq, Eq)]
pub struct ParsedSentence {
    pub chunks: Vec<Chunk>,
}

/// A string that held a NUL byte where a C string was needed.
#[derive(Debug, Clone, PartialEq, Eq)]
pub struct NulByteError {
    /// The byte offset of the first NUL byte.
    pub position: usize,
    /// The bytes of the string.
    pub bytes: Vec<u8>,
}

/// The errors of the J.DepP engine itself.
#[derive(Debug)]
pub enum Error {
    NullInstance,
    Nul(NulByteError),
    SentenceNull,
    SentenceStrNull,
}

/// The errors of turning J.DepP output into a [`ParsedSentence`].
#[derive(Debug)]
pub enum ParseError {
    Jdepp(Error),
    NoChunks,
    UnexpectedTokenLine { line: String },
    InvalidChunkHeader { line: String },
    InvalidHead { line: String },
}

/// The view of a [`Token`].
pub struct TokenView {
    pub surface: Seq<char>,
    pub feature: Seq<char>,
}

/// The view of a [`Chunk`].
pub struct ChunkView {
    pub id: usize,
    pub head: isize,
    pub dep_type: Option<char>,
    pub tokens: Seq<TokenView>,
}

/// The view of an [`Error`].
pub enum ErrorView {
    NullInstance,
    Nul { position: usize, bytes: Seq<u8> },
    SentenceNull,
    SentenceStrNull,
}

/// The view of a [`ParseError`].
pub enum ParseErrorView {
    Jdepp(ErrorView),
    NoChunks,
    UnexpectedTokenLine { line: Seq<char> },
    InvalidChunkHeader { line: Seq<char> },
    InvalidHead { line: Seq<char> },
}

impl View for Token {
    type V = TokenView;

    open spec fn view(&self) -> TokenView {
        TokenView { surface: self.surface@, feature: self.feature@ }
    }
}

/// The views of a sequence of tokens.
pub open spec fn tokens_view(tokens: Seq<Token>) -> Seq<TokenView> {
    tokens.map_values(|t: Token| t@)
}

impl View for Chunk {
    type V = ChunkView;

    open spec fn view(&self) -> ChunkView {
        ChunkView {
            id: self.id,
            head: self.head,
            dep_type: self.dep_type,
            tokens: tokens_view(self.tokens@),
        }
    }
}

/// The views of a sequence of chunks.
pub open spec fn chunks_view(chunks: Seq<Chunk>) -> Seq<ChunkView> {
    chunks.map_values(|c: Chunk| c@)
}

impl View for ParsedSentence {
    type V = Seq<ChunkView>;

    open spec fn view(&self) -> Seq<ChunkView> {
        chunks_view(self.chunks@)
    }
}

impl View for Error {
    type V = ErrorView;

    open spec fn view(&self) -> ErrorView {
        match self {
            Error::NullInstance => ErrorView::NullInstance,
            Error::Nul(e) => ErrorView::Nul { position: e.position, bytes: e.bytes@ },
            Error::SentenceNull => ErrorView::SentenceNull,
            Error::SentenceStrNull => ErrorView::SentenceStrNull,
        }
    }
}

impl View for ParseError {
    type V = ParseErrorView;

    open spec fn view(&self) -> ParseErrorView {
        match self {
            ParseError::Jdepp(e) => ParseErrorView::Jdepp(e@),
            ParseError::NoChunks => ParseErrorView::NoChunks,
            ParseError::UnexpectedTokenLine { line } => ParseErrorView::UnexpectedTokenLine {
                line: line@,
            },
            ParseError::InvalidChunkHeader { line } => ParseErrorView::InvalidChunkHeader {
                line: line@,
            },
            ParseError::InvalidHead { line } => ParseErrorView::InvalidHead { line: line@ },
        }
    }
}

/// The view of the outcome of a parse.
pub open spec fn parse_result_view(r: Result<ParsedSentence, ParseError>) -> Result<
    Seq<ChunkView>,
    ParseErrorView,
> {
    match r {
        Ok(s) => Ok(s@),
        Err(e) => Err(e@),
    }
}

} // verus!
