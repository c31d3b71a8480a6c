//! The CaboCha output format as J.DepP prints it, and its parser.
//!
//! The text is read line by line.  Each line is first stripped of its
//! trailing whitespace; then
//! - an empty line, or one that starts with `#`, is skipped;
//! - the line `EOS` ends the sentence, and nothing after it is read;
//! - a line that starts with `*` is a chunk header `* <id> <auto>`, where the
//!   last field `<auto>` is `<head><type>` followed by an optional
//!   `@<probability>`, which is ignored (so `* 1 4D@0.98` is chunk 1,
//!   depending on chunk 4 with type `D`, and `* 4 -1D` is the root);
//! - any other line is a morpheme of the current chunk: its surface form up to
//!   the first whitespace, and the rest, trimmed, as its feature string.
use vstd::prelude::*;
use crate::text::{
    chars_of, find_char, parse_isize_at, parse_isize_spec, parse_usize_at,
    parse_usize_spec, span_until, spans_view, split_words, trim, trim_end, trim_end_at,
    trim_start_at, word_end, word_len, words, lines,
};
use crate::types::{
    chunks_view, parse_result_view, tokens_view, Chunk, ChunkView, ParseError, ParseErrorView,
    ParsedSentence, Token, TokenView, Error,
};

verus! {

/// What has been read so far: the finished chunks and the open one.
pub struct ParseState {
    pub chunks: Seq<ChunkView>,
    pub current: Option<ChunkView>,
}

/// The state before the first line.
pub open spec fn initial_state() -> ParseState {
    ParseState { chunks: Seq::empty(), current: None }
}

/// The line that closes a sentence.
pub open spec fn eos_line() -> Seq<char> {
    seq!['E', 'O', 'S']
}

/// The finished chunks followed by the open one, if any.
pub open spec fn all_chunks(st: ParseState) -> Seq<ChunkView> {
    match st.current {
        Some(c) => st.chunks.push(c),
        None => st.chunks,
    }
}

/// `s` up to its first `@` (all of `s` where there is none).
pub open spec fn before_at(s: Seq<char>) -> Seq<char> {
    s.take(span_until(s, '@') as int)
}

/// The chunk that a header line `line` (starting with `*`) opens.
pub open spec fn header_chunk(line: Seq<char>) -> Result<ChunkView, ParseErrorView> {
    let fields = words(line.drop_first());
    if fields.len() < 2 {
        Err(ParseErrorView::InvalidChunkHeader { line })
    } else {
        match parse_usize_spec(fields[0]) {
            None => Err(ParseErrorView::InvalidChunkHeader { line }),
            Some(id) => {
                let auto = before_at(fields.last());
                if auto.len() < 2 {
                    Err(ParseErrorView::InvalidHead { line })
                } else {
                    match parse_isize_spec(auto.drop_last()) {
                        None => Err(ParseErrorView::InvalidHead { line }),
                        Some(head) => Ok(
                            ChunkView {
                                id,
                                head,
                                dep_type: Some(auto.last()),
                                tokens: Seq::empty(),
                            },
                        ),
                    }
                }
            },
        }
    }
}

/// The token that a morpheme line stands for.
pub open spec fn line_token(line: Seq<char>) -> TokenView {
    let n = word_len(line) as int;
    TokenView { surface: line.take(n), feature: trim(line.skip(n)) }
}

/// The effect of one line (already stripped of trailing whitespace, and not
/// `EOS`) on the state.
pub open spec fn step(st: ParseState, line: Seq<char>) -> Result<ParseState, ParseErrorView> {
    if line.len() == 0 || line[0] == '#' {
        Ok(st)
    } else if line[0] == '*' {
        match header_chunk(line) {
            Ok(c) => Ok(ParseState { chunks: all_chunks(st), current: Some(c) }),
            Err(e) => Err(e),
        }
    } else {
        match st.current {
            None => Err(ParseErrorView::UnexpectedTokenLine { line }),
            Some(c) => Ok(
                ParseState {
                    chunks: st.chunks,
                    current: Some(
                        ChunkView {
                            id: c.id,
                            head: c.head,
                            dep_type: c.dep_type,
                            tokens: c.tokens.push(line_token(line)),
                        },
                    ),
                },
            ),
        }
    }
}

/// Reads the lines `ls` from the state `st`, up to the first `EOS` line.
pub open spec fn run(st: ParseState, ls: Seq<Seq<char>>) -> Result<ParseState, ParseErrorView>
    decreases ls.len(),
{
    if ls.len() == 0 {
        Ok(st)
    } else {
        let line = trim_end(ls[0]);
        if line == eos_line() {
            Ok(st)
        } else {
            match step(st, line) {
                Ok(next) => run(next, ls.drop_first()),
                Err(e) => Err(e),
            }
        }
    }
}

/// The sentence that the final state stands for.
pub open spec fn finish(st: ParseState) -> Result<Seq<ChunkView>, ParseErrorView> {
    let chunks = all_chunks(st);
    if chunks.len() == 0 {
        Err(ParseErrorView::NoChunks)
    } else {
        Ok(chunks)
    }
}

/// The outcome of parsing the text `s`.
pub open spec fn cabocha(s: Seq<char>) -> Result<Seq<ChunkView>, ParseErrorView> {
    match run(initial_state(), lines(s)) {
        Ok(st) => finish(st),
        Err(e) => Err(e),
    }
}

/// The view of the parser's working state.
pub open spec fn state_of(chunks: Seq<Chunk>, current: Option<Chunk>) -> ParseState {
    ParseState {
        chunks: chunks_view(chunks),
        current: match current {
            Some(c) => Some(c@),
            None => None,
        },
    }
}

/// The text `output[lo..hi]` (counted in characters) as a `String`.
fn text_of(output: &str, chars: &Vec<char>, lo: usize, hi: usize) -> (r: String)
    requires
        chars@ == output@,
        lo <= hi <= chars@.len(),
    ensures
        r@ == chars@.subrange(lo as int, hi as int),
{
    output.substring_char(lo, hi).to_owned()
}

/// The token of the morpheme line `chars[lo..hi]`.
fn read_token(output: &str, chars: &Vec<char>, lo: usize, hi: usize) -> (t: Token)
    requires
        chars@ == output@,
        lo <= hi <= chars@.len(),
    ensures
        t@ == line_token(chars@.subrange(lo as int, hi as int)),
{
    let ghost line = chars@.subrange(lo as int, hi as int);
    let n = word_end(chars, lo, hi);
    let fe = trim_end_at(chars, n, hi);
    let fs = trim_start_at(chars, n, fe);
    assert(line.take(n - lo) =~= chars@.subrange(lo as int, n as int));
    assert(line.skip(n - lo) =~= chars@.subrange(n as int, hi as int));
    Token { surface: text_of(output, chars, lo, n), feature: text_of(output, chars, fs, fe) }
}

/// The chunk that the header line `chars[lo..hi]` opens.
fn read_header(output: &str, chars: &Vec<char>, lo: usize, hi: usize) -> (r: Result<
    Chunk,
    ParseError,
>)
    requires
        chars@ == output@,
        lo < hi <= chars@.len(),
    ensures
        match header_chunk(chars@.subrange(lo as int, hi as int)) {
            Ok(c) => r matches Ok(x) && x@ == c,
            Err(e) => r matches Err(x) && x@ == e,
        },
{
    let ghost line = chars@.subrange(lo as int, hi as int);
    assert(line.drop_first() =~= chars@.subrange(lo + 1, hi as int));
    let fields = split_words(chars, lo + 1, hi);
    let ghost fv = spans_view(chars@, fields@);
    if fields.len() < 2 {
        return Err(ParseError::InvalidChunkHeader { line: text_of(output, chars, lo, hi) });
    }
    let (a0, b0) = fields[0];
    assert(fv[0] == chars@.subrange(a0 as int, b0 as int));
    let id = match parse_usize_at(chars, a0, b0) {
        Some(v) => v,
        None => {
            return Err(ParseError::InvalidChunkHeader { line: text_of(output, chars, lo, hi) });
        },
    };
    let (a1, b1) = fields[fields.len() - 1];
    assert(fv.last() == chars@.subrange(a1 as int, b1 as int));
    let at = find_char(chars, a1, b1, '@');
    assert(before_at(fv.last()) =~= chars@.subrange(a1 as int, at as int));
    if at - a1 < 2 {
        return Err(ParseError::InvalidHead { line: text_of(output, chars, lo, hi) });
    }
    assert(chars@.subrange(a1 as int, at as int).drop_last() =~= chars@.subrange(
        a1 as int,
        at - 1,
    ));
    let head = match parse_isize_at(chars, a1, at - 1) {
        Some(v) => v,
        None => {
            return Err(ParseError::InvalidHead { line: text_of(output, chars, lo, hi) });
        },
    };
    let tokens: Vec<Token> = Vec::new();
    assert(tokens_view(tokens@) =~= Seq::<TokenView>::empty());
    Ok(Chunk { id, head, dep_type: Some(chars[at - 1]), tokens })
}

/// Applies the line `chars[lo..hi]` (stripped of trailing whitespace, not
/// `EOS`) to the working state.
fn read_line(
    output: &str,
    chars: &Vec<char>,
    lo: usize,
    hi: usize,
    chunks: Vec<Chunk>,
    current: Option<Chunk>,
) -> (r: Result<(Vec<Chunk>, Option<Chunk>), ParseError>)
    requires
        chars@ == output@,
        lo <= hi <= chars@.len(),
    ensures
        match step(state_of(chunks@, current), chars@.subrange(lo as int, hi as int)) {
            Ok(st) => r matches Ok(next) && state_of(next.0@, next.1) == st,
            Err(e) => r matches Err(x) && x@ == e,
        },
{
    let ghost line = chars@.subrange(lo as int, hi as int);
    if lo == hi || chars[lo] == '#' {
        return Ok((chunks, current));
    }
    assert(line[0] == chars@[lo as int]);
    if chars[lo] == '*' {
        let chunk = read_header(output, chars, lo, hi)?;
        let mut chunks = chunks;
        match current {
            Some(c) => {
                let ghost before = chunks@;
                chunks.push(c);
                assert(chunks_view(chunks@) =~= chunks_view(before).push(c@));
            },
            None => {},
        }
        return Ok((chunks, Some(chunk)));
    }
    match current {
        None => Err(ParseError::UnexpectedTokenLine { line: text_of(output, chars, lo, hi) }),
        Some(c) => {
            let mut c = c;
            let tok = read_token(output, chars, lo, hi);
            let ghost before = c.tokens@;
            c.tokens.push(tok);
            assert(tokens_view(c.tokens@) =~= tokens_view(before).push(tok@));
            Ok((chunks, Some(c)))
        },
    }
}

/// Parses the CaboCha-format output of J.DepP into chunks and tokens.
///
/// Examples of chunk headers:
/// - `* 1 4D`: chunk 1 depends on chunk 4 (`D`: dependency);
/// - `* 4 -1D`: chunk 4 is the root (it depends on no chunk).
pub fn parse_cabocha_like(output: &str) -> (res: Result<ParsedSentence, ParseError>)
    ensures
        parse_result_view(res) == cabocha(output@),
{
    let chars = chars_of(output);
    let n = chars.len();
    let mut chunks: Vec<Chunk> = Vec::new();
    let mut current: Option<Chunk> = None;
    let mut i: usize = 0;
    assert(chars@.subrange(0, n as int) =~= output@);
    assert(chunks_view(chunks@) =~= Seq::<ChunkView>::empty());
    loop
        invariant_except_break
            run(initial_state(), lines(output@)) == run(
                state_of(chunks@, current),
                lines(chars@.subrange(i as int, n as int)),
            ),
        invariant
            i <= n == chars@.len(),
            chars@ == output@,
        ensures
            run(initial_state(), lines(output@)) == Ok::<ParseState, ParseErrorView>(
                state_of(chunks@, current),
            ),
        decreases n - i,
    {
        let e = find_char(&chars, i, n, '\n');
        let t = trim_end_at(&chars, i, e);
        let ghost rest = chars@.subrange(i as int, n as int);
        let ghost line = chars@.subrange(i as int, t as int);
        proof {
            if e == n {
                assert(rest =~= chars@.subrange(i as int, e as int));
                assert(lines(rest) == seq![chars@.subrange(i as int, e as int)]);
            } else {
                assert(rest.take(e - i) =~= chars@.subrange(i as int, e as int));
                assert(rest.skip(e - i + 1) =~= chars@.subrange(e + 1, n as int));
            }
            assert(lines(rest)[0] == chars@.subrange(i as int, e as int));
            assert(lines(rest).drop_first() =~= (if e == n {
                Seq::<Seq<char>>::empty()
            } else {
                lines(chars@.subrange(e + 1, n as int))
            }));
        }
        if t - i == 3 && chars[i] == 'E' && chars[i + 1] == 'O' && chars[i + 2] == 'S' {
            assert(line =~= eos_line());
            break ;
        }
        assert(line != eos_line()) by {
            if line.len() == 3 {
                assert(line[0] == chars@[i as int]);
                assert(line[1] == chars@[i + 1]);
                assert(line[2] == chars@[i + 2]);
            }
        }
        let (next_chunks, next_current) = read_line(output, &chars, i, t, chunks, current)?;
        chunks = next_chunks;
        current = next_current;
        if e == n {
            assert(lines(rest).drop_first() =~= Seq::<Seq<char>>::empty());
            assert(run(state_of(chunks@, current), lines(rest).drop_first()) == Ok::<
                ParseState,
                ParseErrorView,
            >(state_of(chunks@, current)));
            break ;
        }
        i = e + 1;
    }
    let mut chunks = chunks;
    match current {
        Some(c) => {
            let ghost before = chunks@;
            chunks.push(c);
            assert(chunks_view(chunks@) =~= chunks_view(before).push(c@));
        },
        None => {},
    }
    if chunks.len() == 0 {
        return Err(ParseError::NoChunks);
    }
    Ok(ParsedSentence { chunks })
}

/// Turns what the engine answered into a sentence: the text it printed is
/// parsed, and an engine error becomes [`ParseError::Jdepp`].
pub fn parse_jdepp_output(raw: Result<String, Error>) -> (res: Result<ParsedSentence, ParseError>)
    ensures
        parse_result_view(res) == match raw {
            Ok(out) => cabocha(out@),
            Err(e) => Err(ParseErrorView::Jdepp(e@)),
        },
{
    match raw {
        Ok(out) => parse_cabocha_like(out.as_str()),
        Err(e) => Err(ParseError::Jdepp(e)),
    }
}

} // verus!
