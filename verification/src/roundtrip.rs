//! Writing a sentence in the CaboCha format and parsing the text gives the
//! sentence back: every header yields its chunk with the id, head and type
//! written in it, every morpheme line yields its token, in order, and no
//! chunk or token is lost or added.
use vstd::prelude::*;
use crate::text::{
    all_digits, decimal_value, digit_value, is_digit, is_ws, lines, parse_isize_spec,
    parse_usize_spec, trim, trim_end, trim_start, word_len, words,
};
use crate::cabocha::{
    all_chunks, before_at, cabocha, eos_line, finish, header_chunk, initial_state, line_token, run,
    step, ParseState,
};
use crate::laws::{
    at_line_end, at_line_start, lemma_lines_after, lemma_word_prefix, lemma_before_at_plain, lemma_lines_single, lemma_run_blank, lemma_word_len_past,
    lemma_words_two, no_whitespace, single_line,
};
use crate::message::{decimal, digit_char};
use crate::types::{ChunkView, ParseErrorView, TokenView};

verus! {

/// An integer written in decimal, with a `-` in front where it is negative.
pub open spec fn signed_decimal(m: int) -> Seq<char> {
    if m < 0 {
        seq!['-'] + decimal((-m) as nat)
    } else {
        decimal(m as nat)
    }
}

/// The header line of a chunk: `* <id> <head><type>`.
pub open spec fn header_text(c: ChunkView) -> Seq<char> {
    seq!['*', ' '] + decimal(c.id as nat) + seq![' '] + signed_decimal(c.head as int) + match c.dep_type {
        Some(d) => seq![d],
        None => Seq::empty(),
    }
}

/// The morpheme line of a token: its surface form, then a tab and its
/// feature string where that is not empty.
pub open spec fn morpheme_text(t: TokenView) -> Seq<char> {
    if t.feature.len() == 0 {
        t.surface
    } else {
        t.surface + seq!['\t'] + t.feature
    }
}

/// The lines of a chunk: its header, then one line per token.
pub open spec fn chunk_lines(c: ChunkView) -> Seq<Seq<char>> {
    seq![header_text(c)] + c.tokens.map_values(|t: TokenView| morpheme_text(t))
}

/// The lines of a sentence: those of its chunks, in order.
pub open spec fn sentence_lines(cs: Seq<ChunkView>) -> Seq<Seq<char>>
    decreases cs.len(),
{
    if cs.len() == 0 {
        Seq::empty()
    } else {
        sentence_lines(cs.drop_last()) + chunk_lines(cs.last())
    }
}

/// Lines joined into text, each ended by a line feed.
pub open spec fn join_lines(ls: Seq<Seq<char>>) -> Seq<char>
    decreases ls.len(),
{
    if ls.len() == 0 {
        Seq::empty()
    } else {
        ls[0] + seq!['\n'] + join_lines(ls.drop_first())
    }
}

/// A sentence written in the CaboCha format.
pub open spec fn render(cs: Seq<ChunkView>) -> Seq<char> {
    join_lines(sentence_lines(cs))
}

/// A token that its morpheme line stands for unambiguously: a non-empty
/// surface form without whitespace that does not start a header (`*`) or a
/// comment (`#`), and a feature string on one line that neither starts nor
/// ends with whitespace; a lone surface form is not `EOS`.
pub open spec fn token_writable(t: TokenView) -> bool {
    &&& t.surface.len() > 0
    &&& no_whitespace(t.surface)
    &&& t.surface[0] != '#'
    &&& t.surface[0] != '*'
    &&& single_line(t.feature)
    &&& t.feature.len() > 0 ==> !is_ws(t.feature[0]) && !is_ws(t.feature.last())
    &&& t.feature.len() == 0 ==> t.surface != eos_line()
}

/// A chunk that its lines stand for unambiguously: its type is a character
/// other than whitespace and `@`, and its tokens are writable.
pub open spec fn chunk_writable(c: ChunkView) -> bool {
    &&& c.dep_type matches Some(d) && !is_ws(d) && d != '@'
    &&& forall|k: int| 0 <= k < c.tokens.len() ==> token_writable(#[trigger] c.tokens[k])
}

proof fn lemma_digit_char(d: int)
    requires
        0 <= d < 10,
    ensures
        is_digit(digit_char(d)),
        digit_value(digit_char(d)) == d,
{
    let t = seq!['0', '1', '2', '3', '4', '5', '6', '7', '8', '9'];
    assert(digit_char(d) == t[d]);
    if d == 0 {
        assert(t[0] == '0');
    } else if d == 1 {
        assert(t[1] == '1');
    } else if d == 2 {
        assert(t[2] == '2');
    } else if d == 3 {
        assert(t[3] == '3');
    } else if d == 4 {
        assert(t[4] == '4');
    } else if d == 5 {
        assert(t[5] == '5');
    } else if d == 6 {
        assert(t[6] == '6');
    } else if d == 7 {
        assert(t[7] == '7');
    } else if d == 8 {
        assert(t[8] == '8');
    } else {
        assert(t[9] == '9');
    }
}

/// `decimal(n)` is a non-empty run of digits that writes `n`.
proof fn lemma_decimal_reads(n: nat)
    ensures
        decimal(n).len() > 0,
        all_digits(decimal(n)),
        decimal_value(decimal(n)) == n,
    decreases n,
{
    if n < 10 {
        lemma_digit_char(n as int);
        assert(decimal(n) =~= seq![digit_char(n as int)]);
        assert(decimal(n).drop_last() =~= Seq::<char>::empty());
        assert(decimal_value(Seq::<char>::empty()) == 0);
        assert(decimal(n).last() == digit_char(n as int));
        assert(decimal_value(decimal(n)) == decimal_value(decimal(n).drop_last()) * 10
            + digit_value(decimal(n).last()));
    } else {
        lemma_decimal_reads(n / 10);
        lemma_digit_char((n % 10) as int);
        let s = decimal(n);
        let p = decimal(n / 10);
        assert(s =~= p.push(digit_char((n % 10) as int)));
        assert(s.drop_last() =~= p);
        assert(s.last() == digit_char((n % 10) as int));
        assert(decimal_value(s) == decimal_value(s.drop_last()) * 10 + digit_value(s.last()));
        assert((n / 10) * 10 + n % 10 == n);
        assert forall|i: int| 0 <= i < s.len() implies is_digit(#[trigger] s[i]) by {
            if i < p.len() {
                assert(s[i] == p[i]);
            }
        }
    }
}

proof fn lemma_decimal_no_whitespace(n: nat)
    ensures
        no_whitespace(decimal(n)),
        forall|i: int| 0 <= i < decimal(n).len() ==> decimal(n)[i] != '@' && decimal(n)[i] != '\n',
{
    lemma_decimal_reads(n);
    assert forall|i: int| 0 <= i < decimal(n).len() implies !is_ws(#[trigger] decimal(n)[i]) && decimal(n)[i] != '@' && decimal(n)[i] != '\n' by {
        assert(is_digit(decimal(n)[i]));
    }
}

/// Reading the decimal text of a `usize` gives it back.
pub proof fn law_usize_reads_back(n: usize)
    ensures
        parse_usize_spec(decimal(n as nat)) == Some(n),
{
    lemma_decimal_reads(n as nat);
    assert(is_digit(decimal(n as nat)[0]));
}

/// Reading the decimal text of an `isize` gives it back.
pub proof fn law_isize_reads_back(m: isize)
    ensures
        parse_isize_spec(signed_decimal(m as int)) == Some(m),
{
    if m < 0 {
        let d = decimal((-m) as nat);
        lemma_decimal_reads((-m) as nat);
        let s = seq!['-'] + d;
        assert(s.drop_first() =~= d);
        assert(s[0] == '-');
    } else {
        lemma_decimal_reads(m as nat);
        assert(is_digit(decimal(m as nat)[0]));
    }
}

proof fn lemma_signed_text(m: int)
    ensures
        signed_decimal(m).len() > 0,
        no_whitespace(signed_decimal(m)),
        forall|i: int|
            0 <= i < signed_decimal(m).len() ==> signed_decimal(m)[i] != '@' && signed_decimal(m)[i]
                != '\n',
{
    if m < 0 {
        let d = decimal((-m) as nat);
        lemma_decimal_no_whitespace((-m) as nat);
        let s = seq!['-'] + d;
        assert forall|i: int| 0 <= i < s.len() implies !is_ws(#[trigger] s[i]) && s[i] != '@' && s[i] != '\n' by {
            if i > 0 {
                assert(s[i] == d[i - 1]);
            }
        }
    } else {
        lemma_decimal_reads(m as nat);
        lemma_decimal_no_whitespace(m as nat);
    }
}

/// The header line of a writable chunk is read back as that chunk, with
/// no tokens yet.
proof fn lemma_header_reads_back(c: ChunkView)
    requires
        chunk_writable(c),
    ensures
        header_text(c).len() > 0,
        header_text(c)[0] == '*',
        single_line(header_text(c)),
        trim_end(header_text(c)) == header_text(c),
        header_chunk(header_text(c)) == Ok::<ChunkView, ParseErrorView>(
            ChunkView { id: c.id, head: c.head, dep_type: c.dep_type, tokens: Seq::empty() },
        ),
{
    let d = c.dep_type->0;
    let id = decimal(c.id as nat);
    let sd = signed_decimal(c.head as int);
    let auto = sd + seq![d];
    let h = header_text(c);
    lemma_decimal_reads(c.id as nat);
    lemma_decimal_no_whitespace(c.id as nat);
    lemma_signed_text(c.head as int);
    assert(h =~= seq!['*', ' '] + id + seq![' '] + auto);
    assert forall|i: int| 0 <= i < auto.len() implies !is_ws(#[trigger] auto[i]) && auto[i] != '@' && auto[i] != '\n' by {
        if i < sd.len() {
            assert(auto[i] == sd[i]);
        }
    }
    assert forall|i: int| 0 <= i < h.len() implies h[i] != '\n' by {
        if 2 <= i < 2 + id.len() {
            assert(h[i] == id[i - 2]);
        } else if i >= 3 + id.len() {
            assert(h[i] == auto[i - 3 - id.len()]);
        }
    }
    assert(h.last() == d);
    assert(trim_end(h) == h);
    assert(h.drop_first() =~= seq![' '] + id + seq![' '] + auto);
    lemma_words_two(id, auto);
    law_usize_reads_back(c.id);
    law_isize_reads_back(c.head);
    lemma_before_at_plain(auto, Seq::<char>::empty());
    assert(auto + Seq::<char>::empty() =~= auto);
    assert(auto.drop_last() =~= sd);
    assert(seq![id, auto].last() == auto);
    assert(seq![id, auto][0] == id);
}

proof fn lemma_trim_start_plain(s: Seq<char>)
    requires
        s.len() == 0 || !is_ws(s[0]),
    ensures
        trim_start(s) == s,
{
}

/// The morpheme line of a writable token is read back as that token.
proof fn lemma_morpheme_reads_back(t: TokenView)
    requires
        token_writable(t),
    ensures
        morpheme_text(t).len() > 0,
        morpheme_text(t)[0] == t.surface[0],
        single_line(morpheme_text(t)),
        trim_end(morpheme_text(t)) == morpheme_text(t),
        morpheme_text(t) != eos_line(),
        line_token(morpheme_text(t)) == t,
{
    let m = morpheme_text(t);
    let w = t.surface;
    let f = t.feature;
    assert(!is_ws(w[0]));
    assert(!is_ws(w.last()));
    if f.len() == 0 {
        lemma_word_len_past(w, Seq::<char>::empty());
        assert(w + Seq::<char>::empty() =~= w);
        assert(w.take(w.len() as int) =~= w);
        assert(w.skip(w.len() as int) =~= Seq::<char>::empty());
        assert forall|i: int| 0 <= i < w.len() implies w[i] != '\n' by {
            assert(!is_ws(w[i]));
        }
        let e = Seq::<char>::empty();
        assert(trim_end(e) == e);
        assert(trim_start(e) == e);
        assert(f =~= e);
        assert(line_token(m).surface =~= w);
        assert(line_token(m).feature =~= f);
    } else {
        let tf = seq!['\t'] + f;
        assert(m =~= w + tf);
        lemma_word_len_past(w, tf);
        assert(tf[0] == '\t');
        assert(word_len(tf) == 0);
        assert(m.take(w.len() as int) =~= w);
        assert(m.skip(w.len() as int) =~= tf);
        assert(m.last() == f.last());
        assert(trim_end(tf) == tf);
        assert(tf.drop_first() =~= f);
        lemma_trim_start_plain(f);
        assert(trim(tf) == f);
        assert(line_token(m).surface =~= w);
        assert(line_token(m).feature =~= f);
        assert(m[0] == w[0]);
        assert forall|i: int| 0 <= i < m.len() implies m[i] != '\n' by {
            if i < w.len() {
                assert(m[i] == w[i]);
                assert(!is_ws(w[i]));
            } else if i > w.len() {
                assert(m[i] == f[i - w.len() - 1]);
            }
        }
        assert(m.len() != 3 || m != eos_line()) by {
            if m.len() == 3 && m == eos_line() {
                assert(m[w.len() as int] == '\t');
            }
        }
    }
}

/// Lines that hold no `EOS` are read one after the other: reading them and
/// then more lines is reading the more lines from where they left off.
pub proof fn lemma_run_append(st: ParseState, l1: Seq<Seq<char>>, l2: Seq<Seq<char>>)
    requires
        forall|i: int| 0 <= i < l1.len() ==> trim_end(#[trigger] l1[i]) != eos_line(),
    ensures
        run(st, l1 + l2) == match run(st, l1) {
            Ok(next) => run(next, l2),
            Err(e) => Err(e),
        },
    decreases l1.len(),
{
    if l1.len() == 0 {
        assert(l1 + l2 =~= l2);
    } else {
        assert((l1 + l2)[0] == l1[0]);
        assert((l1 + l2).drop_first() =~= l1.drop_first() + l2);
        assert(trim_end(l1[0]) != eos_line());
        match step(st, trim_end(l1[0])) {
            Ok(next) => {
                assert forall|i: int| 0 <= i < l1.drop_first().len() implies trim_end(
                    #[trigger] l1.drop_first()[i],
                ) != eos_line() by {
                    assert(l1.drop_first()[i] == l1[i + 1]);
                }
                lemma_run_append(next, l1.drop_first(), l2);
            },
            Err(_) => {},
        }
    }
}

/// The morpheme lines of writable tokens add exactly those tokens, in
/// order, to the open chunk.
proof fn lemma_run_tokens(st: ParseState, c: ChunkView, toks: Seq<TokenView>)
    requires
        st.current == Some(c),
        forall|k: int| 0 <= k < toks.len() ==> token_writable(#[trigger] toks[k]),
    ensures
        run(st, toks.map_values(|t: TokenView| morpheme_text(t))) == Ok::<
            ParseState,
            ParseErrorView,
        >(
            ParseState {
                chunks: st.chunks,
                current: Some(
                    ChunkView {
                        id: c.id,
                        head: c.head,
                        dep_type: c.dep_type,
                        tokens: c.tokens + toks,
                    },
                ),
            },
        ),
    decreases toks.len(),
{
    let ml = toks.map_values(|t: TokenView| morpheme_text(t));
    if toks.len() == 0 {
        assert(c.tokens + toks =~= c.tokens);
        assert(ml =~= Seq::<Seq<char>>::empty());
    } else {
        let t0 = toks[0];
        let m = morpheme_text(t0);
        lemma_morpheme_reads_back(t0);
        assert(ml[0] == m);
        assert(trim_end(ml[0]) == m);
        let c1 = ChunkView {
            id: c.id,
            head: c.head,
            dep_type: c.dep_type,
            tokens: c.tokens.push(t0),
        };
        let s1 = ParseState { chunks: st.chunks, current: Some(c1) };
        assert(step(st, m) == Ok::<ParseState, ParseErrorView>(s1));
        let rest = toks.drop_first();
        assert(ml.drop_first() =~= rest.map_values(|t: TokenView| morpheme_text(t)));
        assert forall|k: int| 0 <= k < rest.len() implies token_writable(#[trigger] rest[k]) by {
            assert(rest[k] == toks[k + 1]);
        }
        lemma_run_tokens(s1, c1, rest);
        assert(c1.tokens + rest =~= c.tokens + toks);
    }
}

/// The lines of a writable chunk close the open chunk, if any, and leave
/// exactly that chunk open.
proof fn lemma_run_chunk(st: ParseState, c: ChunkView)
    requires
        chunk_writable(c),
    ensures
        run(st, chunk_lines(c)) == Ok::<ParseState, ParseErrorView>(
            ParseState { chunks: all_chunks(st), current: Some(c) },
        ),
{
    let h = header_text(c);
    lemma_header_reads_back(c);
    let c0 = ChunkView { id: c.id, head: c.head, dep_type: c.dep_type, tokens: Seq::empty() };
    let s1 = ParseState { chunks: all_chunks(st), current: Some(c0) };
    assert(h != eos_line()) by {
        assert(eos_line()[0] == 'E');
    }
    assert(step(st, h) == Ok::<ParseState, ParseErrorView>(s1));
    let ml = c.tokens.map_values(|t: TokenView| morpheme_text(t));
    let ls = chunk_lines(c);
    assert(ls[0] == h);
    assert(ls.drop_first() =~= ml);
    lemma_run_tokens(s1, c0, c.tokens);
    assert(c0.tokens + c.tokens =~= c.tokens);
}

/// Every line of a written sentence is a single line that is not `EOS`.
proof fn lemma_sentence_lines_plain(cs: Seq<ChunkView>)
    requires
        forall|i: int| 0 <= i < cs.len() ==> chunk_writable(#[trigger] cs[i]),
    ensures
        forall|j: int|
            0 <= j < sentence_lines(cs).len() ==> single_line(#[trigger] sentence_lines(cs)[j])
                && trim_end(sentence_lines(cs)[j]) != eos_line(),
    decreases cs.len(),
{
    if cs.len() > 0 {
        let dl = cs.drop_last();
        assert forall|i: int| 0 <= i < dl.len() implies chunk_writable(#[trigger] dl[i]) by {
            assert(dl[i] == cs[i]);
        }
        lemma_sentence_lines_plain(dl);
        let c = cs.last();
        assert(chunk_writable(c));
        lemma_header_reads_back(c);
        let cl = chunk_lines(c);
        let sl = sentence_lines(cs);
        let pl = sentence_lines(dl);
        assert(sl =~= pl + cl);
        assert forall|j: int| 0 <= j < sl.len() implies single_line(#[trigger] sl[j]) && trim_end(
            sl[j],
        ) != eos_line() by {
            if j < pl.len() {
                assert(sl[j] == pl[j]);
            } else if j == pl.len() {
                assert(sl[j] == header_text(c));
                assert(eos_line()[0] == 'E');
            } else {
                let k = j - pl.len() - 1;
                assert(sl[j] == morpheme_text(c.tokens[k]));
                assert(token_writable(c.tokens[k]));
                lemma_morpheme_reads_back(c.tokens[k]);
            }
        }
    }
}

/// The lines of a written sentence leave all its chunks read, the last one
/// still open.
proof fn lemma_run_sentence(cs: Seq<ChunkView>)
    requires
        cs.len() > 0,
        forall|i: int| 0 <= i < cs.len() ==> chunk_writable(#[trigger] cs[i]),
    ensures
        run(initial_state(), sentence_lines(cs)) == Ok::<ParseState, ParseErrorView>(
            ParseState { chunks: cs.drop_last(), current: Some(cs.last()) },
        ),
    decreases cs.len(),
{
    let dl = cs.drop_last();
    let c = cs.last();
    assert(chunk_writable(c));
    assert forall|i: int| 0 <= i < dl.len() implies chunk_writable(#[trigger] dl[i]) by {
        assert(dl[i] == cs[i]);
    }
    lemma_sentence_lines_plain(dl);
    let pl = sentence_lines(dl);
    assert(sentence_lines(cs) == pl + chunk_lines(c));
    lemma_run_append(initial_state(), pl, chunk_lines(c));
    if dl.len() == 0 {
        assert(pl =~= Seq::<Seq<char>>::empty());
        lemma_run_chunk(initial_state(), c);
        assert(all_chunks(initial_state()) =~= dl);
    } else {
        lemma_run_sentence(dl);
        let s = ParseState { chunks: dl.drop_last(), current: Some(dl.last()) };
        lemma_run_chunk(s, c);
        assert(all_chunks(s) =~= dl);
    }
}

/// Joined lines split back into those lines, and the empty text after the
/// last line feed.
proof fn lemma_lines_join(ls: Seq<Seq<char>>)
    requires
        forall|j: int| 0 <= j < ls.len() ==> single_line(#[trigger] ls[j]),
    ensures
        lines(join_lines(ls)) == ls + seq![Seq::<char>::empty()],
    decreases ls.len(),
{
    let e = Seq::<char>::empty();
    if ls.len() == 0 {
        assert(join_lines(ls) =~= e);
        assert(lines(e) == seq![e]);
        assert(ls + seq![e] =~= seq![e]);
    } else {
        let rest = ls.drop_first();
        assert forall|j: int| 0 <= j < rest.len() implies single_line(#[trigger] rest[j]) by {
            assert(rest[j] == ls[j + 1]);
        }
        lemma_lines_join(rest);
        let b = seq!['\n'] + join_lines(rest);
        assert(join_lines(ls) =~= ls[0] + b);
        assert(b.drop_first() =~= join_lines(rest));
        assert(single_line(ls[0]));
        lemma_lines_single(ls[0], b);
        assert(lines(join_lines(ls)) =~= ls + seq![e]);
    }
}

/// Writing a sentence in the CaboCha format and parsing the text gives the
/// same sentence back: one chunk per header, in order, each with the id,
/// head and type written in its header, and with one token per morpheme
/// line, in order, whose surface form is the text before the tab and whose
/// feature string the text after it.
pub proof fn law_written_sentence_reads_back(cs: Seq<ChunkView>)
    requires
        cs.len() > 0,
        forall|i: int| 0 <= i < cs.len() ==> chunk_writable(#[trigger] cs[i]),
    ensures
        cabocha(render(cs)) == Ok::<Seq<ChunkView>, ParseErrorView>(cs),
{
    let e = Seq::<char>::empty();
    let sl = sentence_lines(cs);
    lemma_sentence_lines_plain(cs);
    lemma_lines_join(sl);
    lemma_run_sentence(cs);
    lemma_run_append(initial_state(), sl, seq![e]);
    let s = ParseState { chunks: cs.drop_last(), current: Some(cs.last()) };
    lemma_run_blank(s);
    assert(lines(e) == seq![e]);
    assert(all_chunks(s) =~= cs);
}

/// A line that is read without effect: blank, a comment, or `EOS`.
pub open spec fn skippable(line: Seq<char>) -> bool {
    let l = trim_end(line);
    l.len() == 0 || l[0] == '#' || l == eos_line()
}

/// Lines that are all blank, comments or `EOS` leave the state as it was.
proof fn lemma_run_skippable(st: ParseState, ls: Seq<Seq<char>>)
    requires
        forall|j: int| 0 <= j < ls.len() ==> skippable(#[trigger] ls[j]),
    ensures
        run(st, ls) == Ok::<ParseState, ParseErrorView>(st),
    decreases ls.len(),
{
    if ls.len() > 0 {
        assert(skippable(ls[0]));
        let rest = ls.drop_first();
        assert forall|j: int| 0 <= j < rest.len() implies skippable(#[trigger] rest[j]) by {
            assert(rest[j] == ls[j + 1]);
        }
        lemma_run_skippable(st, rest);
    }
}

/// Text whose lines are all blank, comments or `EOS` holds no chunk.
pub proof fn law_no_chunks(s: Seq<char>)
    requires
        forall|j: int| 0 <= j < lines(s).len() ==> skippable(#[trigger] lines(s)[j]),
    ensures
        cabocha(s) == Err::<Seq<ChunkView>, ParseErrorView>(ParseErrorView::NoChunks),
{
    lemma_run_skippable(initial_state(), lines(s));
}

/// The state after the lines of a written sentence.
pub open spec fn written_state(cs: Seq<ChunkView>) -> ParseState {
    if cs.len() == 0 {
        initial_state()
    } else {
        ParseState { chunks: cs.drop_last(), current: Some(cs.last()) }
    }
}

/// Joined lines end with a line feed (or are empty).
proof fn lemma_join_at_line_start(ls: Seq<Seq<char>>)
    ensures
        at_line_start(join_lines(ls)),
    decreases ls.len(),
{
    if ls.len() > 0 {
        let rest = ls.drop_first();
        lemma_join_at_line_start(rest);
        let j = ls[0] + seq!['\n'] + join_lines(rest);
        assert(join_lines(ls) == j);
        if join_lines(rest).len() == 0 {
            assert(j.last() == '\n');
        } else {
            assert(j.last() == join_lines(rest).last());
        }
    }
}

/// What follows a written sentence is read from the state that the
/// sentence leaves.
proof fn lemma_after_written(cs: Seq<ChunkView>, x: Seq<char>, b: Seq<char>)
    requires
        forall|i: int| 0 <= i < cs.len() ==> chunk_writable(#[trigger] cs[i]),
        single_line(x),
        at_line_end(b),
    ensures
        cabocha(render(cs) + x + b) == match run(
            written_state(cs),
            seq![x] + (if b.len() == 0 {
                Seq::<Seq<char>>::empty()
            } else {
                lines(b.drop_first())
            }),
        ) {
            Ok(st) => finish(st),
            Err(e) => Err(e),
        },
{
    let a = render(cs);
    let sl = sentence_lines(cs);
    lemma_sentence_lines_plain(cs);
    lemma_lines_join(sl);
    lemma_join_at_line_start(sl);
    assert(a + x + b =~= a + (x + b));
    lemma_lines_after(a, x + b);
    lemma_lines_single(x, b);
    assert((sl + seq![Seq::<char>::empty()]).drop_last() =~= sl);
    let rest = seq![x] + (if b.len() == 0 {
        Seq::<Seq<char>>::empty()
    } else {
        lines(b.drop_first())
    });
    lemma_run_append(initial_state(), sl, rest);
    if cs.len() == 0 {
        assert(sl =~= Seq::<Seq<char>>::empty());
    } else {
        lemma_run_sentence(cs);
    }
}

/// A line that the state after a written sentence rejects ends the parse
/// with that error, whatever follows it.
proof fn lemma_first_error(
    cs: Seq<ChunkView>,
    x: Seq<char>,
    b: Seq<char>,
    e: ParseErrorView,
)
    requires
        forall|i: int| 0 <= i < cs.len() ==> chunk_writable(#[trigger] cs[i]),
        single_line(x),
        at_line_end(b),
        trim_end(x) != eos_line(),
        step(written_state(cs), trim_end(x)) == Err::<ParseState, ParseErrorView>(e),
    ensures
        cabocha(render(cs) + x + b) == Err::<Seq<ChunkView>, ParseErrorView>(e),
{
    lemma_after_written(cs, x, b);
}

/// A line that is read without effect and does not end the input: blank
/// or a comment.
pub open spec fn ignorable(line: Seq<char>) -> bool {
    let l = trim_end(line);
    l.len() == 0 || l[0] == '#'
}

/// A morpheme line before any chunk header (after only blank lines and
/// comments) is reported with its text, whatever follows it.
pub proof fn law_token_line_before_chunk(p: Seq<char>, x: Seq<char>, b: Seq<char>)
    requires
        at_line_start(p),
        forall|j: int|
            0 <= j < lines(p).drop_last().len() ==> ignorable(#[trigger] lines(p).drop_last()[j]),
        single_line(x),
        at_line_end(b),
        trim_end(x).len() > 0,
        trim_end(x)[0] != '#',
        trim_end(x)[0] != '*',
        trim_end(x) != eos_line(),
    ensures
        cabocha(p + x + b) == Err::<Seq<ChunkView>, ParseErrorView>(
            ParseErrorView::UnexpectedTokenLine { line: trim_end(x) },
        ),
{
    assert(p + x + b =~= p + (x + b));
    lemma_lines_after(p, x + b);
    lemma_lines_single(x, b);
    let h = lines(p).drop_last();
    let rest = seq![x] + (if b.len() == 0 {
        Seq::<Seq<char>>::empty()
    } else {
        lines(b.drop_first())
    });
    assert forall|j: int| 0 <= j < h.len() implies skippable(#[trigger] h[j]) by {
        assert(ignorable(h[j]));
    }
    assert forall|j: int| 0 <= j < h.len() implies trim_end(#[trigger] h[j]) != eos_line() by {
        assert(ignorable(h[j]));
        assert(eos_line()[0] == 'E');
    }
    lemma_run_skippable(initial_state(), h);
    lemma_run_append(initial_state(), h, rest);
    assert(rest[0] == x);
}

/// A chunk header with fewer than two fields, after a written sentence, is
/// reported as an invalid chunk header with its text, whatever follows it.
pub proof fn law_header_too_few_fields(cs: Seq<ChunkView>, x: Seq<char>, b: Seq<char>)
    requires
        forall|i: int| 0 <= i < cs.len() ==> chunk_writable(#[trigger] cs[i]),
        single_line(x),
        at_line_end(b),
        trim_end(x).len() > 0,
        trim_end(x)[0] == '*',
        words(trim_end(x).drop_first()).len() < 2,
    ensures
        cabocha(render(cs) + x + b) == Err::<Seq<ChunkView>, ParseErrorView>(
            ParseErrorView::InvalidChunkHeader { line: trim_end(x) },
        ),
{
    assert(eos_line()[0] == 'E');
    lemma_first_error(cs, x, b, ParseErrorView::InvalidChunkHeader { line: trim_end(x) });
}

/// A chunk header whose id is not a `usize` in decimal, after a written
/// sentence, is reported as an invalid chunk header with its text, whatever
/// follows it.
pub proof fn law_header_bad_id(cs: Seq<ChunkView>, x: Seq<char>, b: Seq<char>)
    requires
        forall|i: int| 0 <= i < cs.len() ==> chunk_writable(#[trigger] cs[i]),
        single_line(x),
        at_line_end(b),
        trim_end(x).len() > 0,
        trim_end(x)[0] == '*',
        parse_usize_spec(words(trim_end(x).drop_first())[0]) is None,
    ensures
        cabocha(render(cs) + x + b) == Err::<Seq<ChunkView>, ParseErrorView>(
            ParseErrorView::InvalidChunkHeader { line: trim_end(x) },
        ),
{
    assert(eos_line()[0] == 'E');
    lemma_first_error(cs, x, b, ParseErrorView::InvalidChunkHeader { line: trim_end(x) });
}

/// A chunk header with a valid id whose last field, up to any `@`, is not
/// an `isize` in decimal followed by one type character, after a written
/// sentence, is reported as an invalid head with its text, whatever follows
/// it.
pub proof fn law_header_bad_head(cs: Seq<ChunkView>, x: Seq<char>, b: Seq<char>)
    requires
        forall|i: int| 0 <= i < cs.len() ==> chunk_writable(#[trigger] cs[i]),
        single_line(x),
        at_line_end(b),
        trim_end(x).len() > 0,
        trim_end(x)[0] == '*',
        words(trim_end(x).drop_first()).len() >= 2,
        parse_usize_spec(words(trim_end(x).drop_first())[0]) is Some,
        ({
            let auto = before_at(words(trim_end(x).drop_first()).last());
            auto.len() < 2 || parse_isize_spec(auto.drop_last()) is None
        }),
    ensures
        cabocha(render(cs) + x + b) == Err::<Seq<ChunkView>, ParseErrorView>(
            ParseErrorView::InvalidHead { line: trim_end(x) },
        ),
{
    assert(eos_line()[0] == 'E');
    lemma_first_error(cs, x, b, ParseErrorView::InvalidHead { line: trim_end(x) });
}

proof fn lemma_word_len_stop(s: Seq<char>)
    ensures
        word_len(s) < s.len() ==> is_ws(s[word_len(s) as int]),
    decreases s.len(),
{
    if s.len() > 0 && !is_ws(s[0]) {
        lemma_word_len_stop(s.drop_first());
        if word_len(s) < s.len() {
            assert(s[word_len(s) as int] == s.drop_first()[word_len(s.drop_first()) as int]);
        }
    }
}

/// A morpheme line after a written sentence adds exactly one token to its
/// last chunk and changes nothing else: the token's surface form is the
/// longest whitespace-free start of the line (stripped of trailing
/// whitespace), and its feature string is the rest of the line, trimmed.
pub proof fn law_morpheme_line_adds_token(cs: Seq<ChunkView>, x: Seq<char>)
    requires
        cs.len() > 0,
        forall|i: int| 0 <= i < cs.len() ==> chunk_writable(#[trigger] cs[i]),
        single_line(x),
        trim_end(x).len() > 0,
        trim_end(x)[0] != '#',
        trim_end(x)[0] != '*',
        trim_end(x) != eos_line(),
    ensures
        cabocha(render(cs) + x) matches Ok(r) && {
            let l = trim_end(x);
            let c = cs.last();
            let d = r.last();
            let t = d.tokens.last();
            let k = t.surface.len() as int;
            &&& r.len() == cs.len()
            &&& r.drop_last() == cs.drop_last()
            &&& d.id == c.id && d.head == c.head && d.dep_type == c.dep_type
            &&& d.tokens.len() == c.tokens.len() + 1
            &&& d.tokens.drop_last() == c.tokens
            &&& k <= l.len()
            &&& t.surface == l.take(k)
            &&& no_whitespace(t.surface)
            &&& (k == l.len() || is_ws(l[k]))
            &&& t.feature == trim(l.skip(k))
        },
{
    let e = Seq::<char>::empty();
    assert(render(cs) + x + e =~= render(cs) + x);
    lemma_after_written(cs, x, e);
    let l = trim_end(x);
    let rest = seq![x] + Seq::<Seq<char>>::empty();
    assert(rest[0] == x);
    assert(rest.drop_first() =~= Seq::<Seq<char>>::empty());
    lemma_word_prefix(l);
    lemma_word_len_stop(l);
    let tok = line_token(l);
    assert(tok.surface.len() == word_len(l));
    assert forall|i: int| 0 <= i < tok.surface.len() implies !is_ws(#[trigger] tok.surface[i]) by {
        assert(tok.surface[i] == l[i]);
    }
    let c = cs.last();
    let c1 = ChunkView {
        id: c.id,
        head: c.head,
        dep_type: c.dep_type,
        tokens: c.tokens.push(tok),
    };
    let st = written_state(cs);
    assert(step(st, l) == Ok::<ParseState, ParseErrorView>(
        ParseState { chunks: cs.drop_last(), current: Some(c1) },
    ));
    let s1 = ParseState { chunks: cs.drop_last(), current: Some(c1) };
    assert(run(s1, rest.drop_first()) == Ok::<ParseState, ParseErrorView>(s1));
    assert(run(st, rest) == Ok::<ParseState, ParseErrorView>(s1));
    let r = cs.drop_last().push(c1);
    assert(all_chunks(s1) == r);
    assert(finish(s1) == Ok::<Seq<ChunkView>, ParseErrorView>(r));
    assert(cabocha(render(cs) + x) == Ok::<Seq<ChunkView>, ParseErrorView>(r));
    assert(r.last() == c1);
    assert(c1.tokens.last() == tok);
    assert(r.drop_last() =~= cs.drop_last());
    assert(c1.tokens.drop_last() =~= c.tokens);
    assert(tok.surface == l.take(word_len(l) as int));
}

} // verus!
