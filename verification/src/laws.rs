//! Properties of the format that hold of every input: where a sentence
//! ends, which lines do not matter, and the shape of what a parse yields.
use vstd::prelude::*;
use crate::text::{is_ws, lines, span_until, trim, trim_end, trim_start, word_len, words};
use crate::cabocha::{
    all_chunks, before_at, cabocha, eos_line, header_chunk, initial_state, line_token, run, step, ParseState,
};
use crate::types::{ChunkView, ParseErrorView, TokenView};

verus! {

/// `x` holds no line feed.
pub open spec fn single_line(x: Seq<char>) -> bool {
    forall|i: int| 0 <= i < x.len() ==> x[i] != '\n'
}

/// `a` is empty or ends with a line feed: what follows it starts a line.
pub open spec fn at_line_start(a: Seq<char>) -> bool {
    a.len() == 0 || a.last() == '\n'
}

/// `b` is empty or starts with a line feed: what precedes it ends a line.
pub open spec fn at_line_end(b: Seq<char>) -> bool {
    b.len() == 0 || b[0] == '\n'
}

proof fn lemma_span_bound(s: Seq<char>, ch: char, j: int)
    requires
        0 <= j < s.len(),
        s[j] == ch,
    ensures
        span_until(s, ch) <= j,
    decreases j,
{
    if s[0] != ch {
        assert(s.drop_first()[j - 1] == s[j]);
        lemma_span_bound(s.drop_first(), ch, j - 1);
    }
}

proof fn lemma_span_prefix(a: Seq<char>, c: Seq<char>, ch: char)
    requires
        span_until(a, ch) < a.len(),
    ensures
        span_until(a + c, ch) == span_until(a, ch),
    decreases a.len(),
{
    assert((a + c)[0] == a[0]);
    if a[0] != ch {
        assert((a + c).drop_first() =~= a.drop_first() + c);
        lemma_span_prefix(a.drop_first(), c, ch);
    }
}

proof fn lemma_span_past(x: Seq<char>, c: Seq<char>, ch: char)
    requires
        forall|i: int| 0 <= i < x.len() ==> x[i] != ch,
    ensures
        span_until(x + c, ch) == x.len() + span_until(c, ch),
    decreases x.len(),
{
    if x.len() == 0 {
        assert(x + c =~= c);
    } else {
        assert((x + c)[0] == x[0]);
        assert((x + c).drop_first() =~= x.drop_first() + c);
        assert forall|i: int| 0 <= i < x.drop_first().len() implies x.drop_first()[i] != ch by {
            assert(x.drop_first()[i] == x[i + 1]);
        }
        lemma_span_past(x.drop_first(), c, ch);
    }
}

/// Splitting text into lines never yields no line.
proof fn lemma_lines_nonempty(s: Seq<char>)
    ensures
        lines(s).len() > 0,
{
}

/// Text that starts a line splits into its own lines followed by those of
/// what follows it.
pub proof fn lemma_lines_after(a: Seq<char>, c: Seq<char>)
    requires
        at_line_start(a),
    ensures
        lines(a + c) == lines(a).drop_last() + lines(c),
    decreases a.len(),
{
    if a.len() == 0 {
        assert(a + c =~= c);
        assert(lines(a) == seq![a]);
        assert(lines(a).drop_last() + lines(c) =~= lines(c));
    } else {
        lemma_span_bound(a, '\n', a.len() - 1);
        let k = span_until(a, '\n');
        lemma_span_prefix(a, c, '\n');
        let rest = a.skip(k + 1 as int);
        assert((a + c).take(k as int) =~= a.take(k as int));
        assert((a + c).skip(k + 1 as int) =~= rest + c);
        if rest.len() > 0 {
            assert(rest.last() == a.last());
        }
        lemma_lines_after(rest, c);
        lemma_lines_nonempty(rest);
        assert(lines(a) == seq![a.take(k as int)] + lines(rest));
        assert(lines(a).drop_last() =~= seq![a.take(k as int)] + lines(rest).drop_last());
        assert(lines(a + c) == seq![a.take(k as int)] + lines(rest + c));
        assert(lines(a + c) =~= lines(a).drop_last() + lines(c));
    }
}

/// A single line, followed by nothing or by a line feed, is the first line.
pub proof fn lemma_lines_single(x: Seq<char>, b: Seq<char>)
    requires
        single_line(x),
        at_line_end(b),
    ensures
        lines(x + b) == seq![x] + (if b.len() == 0 {
            Seq::<Seq<char>>::empty()
        } else {
            lines(b.drop_first())
        }),
{
    lemma_span_past(x, b, '\n');
    if b.len() == 0 {
        assert(x + b =~= x);
        assert(lines(x + b) == seq![x]);
        assert(seq![x] + Seq::<Seq<char>>::empty() =~= seq![x]);
    } else {
        assert((x + b).take(x.len() as int) =~= x);
        assert((x + b).skip(x.len() + 1 as int) =~= b.drop_first());
    }
}

/// Reading goes line by line: where two continuations behave alike from
/// every state, so do the same lines followed by either.
pub proof fn lemma_run_congruence(
    st: ParseState,
    l: Seq<Seq<char>>,
    t1: Seq<Seq<char>>,
    t2: Seq<Seq<char>>,
)
    requires
        forall|s: ParseState| #[trigger] run(s, t1) == run(s, t2),
    ensures
        run(st, l + t1) == run(st, l + t2),
    decreases l.len(),
{
    if l.len() == 0 {
        assert(l + t1 =~= t1);
        assert(l + t2 =~= t2);
        assert(run(st, t1) == run(st, t2));
    } else {
        assert((l + t1)[0] == l[0]);
        assert((l + t2)[0] == l[0]);
        assert((l + t1).drop_first() =~= l.drop_first() + t1);
        assert((l + t2).drop_first() =~= l.drop_first() + t2);
        let line = trim_end(l[0]);
        if line != eos_line() {
            match step(st, line) {
                Ok(next) => lemma_run_congruence(next, l.drop_first(), t1, t2),
                Err(_) => {},
            }
        }
    }
}

/// An empty line changes nothing and ends the input.
pub proof fn lemma_run_blank(s: ParseState)
    ensures
        run(s, lines(Seq::<char>::empty())) == Ok::<ParseState, ParseErrorView>(s),
{
    let e = Seq::<char>::empty();
    assert(lines(e) == seq![e]);
    assert(trim_end(e) == e);
    assert(e != eos_line()) by {
        assert(eos_line().len() == 3);
    }
    assert(step(s, e) == Ok::<ParseState, ParseErrorView>(s));
    assert(lines(e).drop_first() =~= Seq::<Seq<char>>::empty());
    assert(run(s, lines(e).drop_first()) == Ok::<ParseState, ParseErrorView>(s));
}

/// The line `EOS` ends the sentence: nothing after it is read, and the
/// outcome is that of the text before it.
pub proof fn law_eos_ends_input(a: Seq<char>, x: Seq<char>, b: Seq<char>)
    requires
        at_line_start(a),
        single_line(x),
        trim_end(x) == eos_line(),
        at_line_end(b),
    ensures
        cabocha(a + x + b) == cabocha(a),
{
    let e = Seq::<char>::empty();
    assert(a + x + b =~= a + (x + b));
    assert(a + e =~= a);
    lemma_lines_after(a, x + b);
    lemma_lines_after(a, e);
    lemma_lines_single(x, b);
    let t1 = lines(x + b);
    let t2 = lines(e);
    assert forall|s: ParseState| #[trigger] run(s, t1) == run(s, t2) by {
        assert(t1[0] == x);
        lemma_run_blank(s);
    }
    lemma_run_congruence(initial_state(), lines(a).drop_last(), t1, t2);
}

/// The last line is read whether or not a line feed follows it: appending a
/// line feed to text never changes the outcome.
pub proof fn law_final_line_feed_optional(a: Seq<char>, x: Seq<char>)
    requires
        at_line_start(a),
        single_line(x),
    ensures
        cabocha(a + x) == cabocha(a + x + seq!['\n']),
{
    let e = Seq::<char>::empty();
    let nl = seq!['\n'];
    assert(a + x + nl =~= a + (x + nl));
    assert(x + e =~= x);
    assert(nl.drop_first() =~= e);
    lemma_lines_after(a, x);
    lemma_lines_after(a, x + nl);
    lemma_lines_single(x, e);
    lemma_lines_single(x, nl);
    let t1 = lines(x);
    let t2 = lines(x + nl);
    assert(t1 =~= seq![x]);
    assert(t2 =~= seq![x] + lines(e));
    assert forall|s: ParseState| #[trigger] run(s, t1) == run(s, t2) by {
        assert(t1[0] == x);
        assert(t2[0] == x);
        assert(t1.drop_first() =~= Seq::<Seq<char>>::empty());
        assert(t2.drop_first() =~= lines(e));
        let l = trim_end(x);
        if l != eos_line() {
            match step(s, l) {
                Ok(n) => {
                    lemma_run_blank(n);
                    assert(run(n, t1.drop_first()) == Ok::<ParseState, ParseErrorView>(n));
                    assert(run(s, t1) == run(n, t1.drop_first()));
                    assert(run(s, t2) == run(n, t2.drop_first()));
                },
                Err(_) => {},
            }
        }
    }
    lemma_run_congruence(initial_state(), lines(a).drop_last(), t1, t2);
}

/// A line that is blank or a comment (it starts with `#`) can be removed
/// without changing the outcome.
pub proof fn law_skipped_lines(a: Seq<char>, x: Seq<char>, b: Seq<char>)
    requires
        at_line_start(a),
        single_line(x),
        trim_end(x).len() == 0 || trim_end(x)[0] == '#',
    ensures
        cabocha(a + x + seq!['\n'] + b) == cabocha(a + b),
{
    let nb = seq!['\n'] + b;
    assert(a + x + seq!['\n'] + b =~= a + (x + nb));
    assert(nb.drop_first() =~= b);
    lemma_lines_after(a, x + nb);
    lemma_lines_after(a, b);
    lemma_lines_single(x, nb);
    let t1 = lines(x + nb);
    let t2 = lines(b);
    assert forall|s: ParseState| #[trigger] run(s, t1) == run(s, t2) by {
        assert(t1[0] == x);
        assert(t1.drop_first() =~= t2);
        assert(trim_end(x) != eos_line()) by {
            assert(eos_line().len() == 3);
            assert(eos_line()[0] == 'E');
        }
        assert(step(s, trim_end(x)) == Ok::<ParseState, ParseErrorView>(s));
    }
    lemma_run_congruence(initial_state(), lines(a).drop_last(), t1, t2);
}

/// Trailing whitespace of a line (a `\r` before the line feed among it)
/// does not change the outcome.
pub proof fn law_trailing_whitespace(a: Seq<char>, x: Seq<char>, y: Seq<char>, b: Seq<char>)
    requires
        at_line_start(a),
        single_line(x),
        single_line(y),
        trim_end(x) == trim_end(y),
        at_line_end(b),
    ensures
        cabocha(a + x + b) == cabocha(a + y + b),
{
    assert(a + x + b =~= a + (x + b));
    assert(a + y + b =~= a + (y + b));
    lemma_lines_after(a, x + b);
    lemma_lines_after(a, y + b);
    lemma_lines_single(x, b);
    lemma_lines_single(y, b);
    let t1 = lines(x + b);
    let t2 = lines(y + b);
    assert forall|s: ParseState| #[trigger] run(s, t1) == run(s, t2) by {
        assert(t1[0] == x);
        assert(t2[0] == y);
        assert(t1.drop_first() =~= t2.drop_first());
    }
    lemma_run_congruence(initial_state(), lines(a).drop_last(), t1, t2);
}

/// A token as a parse yields it: its surface form holds no whitespace, and
/// its feature string neither starts nor ends with whitespace.
pub open spec fn token_well_formed(t: TokenView) -> bool {
    &&& forall|j: int| 0 <= j < t.surface.len() ==> !is_ws(#[trigger] t.surface[j])
    &&& t.feature.len() > 0 ==> !is_ws(t.feature[0]) && !is_ws(t.feature.last())
}

/// A chunk as a parse yields it: it has a dependency type, and its tokens
/// are well formed.
pub open spec fn chunk_well_formed(c: ChunkView) -> bool {
    &&& c.dep_type is Some
    &&& forall|k: int| 0 <= k < c.tokens.len() ==> token_well_formed(#[trigger] c.tokens[k])
}

/// Every chunk read so far is well formed.
pub open spec fn state_well_formed(st: ParseState) -> bool {
    &&& forall|i: int| 0 <= i < st.chunks.len() ==> chunk_well_formed(#[trigger] st.chunks[i])
    &&& st.current matches Some(c) ==> chunk_well_formed(c)
}

pub proof fn lemma_word_prefix(s: Seq<char>)
    ensures
        word_len(s) <= s.len(),
        forall|j: int| 0 <= j < word_len(s) ==> !is_ws(#[trigger] s[j]),
    decreases s.len(),
{
    if s.len() > 0 && !is_ws(s[0]) {
        lemma_word_prefix(s.drop_first());
        assert forall|j: int| 0 <= j < word_len(s) implies !is_ws(#[trigger] s[j]) by {
            if j > 0 {
                assert(s[j] == s.drop_first()[j - 1]);
            }
        }
    }
}

proof fn lemma_trim_end_last(s: Seq<char>)
    ensures
        trim_end(s).len() > 0 ==> !is_ws(trim_end(s).last()),
    decreases s.len(),
{
    if s.len() > 0 && is_ws(s.last()) {
        lemma_trim_end_last(s.drop_last());
    }
}

proof fn lemma_trim_start_first(s: Seq<char>)
    ensures
        trim_start(s).len() > 0 ==> !is_ws(trim_start(s)[0]),
    decreases s.len(),
{
    if s.len() > 0 && is_ws(s[0]) {
        lemma_trim_start_first(s.drop_first());
    }
}

proof fn lemma_trim_start_keeps_last(t: Seq<char>)
    requires
        t.len() > 0,
        !is_ws(t.last()),
    ensures
        trim_start(t).len() > 0,
        trim_start(t).last() == t.last(),
    decreases t.len(),
{
    if is_ws(t[0]) {
        assert(t.len() > 1);
        assert(t.drop_first().last() == t.last());
        lemma_trim_start_keeps_last(t.drop_first());
    }
}

proof fn lemma_token_well_formed(line: Seq<char>)
    ensures
        token_well_formed(line_token(line)),
{
    let n = word_len(line) as int;
    lemma_word_prefix(line);
    let t = line_token(line);
    assert forall|j: int| 0 <= j < t.surface.len() implies !is_ws(#[trigger] t.surface[j]) by {
        assert(t.surface[j] == line[j]);
    }
    let r = line.skip(n);
    lemma_trim_end_last(r);
    lemma_trim_start_first(trim_end(r));
    if trim(r).len() > 0 {
        assert(trim_end(r).len() > 0);
        lemma_trim_start_keeps_last(trim_end(r));
    }
}

proof fn lemma_step_well_formed(st: ParseState, line: Seq<char>)
    requires
        state_well_formed(st),
    ensures
        step(st, line) matches Ok(next) ==> state_well_formed(next),
{
    if line.len() == 0 || line[0] == '#' {
    } else if line[0] == '*' {
        if let Ok(c) = header_chunk(line) {
            let cs = all_chunks(st);
            assert forall|i: int| 0 <= i < cs.len() implies chunk_well_formed(#[trigger] cs[i]) by {
                if i < st.chunks.len() {
                    assert(cs[i] == st.chunks[i]);
                }
            }
        }
    } else {
        if let Some(c) = st.current {
            lemma_token_well_formed(line);
            let toks = c.tokens.push(line_token(line));
            assert forall|k: int| 0 <= k < toks.len() implies token_well_formed(
                #[trigger] toks[k],
            ) by {
                if k < c.tokens.len() {
                    assert(toks[k] == c.tokens[k]);
                }
            }
        }
    }
}

proof fn lemma_run_well_formed(st: ParseState, ls: Seq<Seq<char>>)
    requires
        state_well_formed(st),
    ensures
        run(st, ls) matches Ok(end) ==> state_well_formed(end),
    decreases ls.len(),
{
    if ls.len() > 0 {
        let line = trim_end(ls[0]);
        if line != eos_line() {
            lemma_step_well_formed(st, line);
            if let Ok(next) = step(st, line) {
                lemma_run_well_formed(next, ls.drop_first());
            }
        }
    }
}

/// A successful parse yields at least one chunk; every chunk has a
/// dependency type, every surface form is free of whitespace, and every
/// feature string is trimmed.
pub proof fn law_parsed_shape(s: Seq<char>)
    ensures
        cabocha(s) matches Ok(chunks) ==> {
            &&& chunks.len() > 0
            &&& forall|i: int| 0 <= i < chunks.len() ==> chunk_well_formed(#[trigger] chunks[i])
        },
{
    lemma_run_well_formed(initial_state(), lines(s));
    if let Ok(st) = run(initial_state(), lines(s)) {
        let cs = all_chunks(st);
        assert forall|i: int| 0 <= i < cs.len() implies chunk_well_formed(#[trigger] cs[i]) by {
            if i < st.chunks.len() {
                assert(cs[i] == st.chunks[i]);
            }
        }
    }
}

/// `x` holds no whitespace.
pub open spec fn no_whitespace(x: Seq<char>) -> bool {
    forall|i: int| 0 <= i < x.len() ==> !is_ws(#[trigger] x[i])
}

pub proof fn lemma_word_len_past(x: Seq<char>, c: Seq<char>)
    requires
        no_whitespace(x),
    ensures
        word_len(x + c) == x.len() + word_len(c),
    decreases x.len(),
{
    if x.len() == 0 {
        assert(x + c =~= c);
    } else {
        assert((x + c)[0] == x[0]);
        assert((x + c).drop_first() =~= x.drop_first() + c);
        assert forall|i: int| 0 <= i < x.drop_first().len() implies !is_ws(
            #[trigger] x.drop_first()[i],
        ) by {
            assert(x.drop_first()[i] == x[i + 1]);
        }
        lemma_word_len_past(x.drop_first(), c);
    }
}

/// A single word is its own list of words.
proof fn lemma_words_one(w: Seq<char>)
    requires
        w.len() > 0,
        no_whitespace(w),
    ensures
        words(w) == seq![w],
{
    lemma_word_len_past(w, Seq::<char>::empty());
    assert(w + Seq::<char>::empty() =~= w);
    assert(!is_ws(w[0]));
}

/// `" <x> <w>"` splits into the words `x` and `w`.
pub proof fn lemma_words_two(x: Seq<char>, w: Seq<char>)
    requires
        x.len() > 0,
        w.len() > 0,
        no_whitespace(x),
        no_whitespace(w),
    ensures
        words(seq![' '] + x + seq![' '] + w) == seq![x, w],
{
    let sw = seq![' '] + w;
    let xs = x + sw;
    let s = seq![' '] + xs;
    assert(seq![' '] + x + seq![' '] + w =~= s);
    assert(s.drop_first() =~= xs);
    assert(s[0] == ' ');
    lemma_word_len_past(x, sw);
    assert(sw[0] == ' ');
    assert(word_len(sw) == 0);
    assert(xs[0] == x[0]);
    assert(!is_ws(x[0]));
    assert(xs.take(x.len() as int) =~= x);
    assert(xs.skip(x.len() as int) =~= sw);
    assert(sw.drop_first() =~= w);
    lemma_words_one(w);
    assert(words(sw) == words(w));
    assert(words(xs) == seq![x] + words(sw));
    assert(words(s) == words(xs));
    assert(seq![x] + seq![w] =~= seq![x, w]);
}

pub proof fn lemma_before_at_plain(a: Seq<char>, c: Seq<char>)
    requires
        forall|i: int| 0 <= i < a.len() ==> a[i] != '@',
        c.len() == 0 || c[0] == '@',
    ensures
        before_at(a + c) == a,
{
    lemma_span_past(a, c, '@');
    assert((a + c).take(a.len() as int) =~= a);
}

/// The probability that may follow the dependency in a chunk header
/// (`* 1 4D@0.98`) is ignored: the header reads as the one without it
/// (`* 1 4D`).
pub proof fn law_probability_ignored(id: Seq<char>, auto: Seq<char>, prob: Seq<char>)
    requires
        id.len() > 0,
        auto.len() > 0,
        no_whitespace(id),
        no_whitespace(auto),
        no_whitespace(prob),
        forall|i: int| 0 <= i < auto.len() ==> auto[i] != '@',
    ensures
        ({
            let with_prob = seq!['*', ' '] + id + seq![' '] + auto + seq!['@'] + prob;
            let without = seq!['*', ' '] + id + seq![' '] + auto;
            &&& header_chunk(with_prob) is Ok <==> header_chunk(without) is Ok
            &&& header_chunk(with_prob) is Ok ==> header_chunk(with_prob) == header_chunk(without)
        }),
{
    let tail = seq!['@'] + prob;
    let last = auto + tail;
    let with_prob = seq!['*', ' '] + id + seq![' '] + auto + seq!['@'] + prob;
    let without = seq!['*', ' '] + id + seq![' '] + auto;
    assert(no_whitespace(last)) by {
        assert forall|i: int| 0 <= i < last.len() implies !is_ws(#[trigger] last[i]) by {
            if i < auto.len() {
                assert(last[i] == auto[i]);
            } else if i == auto.len() {
                assert(last[i] == '@');
            } else {
                assert(last[i] == prob[i - auto.len() - 1]);
            }
        }
    }
    assert(with_prob.drop_first() =~= seq![' '] + id + seq![' '] + last);
    assert(without.drop_first() =~= seq![' '] + id + seq![' '] + auto);
    lemma_words_two(id, last);
    lemma_words_two(id, auto);
    lemma_before_at_plain(auto, tail);
    lemma_before_at_plain(auto, Seq::<char>::empty());
    assert(auto + Seq::<char>::empty() =~= auto);
    assert(seq![id, last].last() == last);
    assert(seq![id, auto].last() == auto);
}

} // verus!
