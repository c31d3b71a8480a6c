//! Character-level vocabulary of the CaboCha format: whitespace, line and
//! word splitting, trimming and decimal numbers, both as specifications over
//! `Seq<char>` and as executable scans over a `Vec<char>`.
use vstd::prelude::*;

verus! {

/// The Unicode `White_Space` property, the set that `char::is_whitespace`
/// tests for.
pub open spec fn is_ws(c: char) -> bool {
    ||| ('\u{9}' <= c && c <= '\u{d}')
    ||| c == ' '
    ||| c == '\u{85}'
    ||| c == '\u{a0}'
    ||| c == '\u{1680}'
    ||| ('\u{2000}' <= c && c <= '\u{200a}')
    ||| c == '\u{2028}'
    ||| c == '\u{2029}'
    ||| c == '\u{202f}'
    ||| c == '\u{205f}'
    ||| c == '\u{3000}'
}

/// Whether `c` is a Unicode whitespace character.
pub fn is_whitespace(c: char) -> (b: bool)
    ensures
        b == is_ws(c),
{
    ('\u{9}' <= c && c <= '\u{d}') || c == ' ' || c == '\u{85}' || c == '\u{a0}' || c
        == '\u{1680}' || ('\u{2000}' <= c && c <= '\u{200a}') || c == '\u{2028}' || c
        == '\u{2029}' || c == '\u{202f}' || c == '\u{205f}' || c == '\u{3000}'
}

/// The characters of `s`, in order.
pub fn chars_of(s: &str) -> (v: Vec<char>)
    ensures
        v@ == s@,
{
    let mut v: Vec<char> = Vec::new();
    for c in it: s.chars()
        invariant
            v@ == it.seq().take(it.index() as int),
    {
        v.push(c);
    }
    v
}

/// `s` without its trailing whitespace (`str::trim_end`).
pub open spec fn trim_end(s: Seq<char>) -> Seq<char>
    decreases s.len(),
{
    if s.len() > 0 && is_ws(s.last()) {
        trim_end(s.drop_last())
    } else {
        s
    }
}

/// `s` without its leading whitespace (`str::trim_start`).
pub open spec fn trim_start(s: Seq<char>) -> Seq<char>
    decreases s.len(),
{
    if s.len() > 0 && is_ws(s[0]) {
        trim_start(s.drop_first())
    } else {
        s
    }
}

/// `s` without leading and trailing whitespace (`str::trim`).
pub open spec fn trim(s: Seq<char>) -> Seq<char> {
    trim_start(trim_end(s))
}

/// The number of characters of `s` before the first `c`, or the length of
/// `s` where `c` does not occur in it.
pub open spec fn span_until(s: Seq<char>, c: char) -> nat
    decreases s.len(),
{
    if s.len() == 0 || s[0] == c {
        0
    } else {
        1 + span_until(s.drop_first(), c)
    }
}

/// The pieces of `s` between line feeds: `s` split at every `'\n'`, the
/// line feeds themselves removed.  Text without a line feed is one line.
pub open spec fn lines(s: Seq<char>) -> Seq<Seq<char>>
    decreases s.len(),
{
    let n = span_until(s, '\n');
    if n >= s.len() {
        seq![s]
    } else {
        seq![s.take(n as int)] + lines(s.skip(n + 1 as int))
    }
}

/// The number of non-whitespace characters at the front of `s`.
pub open spec fn word_len(s: Seq<char>) -> nat
    decreases s.len(),
{
    if s.len() == 0 || is_ws(s[0]) {
        0
    } else {
        1 + word_len(s.drop_first())
    }
}

/// The maximal runs of non-whitespace characters of `s`, in order
/// (`str::split_whitespace`).
pub open spec fn words(s: Seq<char>) -> Seq<Seq<char>>
    decreases s.len(),
{
    if s.len() == 0 {
        seq![]
    } else if is_ws(s[0]) {
        words(s.drop_first())
    } else {
        let n = word_len(s);
        if n >= s.len() {
            seq![s]
        } else {
            seq![s.take(n as int)] + words(s.skip(n as int))
        }
    }
}

/// An ASCII decimal digit.
pub open spec fn is_digit(c: char) -> bool {
    '0' <= c && c <= '9'
}

/// Whether every character of `s` is an ASCII decimal digit.
pub open spec fn all_digits(s: Seq<char>) -> bool {
    forall|i: int| 0 <= i < s.len() ==> is_digit(#[trigger] s[i])
}

/// The value of a decimal digit.
pub open spec fn digit_value(c: char) -> int {
    (c as int) - ('0' as int)
}

/// The number that the digits `s` write in base ten (0 for no digits).
pub open spec fn decimal_value(s: Seq<char>) -> int
    decreases s.len(),
{
    if s.len() == 0 {
        0
    } else {
        decimal_value(s.drop_last()) * 10 + digit_value(s.last())
    }
}

/// What `str::parse::<usize>` accepts and yields: an optional `+`, then at
/// least one ASCII digit, for a value that fits in a `usize`.
pub open spec fn parse_usize_spec(s: Seq<char>) -> Option<usize> {
    let body = if s.len() > 0 && s[0] == '+' {
        s.drop_first()
    } else {
        s
    };
    if body.len() > 0 && all_digits(body) && decimal_value(body) <= usize::MAX {
        Some(decimal_value(body) as usize)
    } else {
        None
    }
}

/// What `str::parse::<isize>` accepts and yields: an optional `+` or `-`,
/// then at least one ASCII digit, for a value that fits in an `isize`.
pub open spec fn parse_isize_spec(s: Seq<char>) -> Option<isize> {
    let negative = s.len() > 0 && s[0] == '-';
    let body = if s.len() > 0 && (s[0] == '+' || s[0] == '-') {
        s.drop_first()
    } else {
        s
    };
    let v: int = if negative {
        -decimal_value(body)
    } else {
        decimal_value(body)
    };
    if body.len() > 0 && all_digits(body) && isize::MIN <= v <= isize::MAX {
        Some(v as isize)
    } else {
        None
    }
}

/// The position of the first `c` in `chars[lo..hi]`, or `hi` where there is
/// none.
pub fn find_char(chars: &Vec<char>, lo: usize, hi: usize, c: char) -> (k: usize)
    requires
        lo <= hi <= chars@.len(),
    ensures
        lo <= k <= hi,
        k - lo == span_until(chars@.subrange(lo as int, hi as int), c),
{
    let mut j = lo;
    while j < hi
        invariant
            lo <= j <= hi <= chars@.len(),
            span_until(chars@.subrange(lo as int, hi as int), c) == (j - lo) + span_until(
                chars@.subrange(j as int, hi as int),
                c,
            ),
        decreases hi - j,
    {
        if chars[j] == c {
            return j;
        }
        assert(chars@.subrange(j as int, hi as int).drop_first() =~= chars@.subrange(
            j + 1,
            hi as int,
        ));
        j = j + 1;
    }
    j
}

/// The end of the run of non-whitespace characters that starts at `lo`.
pub fn word_end(chars: &Vec<char>, lo: usize, hi: usize) -> (k: usize)
    requires
        lo <= hi <= chars@.len(),
    ensures
        lo <= k <= hi,
        k - lo == word_len(chars@.subrange(lo as int, hi as int)),
{
    let mut j = lo;
    while j < hi
        invariant
            lo <= j <= hi <= chars@.len(),
            word_len(chars@.subrange(lo as int, hi as int)) == (j - lo) + word_len(
                chars@.subrange(j as int, hi as int),
            ),
        decreases hi - j,
    {
        if is_whitespace(chars[j]) {
            return j;
        }
        assert(chars@.subrange(j as int, hi as int).drop_first() =~= chars@.subrange(
            j + 1,
            hi as int,
        ));
        j = j + 1;
    }
    j
}

/// The end of `chars[lo..hi]` once its trailing whitespace is removed.
pub fn trim_end_at(chars: &Vec<char>, lo: usize, hi: usize) -> (k: usize)
    requires
        lo <= hi <= chars@.len(),
    ensures
        lo <= k <= hi,
        trim_end(chars@.subrange(lo as int, hi as int)) == chars@.subrange(lo as int, k as int),
{
    let mut k = hi;
    while k > lo && is_whitespace(chars[k - 1])
        invariant
            lo <= k <= hi <= chars@.len(),
            trim_end(chars@.subrange(lo as int, hi as int)) == trim_end(
                chars@.subrange(lo as int, k as int),
            ),
        decreases k,
    {
        assert(chars@.subrange(lo as int, k as int).drop_last() =~= chars@.subrange(
            lo as int,
            k - 1,
        ));
        k = k - 1;
    }
    k
}

/// The start of `chars[lo..hi]` once its leading whitespace is removed.
pub fn trim_start_at(chars: &Vec<char>, lo: usize, hi: usize) -> (k: usize)
    requires
        lo <= hi <= chars@.len(),
    ensures
        lo <= k <= hi,
        trim_start(chars@.subrange(lo as int, hi as int)) == chars@.subrange(k as int, hi as int),
{
    let mut k = lo;
    while k < hi && is_whitespace(chars[k])
        invariant
            lo <= k <= hi <= chars@.len(),
            trim_start(chars@.subrange(lo as int, hi as int)) == trim_start(
                chars@.subrange(k as int, hi as int),
            ),
        decreases hi - k,
    {
        assert(chars@.subrange(k as int, hi as int).drop_first() =~= chars@.subrange(
            k + 1,
            hi as int,
        ));
        k = k + 1;
    }
    k
}

/// The characters that a list of `(start, end)` spans of `chars` cover.
pub open spec fn spans_view(chars: Seq<char>, spans: Seq<(usize, usize)>) -> Seq<Seq<char>> {
    Seq::new(spans.len(), |k: int| chars.subrange(spans[k].0 as int, spans[k].1 as int))
}

/// The spans of the whitespace-separated words of `chars[lo..hi]`.
pub fn split_words(chars: &Vec<char>, lo: usize, hi: usize) -> (spans: Vec<(usize, usize)>)
    requires
        lo <= hi <= chars@.len(),
    ensures
        spans_view(chars@, spans@) == words(chars@.subrange(lo as int, hi as int)),
        forall|k: int|
            0 <= k < spans@.len() ==> lo <= (#[trigger] spans@[k]).0 <= spans@[k].1 <= hi,
{
    let mut spans: Vec<(usize, usize)> = Vec::new();
    let mut j = lo;
    while j < hi
        invariant
            lo <= j <= hi <= chars@.len(),
            words(chars@.subrange(lo as int, hi as int)) == spans_view(chars@, spans@) + words(
                chars@.subrange(j as int, hi as int),
            ),
            forall|k: int|
                0 <= k < spans@.len() ==> lo <= (#[trigger] spans@[k]).0 <= spans@[k].1 <= hi,
        decreases hi - j,
    {
        let ghost rest = chars@.subrange(j as int, hi as int);
        if is_whitespace(chars[j]) {
            assert(rest.drop_first() =~= chars@.subrange(j + 1, hi as int));
            j = j + 1;
        } else {
            let k = word_end(chars, j, hi);
            let ghost old_view = spans_view(chars@, spans@);
            spans.push((j, k));
            assert(spans_view(chars@, spans@) =~= old_view.push(
                chars@.subrange(j as int, k as int),
            ));
            if k == hi {
                assert(rest =~= chars@.subrange(j as int, k as int));
                assert(words(chars@.subrange(k as int, hi as int)) =~= Seq::<Seq<char>>::empty());
            } else {
                assert(rest.take(k - j) =~= chars@.subrange(j as int, k as int));
                assert(rest.skip(k - j) =~= chars@.subrange(k as int, hi as int));
            }
            assert(old_view + words(rest) =~= spans_view(chars@, spans@) + words(
                chars@.subrange(k as int, hi as int),
            ));
            j = k;
        }
    }
    assert(words(chars@.subrange(hi as int, hi as int)) =~= Seq::<Seq<char>>::empty());
    assert(spans_view(chars@, spans@) + Seq::<Seq<char>>::empty() =~= spans_view(chars@, spans@));
    spans
}

/// The value of a run of digits is never negative.
pub proof fn lemma_decimal_nonneg(s: Seq<char>)
    requires
        all_digits(s),
    ensures
        decimal_value(s) >= 0,
    decreases s.len(),
{
    if s.len() > 0 {
        assert(all_digits(s.drop_last())) by {
            assert forall|i: int| 0 <= i < s.drop_last().len() implies is_digit(
                #[trigger] s.drop_last()[i],
            ) by {
                assert(s.drop_last()[i] == s[i]);
            }
        }
        lemma_decimal_nonneg(s.drop_last());
        assert(is_digit(s[s.len() - 1]));
    }
}

/// A leading part of a run of digits writes no larger a number than the
/// whole run.
pub proof fn lemma_decimal_prefix(s: Seq<char>, i: int)
    requires
        all_digits(s),
        0 <= i <= s.len(),
    ensures
        0 <= decimal_value(s.take(i)) <= decimal_value(s),
    decreases s.len(),
{
    if i < s.len() {
        assert(all_digits(s.drop_last())) by {
            assert forall|k: int| 0 <= k < s.drop_last().len() implies is_digit(
                #[trigger] s.drop_last()[k],
            ) by {
                assert(s.drop_last()[k] == s[k]);
            }
        }
        lemma_decimal_prefix(s.drop_last(), i);
        assert(s.drop_last().take(i) =~= s.take(i));
        assert(is_digit(s[s.len() - 1]));
    } else {
        assert(s.take(i) =~= s);
        lemma_decimal_nonneg(s);
    }
}

/// Extends the digits `chars[start..j]` by the digit `chars[j]`.
proof fn lemma_digits_step(chars: Seq<char>, start: int, j: int)
    requires
        0 <= start <= j < chars.len(),
        all_digits(chars.subrange(start, j)),
        is_digit(chars[j]),
    ensures
        all_digits(chars.subrange(start, j + 1)),
        decimal_value(chars.subrange(start, j + 1)) == decimal_value(chars.subrange(start, j))
            * 10 + digit_value(chars[j]),
{
    let p = chars.subrange(start, j + 1);
    assert(p.drop_last() =~= chars.subrange(start, j));
    assert forall|i: int| 0 <= i < p.len() implies is_digit(#[trigger] p[i]) by {
        if i < j - start {
            assert(p[i] == chars.subrange(start, j)[i]);
        }
    }
}

/// Reads the digits `chars[start..hi]` as a number no larger than `limit`;
/// `None` where a character is not a digit or the number exceeds `limit`.
fn digits_at_most(chars: &Vec<char>, start: usize, hi: usize, limit: usize) -> (r: Option<usize>)
    requires
        start <= hi <= chars@.len(),
    ensures
        ({
            let body = chars@.subrange(start as int, hi as int);
            match r {
                Some(v) => all_digits(body) && v == decimal_value(body) && v <= limit,
                None => !all_digits(body) || decimal_value(body) > limit,
            }
        }),
{
    let ghost body = chars@.subrange(start as int, hi as int);
    let mut acc: usize = 0;
    let mut j = start;
    assert(chars@.subrange(start as int, start as int) =~= Seq::<char>::empty());
    while j < hi
        invariant
            start <= j <= hi <= chars@.len(),
            body == chars@.subrange(start as int, hi as int),
            all_digits(chars@.subrange(start as int, j as int)),
            acc as int == decimal_value(chars@.subrange(start as int, j as int)),
            acc <= limit,
        decreases hi - j,
    {
        let c = chars[j];
        if !('0' <= c && c <= '9') {
            assert(body[j - start] == c);
            return None;
        }
        proof {
            lemma_digits_step(chars@, start as int, j as int);
            if all_digits(body) {
                lemma_decimal_prefix(body, j + 1 - start);
                assert(body.take(j + 1 - start) =~= chars@.subrange(start as int, j + 1));
            }
        }
        let d = ((c as u32) - ('0' as u32)) as usize;
        let next = match acc.checked_mul(10) {
            Some(m) => m.checked_add(d),
            None => None,
        };
        match next {
            Some(v) => {
                if v > limit {
                    return None;
                }
                acc = v;
            },
            None => {
                return None;
            },
        }
        j = j + 1;
    }
    assert(body =~= chars@.subrange(start as int, j as int));
    Some(acc)
}

/// `str::parse::<usize>` on the characters `chars[lo..hi]`.
pub fn parse_usize_at(chars: &Vec<char>, lo: usize, hi: usize) -> (r: Option<usize>)
    requires
        lo <= hi <= chars@.len(),
    ensures
        r == parse_usize_spec(chars@.subrange(lo as int, hi as int)),
{
    let ghost s = chars@.subrange(lo as int, hi as int);
    let start = if lo < hi && chars[lo] == '+' {
        lo + 1
    } else {
        lo
    };
    assert(chars@.subrange(start as int, hi as int) =~= (if s.len() > 0 && s[0] == '+' {
        s.drop_first()
    } else {
        s
    }));
    if start == hi {
        return None;
    }
    digits_at_most(chars, start, hi, usize::MAX)
}

/// `str::parse::<isize>` on the characters `chars[lo..hi]`.
pub fn parse_isize_at(chars: &Vec<char>, lo: usize, hi: usize) -> (r: Option<isize>)
    requires
        lo <= hi <= chars@.len(),
    ensures
        r == parse_isize_spec(chars@.subrange(lo as int, hi as int)),
{
    let ghost s = chars@.subrange(lo as int, hi as int);
    let negative = lo < hi && chars[lo] == '-';
    let start = if lo < hi && (chars[lo] == '+' || chars[lo] == '-') {
        lo + 1
    } else {
        lo
    };
    assert(chars@.subrange(start as int, hi as int) =~= (if s.len() > 0 && (s[0] == '+' || s[0]
        == '-') {
        s.drop_first()
    } else {
        s
    }));
    if start == hi {
        return None;
    }
    let limit: usize = if negative {
        (isize::MAX as usize) + 1
    } else {
        isize::MAX as usize
    };
    match digits_at_most(chars, start, hi, limit) {
        None => None,
        Some(m) => {
            if !negative {
                Some(m as isize)
            } else if m == 0 {
                Some(0)
            } else {
                Some(-((m - 1) as isize) - 1)
            }
        },
    }
}

} // verus!
