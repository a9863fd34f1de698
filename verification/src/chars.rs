//! Character-sequence primitives shared by the whole library: whitespace,
//! trimming, word splitting, integer parsing and decimal rendering.
//!
//! Text is handled as `Vec<char>` inside the algorithms; its view is the
//! `Seq<char>` that `String` and `&str` also view as.

use vstd::prelude::*;

verus! {

/// The Unicode `White_Space` property, as `char::is_whitespace` uses it.
pub open spec fn is_ws_spec(c: char) -> bool {
    ||| ('\u{9}' <= c && c <= '\u{d}')
    ||| c == ' '
    ||| c == '\u{85}'
    ||| c == '\u{a0}'
    ||| c == '\u{1680}'
    ||| ('\u{2000}' <= c && c <= '\u{200a}')
    ||| c == '\u{2028}'
    ||| c == '\u{2029}'
    ||| c == '\u{202f}'
    ||| c == '\u{205f}'
    ||| c == '\u{3000}'
}

/// Whether `c` is a Unicode whitespace character.
pub fn is_ws(c: char) -> (r: bool)
    ensures
        r == is_ws_spec(c),
{
    ('\u{9}' <= c && c <= '\u{d}') || c == ' ' || c == '\u{85}' || c == '\u{a0}' || c
        == '\u{1680}' || ('\u{2000}' <= c && c <= '\u{200a}') || c == '\u{2028}' || c
        == '\u{2029}' || c == '\u{202f}' || c == '\u{205f}' || c == '\u{3000}'
}

/// Whether `c` is an ASCII decimal digit.
pub open spec fn is_digit_spec(c: char) -> bool {
    '0' <= c && c <= '9'
}

/// The characters of a string, in order.
pub fn to_chars(s: &str) -> (r: Vec<char>)
    ensures
        r@ == s@,
{
    let mut out: Vec<char> = Vec::new();
    for c in it: s.chars()
        invariant
            out@ == it.seq().take(it.index() as int),
            it.seq() == s@,
    {
        out.push(c);
    }
    out
}


/// A string holding exactly the given characters.
#[verifier::external_body]
pub(crate) fn from_chars(v: &[char]) -> (r: String)
    ensures
        r@ == v@,
{
    v.iter().collect()
}

/// `s` with its leading whitespace removed.
pub open spec fn trim_start_spec(s: Seq<char>) -> Seq<char>
    decreases s.len(),
{
    if s.len() > 0 && is_ws_spec(s[0]) {
        trim_start_spec(s.drop_first())
    } else {
        s
    }
}

/// `s` with its trailing whitespace removed.
pub open spec fn trim_end_spec(s: Seq<char>) -> Seq<char>
    decreases s.len(),
{
    if s.len() > 0 && is_ws_spec(s.last()) {
        trim_end_spec(s.drop_last())
    } else {
        s
    }
}

/// `str::trim`: leading and trailing whitespace removed.
pub open spec fn trim_spec(s: Seq<char>) -> Seq<char> {
    trim_end_spec(trim_start_spec(s))
}

/// Trimming the start leaves a suffix of `s`.
pub proof fn lemma_trim_start_suffix(s: Seq<char>)
    ensures
        trim_start_spec(s).len() <= s.len(),
        trim_start_spec(s) == s.skip(s.len() - trim_start_spec(s).len()),
        trim_start_spec(s).len() > 0 ==> !is_ws_spec(trim_start_spec(s)[0]),
        forall|i: int| 0 <= i < s.len() - trim_start_spec(s).len() ==> is_ws_spec(#[trigger] s[i]),
    decreases s.len(),
{
    if s.len() > 0 && is_ws_spec(s[0]) {
        lemma_trim_start_suffix(s.drop_first());
        let t = trim_start_spec(s.drop_first());
        assert(s.drop_first().skip(s.drop_first().len() - t.len()) =~= s.skip(s.len() - t.len()));
        assert forall|i: int| 0 <= i < s.len() - t.len() implies is_ws_spec(#[trigger] s[i]) by {
            if i > 0 {
                assert(s[i] == s.drop_first()[i - 1]);
            }
        }
    } else {
        assert(s.skip(0) =~= s);
    }
}

/// Trimming the end leaves a prefix of `s`.
pub proof fn lemma_trim_end_prefix(s: Seq<char>)
    ensures
        trim_end_spec(s).len() <= s.len(),
        trim_end_spec(s) == s.take(trim_end_spec(s).len() as int),
        trim_end_spec(s).len() > 0 ==> !is_ws_spec(trim_end_spec(s).last()),
        forall|i: int| trim_end_spec(s).len() <= i < s.len() ==> is_ws_spec(#[trigger] s[i]),
    decreases s.len(),
{
    if s.len() > 0 && is_ws_spec(s.last()) {
        lemma_trim_end_prefix(s.drop_last());
        let t = trim_end_spec(s.drop_last());
        assert(s.drop_last().take(t.len() as int) =~= s.take(t.len() as int));
        assert forall|i: int| t.len() <= i < s.len() implies is_ws_spec(#[trigger] s[i]) by {
            if i < s.len() - 1 {
                assert(s[i] == s.drop_last()[i]);
            }
        }
    } else {
        assert(s.take(s.len() as int) =~= s);
    }
}

/// Index of the first non-whitespace character at or after `from`.
pub fn skip_ws_from(s: &Vec<char>, from: usize) -> (r: usize)
    requires
        from <= s.len(),
    ensures
        from <= r <= s.len(),
        r < s.len() ==> !is_ws_spec(s@[r as int]),
        forall|i: int| from <= i < r ==> is_ws_spec(#[trigger] s@[i]),
        trim_start_spec(s@.skip(from as int)) == s@.skip(r as int),
{
    let mut i = from;
    while i < s.len() && is_ws(s[i])
        invariant
            from <= i <= s.len(),
            forall|k: int| from <= k < i ==> is_ws_spec(#[trigger] s@[k]),
            trim_start_spec(s@.skip(from as int)) == trim_start_spec(s@.skip(i as int)),
        decreases s.len() - i,
    {
        assert(s@.skip(i as int).drop_first() =~= s@.skip(i + 1));
        i = i + 1;
    }
    i
}

/// `str::trim` on a character vector.
pub fn trim(s: &Vec<char>) -> (r: Vec<char>)
    ensures
        r@ == trim_spec(s@),
{
    let start = skip_ws_from(s, 0);
    assert(s@.skip(0) =~= s@);
    let mut end = s.len();
    while end > start && is_ws(s[end - 1])
        invariant
            start <= end <= s.len(),
            trim_end_spec(s@.subrange(start as int, s.len() as int)) == trim_end_spec(
                s@.subrange(start as int, end as int),
            ),
        decreases end,
    {
        assert(s@.subrange(start as int, end as int).drop_last() =~= s@.subrange(
            start as int,
            end - 1,
        ));
        end = end - 1;
    }
    assert(s@.skip(start as int) =~= s@.subrange(start as int, s.len() as int));
    let r = slice_chars(s, start, end);
    proof {
        let t = s@.subrange(start as int, end as int);
        if t.len() > 0 {
            assert(t.last() == s@[end - 1]);
        }
    }
    r
}

/// The characters `s[from..to]`.
pub fn slice_chars(s: &Vec<char>, from: usize, to: usize) -> (r: Vec<char>)
    requires
        from <= to <= s.len(),
    ensures
        r@ == s@.subrange(from as int, to as int),
{
    let mut out: Vec<char> = Vec::new();
    let mut i = from;
    while i < to
        invariant
            from <= i <= to <= s.len(),
            out@ == s@.subrange(from as int, i as int),
        decreases to - i,
    {
        out.push(s[i]);
        assert(s@.subrange(from as int, i + 1) =~= s@.subrange(from as int, i as int).push(s@[i as int]));
        i = i + 1;
    }
    out
}

/// Length of the leading run of non-whitespace characters.
pub open spec fn word_len(s: Seq<char>) -> nat
    decreases s.len(),
{
    if s.len() > 0 && !is_ws_spec(s[0]) {
        1 + word_len(s.drop_first())
    } else {
        0
    }
}

/// The leading run of non-whitespace characters is bounded and ends at whitespace.
pub proof fn lemma_word_len(s: Seq<char>)
    ensures
        word_len(s) <= s.len(),
        word_len(s) < s.len() ==> is_ws_spec(s[word_len(s) as int]),
        forall|i: int| 0 <= i < word_len(s) ==> !is_ws_spec(#[trigger] s[i]),
    decreases s.len(),
{
    if s.len() > 0 && !is_ws_spec(s[0]) {
        lemma_word_len(s.drop_first());
        assert forall|i: int| 0 <= i < word_len(s) implies !is_ws_spec(#[trigger] s[i]) by {
            if i > 0 {
                assert(s[i] == s.drop_first()[i - 1]);
            }
        }
    }
}

/// `str::split_whitespace`: the maximal runs of non-whitespace characters.
pub open spec fn words_spec(s: Seq<char>) -> Seq<Seq<char>>
    decreases s.len(),
{
    let t = trim_start_spec(s);
    if t.len() == 0 || t.len() > s.len() {
        seq![]
    } else {
        let n = word_len(t);
        if n == 0 || n > t.len() {
            seq![]
        } else {
            seq![t.take(n as int)] + words_spec(t.skip(n as int))
        }
    }
}

/// `xs` joined with `sep` between consecutive items.
pub open spec fn join_spec(xs: Seq<Seq<char>>, sep: Seq<char>) -> Seq<char>
    decreases xs.len(),
{
    if xs.len() == 0 {
        seq![]
    } else if xs.len() == 1 {
        xs[0]
    } else {
        join_spec(xs.drop_last(), sep) + sep + xs.last()
    }
}

/// `xs` concatenated without separators.
pub open spec fn concat_spec(xs: Seq<Seq<char>>) -> Seq<char> {
    join_spec(xs, seq![])
}

/// Unfolding `words_spec` from an index `i` of `s`.
proof fn lemma_words_step(s: Seq<char>, i: int, k: int, j: int)
    requires
        0 <= i <= k < j <= s.len(),
        trim_start_spec(s.skip(i)) == s.skip(k),
        forall|m: int| k <= m < j ==> !is_ws_spec(#[trigger] s[m]),
        j == s.len() || is_ws_spec(s[j]),
    ensures
        words_spec(s.skip(i)) == seq![s.subrange(k, j)] + words_spec(s.skip(j)),
{
    let t = s.skip(k);
    lemma_trim_start_suffix(s.skip(i));
    assert(word_len(t) == j - k) by {
        lemma_word_len_exact(t, j - k);
    }
    assert(t.take(j - k) =~= s.subrange(k, j));
    assert(t.skip(j - k) =~= s.skip(j));
}

/// `word_len` is `n` when exactly the first `n` characters are non-whitespace.
proof fn lemma_word_len_exact(t: Seq<char>, n: int)
    requires
        0 < n <= t.len(),
        forall|m: int| 0 <= m < n ==> !is_ws_spec(#[trigger] t[m]),
        n == t.len() || is_ws_spec(t[n]),
    ensures
        word_len(t) == n,
    decreases n,
{
    assert(!is_ws_spec(t[0]));
    if n > 1 {
        assert forall|m: int| 0 <= m < n - 1 implies !is_ws_spec(#[trigger] t.drop_first()[m]) by {
            assert(t.drop_first()[m] == t[m + 1]);
        }
        if n < t.len() {
            assert(t.drop_first()[n - 1] == t[n]);
        }
        lemma_word_len_exact(t.drop_first(), n - 1);
    } else {
        if t.len() > 1 {
            assert(t.drop_first()[0] == t[1]);
            assert(is_ws_spec(t.drop_first()[0]));
            assert(word_len(t.drop_first()) == 0);
        } else {
            assert(t.drop_first().len() == 0);
            assert(word_len(t.drop_first()) == 0);
        }
    }
}

/// `words_spec` is empty on an all-whitespace suffix.
proof fn lemma_words_end(s: Seq<char>, i: int)
    requires
        0 <= i <= s.len(),
        trim_start_spec(s.skip(i)) == s.skip(s.len() as int),
    ensures
        words_spec(s.skip(i)) == Seq::<Seq<char>>::empty(),
{
    assert(s.skip(s.len() as int).len() == 0);
}

/// `str::split_whitespace`.
pub fn split_whitespace(s: &Vec<char>) -> (r: Vec<Vec<char>>)
    ensures
        r.deep_view() == words_spec(s@),
{
    let mut out: Vec<Vec<char>> = Vec::new();
    let mut i: usize = 0;
    assert(s@.skip(0) =~= s@);
    while i < s.len()
        invariant
            i <= s.len(),
            words_spec(s@) == out.deep_view() + words_spec(s@.skip(i as int)),
        decreases s.len() - i,
    {
        let k = skip_ws_from(s, i);
        if k == s.len() {
            proof {
                lemma_words_end(s@, i as int);
                assert(out.deep_view() + Seq::<Seq<char>>::empty() =~= out.deep_view());
                assert(s@.skip(s.len() as int) =~= Seq::<char>::empty());
                assert(words_spec(Seq::<char>::empty()) =~= Seq::<Seq<char>>::empty());
            }
            i = k;
        } else {
            let mut j = k + 1;
            while j < s.len() && !is_ws(s[j])
                invariant
                    k < j <= s.len(),
                    forall|m: int| k <= m < j ==> !is_ws_spec(#[trigger] s@[m]),
                decreases s.len() - j,
            {
                j = j + 1;
            }
            let w = slice_chars(s, k, j);
            proof {
                lemma_words_step(s@, i as int, k as int, j as int);
            }
            let ghost old_out = out.deep_view();
            let ghost old_v = out@;
            out.push(w);
            proof {
                assert(out@ == old_v.push(w));
                assert forall|m: int| 0 <= m < out.deep_view().len() implies out.deep_view()[m]
                    == old_out.push(w@)[m] by {
                    if m < old_v.len() {
                        assert(out@[m] == old_v[m]);
                    }
                }
                assert(out.deep_view() =~= old_out.push(w@));
                assert(old_out.push(w@) + words_spec(s@.skip(j as int)) =~= old_out + (seq![
                    s@.subrange(k as int, j as int),
                ] + words_spec(s@.skip(j as int))));
            }
            i = j;
        }
    }
    proof {
        assert(s@.skip(s.len() as int) =~= Seq::<char>::empty());
        assert(words_spec(Seq::<char>::empty()) =~= Seq::<Seq<char>>::empty());
        assert(out.deep_view() + Seq::<Seq<char>>::empty() =~= out.deep_view());
    }
    out
}

/// Appends `b` to `a`.
pub fn append_chars(a: &mut Vec<char>, b: &Vec<char>)
    ensures
        final(a)@ == old(a)@ + b@,
{
    let mut i: usize = 0;
    let ghost a0 = a@;
    while i < b.len()
        invariant
            i <= b.len(),
            a@ == a0 + b@.take(i as int),
        decreases b.len() - i,
    {
        a.push(b[i]);
        assert(b@.take(i + 1) =~= b@.take(i as int).push(b@[i as int]));
        i = i + 1;
    }
    assert(b@.take(b.len() as int) =~= b@);
}

/// `xs` joined with `sep`.
pub fn join(xs: &Vec<Vec<char>>, sep: &Vec<char>) -> (r: Vec<char>)
    ensures
        r@ == join_spec(xs.deep_view(), sep@),
{
    let mut out: Vec<char> = Vec::new();
    let mut i: usize = 0;
    while i < xs.len()
        invariant
            i <= xs.len(),
            out@ == join_spec(xs.deep_view().take(i as int), sep@),
        decreases xs.len() - i,
    {
        let ghost before = xs.deep_view().take(i as int);
        if i > 0 {
            append_chars(&mut out, sep);
        }
        append_chars(&mut out, &xs[i]);
        proof {
            let now = xs.deep_view().take(i + 1);
            assert(now.drop_last() =~= before);
            assert(now.last() == xs[i as int]@);
            if i == 0 {
                assert(out@ =~= now[0]);
            }
        }
        i = i + 1;
    }
    assert(xs.deep_view().take(xs.len() as int) =~= xs.deep_view());
    out
}


/// The ten decimal digit characters, indexed by value.
pub open spec fn digit_chars() -> Seq<char> {
    seq!['0', '1', '2', '3', '4', '5', '6', '7', '8', '9']
}

/// The value of an ASCII digit character.
pub open spec fn digit_value(c: char) -> int {
    c as int - '0' as int
}

/// Whether every character is an ASCII digit.
pub open spec fn all_digits(s: Seq<char>) -> bool {
    forall|i: int| 0 <= i < s.len() ==> is_digit_spec(#[trigger] s[i])
}

/// The base-10 value of a digit string (0 when empty).
pub open spec fn digits_value(s: Seq<char>) -> int
    decreases s.len(),
{
    if s.len() == 0 {
        0
    } else {
        digits_value(s.drop_last()) * 10 + digit_value(s.last())
    }
}

/// `str::parse::<i64>`-style parsing into an unbounded integer: an optional
/// `+`/`-` sign followed by at least one ASCII digit, nothing else.
pub open spec fn parse_int_spec(s: Seq<char>) -> Option<int> {
    if s.len() > 0 && (s[0] == '+' || s[0] == '-') {
        let rest = s.drop_first();
        if rest.len() > 0 && all_digits(rest) {
            if s[0] == '-' {
                Some(-digits_value(rest))
            } else {
                Some(digits_value(rest))
            }
        } else {
            None
        }
    } else if s.len() > 0 && all_digits(s) {
        Some(digits_value(s))
    } else {
        None
    }
}

/// `str::parse::<i64>`: the parsed value when it is well formed and in range.
pub open spec fn parse_i64_spec(s: Seq<char>) -> Option<i64> {
    match parse_int_spec(s) {
        Some(v) => if i64::MIN <= v <= i64::MAX {
            Some(v as i64)
        } else {
            None
        },
        None => None,
    }
}

/// `str::parse::<usize>`: like `parse_i64_spec` but no `-` sign and the
/// value must fit in `usize`.
pub open spec fn parse_usize_spec(s: Seq<char>) -> Option<usize> {
    if s.len() > 0 && s[0] == '-' {
        None
    } else {
        match parse_int_spec(s) {
            Some(v) => if 0 <= v <= usize::MAX {
                Some(v as usize)
            } else {
                None
            },
            None => None,
        }
    }
}

/// Digit values are non-negative.
proof fn lemma_digits_value_nonneg(s: Seq<char>)
    requires
        all_digits(s),
    ensures
        0 <= digits_value(s),
    decreases s.len(),
{
    if s.len() > 0 {
        assert(all_digits(s.drop_last())) by {
            assert forall|i: int| 0 <= i < s.drop_last().len() implies is_digit_spec(
                #[trigger] s.drop_last()[i],
            ) by {
                assert(s.drop_last()[i] == s[i]);
            }
        }
        lemma_digits_value_nonneg(s.drop_last());
        assert(is_digit_spec(s[s.len() - 1]));
    }
}

/// Digit values only grow when more digits are appended.
proof fn lemma_digits_value_mono(s: Seq<char>, i: int, j: int)
    requires
        0 <= i <= j <= s.len(),
        all_digits(s),
    ensures
        digits_value(s.take(i)) <= digits_value(s.take(j)),
    decreases j,
{
    if j > i {
        lemma_digits_value_mono(s, i, j - 1);
        assert(s.take(j).drop_last() =~= s.take(j - 1));
        assert(is_digit_spec(s[j - 1]));
        assert(all_digits(s.take(j - 1))) by {
            assert forall|k: int| 0 <= k < s.take(j - 1).len() implies is_digit_spec(
                #[trigger] s.take(j - 1)[k],
            ) by {
                assert(s.take(j - 1)[k] == s[k]);
            }
        }
        lemma_digits_value_nonneg(s.take(j - 1));
    }
}

/// The value of an ASCII digit.
fn digit_of(c: char) -> (d: u128)
    requires
        is_digit_spec(c),
    ensures
        d == digit_value(c),
        d <= 9,
{
    (c as u32 - '0' as u32) as u128
}

/// The exact integer value of a digit string, or `None` once it passes `bound`.
fn digits_upto(s: &Vec<char>, start: usize, bound: u128) -> (r: Option<u128>)
    requires
        start < s.len(),
        bound <= u64::MAX as u128 + 1,
    ensures
        !all_digits(s@.skip(start as int)) ==> r is None,
        all_digits(s@.skip(start as int)) ==> match r {
            Some(v) => v == digits_value(s@.skip(start as int)) && v <= bound,
            None => digits_value(s@.skip(start as int)) > bound,
        },
{
    let ghost t = s@.skip(start as int);
    let mut acc: u128 = 0;
    let mut i = start;
    while i < s.len()
        invariant
            start <= i <= s.len(),
            t == s@.skip(start as int),
            bound <= u64::MAX as u128 + 1,
            all_digits(t.take(i - start)),
            acc == digits_value(t.take(i - start)),
            acc <= bound,
        decreases s.len() - i,
    {
        let c = s[i];
        if !('0' <= c && c <= '9') {
            assert(t[i - start] == c);
            return None;
        }
        let d = digit_of(c);
        assert(t.take(i + 1 - start).drop_last() =~= t.take(i - start));
        assert(t.take(i + 1 - start).last() == c);
        assert(all_digits(t.take(i + 1 - start))) by {
            assert forall|k: int| 0 <= k < t.take(i + 1 - start).len() implies is_digit_spec(
                #[trigger] t.take(i + 1 - start)[k],
            ) by {
                if k < i - start {
                    assert(t.take(i + 1 - start)[k] == t.take(i - start)[k]);
                }
            }
        }
        acc = acc * 10 + d;
        i = i + 1;
        if acc > bound {
            proof {
                if all_digits(t) {
                    lemma_digits_value_mono(t, i - start, t.len() as int);
                    assert(t.take(t.len() as int) =~= t);
                }
            }
            return None;
        }
    }
    assert(t.take(s.len() - start) =~= t);
    Some(acc)
}

/// `str::parse::<i64>`.
pub fn parse_i64(s: &Vec<char>) -> (r: Option<i64>)
    ensures
        r == parse_i64_spec(s@),
{
    if s.len() == 0 {
        return None;
    }
    let signed = s[0] == '-' || s[0] == '+';
    let start: usize = if signed {
        1
    } else {
        0
    };
    if start == s.len() {
        return None;
    }
    assert(s@.skip(1) =~= s@.drop_first());
    assert(s@.skip(0) =~= s@);
    match digits_upto(s, start, 0x8000_0000_0000_0000u128) {
        None => None,
        Some(v) => {
            if s[0] == '-' {
                Some((0i128 - v as i128) as i64)
            } else if v <= 0x7fff_ffff_ffff_ffffu128 {
                Some(v as i64)
            } else {
                None
            }
        },
    }
}

/// `str::parse::<usize>`.
pub fn parse_usize(s: &Vec<char>) -> (r: Option<usize>)
    ensures
        r == parse_usize_spec(s@),
{
    if s.len() == 0 || s[0] == '-' {
        return None;
    }
    let start: usize = if s[0] == '+' {
        1
    } else {
        0
    };
    if start == s.len() {
        return None;
    }
    assert(s@.skip(1) =~= s@.drop_first());
    assert(s@.skip(0) =~= s@);
    match digits_upto(s, start, usize::MAX as u128) {
        None => None,
        Some(v) => Some(v as usize),
    }
}


/// Decimal digits of a natural number, most significant first.
pub open spec fn decimal_nat(n: nat) -> Seq<char>
    decreases n,
{
    if n < 10 {
        seq![digit_chars()[n as int]]
    } else {
        decimal_nat(n / 10).push(digit_chars()[(n % 10) as int])
    }
}

/// Decimal rendering of an integer, with a leading `-` when negative
/// (`format!("{}", v)`).
pub open spec fn decimal_int(v: int) -> Seq<char> {
    if v < 0 {
        seq!['-'] + decimal_nat((-v) as nat)
    } else {
        decimal_nat(v as nat)
    }
}

/// The digit at position `d` of `digit_chars` is a digit of value `d`.
pub proof fn lemma_digit_char(d: int)
    requires
        0 <= d < 10,
    ensures
        is_digit_spec(digit_chars()[d]),
        digit_value(digit_chars()[d]) == d,
{
    let s = digit_chars();
    assert(s[0] == '0' && s[1] == '1' && s[2] == '2' && s[3] == '3' && s[4] == '4');
    assert(s[5] == '5' && s[6] == '6' && s[7] == '7' && s[8] == '8' && s[9] == '9');
}

/// The decimal digits of `n` read back give `n`.
pub proof fn lemma_decimal_nat(n: nat)
    ensures
        decimal_nat(n).len() > 0,
        all_digits(decimal_nat(n)),
        digits_value(decimal_nat(n)) == n,
    decreases n,
{
    if n < 10 {
        lemma_digit_char(n as int);
        assert(decimal_nat(n).drop_last() =~= Seq::<char>::empty());
        assert(digits_value(decimal_nat(n).drop_last()) == 0);
        assert(decimal_nat(n).last() == digit_chars()[n as int]);
    } else {
        lemma_decimal_nat(n / 10);
        lemma_digit_char((n % 10) as int);
        let d = decimal_nat(n);
        assert(d.drop_last() =~= decimal_nat(n / 10));
        assert(d.last() == digit_chars()[(n % 10) as int]);
        assert(digits_value(d) == digits_value(d.drop_last()) * 10 + digit_value(d.last()));
        assert(n == (n / 10) * 10 + n % 10);
        assert forall|i: int| 0 <= i < d.len() implies is_digit_spec(#[trigger] d[i]) by {
            if i < d.len() - 1 {
                assert(d[i] == decimal_nat(n / 10)[i]);
            }
        }
    }
}

/// Different naturals have different decimal renderings.
pub proof fn lemma_decimal_nat_injective(a: nat, b: nat)
    requires
        decimal_nat(a) == decimal_nat(b),
    ensures
        a == b,
{
    lemma_decimal_nat(a);
    lemma_decimal_nat(b);
}

/// The digit character for a value below ten.
fn digit_char(d: u64) -> (c: char)
    requires
        d < 10,
    ensures
        c == digit_chars()[d as int],
{
    if d == 0 {
        '0'
    } else if d == 1 {
        '1'
    } else if d == 2 {
        '2'
    } else if d == 3 {
        '3'
    } else if d == 4 {
        '4'
    } else if d == 5 {
        '5'
    } else if d == 6 {
        '6'
    } else if d == 7 {
        '7'
    } else if d == 8 {
        '8'
    } else {
        '9'
    }
}

/// Decimal rendering of an unsigned value.
pub fn u64_to_chars(v: u64) -> (r: Vec<char>)
    ensures
        r@ == decimal_nat(v as nat),
{
    let mut tail: Vec<char> = Vec::new();
    let mut m = v;
    while m >= 10
        invariant
            decimal_nat(v as nat) == decimal_nat(m as nat) + tail@,
        decreases m,
    {
        let c = digit_char(m % 10);
        let ghost old_tail = tail@;
        tail.insert(0, c);
        proof {
            assert(decimal_nat(m as nat) == decimal_nat((m / 10) as nat).push(c));
            assert(decimal_nat((m / 10) as nat).push(c) + old_tail =~= decimal_nat(
                (m / 10) as nat,
            ) + tail@);
        }
        m = m / 10;
    }
    let mut out: Vec<char> = Vec::new();
    out.push(digit_char(m));
    assert(out@ =~= decimal_nat(m as nat));
    append_chars(&mut out, &tail);
    out
}

/// Decimal rendering of a signed value (`format!("{}", v)`).
pub fn i64_to_chars(v: i64) -> (r: Vec<char>)
    ensures
        r@ == decimal_int(v as int),
{
    if v < 0 {
        let mag: u64 = (0i128 - v as i128) as u64;
        let digits = u64_to_chars(mag);
        let mut out: Vec<char> = Vec::new();
        out.push('-');
        append_chars(&mut out, &digits);
        assert(out@ =~= seq!['-'] + decimal_nat((-(v as int)) as nat));
        out
    } else {
        u64_to_chars(v as u64)
    }
}

/// `text` with whitespace runs folded to one space and trimmed: the words of
/// `text` joined by single spaces.
pub open spec fn collapse_ws_spec(text: Seq<char>) -> Seq<char> {
    join_spec(words_spec(text), seq![' '])
}

/// Fold whitespace runs to single spaces and trim (the ideographic space and
/// newlines are whitespace too, so they fold like any other).
pub fn collapse_ws_chars(text: &Vec<char>) -> (r: Vec<char>)
    ensures
        r@ == collapse_ws_spec(text@),
{
    let words = split_whitespace(text);
    let mut sep: Vec<char> = Vec::new();
    sep.push(' ');
    assert(sep@ =~= seq![' ']);
    join(&words, &sep)
}


/// Character-wise equality of two character vectors.
pub fn chars_eq(a: &Vec<char>, b: &Vec<char>) -> (r: bool)
    ensures
        r == (a@ == b@),
{
    if a.len() != b.len() {
        return false;
    }
    let mut i: usize = 0;
    while i < a.len()
        invariant
            i <= a.len(),
            a.len() == b.len(),
            forall|k: int| 0 <= k < i ==> a@[k] == b@[k],
        decreases a.len() - i,
    {
        if a[i] != b[i] {
            return false;
        }
        i = i + 1;
    }
    assert(a@ =~= b@);
    true
}

/// Appends the characters of `s` to `out`.
pub fn push_str(out: &mut Vec<char>, s: &str)
    ensures
        final(out)@ == old(out)@ + s@,
{
    let t = to_chars(s);
    append_chars(out, &t);
}


/// Position of the first `c` in `s`.
pub open spec fn index_of_char(s: Seq<char>, c: char) -> Option<int>
    decreases s.len(),
{
    if s.len() == 0 {
        None
    } else if s[0] == c {
        Some(0)
    } else {
        match index_of_char(s.drop_first(), c) {
            Some(i) => Some(i + 1),
            None => None,
        }
    }
}

/// `str::split` on one character: the pieces between occurrences of `c`.
pub open spec fn split_char_spec(s: Seq<char>, c: char) -> Seq<Seq<char>>
    decreases s.len(),
{
    match index_of_char(s, c) {
        None => seq![s],
        Some(i) => if 0 <= i < s.len() {
            seq![s.take(i)] + split_char_spec(s.skip(i + 1), c)
        } else {
            seq![s]
        },
    }
}

pub proof fn lemma_index_of_char(s: Seq<char>, c: char, n: int)
    requires
        0 <= n <= s.len(),
        forall|k: int| 0 <= k < n ==> s[k] != c,
    ensures
        n < s.len() && s[n] == c ==> index_of_char(s, c) == Some(n),
        n == s.len() ==> index_of_char(s, c) is None,
    decreases s.len(),
{
    if s.len() > 0 && n > 0 {
        assert forall|k: int| 0 <= k < n - 1 implies s.drop_first()[k] != c by {
            assert(s.drop_first()[k] == s[k + 1]);
        }
        lemma_index_of_char(s.drop_first(), c, n - 1);
    }
}

/// `str::split` on one character.
pub fn split_char(s: &Vec<char>, c: char) -> (r: Vec<Vec<char>>)
    ensures
        r.deep_view() == split_char_spec(s@, c),
{
    let mut out: Vec<Vec<char>> = Vec::new();
    let mut start: usize = 0;
    let mut i: usize = 0;
    assert(s@.skip(0) =~= s@);
    assert(out.deep_view() =~= Seq::<Seq<char>>::empty());
    while i < s.len()
        invariant
            start <= i <= s.len(),
            out.deep_view() + split_char_spec(s@.skip(start as int), c) == split_char_spec(s@, c),
            forall|k: int| start <= k < i ==> s@[k] != c,
        decreases s.len() - i,
    {
        if s[i] == c {
            let piece = slice_chars(s, start, i);
            proof {
                let t = s@.skip(start as int);
                lemma_index_of_char(t, c, i - start);
                assert(t.take(i - start) =~= piece@);
                assert(t.skip(i - start + 1) =~= s@.skip(i + 1));
                let before = out.deep_view();
                assert(before + split_char_spec(t, c) == before + (seq![piece@] + split_char_spec(s@.skip(i + 1), c)));
            }
            let ghost before = out.deep_view();
            assert(piece.deep_view() =~= piece@);
            out.push(piece);
            proof {
                assert(out.deep_view() =~= before.push(piece@));
                assert(out.deep_view() + split_char_spec(s@.skip(i + 1), c) =~= before + (seq![piece@] + split_char_spec(s@.skip(i + 1), c)));
            }
            start = i + 1;
        }
        i = i + 1;
    }
    let piece = slice_chars(s, start, s.len());
    proof {
        let t = s@.skip(start as int);
        lemma_index_of_char(t, c, s.len() - start);
        assert(t =~= piece@);
    }
    let ghost before = out.deep_view();
    assert(piece.deep_view() =~= piece@);
    out.push(piece);
    assert(out.deep_view() =~= before.push(piece@));
    assert(before + split_char_spec(s@.skip(start as int), c) =~= before + seq![piece@]);
    out
}

/// `s` starts with `p` at position `k`.
pub open spec fn occurs_at(s: Seq<char>, p: Seq<char>, k: int) -> bool {
    0 <= k && k + p.len() <= s.len() && s.subrange(k, k + p.len()) == p
}

/// Position of the first occurrence of `p` in `s` at or after `k`.
pub open spec fn find_from(s: Seq<char>, p: Seq<char>, k: int) -> Option<int>
    decreases s.len() - k,
{
    if k < 0 || k + p.len() > s.len() {
        None
    } else if occurs_at(s, p, k) {
        Some(k)
    } else if k >= s.len() {
        None
    } else {
        find_from(s, p, k + 1)
    }
}

/// Position of the first occurrence of `p` in `s`.
pub open spec fn find_sub(s: Seq<char>, p: Seq<char>) -> Option<int> {
    find_from(s, p, 0)
}

pub proof fn lemma_find_from_range(s: Seq<char>, p: Seq<char>, k: int)
    ensures
        find_from(s, p, k) matches Some(i) ==> k <= i && occurs_at(s, p, i),
    decreases s.len() - k,
{
    if !(k < 0 || k + p.len() > s.len()) && !occurs_at(s, p, k) && k < s.len() {
        lemma_find_from_range(s, p, k + 1);
    }
}

/// Whether `p` occurs in `s` at position `k`.
pub fn occurs_at_exec(s: &Vec<char>, p: &Vec<char>, k: usize) -> (r: bool)
    ensures
        r == occurs_at(s@, p@, k as int),
{
    if k > s.len() || p.len() > s.len() - k {
        return false;
    }
    let mut j: usize = 0;
    while j < p.len()
        invariant
            j <= p.len(),
            k + p.len() <= s.len(),
            forall|m: int| 0 <= m < j ==> s@[k + m] == p@[m],
        decreases p.len() - j,
    {
        if s[k + j] != p[j] {
            assert(s@.subrange(k as int, k + p.len())[j as int] == s@[k + j]);
            return false;
        }
        j = j + 1;
    }
    assert(s@.subrange(k as int, k + p.len()) =~= p@);
    true
}

/// First occurrence of `p` in `s` at or after `k`.
pub fn find_sub_from(s: &Vec<char>, p: &Vec<char>, k: usize) -> (r: Option<usize>)
    ensures
        match r {
            Some(i) => {
                &&& find_from(s@, p@, k as int) == Some(i as int)
                &&& occurs_at(s@, p@, i as int)
                &&& k <= i
            },
            None => find_from(s@, p@, k as int) is None,
        },
{
    proof {
        lemma_find_from_range(s@, p@, k as int);
    }
    let mut i = k;
    while i <= s.len() && p.len() <= s.len() - i
        invariant
            k <= i,
            find_from(s@, p@, k as int) == find_from(s@, p@, i as int),
        decreases s.len() + 1 - i,
    {
        if occurs_at_exec(s, p, i) {
            return Some(i);
        }
        if i == s.len() {
            return None;
        }
        i = i + 1;
    }
    None
}

/// `str::replace`: every non-overlapping occurrence of `from`, left to right,
/// replaced by `to`.
pub open spec fn replace_spec(s: Seq<char>, from: Seq<char>, to: Seq<char>) -> Seq<char>
    decreases s.len(),
{
    if from.len() == 0 || s.len() == 0 {
        s
    } else if occurs_at(s, from, 0) {
        to + replace_spec(s.skip(from.len() as int), from, to)
    } else {
        seq![s[0]] + replace_spec(s.drop_first(), from, to)
    }
}

/// `str::replace` for a non-empty pattern.
pub fn replace_chars(s: &Vec<char>, from: &Vec<char>, to: &Vec<char>) -> (r: Vec<char>)
    requires
        from@.len() > 0,
    ensures
        r@ == replace_spec(s@, from@, to@),
{
    let mut out: Vec<char> = Vec::new();
    let mut i: usize = 0;
    assert(s@.skip(0) =~= s@);
    while i < s.len()
        invariant
            i <= s.len(),
            from@.len() > 0,
            out@ + replace_spec(s@.skip(i as int), from@, to@) == replace_spec(s@, from@, to@),
        decreases s.len() - i,
    {
        let ghost t = s@.skip(i as int);
        if occurs_at_exec(s, from, i) {
            proof {
                assert(t.subrange(0, from@.len() as int) =~= s@.subrange(i as int, i + from@.len()));
                assert(t.skip(from@.len() as int) =~= s@.skip(i + from@.len()));
            }
            let ghost before = out@;
            append_chars(&mut out, to);
            assert(out@ + replace_spec(s@.skip(i + from@.len()), from@, to@) =~= before + (to@ + replace_spec(t.skip(from@.len() as int), from@, to@)));
            i = i + from.len();
        } else {
            proof {
                if occurs_at(t, from@, 0) {
                    assert(t.subrange(0, from@.len() as int) =~= s@.subrange(i as int, i + from@.len()));
                }
                assert(t.drop_first() =~= s@.skip(i + 1));
                assert(t[0] == s@[i as int]);
            }
            let ghost before = out@;
            out.push(s[i]);
            assert(out@ + replace_spec(s@.skip(i + 1), from@, to@) =~= before + (seq![t[0]] + replace_spec(t.drop_first(), from@, to@)));
            i = i + 1;
        }
    }
    assert(s@.skip(i as int) =~= Seq::<char>::empty());
    assert(out@ + Seq::<char>::empty() =~= out@);
    out
}


/// The lowercase mapping of a text, as `str::to_lowercase` computes it.
pub uninterp spec fn lower_of(s: Seq<char>) -> Seq<char>;

/// `str::to_lowercase`. The result is the named value `lower_of(s)`; the
/// Unicode case tables are not restated here.
#[verifier::external_body]
pub(crate) fn to_lower(s: &str) -> (r: String)
    ensures
        r@ == lower_of(s@),
{
    s.to_lowercase()
}

/// The uppercase mapping of a text, as `str::to_uppercase` computes it.
pub uninterp spec fn upper_of(s: Seq<char>) -> Seq<char>;

/// `str::to_uppercase`. The result is the named value `upper_of(s)`.
#[verifier::external_body]
pub(crate) fn to_upper(s: &str) -> (r: String)
    ensures
        r@ == upper_of(s@),
{
    s.to_uppercase()
}

/// `s` ends with `suffix`.
pub open spec fn ends_with_spec(s: Seq<char>, suffix: Seq<char>) -> bool {
    suffix.len() <= s.len() && s.skip(s.len() - suffix.len()) == suffix
}

/// Whether `s` ends with `suffix`.
pub fn ends_with(s: &Vec<char>, suffix: &Vec<char>) -> (r: bool)
    ensures
        r == ends_with_spec(s@, suffix@),
{
    if suffix.len() > s.len() {
        return false;
    }
    let k = s.len() - suffix.len();
    let ok = occurs_at_exec(s, suffix, k);
    assert(s@.subrange(k as int, k + suffix@.len()) =~= s@.skip(k as int));
    ok
}

} // verus!
