//! Python literals as a model writes them in its answers (nested lists and
//! tuples of numbers, strings, booleans and `None`).

use vstd::prelude::*;
use crate::chars::{to_chars, from_chars, is_ws, is_ws_spec, parse_i64, parse_i64_spec};

verus! {

/// A parsed Python literal. Tuples read as lists; a float keeps its text.
#[derive(Debug)]
pub enum PyValue {
    /// A list or tuple.
    List(Vec<PyValue>),
    /// A quoted string, escapes resolved.
    Str(String),
    /// An integer that fits in `i64`.
    Int(i64),
    /// A float literal, as written.
    Float(String),
    /// `True` or `False`.
    Bool(bool),
    /// `None`.
    Null,
}

/// The mathematical value of a Python literal.
#[verifier::ext_equal]
pub enum PyView {
    /// A list or tuple.
    List(Seq<PyView>),
    /// A string.
    Str(Seq<char>),
    /// An integer.
    Int(i64),
    /// A float literal's text.
    Float(Seq<char>),
    /// A boolean.
    Bool(bool),
    /// `None`.
    Null,
}

impl PyValue {
    /// The value this literal denotes.
    pub open spec fn value(&self) -> PyView
        decreases self,
    {
        match self {
            PyValue::List(items) => PyView::List(
                Seq::new(items.len() as nat, |i: int| if 0 <= i < items.len() { items[i].value() } else { PyView::Null }),
            ),
            PyValue::Str(s) => PyView::Str(s@),
            PyValue::Int(v) => PyView::Int(*v),
            PyValue::Float(s) => PyView::Float(s@),
            PyValue::Bool(b) => PyView::Bool(*b),
            PyValue::Null => PyView::Null,
        }
    }
}

proof fn lemma_list_value(items: Vec<PyValue>)
    ensures
        PyValue::List(items).value() matches PyView::List(s) && s.len() == items.len() && forall|k: int| 0 <= k < items.len() ==> s[k] == items[k].value(),
{
    reveal_with_fuel(PyValue::value, 2);
    assert(PyValue::List(items).value() is List);
}

/// A list literal's value has as many items as the list.
pub proof fn lemma_list_value_len(v: PyValue)
    requires
        v is List,
    ensures
        v.value() matches PyView::List(s) && s.len() == v->List_0.len(),
{
    lemma_list_value(v->List_0);
}

impl Clone for PyValue {
    fn clone(&self) -> (r: Self)
        ensures
            r.value() == self.value(),
        decreases self,
    {
        match self {
            PyValue::List(items) => {
                let mut out: Vec<PyValue> = Vec::new();
                let mut i: usize = 0;
                while i < items.len()
                    invariant
                        *self == PyValue::List(*items),
                        i <= items.len(),
                        out@.len() == i,
                        forall|k: int| 0 <= k < i ==> (#[trigger] out@[k]).value() == items@[k].value(),
                    decreases items.len() - i,
                {
                    proof {
                        assert(decreases_to!(*self => self->List_0));
                        assert(decreases_to!(self->List_0 => self->List_0[i as int]));
                    }
                    let c = items[i].clone();
                    out.push(c);
                    i = i + 1;
                }
                let ghost a = Seq::new(
                    out.len() as nat,
                    |k: int| if 0 <= k < out.len() { out[k].value() } else { PyView::Null },
                );
                let ghost b = Seq::new(
                    items.len() as nat,
                    |k: int| if 0 <= k < items.len() { items[k].value() } else { PyView::Null },
                );
                let ghost outv = out;
                let r = PyValue::List(out);
                proof {
                    lemma_list_value(outv);
                    lemma_list_value(*items);
                    let ra = r.value()->List_0;
                    let sa = self.value()->List_0;
                    assert(ra =~= sa);
                }
                r
            },
            PyValue::Str(s) => PyValue::Str(s.clone()),
            PyValue::Int(v) => PyValue::Int(*v),
            PyValue::Float(s) => PyValue::Float(s.clone()),
            PyValue::Bool(b) => PyValue::Bool(*b),
            PyValue::Null => PyValue::Null,
        }
    }
}


/// The number of ASCII digits at the start of `t`.
pub open spec fn digit_run(t: Seq<char>) -> nat
    decreases t.len(),
{
    if t.len() > 0 && crate::chars::is_digit_spec(t[0]) {
        1 + digit_run(t.drop_first())
    } else {
        0
    }
}

/// The upper-case form of the letters of `inf`, `infinity` and `nan`.
pub open spec fn upper_letter(c: char) -> char {
    if c == 'a' {
        'A'
    } else if c == 'f' {
        'F'
    } else if c == 'i' {
        'I'
    } else if c == 'n' {
        'N'
    } else if c == 't' {
        'T'
    } else if c == 'y' {
        'Y'
    } else {
        c
    }
}

fn upper_letter_exec(c: char) -> (r: char)
    ensures
        r == upper_letter(c),
{
    if c == 'a' {
        'A'
    } else if c == 'f' {
        'F'
    } else if c == 'i' {
        'I'
    } else if c == 'n' {
        'N'
    } else if c == 't' {
        'T'
    } else if c == 'y' {
        'Y'
    } else {
        c
    }
}

/// Case-insensitive equality with one of the lower-case words `inf`,
/// `infinity`, `nan`.
pub open spec fn eq_ignore_case(t: Seq<char>, word: Seq<char>) -> bool {
    t.len() == word.len() && forall|i: int|
        0 <= i < t.len() ==> (t[i] == word[i] || t[i] == upper_letter(word[i]))
}

/// An exponent part: `e` or `E`, an optional sign, then digits.
pub open spec fn exponent_ok(t: Seq<char>) -> bool {
    t.len() == 0 || ((t[0] == 'e' || t[0] == 'E') && {
        let u = if t.len() > 1 && (t[1] == '+' || t[1] == '-') { t.skip(2) } else { t.skip(1) };
        u.len() > 0 && digit_run(u) == u.len()
    })
}

/// An unsigned decimal number: digits with an optional fraction (at least
/// one digit in all), then an optional exponent.
pub open spec fn number_ok(t: Seq<char>) -> bool {
    let a = digit_run(t);
    let rest = t.skip(a as int);
    if rest.len() > 0 && rest[0] == '.' {
        let frac = rest.skip(1);
        let b = digit_run(frac);
        a + b > 0 && exponent_ok(frac.skip(b as int))
    } else {
        a > 0 && exponent_ok(rest)
    }
}

/// The text of a float literal as Rust's `f64` parser accepts it: an
/// optional sign, then `inf`, `infinity` or `nan` in any case, or a decimal
/// number.
pub open spec fn float_literal_spec(t: Seq<char>) -> bool {
    let u = if t.len() > 0 && (t[0] == '+' || t[0] == '-') { t.skip(1) } else { t };
    eq_ignore_case(u, "inf"@) || eq_ignore_case(u, "infinity"@) || eq_ignore_case(u, "nan"@)
        || number_ok(u)
}

fn digit_run_exec(t: &Vec<char>, from: usize) -> (r: usize)
    requires
        from <= t@.len(),
    ensures
        r == digit_run(t@.skip(from as int)),
        from + r <= t@.len(),
{
    let mut k = from;
    while k < t.len() && '0' <= t[k] && t[k] <= '9'
        invariant
            from <= k <= t@.len(),
            digit_run(t@.skip(from as int)) == (k - from) + digit_run(t@.skip(k as int)),
        decreases t@.len() - k,
    {
        assert(t@.skip(k as int).drop_first() =~= t@.skip(k + 1));
        k = k + 1;
    }
    k - from
}

fn eq_ignore_case_exec(t: &Vec<char>, from: usize, word: &str) -> (r: bool)
    requires
        from <= t@.len(),
    ensures
        r == eq_ignore_case(t@.skip(from as int), word@),
{
    let w = to_chars(word);
    let tl = t.len();
    if t.len() - from != w.len() {
        return false;
    }
    let mut i: usize = 0;
    while i < w.len()
        invariant
            i <= w@.len(),
            w@ == word@,
            t@.len() - from == w@.len(),
            from <= t@.len(),
            tl == t@.len(),
            forall|k: int| 0 <= k < i ==> (t@.skip(from as int)[k] == w@[k] || t@.skip(from as int)[k] == upper_letter(w@[k])),
        decreases w@.len() - i,
    {
        assert(from + i < t@.len());
        let c = t[from + i];
        assert(t@.skip(from as int)[i as int] == c);
        if !(c == w[i] || c == upper_letter_exec(w[i])) {
            assert(!(t@.skip(from as int)[i as int] == w@[i as int] || t@.skip(from as int)[i as int] == upper_letter(w@[i as int])));
            return false;
        }
        i = i + 1;
    }
    true
}

fn exponent_ok_exec(t: &Vec<char>, from: usize) -> (r: bool)
    requires
        from <= t@.len(),
    ensures
        r == exponent_ok(t@.skip(from as int)),
{
    let ghost u = t@.skip(from as int);
    if from == t.len() {
        return true;
    }
    if !(t[from] == 'e' || t[from] == 'E') {
        return false;
    }
    let start = if from + 1 < t.len() && (t[from + 1] == '+' || t[from + 1] == '-') { from + 2 } else { from + 1 };
    assert(if u.len() > 1 && (u[1] == '+' || u[1] == '-') { u.skip(2) } else { u.skip(1) } =~= t@.skip(start as int));
    let n = digit_run_exec(t, start);
    start < t.len() && n == t.len() - start
}

/// Whether a token is a float literal that Rust's `f64` parser accepts.
fn is_float_literal(t: &Vec<char>) -> (r: bool)
    ensures
        r == float_literal_spec(t@),
{
    let from: usize = if t.len() > 0 && (t[0] == '+' || t[0] == '-') { 1 } else { 0 };
    let ghost u = t@.skip(from as int);
    assert(u =~= if t@.len() > 0 && (t@[0] == '+' || t@[0] == '-') { t@.skip(1) } else { t@ });
    if eq_ignore_case_exec(t, from, "inf") || eq_ignore_case_exec(t, from, "infinity")
        || eq_ignore_case_exec(t, from, "nan") {
        return true;
    }
    let a = digit_run_exec(t, from);
    let p = from + a;
    assert(u.skip(a as int) =~= t@.skip(p as int));
    if p < t.len() && t[p] == '.' {
        assert(u.skip(a as int).skip(1) =~= t@.skip(p + 1));
        let b = digit_run_exec(t, p + 1);
        assert(u.skip(a as int).skip(1).skip(b as int) =~= t@.skip(p + 1 + b));
        a + b > 0 && exponent_ok_exec(t, p + 1 + b)
    } else {
        a > 0 && exponent_ok_exec(t, p)
    }
}

/// The first position at or after `p` that is not whitespace.
pub open spec fn skip_ws_spec(s: Seq<char>, p: int) -> int
    decreases s.len() - p,
{
    if 0 <= p < s.len() && is_ws_spec(s[p]) {
        skip_ws_spec(s, p + 1)
    } else {
        p
    }
}

pub proof fn lemma_skip_ws(s: Seq<char>, p: int)
    ensures
        p <= skip_ws_spec(s, p),
        0 <= p <= s.len() ==> skip_ws_spec(s, p) <= s.len(),
    decreases s.len() - p,
{
    if 0 <= p < s.len() && is_ws_spec(s[p]) {
        lemma_skip_ws(s, p + 1);
    }
}

/// A quoted string from position `p` (just after the opening quote): a
/// backslash takes the next character literally; the closing quote ends it.
pub open spec fn str_from(s: Seq<char>, p: int, quote: char, acc: Seq<char>) -> Option<(PyView, int)>
    decreases s.len() - p,
{
    if p < 0 || p >= s.len() {
        None
    } else if s[p] == '\\' && p + 1 < s.len() {
        str_from(s, p + 2, quote, acc.push(s[p + 1]))
    } else if s[p] == quote {
        Some((PyView::Str(acc), p + 1))
    } else {
        str_from(s, p + 1, quote, acc.push(s[p]))
    }
}

/// Whether a character ends a bare token.
pub open spec fn ends_token(c: char) -> bool {
    c == ',' || c == ']' || c == ')' || is_ws_spec(c)
}

/// The end of the bare token starting at `p`.
pub open spec fn token_end(s: Seq<char>, p: int) -> int
    decreases s.len() - p,
{
    if 0 <= p < s.len() && !ends_token(s[p]) {
        token_end(s, p + 1)
    } else {
        p
    }
}

proof fn lemma_token_end(s: Seq<char>, p: int)
    requires
        0 <= p <= s.len(),
    ensures
        p <= token_end(s, p) <= s.len(),
    decreases s.len() - p,
{
    if p < s.len() && !ends_token(s[p]) {
        lemma_token_end(s, p + 1);
    }
}

/// The value of a bare token: `True`, `False`, `None`, an `i64`, or a
/// float literal (kept as text).
pub open spec fn atom_value(t: Seq<char>) -> Option<PyView> {
    if t == "True"@ {
        Some(PyView::Bool(true))
    } else if t == "False"@ {
        Some(PyView::Bool(false))
    } else if t == "None"@ {
        Some(PyView::Null)
    } else if parse_i64_spec(t) is Some {
        Some(PyView::Int(parse_i64_spec(t).unwrap()))
    } else if float_literal_spec(t) {
        Some(PyView::Float(t))
    } else {
        None
    }
}

/// A value starting at or after position `p` (after whitespace), with the
/// position just past it.
pub open spec fn value_at(s: Seq<char>, p: int) -> Option<(PyView, int)>
    decreases s.len() - p, 1int,
{
    let q = skip_ws_spec(s, p);
    if p < 0 || q >= s.len() {
        None
    } else if s[q] == '[' || s[q] == '(' {
        proof {
            lemma_skip_ws(s, p);
        }
        seq_at(s, q)
    } else if s[q] == '\'' || s[q] == '"' {
        str_from(s, q + 1, s[q], seq![])
    } else {
        let e = token_end(s, q);
        match atom_value(s.subrange(q, e)) {
            Some(v) => Some((v, e)),
            None => None,
        }
    }
}

/// A list or tuple whose opening bracket is at `q`.
pub open spec fn seq_at(s: Seq<char>, q: int) -> Option<(PyView, int)>
    decreases s.len() - q, 0int,
{
    if 0 <= q < s.len() {
        let close = if s[q] == '[' { ']' } else { ')' };
        items_from(s, q + 1, close, seq![])
    } else {
        None
    }
}

/// The items of a list from position `p` up to the closing bracket, each
/// optionally followed by a comma.
pub open spec fn items_from(s: Seq<char>, p: int, close: char, acc: Seq<PyView>) -> Option<(PyView, int)>
    decreases s.len() - p, 2int,
{
    let r = skip_ws_spec(s, p);
    if p < 0 || r >= s.len() {
        None
    } else if s[r] == close {
        Some((PyView::List(acc), r + 1))
    } else {
        proof {
            lemma_skip_ws(s, p);
        }
        match value_at(s, r) {
            None => None,
            Some(vq) => {
                let q = vq.1;
                if q <= r || q > s.len() {
                    None
                } else {
                    let t = skip_ws_spec(s, q);
                    proof {
                        lemma_skip_ws(s, q);
                    }
                    let t2 = if t < s.len() && s[t] == ',' { t + 1 } else { t };
                    items_from(s, t2, close, acc.push(vq.0))
                }
            },
        }
    }
}

/// A Python literal that spans the whole text (surrounding whitespace
/// allowed).
pub open spec fn literal_spec(s: Seq<char>) -> Option<PyView> {
    match value_at(s, 0) {
        Some(vq) => if skip_ws_spec(s, vq.1) == s.len() { Some(vq.0) } else { None },
        None => None,
    }
}

fn skip_ws(s: &Vec<char>, p: usize) -> (r: usize)
    requires
        p <= s@.len(),
    ensures
        r == skip_ws_spec(s@, p as int),
        p <= r <= s@.len(),
{
    let mut q = p;
    while q < s.len() && is_ws(s[q])
        invariant
            p <= q <= s@.len(),
            skip_ws_spec(s@, p as int) == skip_ws_spec(s@, q as int),
        decreases s@.len() - q,
    {
        q = q + 1;
    }
    q
}

fn parse_str(s: &Vec<char>, q: usize) -> (r: Option<(PyValue, usize)>)
    requires
        q < s@.len(),
    ensures
        match r {
            Some(vq) => str_from(s@, q + 1, s@[q as int], seq![]) == Some((vq.0.value(), vq.1 as int)) && vq.1 <= s@.len(),
            None => str_from(s@, q + 1, s@[q as int], seq![]) is None,
        },
{
    let n = s.len();
    let quote = s[q];
    let mut out: Vec<char> = Vec::new();
    let mut p = q + 1;
    while p < s.len()
        invariant
            q + 1 <= p <= s@.len() + 1,
            quote == s@[q as int],
            str_from(s@, q + 1, quote, seq![]) == str_from(s@, p as int, quote, out@),
        decreases s@.len() + 1 - p,
    {
        let c = s[p];
        if c == '\\' && p + 1 < s.len() {
            out.push(s[p + 1]);
            p = p + 2;
        } else if c == quote {
            let v = PyValue::Str(from_chars(out.as_slice()));
            return Some((v, p + 1));
        } else {
            out.push(c);
            p = p + 1;
        }
    }
    None
}

fn parse_atom(s: &Vec<char>, q: usize) -> (r: Option<(PyValue, usize)>)
    requires
        q <= s@.len(),
    ensures
        match r {
            Some(vq) => atom_value(s@.subrange(q as int, token_end(s@, q as int))) == Some(vq.0.value())
                && vq.1 == token_end(s@, q as int) && vq.1 <= s@.len(),
            None => atom_value(s@.subrange(q as int, token_end(s@, q as int))) is None,
        },
{
    let mut e = q;
    while e < s.len() && !(s[e] == ',' || s[e] == ']' || s[e] == ')' || is_ws(s[e]))
        invariant
            q <= e <= s@.len(),
            token_end(s@, q as int) == token_end(s@, e as int),
        decreases s@.len() - e,
    {
        e = e + 1;
    }
    let tok = crate::chars::slice_chars(s, q, e);
    let t = from_chars(tok.as_slice());
    let ghost tv = s@.subrange(q as int, e as int);
    assert(tok@ == tv);
    if crate::truncation::str_is(&t, "True") {
        return Some((PyValue::Bool(true), e));
    }
    if crate::truncation::str_is(&t, "False") {
        return Some((PyValue::Bool(false), e));
    }
    if crate::truncation::str_is(&t, "None") {
        return Some((PyValue::Null, e));
    }
    match parse_i64(&tok) {
        Some(v) => Some((PyValue::Int(v), e)),
        None => if is_float_literal(&tok) {
            Some((PyValue::Float(t), e))
        } else {
            None
        },
    }
}

fn parse_value(s: &Vec<char>, p: usize) -> (r: Option<(PyValue, usize)>)
    requires
        p <= s@.len(),
    ensures
        match r {
            Some(vq) => value_at(s@, p as int) == Some((vq.0.value(), vq.1 as int)) && vq.1 <= s@.len(),
            None => value_at(s@, p as int) is None,
        },
    decreases s@.len() - p, 1int,
{
    let q = skip_ws(s, p);
    if q >= s.len() {
        return None;
    }
    if s[q] == '[' || s[q] == '(' {
        parse_seq(s, q)
    } else if s[q] == '\'' || s[q] == '"' {
        parse_str(s, q)
    } else {
        parse_atom(s, q)
    }
}

fn parse_seq(s: &Vec<char>, q: usize) -> (r: Option<(PyValue, usize)>)
    requires
        q < s@.len(),
    ensures
        match r {
            Some(vq) => seq_at(s@, q as int) == Some((vq.0.value(), vq.1 as int)) && vq.1 <= s@.len(),
            None => seq_at(s@, q as int) is None,
        },
    decreases s@.len() - q, 0int,
{
    let n = s.len();
    let close = if s[q] == '[' { ']' } else { ')' };
    let mut items: Vec<PyValue> = Vec::new();
    let mut p = q + 1;
    assert(items@.map_values(|v: PyValue| v.value()) =~= Seq::<PyView>::empty());
    loop
        invariant
            q + 1 <= p <= s@.len(),
            close == (if s@[q as int] == '[' { ']' } else { ')' }),
            seq_at(s@, q as int) == items_from(s@, p as int, close, items@.map_values(|v: PyValue| v.value())),
        decreases s@.len() - p,
    {
        let r = skip_ws(s, p);
        if r >= s.len() {
            return None;
        }
        if s[r] == close {
            let ghost iv = items@.map_values(|v: PyValue| v.value());
            let ghost items_seq = items;
            let v = PyValue::List(items);
            proof {
                lemma_list_value(items_seq);
                assert(v.value()->List_0 =~= iv);
            }
            return Some((v, r + 1));
        }
        match parse_value(s, r) {
            None => {
                return None;
            },
            Some((v, nq)) => {
                if nq <= r || nq > s.len() {
                    return None;
                }
                let t = skip_ws(s, nq);
                let t2 = if t < s.len() && s[t] == ',' { t + 1 } else { t };
                let ghost before = items@.map_values(|x: PyValue| x.value());
                let ghost vv = v.value();
                items.push(v);
                assert(items@.map_values(|x: PyValue| x.value()) =~= before.push(vv));
                p = t2;
            },
        }
    }
}

/// Parses a Python literal: nested lists and tuples, integers, floats,
/// quoted strings, and `True`/`False`/`None`.
pub fn parse_py_literal(text: &str) -> (r: Option<PyValue>)
    ensures
        match r {
            Some(v) => literal_spec(text@) == Some(v.value()),
            None => literal_spec(text@) is None,
        },
{
    let s = to_chars(text);
    match parse_value(&s, 0) {
        None => None,
        Some((v, p)) => {
            if skip_ws(&s, p) == s.len() {
                Some(v)
            } else {
                None
            }
        },
    }
}

/// The last `]` of the text.
pub open spec fn last_close(s: Seq<char>, k: int) -> Option<int>
    decreases k,
{
    if k <= 0 {
        None
    } else if s[k - 1] == ']' {
        Some(k - 1)
    } else {
        last_close(s, k - 1)
    }
}

/// Bracket balance of `s[i..=end]`: closing brackets count up, opening
/// ones down.
pub open spec fn balance(s: Seq<char>, i: int, end: int) -> int
    decreases end - i + 1,
{
    if i > end {
        0
    } else {
        let here = if s[i] == ']' { 1int } else if s[i] == '[' { -1int } else { 0int };
        here + balance(s, i + 1, end)
    }
}

/// Scanning back from `end`, the first position where the brackets balance.
pub open spec fn balanced_start(s: Seq<char>, i: int, end: int) -> Option<int>
    decreases i + 1,
{
    if i < 0 {
        None
    } else if balance(s, i, end) == 0 {
        Some(i)
    } else {
        balanced_start(s, i - 1, end)
    }
}

/// The last balanced bracketed list of the text, parsed as a Python
/// literal.
pub open spec fn last_coordinates_spec(s: Seq<char>) -> Option<PyView> {
    match last_close(s, s.len() as int) {
        None => None,
        Some(end) => match balanced_start(s, end, end) {
            None => None,
            Some(start) => literal_spec(s.subrange(start, end + 1)),
        },
    }
}

proof fn lemma_last_close(s: Seq<char>, k: int)
    requires
        k <= s.len(),
    ensures
        last_close(s, k) matches Some(e) ==> 0 <= e < k && s[e] == ']',
    decreases k,
{
    if k > 0 && s[k - 1] != ']' {
        lemma_last_close(s, k - 1);
    }
}

proof fn lemma_balanced_start(s: Seq<char>, i: int, end: int)
    ensures
        balanced_start(s, i, end) matches Some(st) ==> 0 <= st <= i,
    decreases i + 1,
{
    if i >= 0 && balance(s, i, end) != 0 {
        lemma_balanced_start(s, i - 1, end);
    }
}

/// Extracts the last balanced bracketed list from a model response and
/// parses it as a Python literal; `None` when there is none or it does not
/// parse.
pub fn extract_last_coordinates(text: &str) -> (r: Option<PyValue>)
    ensures
        match r {
            Some(v) => last_coordinates_spec(text@) == Some(v.value()),
            None => last_coordinates_spec(text@) is None,
        },
{
    let s = to_chars(text);
    let mut k = s.len();
    while k > 0 && s[k - 1] != ']'
        invariant
            k <= s@.len(),
            last_close(s@, s@.len() as int) == last_close(s@, k as int),
        decreases k,
    {
        k = k - 1;
    }
    if k == 0 {
        return None;
    }
    let end = k - 1;
    proof {
        lemma_last_close(s@, s@.len() as int);
    }
    let mut bal: i128 = 0;
    let mut i: usize = end + 1;
    let mut start: Option<usize> = None;
    while i > 0 && start.is_none()
        invariant
            i <= end + 1,
            end < s@.len(),
            start is None ==> bal == balance(s@, i as int, end as int),
            start is None ==> balanced_start(s@, end as int, end as int) == balanced_start(s@, i - 1, end as int),
            start matches Some(st) ==> balanced_start(s@, end as int, end as int) == Some(st as int) && st <= end,
            start is None ==> -(end + 1 - i) <= bal <= end + 1 - i,
            end < usize::MAX,
        decreases i + (if start is None { 1int } else { 0int }),
    {
        let c = s[i - 1];
        let here: i128 = if c == ']' { 1 } else if c == '[' { -1 } else { 0 };
        assert(balance(s@, i - 1, end as int) == here + balance(s@, i as int, end as int));
        bal = bal + here;
        if bal == 0 {
            start = Some(i - 1);
        } else {
            i = i - 1;
        }
    }
    let st = match start {
        None => {
            return None;
        },
        Some(st) => st,
    };
    let target = crate::chars::slice_chars(&s, st, end + 1);
    let t = from_chars(target.as_slice());
    parse_py_literal(t.as_str())
}

} // verus!
