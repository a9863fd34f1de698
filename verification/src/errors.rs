//! The engine-wide error type and text normalization shared by all stages.

use vstd::prelude::*;
use crate::chars;
use crate::chars::{to_chars, from_chars, split_whitespace, append_chars, push_str, join, u64_to_chars};

verus! {

/// Top-level error type for the engine.
#[derive(Debug)]
pub enum Error {
    /// Configuration could not be loaded or was invalid.
    Config(String),
    /// A referenced provider was not found in the configuration.
    UnknownProvider {
        /// The provider name that was requested.
        name: String,
        /// Comma-separated list of the providers that do exist.
        known: String,
    },
    /// A network or transport failure talking to a model endpoint.
    Transport(String),
    /// The model endpoint returned a non-success HTTP status.
    ModelStatus {
        /// HTTP status code.
        status: u16,
        /// Response body (possibly truncated).
        body: String,
    },
    /// The model response could not be parsed into the expected shape.
    ModelResponse(String),
    /// An I/O failure reading or writing local files.
    Io(String),
}

/// Lexicographic order on character sequences (by code point).
pub open spec fn lex_le(a: Seq<char>, b: Seq<char>) -> bool
    decreases a.len(),
{
    if a.len() == 0 {
        true
    } else if b.len() == 0 {
        false
    } else if a[0] != b[0] {
        (a[0] as u32) < (b[0] as u32)
    } else {
        lex_le(a.drop_first(), b.drop_first())
    }
}

/// `s` with `x` inserted before the first element it does not follow.
pub open spec fn insert_sorted(s: Seq<Seq<char>>, x: Seq<char>) -> Seq<Seq<char>>
    decreases s.len(),
{
    if s.len() == 0 {
        seq![x]
    } else if lex_le(x, s[0]) {
        seq![x] + s
    } else {
        seq![s[0]] + insert_sorted(s.drop_first(), x)
    }
}

/// The names in ascending lexicographic order.
pub open spec fn sorted_names(s: Seq<Seq<char>>) -> Seq<Seq<char>>
    decreases s.len(),
{
    if s.len() == 0 {
        seq![]
    } else {
        insert_sorted(sorted_names(s.drop_last()), s.last())
    }
}

pub(crate) fn lex_le_exec(a: &Vec<char>, b: &Vec<char>) -> (r: bool)
    ensures
        r == lex_le(a@, b@),
{
    let mut i: usize = 0;
    assert(a@.skip(0) =~= a@);
    assert(b@.skip(0) =~= b@);
    while i < a.len()
        invariant
            i <= a@.len(),
            i <= b@.len(),
            lex_le(a@, b@) == lex_le(a@.skip(i as int), b@.skip(i as int)),
        decreases a.len() - i,
    {
        let ghost sa = a@.skip(i as int);
        let ghost sb = b@.skip(i as int);
        if i >= b.len() {
            return false;
        }
        assert(sa[0] == a@[i as int]);
        assert(sb[0] == b@[i as int]);
        if a[i] != b[i] {
            return (a[i] as u32) < (b[i] as u32);
        }
        assert(sa.drop_first() =~= a@.skip(i + 1));
        assert(sb.drop_first() =~= b@.skip(i + 1));
        i = i + 1;
    }
    true
}

fn insert_sorted_exec(s: &mut Vec<Vec<char>>, x: Vec<char>)
    ensures
        final(s).deep_view() == insert_sorted(old(s).deep_view(), x@),
{
    let ghost s0 = s.deep_view();
    let mut k: usize = 0;
    assert(s0.skip(0) =~= s0);
    assert(s0.take(0) + insert_sorted(s0, x@) =~= insert_sorted(s0, x@));
    while k < s.len() && !lex_le_exec(&x, &s[k])
        invariant
            k <= s@.len(),
            s.deep_view() == s0,
            insert_sorted(s0, x@) == s0.take(k as int) + insert_sorted(s0.skip(k as int), x@),
        decreases s.len() - k,
    {
        let ghost rest = s0.skip(k as int);
        assert(rest[0] == s0[k as int]);
        assert(s0[k as int] == s@[k as int]@);
        assert(rest.drop_first() =~= s0.skip(k + 1));
        assert(s0.take(k as int) + (seq![rest[0]] + insert_sorted(rest.drop_first(), x@)) =~= s0.take(k + 1) + insert_sorted(s0.skip(k + 1), x@));
        k = k + 1;
    }
    let ghost rest = s0.skip(k as int);
    proof {
        if k < s0.len() {
            assert(rest[0] == s0[k as int]);
            assert(s0[k as int] == s@[k as int]@);
            assert(lex_le(x@, rest[0]));
            assert(insert_sorted(rest, x@) == seq![x@] + rest);
        } else {
            assert(rest =~= Seq::<Seq<char>>::empty());
            assert(insert_sorted(rest, x@) == seq![x@]);
            assert(seq![x@] + rest =~= seq![x@]);
        }
    }
    let ghost sv = s@;
    let ghost xv = x@;
    assert(forall|j: int| 0 <= j < sv.len() ==> #[trigger] sv[j]@ == s0[j]);
    s.insert(k, x);
    proof {
        let want = s0.take(k as int) + (seq![xv] + rest);
        assert(s@ == sv.insert(k as int, s@[k as int]));
        assert forall|j: int| 0 <= j < s.deep_view().len() implies s.deep_view()[j] == want[j] by {
            if j < k {
                assert(s@[j] == sv[j]);
            } else if j > k {
                assert(s@[j] == sv[j - 1]);
            }
        }
        assert(s.deep_view() =~= want);
    }
}

/// Names sorted ascending and joined by `", "`.
pub open spec fn known_list(names: Seq<Seq<char>>) -> Seq<char> {
    chars::join_spec(sorted_names(names), ", "@)
}

impl Error {
    /// An `UnknownProvider` error naming `name` and listing the known
    /// providers, sorted and comma-separated.
    pub fn unknown_provider(name: &str, known: &[String]) -> (r: Error)
        ensures
            r matches Error::UnknownProvider { name: n, known: k } && n@ == name@ && k@ == known_list(
                known@.map_values(|s: String| s@),
            ),
    {
        let ghost kv = known@.map_values(|s: String| s@);
        let mut sorted: Vec<Vec<char>> = Vec::new();
        let mut i: usize = 0;
        while i < known.len()
            invariant
                i <= known@.len(),
                kv == known@.map_values(|s: String| s@),
                sorted.deep_view() == sorted_names(kv.take(i as int)),
            decreases known.len() - i,
        {
            assert(kv.take(i + 1).drop_last() =~= kv.take(i as int));
            assert(kv.take(i + 1).last() == known@[i as int]@);
            insert_sorted_exec(&mut sorted, to_chars(known[i].as_str()));
            i = i + 1;
        }
        assert(kv.take(known.len() as int) =~= kv);
        let joined = join(&sorted, &to_chars(", "));
        Error::UnknownProvider {
            name: from_chars(to_chars(name).as_slice()),
            known: from_chars(joined.as_slice()),
        }
    }
}

/// `text` with the ideographic space and newlines made plain spaces.
pub open spec fn plain_spaces(text: Seq<char>) -> Seq<char> {
    text.map_values(|c: char| if c == '\u{3000}' || c == '\n' { ' ' } else { c })
}

/// Whitespace-normalized text: ideographic spaces and newlines become
/// spaces, whitespace runs fold to one space, ends trimmed.
pub open spec fn normalize_text_spec(text: Seq<char>) -> Seq<char> {
    chars::join_spec(chars::words_spec(plain_spaces(text)), " "@)
}

/// Collapses whitespace: ideographic spaces and newlines become spaces,
/// runs of whitespace fold to one space, and the ends are trimmed.
pub fn normalize_text(text: &str) -> (r: String)
    ensures
        r@ == normalize_text_spec(text@),
{
    let src = to_chars(text);
    let mut replaced: Vec<char> = Vec::new();
    let mut i: usize = 0;
    while i < src.len()
        invariant
            i <= src@.len(),
            replaced@ =~= plain_spaces(src@).take(i as int),
        decreases src.len() - i,
    {
        let c = src[i];
        replaced.push(if c == '\u{3000}' || c == '\n' { ' ' } else { c });
        i = i + 1;
    }
    assert(plain_spaces(src@).take(src.len() as int) =~= plain_spaces(src@));
    let words = split_whitespace(&replaced);
    from_chars(join(&words, &to_chars(" ")).as_slice())
}

/// Rust's debug quoting of a string: wrapped in double quotes, with
/// backslash, double quote, tab, carriage return, newline and NUL escaped.
pub open spec fn debug_quoted(s: Seq<char>) -> Seq<char> {
    "\""@ + escape_debug(s) + "\""@
}

/// The escaped characters of a string, as debug quoting writes them.
pub open spec fn escape_debug(s: Seq<char>) -> Seq<char>
    decreases s.len(),
{
    if s.len() == 0 {
        seq![]
    } else {
        escape_debug(s.drop_last()) + escape_char(s.last())
    }
}

/// One character as debug quoting writes it.
pub open spec fn escape_char(c: char) -> Seq<char> {
    if c == '\\' {
        seq!['\\', '\\']
    } else if c == '"' {
        seq!['\\', '"']
    } else if c == '\t' {
        seq!['\\', 't']
    } else if c == '\r' {
        seq!['\\', 'r']
    } else if c == '\n' {
        seq!['\\', 'n']
    } else if c == '\0' {
        seq!['\\', '0']
    } else {
        seq![c]
    }
}

fn debug_quote(s: &Vec<char>) -> (r: Vec<char>)
    ensures
        r@ == debug_quoted(s@),
{
    let mut out = to_chars("\"");
    let ghost start = out@;
    let mut i: usize = 0;
    while i < s.len()
        invariant
            i <= s@.len(),
            out@ == start + escape_debug(s@.take(i as int)),
        decreases s.len() - i,
    {
        assert(s@.take(i + 1).drop_last() =~= s@.take(i as int));
        assert(s@.take(i + 1).last() == s@[i as int]);
        let c = s[i];
        let ghost before = out@;
        if c == '\\' {
            out.push('\\');
            out.push('\\');
        } else if c == '"' {
            out.push('\\');
            out.push('"');
        } else if c == '\t' {
            out.push('\\');
            out.push('t');
        } else if c == '\r' {
            out.push('\\');
            out.push('r');
        } else if c == '\n' {
            out.push('\\');
            out.push('n');
        } else if c == '\0' {
            out.push('\\');
            out.push('0');
        } else {
            out.push(c);
        }
        assert(out@ =~= before + escape_char(c));
        i = i + 1;
    }
    assert(s@.take(s.len() as int) =~= s@);
    push_str(&mut out, "\"");
    out
}

/// The message an error displays.
pub open spec fn error_message(e: Error) -> Seq<char> {
    match e {
        Error::Config(m) => "configuration error: "@ + m@,
        Error::UnknownProvider { name, known } => "unknown provider "@ + debug_quoted(name@)
            + "; known providers: "@ + known@,
        Error::Transport(m) => "model transport error: "@ + m@,
        Error::ModelStatus { status, body } => "model endpoint returned status "@
            + chars::decimal_nat(status as nat) + ": "@ + body@,
        Error::ModelResponse(m) => "could not parse model response: "@ + m@,
        Error::Io(m) => "io error: "@ + m@,
    }
}

impl Error {
    /// The human-readable message of this error.
    pub fn message(&self) -> (r: String)
        ensures
            r@ == error_message(*self),
    {
        let mut out: Vec<char> = Vec::new();
        match self {
            Error::Config(m) => {
                push_str(&mut out, "configuration error: ");
                append_chars(&mut out, &to_chars(m.as_str()));
            },
            Error::UnknownProvider { name, known } => {
                push_str(&mut out, "unknown provider ");
                append_chars(&mut out, &debug_quote(&to_chars(name.as_str())));
                push_str(&mut out, "; known providers: ");
                append_chars(&mut out, &to_chars(known.as_str()));
            },
            Error::Transport(m) => {
                push_str(&mut out, "model transport error: ");
                append_chars(&mut out, &to_chars(m.as_str()));
            },
            Error::ModelStatus { status, body } => {
                push_str(&mut out, "model endpoint returned status ");
                append_chars(&mut out, &u64_to_chars(*status as u64));
                push_str(&mut out, ": ");
                append_chars(&mut out, &to_chars(body.as_str()));
            },
            Error::ModelResponse(m) => {
                push_str(&mut out, "could not parse model response: ");
                append_chars(&mut out, &to_chars(m.as_str()));
            },
            Error::Io(m) => {
                push_str(&mut out, "io error: ");
                append_chars(&mut out, &to_chars(m.as_str()));
            },
        }
        from_chars(out.as_slice())
    }
}

/// A debug-quoted rendering of `s`.
pub(crate) fn quoted(s: &str) -> (r: Vec<char>)
    ensures
        r@ == debug_quoted(s@),
{
    debug_quote(&to_chars(s))
}

} // verus!
