//! Model access: provider-neutral chat messages, provider configuration,
//! retry classification and the request fingerprint that keys recorded
//! exchanges.

use vstd::prelude::*;
use crate::chars;
use crate::chars::{to_chars, from_chars, append_chars, push_str, chars_eq, slice_chars, join};
use crate::errors::{Error, known_list, quoted, debug_quoted, lex_le, lex_le_exec};
use crate::truncation::str_is;

verus! {

/// The role of a chat message.
#[derive(Debug, Clone, Copy, PartialEq, Eq, Structural)]
pub enum Role {
    /// System instruction.
    System,
    /// End-user turn.
    User,
    /// Assistant turn.
    Assistant,
}

/// The wire string of a role.
pub open spec fn role_str(r: Role) -> Seq<char> {
    match r {
        Role::System => "system"@,
        Role::User => "user"@,
        Role::Assistant => "assistant"@,
    }
}

impl Role {
    /// The wire string for this role.
    pub fn as_str(self) -> (r: &'static str)
        ensures
            r@ == role_str(self),
    {
        match self {
            Role::System => "system",
            Role::User => "user",
            Role::Assistant => "assistant",
        }
    }
}

/// A single piece of message content.
#[derive(Debug, Clone)]
pub enum ContentPart {
    /// Plain text.
    Text(String),
    /// An inline image, base64-encoded.
    Image {
        /// MIME type, e.g. `image/jpeg`.
        media_type: String,
        /// Base64-encoded image bytes (no data-URL prefix).
        data_base64: String,
    },
}

/// One message in a conversation.
#[derive(Debug, Clone)]
pub struct ChatMessage {
    /// Who is speaking.
    pub role: Role,
    /// Ordered content parts.
    pub content: Vec<ContentPart>,
}

impl ChatMessage {
    /// A text-only message.
    pub fn text(role: Role, text: String) -> (m: Self)
        ensures
            m.role == role,
            m.content@.len() == 1,
            m.content@[0] == ContentPart::Text(text),
    {
        let mut content: Vec<ContentPart> = Vec::new();
        content.push(ContentPart::Text(text));
        ChatMessage { role, content }
    }

    /// This message with an inline base64 image part appended.
    pub fn with_image(self, media_type: String, data_base64: String) -> (m: Self)
        ensures
            m.role == self.role,
            m.content@ == self.content@.push(ContentPart::Image { media_type, data_base64 }),
    {
        let mut me = self;
        me.content.push(ContentPart::Image { media_type, data_base64 });
        me
    }
}

/// Token accounting returned by the endpoint.
#[derive(Debug, Clone, PartialEq, Eq, Structural)]
pub struct Usage {
    /// Prompt tokens.
    pub input_tokens: u32,
    /// Completion tokens.
    pub output_tokens: u32,
}

/// A chat completion response.
#[derive(Debug, Clone)]
pub struct ChatResponse {
    /// The assistant's text output.
    pub text: String,
    /// Token usage, if reported.
    pub usage: Option<Usage>,
}

/// Token usage as stored in a recorded exchange.
#[derive(Debug, Clone, Copy, PartialEq, Eq, Structural)]
pub struct RecordedUsage {
    /// Prompt tokens.
    pub input_tokens: u32,
    /// Completion tokens.
    pub output_tokens: u32,
}

/// A recorded response.
#[derive(Debug, Clone)]
pub struct RecordedResponse {
    /// Assistant text output.
    pub text: String,
    /// Token usage, if known.
    pub usage: Option<RecordedUsage>,
}

/// Whether a failed call is worth retrying: transport failures, rate
/// limiting (429) and server errors (5xx).
pub open spec fn retryable_spec(e: Error) -> bool {
    match e {
        Error::Transport(_) => true,
        Error::ModelStatus { status, .. } => status == 429 || (500 <= status && status < 600),
        _ => false,
    }
}

/// Classifies an error as transient.
pub fn is_retryable(err: &Error) -> (r: bool)
    ensures
        r == retryable_spec(*err),
{
    match err {
        Error::Transport(_) => true,
        Error::ModelStatus { status, .. } => *status == 429 || (500 <= *status && *status < 600),
        _ => false,
    }
}

/// After failed attempt number `attempt` (1-based): the factor to multiply
/// the base backoff by before retrying, `2^(attempt - 1)`, or `None` when the
/// attempts are used up or the error is not transient.
pub open spec fn retry_factor_spec(attempt: u32, max_attempts: u32, e: Error) -> Option<u32> {
    if attempt < max_attempts && retryable_spec(e) {
        Some(vstd::arithmetic::power2::pow2((attempt - 1) as nat) as u32)
    } else {
        None
    }
}

/// Decides whether to retry after failed attempt `attempt`, and the backoff
/// factor when so.
pub fn retry_factor(attempt: u32, max_attempts: u32, err: &Error) -> (r: Option<u32>)
    requires
        attempt >= 1,
        attempt < max_attempts && retryable_spec(*err) ==> attempt <= 32,
    ensures
        r == retry_factor_spec(attempt, max_attempts, *err),
{
    if attempt < max_attempts && is_retryable(err) {
        let mut f: u32 = 1;
        let mut k: u32 = 1;
        proof {
            vstd::arithmetic::power2::lemma2_to64();
        }
        while k < attempt
            invariant
                1 <= k <= attempt <= 32,
                f == vstd::arithmetic::power2::pow2((k - 1) as nat),
            decreases attempt - k,
        {
            proof {
                vstd::arithmetic::power2::lemma_pow2_unfold(k as nat);
                vstd::arithmetic::power2::lemma2_to64();
                vstd::arithmetic::power2::lemma_pow2_strictly_increases((k - 1) as nat, 31);
            }
            f = f * 2;
            k = k + 1;
        }
        Some(f)
    } else {
        None
    }
}

/// Tunables for the client's shared behavior (durations in milliseconds).
#[derive(Debug, Clone, Copy)]
pub struct ClientOptions {
    /// Maximum number of in-flight requests across all backends.
    pub max_concurrency: usize,
    /// Total attempts per request (1 = no retry).
    pub max_attempts: u32,
    /// Base backoff; doubles each retry.
    pub base_backoff_ms: u64,
    /// Per-request timeout.
    pub request_timeout_ms: u64,
}

impl Default for ClientOptions {
    fn default() -> (r: Self)
        ensures
            r.max_concurrency == 8,
            r.max_attempts == 4,
            r.base_backoff_ms == 500,
            r.request_timeout_ms == 120_000,
    {
        ClientOptions { max_concurrency: 8, max_attempts: 4, base_backoff_ms: 500, request_timeout_ms: 120_000 }
    }
}

impl ClientOptions {
    /// After failed attempt number `attempt` (1-based) with error `err`: the
    /// pause before the next attempt, `base_backoff * 2^(attempt - 1)`, or
    /// `None` when the error is to be returned.
    pub fn retry_backoff_ms(&self, attempt: u32, err: &Error) -> (r: Option<u128>)
        requires
            attempt >= 1,
            attempt < self.max_attempts && retryable_spec(*err) ==> attempt <= 32,
        ensures
            r == match retry_factor_spec(attempt, self.max_attempts, *err) {
                Some(f) => Some((self.base_backoff_ms * f) as u128),
                None => None,
            },
    {
        match retry_factor(attempt, self.max_attempts, err) {
            Some(f) => {
                let b = self.base_backoff_ms as u128;
                let m = f as u128;
                assert(b * m <= 0xffff_ffff_ffff_ffffu128 * 0xffff_ffffu128) by (nonlinear_arith)
                    requires
                        b <= 0xffff_ffff_ffff_ffffu128,
                        m <= 0xffff_ffffu128,
                ;
                Some(b * m)
            },
            None => None,
        }
    }
}

/// The system text gathered from `msgs`: the text parts of the system
/// messages, in order, separated by newlines.
pub open spec fn system_text_upto(msgs: Seq<ChatMessage>, k: int) -> Seq<char>
    decreases k,
{
    if k <= 0 {
        seq![]
    } else {
        let prev = system_text_upto(msgs, k - 1);
        let m = msgs[k - 1];
        if m.role == Role::System {
            system_parts_upto(prev, m.content@, m.content@.len() as int)
        } else {
            prev
        }
    }
}

/// `acc` extended with the text parts among the first `k` of `parts`, each
/// after a newline unless `acc` is still empty.
pub open spec fn system_parts_upto(acc: Seq<char>, parts: Seq<ContentPart>, k: int) -> Seq<char>
    decreases k,
{
    if k <= 0 {
        acc
    } else {
        let prev = system_parts_upto(acc, parts, k - 1);
        match parts[k - 1] {
            ContentPart::Text(t) => if prev.len() == 0 { t@ } else { prev + "\n"@ + t@ },
            _ => prev,
        }
    }
}

/// The messages of `msgs` that are not system messages, in order (by
/// position).
pub open spec fn non_system_upto(msgs: Seq<ChatMessage>, k: int) -> Seq<int>
    decreases k,
{
    if k <= 0 {
        seq![]
    } else if msgs[k - 1].role == Role::System {
        non_system_upto(msgs, k - 1)
    } else {
        non_system_upto(msgs, k - 1).push(k - 1)
    }
}

/// Splits the system prompts off a conversation, for APIs that carry them
/// out of band: their text parts joined by newlines, and the positions of
/// the other messages.
pub fn hoist_system(msgs: &[ChatMessage]) -> (r: (String, Vec<usize>))
    ensures
        r.0@ == system_text_upto(msgs@, msgs@.len() as int),
        r.1@.map_values(|i: usize| i as int) == non_system_upto(msgs@, msgs@.len() as int),
{
    let mut text: Vec<char> = Vec::new();
    let mut rest: Vec<usize> = Vec::new();
    let mut k: usize = 0;
    while k < msgs.len()
        invariant
            k <= msgs@.len(),
            text@ == system_text_upto(msgs@, k as int),
            rest@.map_values(|i: usize| i as int) == non_system_upto(msgs@, k as int),
        decreases msgs@.len() - k,
    {
        let m = &msgs[k];
        if m.role == Role::System {
            let ghost acc = text@;
            let mut j: usize = 0;
            while j < m.content.len()
                invariant
                    j <= m.content@.len(),
                    text@ == system_parts_upto(acc, m.content@, j as int),
                decreases m.content@.len() - j,
            {
                match &m.content[j] {
                    ContentPart::Text(t) => {
                        if text.len() > 0 {
                            text.push('\n');
                        }
                        append_chars(&mut text, &to_chars(t.as_str()));
                        proof {
                            reveal_strlit("\n");
                        }
                    },
                    _ => {},
                }
                j = j + 1;
            }
        } else {
            let ghost before = rest@.map_values(|i: usize| i as int);
            rest.push(k);
            assert(rest@.map_values(|i: usize| i as int) =~= before.push(k as int));
        }
        k = k + 1;
    }
    (from_chars(text.as_slice()), rest)
}

/// Joins an API base and a path with exactly one `/` at the boundary.
pub open spec fn join_url_spec(base: Seq<char>, path: Seq<char>) -> Seq<char> {
    strip_end_slashes(base) + "/"@ + strip_start_slashes(path)
}

/// `s` without its trailing slashes.
pub open spec fn strip_end_slashes(s: Seq<char>) -> Seq<char>
    decreases s.len(),
{
    if s.len() > 0 && s.last() == '/' {
        strip_end_slashes(s.drop_last())
    } else {
        s
    }
}

/// `s` without its leading slashes.
pub open spec fn strip_start_slashes(s: Seq<char>) -> Seq<char>
    decreases s.len(),
{
    if s.len() > 0 && s[0] == '/' {
        strip_start_slashes(s.drop_first())
    } else {
        s
    }
}

/// Joins an API base with a relative path, collapsing the boundary slash.
pub fn join_url(base: &str, path: &str) -> (r: String)
    ensures
        r@ == join_url_spec(base@, path@),
{
    let b = to_chars(base);
    let p = to_chars(path);
    assert(b@.take(b@.len() as int) =~= b@);
    assert(p@.skip(0) =~= p@);
    let mut end = b.len();
    while end > 0 && b[end - 1] == '/'
        invariant
            end <= b@.len(),
            strip_end_slashes(b@) == strip_end_slashes(b@.take(end as int)),
        decreases end,
    {
        assert(b@.take(end as int).drop_last() =~= b@.take(end - 1));
        end = end - 1;
    }
    let mut start: usize = 0;
    while start < p.len() && p[start] == '/'
        invariant
            start <= p@.len(),
            strip_start_slashes(p@) == strip_start_slashes(p@.skip(start as int)),
        decreases p.len() - start,
    {
        assert(p@.skip(start as int).drop_first() =~= p@.skip(start + 1));
        start = start + 1;
    }
    let mut out = slice_chars(&b, 0, end);
    push_str(&mut out, "/");
    append_chars(&mut out, &slice_chars(&p, start, p.len()));
    proof {
        assert(b@.subrange(0, end as int) =~= b@.take(end as int));
        assert(p@.subrange(start as int, p@.len() as int) =~= p@.skip(start as int));
        if end > 0 {
            assert(b@.take(end as int).last() == b@[end - 1]);
        }
        if start < p@.len() {
            assert(p@.skip(start as int)[0] == p@[start as int]);
        }
    }
    from_chars(out.as_slice())
}

/// The FNV-1a state after folding in `bytes`.
pub open spec fn fnv1a_spec(bytes: Seq<u8>) -> u64
    decreases bytes.len(),
{
    if bytes.len() == 0 {
        0xcbf2_9ce4_8422_2325
    } else {
        let h = fnv1a_spec(bytes.drop_last());
        (h ^ (bytes.last() as u64)).wrapping_mul(0x0000_0100_0000_01b3u64)
    }
}

/// 64-bit FNV-1a, fixed across platforms and toolchains.
fn fnv1a(bytes: &[u8]) -> (h: u64)
    ensures
        h == fnv1a_spec(bytes@),
{
    let mut hash: u64 = 0xcbf2_9ce4_8422_2325;
    let mut i: usize = 0;
    while i < bytes.len()
        invariant
            i <= bytes@.len(),
            hash == fnv1a_spec(bytes@.take(i as int)),
        decreases bytes.len() - i,
    {
        assert(bytes@.take(i + 1).drop_last() =~= bytes@.take(i as int));
        assert(bytes@.take(i + 1).last() == bytes@[i as int]);
        hash = hash ^ (bytes[i] as u64);
        hash = hash.wrapping_mul(0x0000_0100_0000_01b3);
        i = i + 1;
    }
    assert(bytes@.take(bytes.len() as int) =~= bytes@);
    hash
}


/// The hex digit of a value below 16.
pub open spec fn hex_digit(d: int) -> char {
    if d < 10 {
        ('0' as int + d) as char
    } else {
        ('a' as int + d - 10) as char
    }
}

/// The last `n` hex digits of `v`, most significant first, zero-padded.
pub open spec fn hex_spec(v: nat, n: nat) -> Seq<char>
    decreases n,
{
    if n == 0 {
        seq![]
    } else {
        hex_spec(v / 16, (n - 1) as nat).push(hex_digit((v % 16) as int))
    }
}

fn hex_digit_exec(d: u64) -> (c: char)
    requires
        d < 16,
    ensures
        c == hex_digit(d as int),
{
    if d == 0 { '0' } else if d == 1 { '1' } else if d == 2 { '2' } else if d == 3 { '3' }
    else if d == 4 { '4' } else if d == 5 { '5' } else if d == 6 { '6' } else if d == 7 { '7' }
    else if d == 8 { '8' } else if d == 9 { '9' } else if d == 10 { 'a' } else if d == 11 { 'b' }
    else if d == 12 { 'c' } else if d == 13 { 'd' } else if d == 14 { 'e' } else { 'f' }
}

/// `v` as 16 lowercase hex digits (`{:016x}`).
fn hex16(v: u64) -> (r: Vec<char>)
    ensures
        r@ == hex_spec(v as nat, 16),
{
    let mut tail: Vec<char> = Vec::new();
    let mut m = v;
    let mut k: usize = 0;
    while k < 16
        invariant
            k <= 16,
            hex_spec(v as nat, 16) == hex_spec(m as nat, (16 - k) as nat) + tail@,
        decreases 16 - k,
    {
        let c = hex_digit_exec(m % 16);
        let ghost before = tail@;
        tail.insert(0, c);
        assert(hex_spec(m as nat, (16 - k) as nat) == hex_spec((m / 16) as nat, (16 - k - 1) as nat).push(c));
        assert(hex_spec((m / 16) as nat, (16 - k - 1) as nat).push(c) + before =~= hex_spec((m / 16) as nat, (16 - k - 1) as nat) + tail@);
        m = m / 16;
        k = k + 1;
    }
    assert(hex_spec(m as nat, 0) + tail@ =~= tail@);
    tail
}


/// The canonical line of one content part: `text:` and the text, or
/// `image:`, the media type, `:` and the 16-hex-digit FNV-1a of the base64 data.
pub open spec fn part_line(p: ContentPart) -> Seq<char> {
    match p {
        ContentPart::Text(t) => "text:"@ + t@,
        ContentPart::Image { media_type, data_base64 } => "image:"@ + media_type@ + ":"@ + hex_spec(
            fnv1a_spec(vstd::utf8::encode_utf8(data_base64@)) as nat,
            16,
        ),
    }
}

/// The canonical lines of a message's parts.
pub open spec fn parts_lines(parts: Seq<ContentPart>) -> Seq<Seq<char>> {
    Seq::new(parts.len(), |i: int| part_line(parts[i]))
}

fn part_line_exec(p: &ContentPart) -> (r: Vec<char>)
    ensures
        r@ == part_line(*p),
{
    match p {
        ContentPart::Text(t) => {
            let mut out = to_chars("text:");
            append_chars(&mut out, &to_chars(t.as_str()));
            out
        },
        ContentPart::Image { media_type, data_base64 } => {
            let mut out = to_chars("image:");
            append_chars(&mut out, &to_chars(media_type.as_str()));
            push_str(&mut out, ":");
            let bytes = data_base64.as_str().as_bytes();
            append_chars(&mut out, &hex16(fnv1a(bytes)));
            out
        },
    }
}

/// Canonical, fingerprint-stable lines for a message's content parts.
pub fn canonical_parts(msg: &ChatMessage) -> (r: Vec<String>)
    ensures
        r.deep_view() == parts_lines(msg.content@),
{
    let mut out: Vec<String> = Vec::new();
    let mut i: usize = 0;
    while i < msg.content.len()
        invariant
            i <= msg.content@.len(),
            out.deep_view() =~= parts_lines(msg.content@).take(i as int),
        decreases msg.content.len() - i,
    {
        let line = from_chars(part_line_exec(&msg.content[i]).as_slice());
        push_string(&mut out, line);
        i = i + 1;
    }
    out
}

/// The canonical lines of messages: each message's `role:` line, then its parts.
pub open spec fn messages_lines(msgs: Seq<ChatMessage>) -> Seq<Seq<char>>
    decreases msgs.len(),
{
    if msgs.len() == 0 {
        seq![]
    } else {
        messages_lines(msgs.drop_last()) + seq!["role:"@ + role_str(msgs.last().role)] + parts_lines(
            msgs.last().content@,
        )
    }
}

/// The canonical lines of a request: the model, the messages, then the
/// sampling parameters (`temperature` as already rendered, empty when unset).
pub open spec fn request_lines(
    model: Seq<char>,
    msgs: Seq<ChatMessage>,
    max_tokens: Option<u32>,
    temperature: Seq<char>,
) -> Seq<Seq<char>> {
    seq!["model:"@ + model] + messages_lines(msgs) + seq![
        "max_tokens:"@ + match max_tokens {
            Some(n) => chars::decimal_nat(n as nat),
            None => Seq::<char>::empty(),
        },
        "temperature:"@ + temperature,
    ]
}

/// The fingerprint of a request: FNV-1a over its canonical lines joined by
/// newlines, as 16 hex digits.
pub open spec fn fingerprint_spec(
    model: Seq<char>,
    msgs: Seq<ChatMessage>,
    max_tokens: Option<u32>,
    temperature: Seq<char>,
) -> Seq<char> {
    hex_spec(
        fnv1a_spec(vstd::utf8::encode_utf8(chars::join_spec(request_lines(model, msgs, max_tokens, temperature), "\n"@))) as nat,
        16,
    )
}

fn push_line(lines: &mut Vec<Vec<char>>, line: Vec<char>)
    ensures
        final(lines).deep_view() == old(lines).deep_view().push(line@),
{
    let ghost before = lines.deep_view();
    assert(line.deep_view() =~= line@);
    lines.push(line);
    assert(lines.deep_view() =~= before.push(line@));
}

fn push_string(v: &mut Vec<String>, s: String)
    ensures
        final(v).deep_view() == old(v).deep_view().push(s@),
        final(v)@.map_values(|x: String| x@) == old(v)@.map_values(|x: String| x@).push(s@),
{
    let ghost before = v.deep_view();
    let ghost before_m = v@.map_values(|x: String| x@);
    v.push(s);
    assert(v.deep_view() =~= before.push(s@));
    assert(v@.map_values(|x: String| x@) =~= before_m.push(s@));
}

/// The canonical lines of a request.
pub fn canonical_request(model: &str, messages: &[ChatMessage], max_tokens: Option<u32>, temperature: &str) -> (r: Vec<String>)
    ensures
        r.deep_view() == request_lines(model@, messages@, max_tokens, temperature@),
{
    let mut lines: Vec<Vec<char>> = Vec::new();
    let mut first = to_chars("model:");
    append_chars(&mut first, &to_chars(model));
    push_line(&mut lines, first);
    let mut i: usize = 0;
    while i < messages.len()
        invariant
            i <= messages@.len(),
            lines.deep_view() == seq!["model:"@ + model@] + messages_lines(messages@.take(i as int)),
        decreases messages.len() - i,
    {
        let msg = &messages[i];
        let mut role = to_chars("role:");
        push_str(&mut role, msg.role.as_str());
        push_line(&mut lines, role);
        let parts = canonical_parts(msg);
        let mut k: usize = 0;
        let ghost base = lines.deep_view();
        while k < parts.len()
            invariant
                k <= parts@.len(),
                parts.deep_view() == parts_lines(msg.content@),
                lines.deep_view() == base + parts.deep_view().take(k as int),
            decreases parts.len() - k,
        {
            push_line(&mut lines, to_chars(parts[k].as_str()));
            assert(base + parts.deep_view().take(k + 1) =~= (base + parts.deep_view().take(k as int)).push(parts@[k as int]@));
            k = k + 1;
        }
        proof {
            assert(messages@.take(i + 1).drop_last() =~= messages@.take(i as int));
            assert(messages@.take(i + 1).last() == messages@[i as int]);
            assert(parts.deep_view().take(parts@.len() as int) =~= parts.deep_view());
            assert(lines.deep_view() =~= seq!["model:"@ + model@] + messages_lines(messages@.take(i + 1)));
        }
        i = i + 1;
    }
    assert(messages@.take(messages.len() as int) =~= messages@);
    let mut mt = to_chars("max_tokens:");
    match max_tokens {
        Some(n) => append_chars(&mut mt, &chars::u64_to_chars(n as u64)),
        None => {},
    }
    push_line(&mut lines, mt);
    let mut tl = to_chars("temperature:");
    append_chars(&mut tl, &to_chars(temperature));
    push_line(&mut lines, tl);
    let mut out: Vec<String> = Vec::new();
    let mut j: usize = 0;
    while j < lines.len()
        invariant
            j <= lines@.len(),
            out.deep_view() =~= lines.deep_view().take(j as int),
        decreases lines.len() - j,
    {
        assert(lines.deep_view()[j as int] == lines@[j as int]@);
        assert(lines.deep_view().take(j + 1) =~= lines.deep_view().take(j as int).push(lines@[j as int]@));
        push_string(&mut out, from_chars(lines[j].as_slice()));
        j = j + 1;
    }
    assert(lines.deep_view().take(lines@.len() as int) =~= lines.deep_view());
    assert(lines.deep_view() =~= request_lines(model@, messages@, max_tokens, temperature@));
    out
}

/// The stable fingerprint of a request, as 16 hex characters.
pub fn fingerprint_of(model: &str, messages: &[ChatMessage], max_tokens: Option<u32>, temperature: &str) -> (r: String)
    ensures
        r@ == fingerprint_spec(model@, messages@, max_tokens, temperature@),
{
    let lines = canonical_request(model, messages, max_tokens, temperature);
    let mut cs: Vec<Vec<char>> = Vec::new();
    let mut i: usize = 0;
    while i < lines.len()
        invariant
            i <= lines@.len(),
            cs.deep_view() =~= lines.deep_view().take(i as int),
        decreases lines.len() - i,
    {
        push_line(&mut cs, to_chars(lines[i].as_str()));
        i = i + 1;
    }
    assert(lines.deep_view().take(lines@.len() as int) =~= lines.deep_view());
    let joined = from_chars(join(&cs, &to_chars("\n")).as_slice());
    let h = fnv1a(joined.as_str().as_bytes());
    from_chars(hex16(h).as_slice())
}

/// The wire protocol of a provider.
#[derive(Debug, Clone, Copy, PartialEq, Eq, Structural)]
pub enum ProviderType {
    /// Any OpenAI-compatible Chat Completions endpoint.
    Openai,
    /// The Anthropic Messages API.
    Claude,
}

/// A single named provider entry.
#[derive(Debug, Clone)]
pub struct ProviderConfig {
    /// Backend protocol to speak.
    pub kind: ProviderType,
    /// Base URL of the endpoint.
    pub api_base: String,
    /// API key: a literal, or `env:VAR` / `${VAR}` naming an environment variable.
    pub api_key: String,
    /// Default model id for this provider.
    pub model: String,
}

/// The environment variable an API key refers to: the rest after `env:`, or
/// the inside of `${...}`; `None` for a literal key.
pub open spec fn secret_var_spec(raw: Seq<char>) -> Option<Seq<char>> {
    if raw.len() >= 4 && raw.take(4) == "env:"@ {
        Some(raw.skip(4))
    } else if raw.len() >= 3 && raw.take(2) == "${"@ && raw.last() == '}' {
        Some(raw.subrange(2, raw.len() - 1))
    } else {
        None
    }
}

impl ProviderConfig {
    /// The environment variable the API key refers to, if any.
    pub fn secret_var(&self) -> (r: Option<String>)
        ensures
            match r {
                Some(v) => secret_var_spec(self.api_key@) == Some(v@),
                None => secret_var_spec(self.api_key@) is None,
            },
    {
        proof {
            reveal_strlit("env:");
            reveal_strlit("${");
        }
        let raw = to_chars(self.api_key.as_str());
        if raw.len() >= 4 && raw[0] == 'e' && raw[1] == 'n' && raw[2] == 'v' && raw[3] == ':' {
            assert(raw@.take(4) =~= "env:"@);
            let rest = slice_chars(&raw, 4, raw.len());
            assert(rest@ =~= raw@.skip(4));
            return Some(from_chars(rest.as_slice()));
        }
        proof {
            if raw@.len() >= 4 && raw@.take(4) == "env:"@ {
                assert(raw@.take(4)[0] == raw@[0]);
                assert(raw@.take(4)[1] == raw@[1]);
                assert(raw@.take(4)[2] == raw@[2]);
                assert(raw@.take(4)[3] == raw@[3]);
            }
        }
        if raw.len() >= 3 && raw[0] == '$' && raw[1] == '{' && raw[raw.len() - 1] == '}' {
            assert(raw@.take(2) =~= "${"@);
            let inner = slice_chars(&raw, 2, raw.len() - 1);
            return Some(from_chars(inner.as_slice()));
        }
        proof {
            if raw@.len() >= 3 && raw@.take(2) == "${"@ {
                assert(raw@.take(2)[0] == raw@[0]);
                assert(raw@.take(2)[1] == raw@[1]);
            }
        }
        None
    }

    /// The API key: the literal key, or for an `env:VAR` / `${VAR}` key the
    /// variable's value as looked up by the caller (`var_value`); an error
    /// naming the variable when it is not set.
    pub fn resolved_api_key(&self, var_value: Option<String>) -> (r: Result<String, Error>)
        ensures
            match secret_var_spec(self.api_key@) {
                None => r matches Ok(k) && k@ == self.api_key@,
                Some(var) => match var_value {
                    Some(v) => r matches Ok(k) && k@ == v@,
                    None => r matches Err(Error::Config(m)) && m@ == "environment variable "@
                        + debug_quoted(var) + " is not set"@,
                },
            },
    {
        match self.secret_var() {
            None => Ok(self.api_key.clone()),
            Some(var) => match var_value {
                Some(v) => Ok(v),
                None => {
                    let mut m = to_chars("environment variable ");
                    append_chars(&mut m, &quoted(var.as_str()));
                    push_str(&mut m, " is not set");
                    Err(Error::Config(from_chars(m.as_slice())))
                },
            },
        }
    }
}

/// The `[default]` table.
#[derive(Debug, Clone)]
pub struct DefaultSection {
    /// Name of the provider to use when none is specified.
    pub provider: String,
}

/// Top-level configuration: a default provider plus the named providers,
/// in ascending name order without repeats.
#[derive(Debug, Clone)]
pub struct LlmConfig {
    /// Selects the default provider.
    pub default: DefaultSection,
    /// All configured providers with their names.
    pub providers: Vec<(String, ProviderConfig)>,
}

/// The provider names of a configuration, in order.
pub open spec fn names_of(ps: Seq<(String, ProviderConfig)>) -> Seq<Seq<char>> {
    Seq::new(ps.len(), |i: int| ps[i].0@)
}

/// Position of the provider named `name`.
pub open spec fn provider_index(ps: Seq<(String, ProviderConfig)>, name: Seq<char>) -> Option<int>
    decreases ps.len(),
{
    if ps.len() == 0 {
        None
    } else {
        match provider_index(ps.drop_last(), name) {
            Some(i) => Some(i),
            None => if ps.last().0@ == name {
                Some(ps.len() - 1)
            } else {
                None
            },
        }
    }
}

/// `r` is the unknown-provider error for `name` in configuration `c`.
pub open spec fn unknown_in(r: Error, name: Seq<char>, c: LlmConfig) -> bool {
    r matches Error::UnknownProvider { name: n, known: k } && n@ == name && k@ == known_list(
        names_of(c.providers@),
    )
}

/// Provider names are listed once each, in ascending order (as a map keyed
/// by name lists them).
pub open spec fn names_ascending(ps: Seq<(String, ProviderConfig)>) -> bool {
    forall|i: int, j: int| 0 <= i < j < ps.len() ==> lex_le(ps[i].0@, ps[j].0@) && ps[i].0@ != ps[j].0@
}

impl LlmConfig {
    /// The configuration's invariant: provider names distinct and ascending.
    pub open spec fn well_formed(&self) -> bool {
        names_ascending(self.providers@)
    }

    /// Whether the provider names are distinct and in ascending order.
    pub fn names_in_order(&self) -> (r: bool)
        ensures
            r == self.well_formed(),
    {
        let n = self.providers.len();
        if n == 0 {
            return true;
        }
        let mut i: usize = 1;
        while i < n
            invariant
                1 <= i <= n,
                n == self.providers@.len(),
                forall|a: int| 0 < a < i ==> lex_le(#[trigger] self.providers@[a - 1].0@, self.providers@[a].0@)
                    && self.providers@[a - 1].0@ != self.providers@[a].0@,
            decreases n - i,
        {
            let a = to_chars(self.providers[i - 1].0.as_str());
            let b = to_chars(self.providers[i].0.as_str());
            if !lex_le_exec(&a, &b) || chars_eq(&a, &b) {
                return false;
            }
            i = i + 1;
        }
        proof {
            let ps = self.providers@;
            assert forall|x: int, y: int| 0 <= x < y < ps.len() implies lex_le(ps[x].0@, ps[y].0@) && ps[x].0@
                != ps[y].0@ by {
                lemma_adjacent_chain(ps, x, y);
            }
        }
        true
    }

    fn find(&self, name: &str) -> (r: Option<usize>)
        ensures
            match r {
                Some(i) => provider_index(self.providers@, name@) == Some(i as int) && i < self.providers@.len(),
                None => provider_index(self.providers@, name@) is None,
            },
    {
        let target = to_chars(name);
        let mut i: usize = 0;
        while i < self.providers.len()
            invariant
                i <= self.providers@.len(),
                target@ == name@,
                provider_index(self.providers@.take(i as int), name@) is None,
            decreases self.providers.len() - i,
        {
            assert(self.providers@.take(i + 1).drop_last() =~= self.providers@.take(i as int));
            assert(self.providers@.take(i + 1).last() == self.providers@[i as int]);
            if chars_eq(&to_chars(self.providers[i].0.as_str()), &target) {
                proof {
                    lemma_provider_index_prefix(self.providers@, name@, i + 1);
                }
                return Some(i);
            }
            i = i + 1;
        }
        assert(self.providers@.take(self.providers@.len() as int) =~= self.providers@);
        None
    }

    /// Names of all configured providers, in configuration order.
    pub fn provider_names(&self) -> (r: Vec<String>)
        requires
            self.well_formed(),
        ensures
            r@.map_values(|s: String| s@) == names_of(self.providers@),
    {
        let mut out: Vec<String> = Vec::new();
        let mut i: usize = 0;
        while i < self.providers.len()
            invariant
                i <= self.providers@.len(),
                out@.map_values(|s: String| s@) =~= names_of(self.providers@).take(i as int),
            decreases self.providers.len() - i,
        {
            push_string(&mut out, self.providers[i].0.clone());
            i = i + 1;
        }
        out
    }

    /// Checks consistency: some provider is defined, and the default is one of them.
    pub fn validate(&self) -> (r: Result<(), Error>)
        requires
            self.well_formed(),
        ensures
            self.providers@.len() == 0 ==> (r matches Err(Error::Config(m)) && m@ == "no [providers.*] entries defined"@),
            self.providers@.len() > 0 && provider_index(self.providers@, self.default.provider@) is None
                ==> (r matches Err(e) && unknown_in(e, self.default.provider@, *self)),
            self.providers@.len() > 0 && provider_index(self.providers@, self.default.provider@) is Some
                ==> r is Ok,
    {
        if self.providers.len() == 0 {
            return Err(Error::Config(from_chars(to_chars("no [providers.*] entries defined").as_slice())));
        }
        match self.find(self.default.provider.as_str()) {
            Some(_) => Ok(()),
            None => {
                let names = self.provider_names();
                Err(Error::unknown_provider(self.default.provider.as_str(), names.as_slice()))
            },
        }
    }

    /// The provider named `name`.
    pub fn provider(&self, name: &str) -> (r: Result<&ProviderConfig, Error>)
        requires
            self.well_formed(),
        ensures
            match provider_index(self.providers@, name@) {
                Some(i) => r matches Ok(p) && *p == self.providers@[i].1,
                None => r matches Err(e) && unknown_in(e, name@, *self),
            },
    {
        match self.find(name) {
            Some(i) => Ok(&self.providers[i].1),
            None => {
                let names = self.provider_names();
                Err(Error::unknown_provider(name, names.as_slice()))
            },
        }
    }

    /// The default provider's name and entry.
    pub fn default_provider(&self) -> (r: Result<(&str, &ProviderConfig), Error>)
        requires
            self.well_formed(),
        ensures
            match provider_index(self.providers@, self.default.provider@) {
                Some(i) => r matches Ok((n, p)) && n@ == self.default.provider@ && *p == self.providers@[i].1,
                None => r matches Err(e) && unknown_in(e, self.default.provider@, *self),
            },
    {
        let name = self.default.provider.as_str();
        match self.provider(name) {
            Ok(p) => Ok((name, p)),
            Err(e) => Err(e),
        }
    }

    /// The provider named `name`, or the default one when no name is given.
    pub fn resolve<'a>(&'a self, name: Option<&'a str>) -> (r: Result<(&'a str, &'a ProviderConfig), Error>)
        requires
            self.well_formed(),
        ensures
            ({
                let wanted = match name {
                    Some(n) => n@,
                    None => self.default.provider@,
                };
                match provider_index(self.providers@, wanted) {
                    Some(i) => r matches Ok((n, p)) && n@ == wanted && *p == self.providers@[i].1,
                    None => r matches Err(e) && unknown_in(e, wanted, *self),
                }
            }),
    {
        match name {
            Some(n) => match self.provider(n) {
                Ok(p) => Ok((n, p)),
                Err(e) => Err(e),
            },
            None => self.default_provider(),
        }
    }
}

proof fn lemma_provider_index_prefix(ps: Seq<(String, ProviderConfig)>, name: Seq<char>, n: int)
    requires
        0 <= n <= ps.len(),
        provider_index(ps.take(n), name) is Some,
    ensures
        provider_index(ps, name) == provider_index(ps.take(n), name),
        provider_index(ps, name) matches Some(i) ==> 0 <= i < n,
    decreases ps.len(),
{
    if n < ps.len() {
        assert(ps.drop_last().take(n) =~= ps.take(n));
        lemma_provider_index_prefix(ps.drop_last(), name, n);
    } else {
        assert(ps.take(n) =~= ps);
        lemma_provider_index_range(ps, name);
    }
}

proof fn lemma_provider_index_range(ps: Seq<(String, ProviderConfig)>, name: Seq<char>)
    ensures
        provider_index(ps, name) matches Some(i) ==> 0 <= i < ps.len(),
    decreases ps.len(),
{
    if ps.len() > 0 {
        lemma_provider_index_range(ps.drop_last(), name);
    }
}


/// The response recorded last for fingerprint `key`.
pub open spec fn last_recorded(fs: Seq<(String, RecordedResponse)>, key: Seq<char>) -> Option<RecordedResponse>
    decreases fs.len(),
{
    if fs.len() == 0 {
        None
    } else if fs.last().0@ == key {
        Some(fs.last().1)
    } else {
        last_recorded(fs.drop_last(), key)
    }
}

/// The response listed first for fingerprint `key`.
pub open spec fn first_recorded(fs: Seq<(String, RecordedResponse)>, key: Seq<char>) -> Option<RecordedResponse>
    decreases fs.len(),
{
    if fs.len() == 0 {
        None
    } else if fs[0].0@ == key {
        Some(fs[0].1)
    } else {
        first_recorded(fs.drop_first(), key)
    }
}

proof fn lemma_first_recorded_at(fs: Seq<(String, RecordedResponse)>, key: Seq<char>, i: int)
    requires
        keys_unique(fs),
        0 <= i < fs.len(),
        fs[i].0@ == key,
    ensures
        first_recorded(fs, key) == Some(fs[i].1),
    decreases fs.len(),
{
    if i > 0 {
        assert(fs[0].0@ != key);
        let t = fs.drop_first();
        assert forall|a: int, b: int| 0 <= a < b < t.len() implies t[a].0@ != t[b].0@ by {
            assert(t[a] == fs[a + 1] && t[b] == fs[b + 1]);
        }
        assert(t[i - 1] == fs[i]);
        lemma_first_recorded_at(t, key, i - 1);
    }
}

proof fn lemma_first_recorded_first(fs: Seq<(String, RecordedResponse)>, key: Seq<char>, i: int)
    requires
        0 <= i < fs.len(),
        fs[i].0@ == key,
        forall|k: int| 0 <= k < i ==> fs[k].0@ != key,
    ensures
        first_recorded(fs, key) == Some(fs[i].1),
    decreases fs.len(),
{
    if i > 0 {
        let t = fs.drop_first();
        assert forall|k: int| 0 <= k < i - 1 implies t[k].0@ != key by {
            assert(t[k] == fs[k + 1]);
        }
        assert(t[i - 1] == fs[i]);
        lemma_first_recorded_first(t, key, i - 1);
    }
}

proof fn lemma_first_recorded_none(fs: Seq<(String, RecordedResponse)>, key: Seq<char>)
    requires
        forall|i: int| 0 <= i < fs.len() ==> fs[i].0@ != key,
    ensures
        first_recorded(fs, key) is None,
    decreases fs.len(),
{
    if fs.len() > 0 {
        let t = fs.drop_first();
        assert forall|i: int| 0 <= i < t.len() implies t[i].0@ != key by {
            assert(t[i] == fs[i + 1]);
        }
        lemma_first_recorded_none(t, key);
    }
}

/// The distinct fingerprints, each listed once.
pub open spec fn keys_unique(fs: Seq<(String, RecordedResponse)>) -> bool {
    forall|i: int, j: int| 0 <= i < j < fs.len() ==> fs[i].0@ != fs[j].0@
}

/// A backend that serves responses from recorded exchanges only.
#[derive(Debug, Clone)]
pub struct ReplayBackend {
    /// The model id requests are fingerprinted with.
    pub model: String,
    /// One response per fingerprint.
    pub fixtures: Vec<(String, RecordedResponse)>,
}

fn copy_response(r: &RecordedResponse) -> (c: RecordedResponse)
    ensures
        c == *r,
{
    RecordedResponse {
        text: r.text.clone(),
        usage: match &r.usage {
            Some(u) => Some(*u),
            None => None,
        },
    }
}

fn position_of(fs: &Vec<(String, RecordedResponse)>, key: &Vec<char>) -> (r: Option<usize>)
    ensures
        match r {
            Some(i) => i < fs@.len() && fs@[i as int].0@ == key@ && forall|k: int| 0 <= k < i ==> fs@[k].0@ != key@,
            None => forall|i: int| 0 <= i < fs@.len() ==> fs@[i].0@ != key@,
        },
{
    let mut i: usize = 0;
    while i < fs.len()
        invariant
            i <= fs@.len(),
            forall|k: int| 0 <= k < i ==> fs@[k].0@ != key@,
        decreases fs.len() - i,
    {
        if chars_eq(&to_chars(fs[i].0.as_str()), key) {
            return Some(i);
        }
        i = i + 1;
    }
    None
}

impl ReplayBackend {
    /// A replay backend for `model` over recorded `(fingerprint, response)`
    /// pairs; a fingerprint recorded twice keeps its last response.
    pub fn new(model: String, fixtures: Vec<(String, RecordedResponse)>) -> (r: Self)
        ensures
            r.model@ == model@,
            keys_unique(r.fixtures@),
            forall|key: Seq<char>| #[trigger] first_recorded(r.fixtures@, key) == last_recorded(fixtures@, key),
    {
        let mut out: Vec<(String, RecordedResponse)> = Vec::new();
        let mut i: usize = 0;
        while i < fixtures.len()
            invariant
                i <= fixtures@.len(),
                keys_unique(out@),
                forall|key: Seq<char>| #![trigger last_recorded(fixtures@.take(i as int), key)]
                    (exists|j: int| 0 <= j < out@.len() && out@[j].0@ == key && Some(out@[j].1) == last_recorded(fixtures@.take(i as int), key))
                        || ((forall|j: int| 0 <= j < out@.len() ==> out@[j].0@ != key) && last_recorded(fixtures@.take(i as int), key) is None),
            decreases fixtures.len() - i,
        {
            let fp = fixtures[i].0.clone();
            let resp = copy_response(&fixtures[i].1);
            let key = to_chars(fp.as_str());
            let ghost before = out@;
            let ghost pre = fixtures@.take(i as int);
            let ghost now = fixtures@.take(i + 1);
            assert(now.drop_last() =~= pre);
            assert(now.last() == fixtures@[i as int]);
            let ghost kv = key@;
            assert(fixtures@[i as int].0@ == kv);
            let ghost entry = (fp, resp);
            let ghost mut wpos: int = 0;
            match position_of(&out, &key) {
                Some(j) => {
                    out.set(j, (fp, resp));
                    proof {
                        wpos = j as int;
                    }
                },
                None => {
                    out.push((fp, resp));
                    proof {
                        wpos = before.len() as int;
                    }
                },
            }
            assert(0 <= wpos < out@.len() && out@[wpos] == entry);
            assert(forall|j: int| 0 <= j < out@.len() && j != wpos ==> out@[j] == before[j]);
            proof {
                assert forall|k: Seq<char>| #![trigger last_recorded(now, k)]
                    (exists|j: int| 0 <= j < out@.len() && out@[j].0@ == k && Some(out@[j].1) == last_recorded(now, k))
                        || ((forall|j: int| 0 <= j < out@.len() ==> out@[j].0@ != k) && last_recorded(now, k) is None) by {
                    if k == kv {
                        assert(last_recorded(now, k) == Some(fixtures@[i as int].1));
                        assert(out@[wpos].0@ == k);
                    } else {
                        assert(last_recorded(now, k) == last_recorded(pre, k));
                        if exists|j: int| 0 <= j < before.len() && before[j].0@ == k && Some(before[j].1) == last_recorded(pre, k) {
                            let j = choose|j: int| 0 <= j < before.len() && before[j].0@ == k && Some(before[j].1) == last_recorded(pre, k);
                            assert(j != wpos);
                            assert(out@[j] == before[j]);
                        } else {
                            assert forall|j: int| 0 <= j < out@.len() implies out@[j].0@ != k by {
                                if j != wpos {
                                    assert(out@[j] == before[j]);
                                }
                            }
                        }
                    }
                }
            }
            i = i + 1;
        }
        assert(fixtures@.take(fixtures@.len() as int) =~= fixtures@);
        proof {
            assert forall|key: Seq<char>| #[trigger] first_recorded(out@, key) == last_recorded(fixtures@, key) by {
                assert(last_recorded(fixtures@.take(fixtures@.len() as int), key) == last_recorded(fixtures@, key));
                if exists|j: int| 0 <= j < out@.len() && out@[j].0@ == key && Some(out@[j].1) == last_recorded(fixtures@, key) {
                    let j = choose|j: int| 0 <= j < out@.len() && out@[j].0@ == key && Some(out@[j].1) == last_recorded(fixtures@, key);
                    lemma_first_recorded_at(out@, key, j);
                } else {
                    lemma_first_recorded_none(out@, key);
                }
            }
        }
        ReplayBackend { model, fixtures: out }
    }

    /// Number of recorded fingerprints.
    pub fn len(&self) -> (r: usize)
        ensures
            r == self.fixtures@.len(),
    {
        self.fixtures.len()
    }

    /// Whether nothing is recorded.
    pub fn is_empty(&self) -> (r: bool)
        ensures
            r == (self.fixtures@.len() == 0),
    {
        self.fixtures.len() == 0
    }

    /// Answers a request from the recordings: the response recorded for the
    /// request's fingerprint, or an error naming the fingerprint and model.
    pub fn respond(
        &self,
        messages: &[ChatMessage],
        max_tokens: Option<u32>,
        temperature: &str,
    ) -> (r: Result<ChatResponse, Error>)
        ensures
            ({
                let fp = fingerprint_spec(self.model@, messages@, max_tokens, temperature@);
                match first_recorded(self.fixtures@, fp) {
                    Some(x) => r matches Ok(resp) && resp.text@ == x.text@ && resp.usage == match x.usage {
                        Some(u) => Some(Usage { input_tokens: u.input_tokens, output_tokens: u.output_tokens }),
                        None => None::<Usage>,
                    },
                    None => r matches Err(Error::ModelResponse(m)) && m@ == "no recorded fixture for request fingerprint "@
                        + fp + " (model "@ + self.model@ + ")"@,
                }
            }),
    {
        let fp = fingerprint_of(self.model.as_str(), messages, max_tokens, temperature);
        match self.lookup(fp.as_str()) {
            Some(x) => {
                let usage = match &x.usage {
                    Some(u) => Some(Usage { input_tokens: u.input_tokens, output_tokens: u.output_tokens }),
                    None => None,
                };
                Ok(ChatResponse { text: x.text.clone(), usage })
            },
            None => {
                let mut m = to_chars("no recorded fixture for request fingerprint ");
                append_chars(&mut m, &to_chars(fp.as_str()));
                push_str(&mut m, " (model ");
                append_chars(&mut m, &to_chars(self.model.as_str()));
                push_str(&mut m, ")");
                Err(Error::ModelResponse(from_chars(m.as_slice())))
            },
        }
    }

    /// The recorded response for a fingerprint: the first one listed for it
    /// (for a backend built by `new`, the one recorded last).
    pub fn lookup(&self, fp: &str) -> (r: Option<&RecordedResponse>)
        ensures
            match r {
                Some(x) => first_recorded(self.fixtures@, fp@) == Some(*x),
                None => first_recorded(self.fixtures@, fp@) is None,
            },
    {
        match position_of(&self.fixtures, &to_chars(fp)) {
            Some(i) => {
                proof {
                    lemma_first_recorded_first(self.fixtures@, fp@, i as int);
                }
                Some(&self.fixtures[i].1)
            },
            None => {
                proof {
                    lemma_first_recorded_none(self.fixtures@, fp@);
                }
                None
            },
        }
    }
}

/// The model a fixture directory records: the model of its first fixture,
/// provided every fixture names the same one.
pub open spec fn replay_model_spec(dir: Seq<char>, models: Seq<Seq<char>>) -> Result<Seq<char>, Seq<char>> {
    if models.len() == 0 {
        Err("no fixtures found in "@ + dir)
    } else {
        match first_other(models, models[0], 1) {
            Some(j) => Err("fixture dir "@ + dir + " mixes models "@ + debug_quoted(models[0]) + " and "@
                + debug_quoted(models[j])),
            None => Ok(models[0]),
        }
    }
}

/// The first position at or after `k` whose entry differs from `m`.
pub open spec fn first_other(models: Seq<Seq<char>>, m: Seq<char>, k: int) -> Option<int>
    decreases models.len() - k,
{
    if k < 0 || k >= models.len() {
        None
    } else if models[k] != m {
        Some(k)
    } else {
        first_other(models, m, k + 1)
    }
}

/// Checks the models named by a fixture directory's fixtures, in the order
/// they were read: all must agree, and there must be at least one.
pub fn replay_model(dir: &str, models: &Vec<String>) -> (r: Result<String, Error>)
    ensures
        match replay_model_spec(dir@, models@.map_values(|m: String| m@)) {
            Ok(m) => r matches Ok(x) && x@ == m,
            Err(msg) => r matches Err(Error::Config(x)) && x@ == msg,
        },
{
    let ghost mv = models@.map_values(|m: String| m@);
    if models.len() == 0 {
        let mut m = to_chars("no fixtures found in ");
        append_chars(&mut m, &to_chars(dir));
        return Err(Error::Config(from_chars(m.as_slice())));
    }
    let first = to_chars(models[0].as_str());
    let mut k: usize = 1;
    while k < models.len()
        invariant
            1 <= k <= models@.len(),
            mv == models@.map_values(|m: String| m@),
            first@ == mv[0],
            first_other(mv, mv[0], 1) == first_other(mv, mv[0], k as int),
        decreases models@.len() - k,
    {
        if !chars_eq(&to_chars(models[k].as_str()), &first) {
            let mut m = to_chars("fixture dir ");
            append_chars(&mut m, &to_chars(dir));
            push_str(&mut m, " mixes models ");
            append_chars(&mut m, &quoted(models[0].as_str()));
            push_str(&mut m, " and ");
            append_chars(&mut m, &quoted(models[k].as_str()));
            return Err(Error::Config(from_chars(m.as_slice())));
        }
        k = k + 1;
    }
    Ok(models[0].clone())
}

proof fn lemma_lex_lt_trans(a: Seq<char>, b: Seq<char>, c: Seq<char>)
    requires
        lex_le(a, b),
        a != b,
        lex_le(b, c),
        b != c,
    ensures
        lex_le(a, c),
        a != c,
    decreases a.len(),
{
    if a.len() == 0 {
        assert(b.len() > 0) by {
            if b.len() == 0 {
                assert(a =~= b);
            }
        }
        assert(c.len() > 0) by {
            if c.len() == 0 {
                assert(b.len() == 0);
            }
        }
    } else {
        assert(b.len() > 0);
        assert(c.len() > 0);
        if a[0] == b[0] && b[0] == c[0] {
            assert(a.drop_first() != b.drop_first()) by {
                if a.drop_first() == b.drop_first() {
                    assert(a =~= seq![a[0]] + a.drop_first());
                    assert(b =~= seq![b[0]] + b.drop_first());
                }
            }
            assert(b.drop_first() != c.drop_first()) by {
                if b.drop_first() == c.drop_first() {
                    assert(b =~= seq![b[0]] + b.drop_first());
                    assert(c =~= seq![c[0]] + c.drop_first());
                }
            }
            lemma_lex_lt_trans(a.drop_first(), b.drop_first(), c.drop_first());
            if a == c {
                assert(a.drop_first() == c.drop_first());
            }
        } else if a[0] != c[0] {
        } else {
            assert((a[0] as u32) < (b[0] as u32) || (b[0] as u32) < (c[0] as u32));
        }
    }
}

proof fn lemma_adjacent_chain(ps: Seq<(String, ProviderConfig)>, x: int, y: int)
    requires
        0 <= x < y < ps.len(),
        forall|a: int| 0 < a < ps.len() ==> lex_le(#[trigger] ps[a - 1].0@, ps[a].0@) && ps[a - 1].0@ != ps[a].0@,
    ensures
        lex_le(ps[x].0@, ps[y].0@),
        ps[x].0@ != ps[y].0@,
    decreases y - x,
{
    assert(lex_le(ps[y - 1].0@, ps[y].0@) && ps[y - 1].0@ != ps[y].0@);
    if x < y - 1 {
        lemma_adjacent_chain(ps, x, y - 1);
        lemma_lex_lt_trans(ps[x].0@, ps[y - 1].0@, ps[y].0@);
    }
}

} // verus!
