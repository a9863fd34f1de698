//! Text-truncation subtask: find text that continues across blocks or pages.
//!
//! Candidates are text blocks whose content plausibly continues into a later
//! text block (`merge_rules`); each is shown to the model as a judge line with
//! a shortened preview, and the model answers with `<|src_id|>S<|tgt_id|>T`
//! lines, applied as `contd` links.

use vstd::prelude::*;
use crate::chars;
use crate::chars::{to_chars, from_chars, trim, slice_chars, append_chars, push_str, chars_eq, i64_to_chars, replace_chars, find_sub_from};
use crate::block::WorkBlock;
use crate::chunk::Paged;
use crate::labels;
use crate::labels::{parse_marked_pairs, render_marked_pairs};
use crate::pattern;
use crate::pattern::regex_is_match;

verus! {

/// Sentence-terminating characters.
pub open spec fn is_term_spec(c: char) -> bool {
    c == '.' || c == '。' || c == '?' || c == '!' || c == '？' || c == '！' || c == '¿' || c == '¡'
        || c == '؟' || c == 'ฯ' || c == '۔' || c == ':' || c == '：' || c == '…' || c == ';'
        || c == '；'
}

/// Closing punctuation that may trail a terminator.
pub open spec fn is_close_spec(c: char) -> bool {
    c == '’' || c == '”' || c == '\'' || c == '"' || c == '）' || c == '」' || c == '】' || c == ']'
        || c == ')'
}

fn is_term(c: char) -> (r: bool)
    ensures
        r == is_term_spec(c),
{
    c == '.' || c == '。' || c == '?' || c == '!' || c == '？' || c == '！' || c == '¿' || c == '¡'
        || c == '؟' || c == 'ฯ' || c == '۔' || c == ':' || c == '：' || c == '…' || c == ';'
        || c == '；'
}

fn is_close(c: char) -> (r: bool)
    ensures
        r == is_close_spec(c),
{
    c == '’' || c == '”' || c == '\'' || c == '"' || c == '）' || c == '」' || c == '】' || c == ']'
        || c == ')'
}

/// A candidate block for truncation or title analysis, as shown to the model.
#[derive(Debug)]
pub struct JudgeBlock {
    /// 0-based position of the block in the document (the model-facing id).
    pub idx: i64,
    /// Shown content.
    pub content: String,
    /// 1-based page.
    pub page: i64,
    /// Bbox as `[top, left, bottom, right]` per-mille integer strings.
    pub bbox: [String; 4],
}

impl Clone for JudgeBlock {
    fn clone(&self) -> (r: Self)
        ensures
            r == *self,
    {
        let bbox = [self.bbox[0].clone(), self.bbox[1].clone(), self.bbox[2].clone(), self.bbox[3].clone()];
        assert(bbox =~= self.bbox);
        JudgeBlock { idx: self.idx, content: self.content.clone(), page: self.page, bbox }
    }
}

impl Paged for JudgeBlock {
    open spec fn page_spec(&self) -> i64 {
        self.page
    }

    fn page(&self) -> (p: i64) {
        self.page
    }
}

/// Position of the first terminator in `s`.
pub open spec fn first_term(s: Seq<char>) -> Option<int>
    decreases s.len(),
{
    if s.len() == 0 {
        None
    } else if is_term_spec(s[0]) {
        Some(0)
    } else {
        match first_term(s.drop_first()) {
            Some(i) => Some(i + 1),
            None => None,
        }
    }
}

/// Position of the last terminator in `s`.
pub open spec fn last_term(s: Seq<char>) -> Option<int>
    decreases s.len(),
{
    if s.len() == 0 {
        None
    } else if is_term_spec(s.last()) {
        Some(s.len() - 1)
    } else {
        last_term(s.drop_last())
    }
}

proof fn lemma_first_term(s: Seq<char>, n: int)
    requires
        0 <= n <= s.len(),
        forall|k: int| 0 <= k < n ==> !is_term_spec(s[k]),
    ensures
        n < s.len() && is_term_spec(s[n]) ==> first_term(s) == Some(n),
        n == s.len() ==> first_term(s) is None,
    decreases s.len(),
{
    if s.len() > 0 && n > 0 {
        assert forall|k: int| 0 <= k < n - 1 implies !is_term_spec(s.drop_first()[k]) by {
            assert(s.drop_first()[k] == s[k + 1]);
        }
        lemma_first_term(s.drop_first(), n - 1);
    }
}

proof fn lemma_last_term_range(s: Seq<char>)
    ensures
        last_term(s) matches Some(i) ==> 0 <= i < s.len(),
    decreases s.len(),
{
    if s.len() > 0 && !is_term_spec(s.last()) {
        lemma_last_term_range(s.drop_last());
    }
}

/// The first sentence: text up to and including the first terminator,
/// trimmed; the whole text trimmed when there is no terminator.
pub open spec fn head_spec(s: Seq<char>) -> Seq<char> {
    if chars::trim_spec(s).len() == 0 {
        seq![]
    } else {
        match first_term(s) {
            Some(i) => chars::trim_spec(s.take(i + 1)),
            None => chars::trim_spec(s),
        }
    }
}

/// The last non-empty trimmed piece between terminators, looking backward
/// from the end (the first piece, trimmed, when every later one is empty).
pub open spec fn tail_part(s: Seq<char>) -> Seq<char>
    decreases s.len(),
{
    match last_term(s) {
        None => chars::trim_spec(s),
        Some(i) => if 0 <= i < s.len() {
            let t = chars::trim_spec(s.skip(i + 1));
            if t.len() > 0 {
                t
            } else {
                tail_part(s.take(i))
            }
        } else {
            chars::trim_spec(s)
        },
    }
}

/// The last sentence: the last non-empty piece between terminators, trimmed;
/// the whole text trimmed when every piece is empty.
pub open spec fn tail_spec(s: Seq<char>) -> Seq<char> {
    if chars::trim_spec(s).len() == 0 {
        seq![]
    } else {
        let t = tail_part(s);
        if t.len() > 0 {
            t
        } else {
            chars::trim_spec(s)
        }
    }
}

fn trimmed_is_empty(s: &Vec<char>) -> (r: bool)
    ensures
        r == (chars::trim_spec(s@).len() == 0),
{
    trim(s).len() == 0
}

/// The first sentence of `text`.
pub fn head_sentence(text: &str) -> (r: String)
    ensures
        r@ == head_spec(text@),
{
    let s = to_chars(text);
    if trimmed_is_empty(&s) {
        return String::new();
    }
    let mut i: usize = 0;
    while i < s.len()
        invariant
            i <= s.len(),
            s@ == text@,
            chars::trim_spec(s@).len() > 0,
            forall|k: int| 0 <= k < i ==> !is_term_spec(s@[k]),
        decreases s.len() - i,
    {
        if is_term(s[i]) {
            proof {
                lemma_first_term(s@, i as int);
            }
            let piece = slice_chars(&s, 0, i + 1);
            assert(piece@ =~= s@.take(i + 1));
            let head = trim(&piece);
            assert(first_term(s@) == Some(i as int));
            assert(head@ == head_spec(s@));
            return from_chars(head.as_slice());
        }
        i = i + 1;
    }
    proof {
        lemma_first_term(s@, s@.len() as int);
    }
    from_chars(trim(&s).as_slice())
}

/// The last sentence of `text`.
pub fn tail_sentence(text: &str) -> (r: String)
    ensures
        r@ == tail_spec(text@),
{
    let s = to_chars(text);
    if trimmed_is_empty(&s) {
        return String::new();
    }
    let mut end = s.len();
    let mut found: Vec<char> = Vec::new();
    let mut done = false;
    assert(s@.take(s@.len() as int) =~= s@);
    while !done
        invariant
            end <= s.len(),
            done ==> found@ == tail_part(s@),
            !done ==> tail_part(s@) == tail_part(s@.take(end as int)),
        decreases 2 * end + if done { 0int } else { 1int },
    {
        let ghost pre = s@.take(end as int);
        let mut k = end;
        while k > 0 && !is_term(s[k - 1])
            invariant
                k <= end <= s.len(),
                pre == s@.take(end as int),
                last_term(pre) == last_term(s@.take(k as int)),
            decreases k,
        {
            assert(s@.take(k as int).drop_last() =~= s@.take(k - 1));
            assert(s@.take(k as int).last() == s@[k - 1]);
            k = k - 1;
        }
        if k == 0 {
            assert(s@.take(0) =~= Seq::<char>::empty());
            found = trim(&slice_chars(&s, 0, end));
            assert(s@.subrange(0, end as int) =~= pre);
            done = true;
        } else {
            assert(s@.take(k as int).last() == s@[k - 1]);
            assert(last_term(s@.take(k as int)) == Some(k - 1));
            let piece = trim(&slice_chars(&s, k, end));
            assert(s@.subrange(k as int, end as int) =~= pre.skip(k as int));
            if piece.len() > 0 {
                found = piece;
                done = true;
            } else {
                assert(pre.take(k - 1) =~= s@.take(k - 1));
                end = k - 1;
            }
        }
    }
    if found.len() > 0 {
        from_chars(found.as_slice())
    } else {
        from_chars(trim(&s).as_slice())
    }
}

/// The prompt preview of a block's text: first and last sentence (one of
/// them when they agree), cut to 50 characters on each side of `...` when
/// longer than 103 characters.
pub open spec fn shorten_spec(s: Seq<char>) -> Seq<char> {
    let h = head_spec(s);
    let t = tail_spec(s);
    let short = if h == t {
        h
    } else {
        h + " ... "@ + t
    };
    if short.len() <= 103 {
        short
    } else {
        short.take(50) + "..."@ + short.skip(short.len() - 50)
    }
}

/// Builds the shortened preview used in the prompt.
fn shorten(text: &str) -> (r: Vec<char>)
    ensures
        r@ == shorten_spec(text@),
{
    let h = to_chars(head_sentence(text).as_str());
    let t = to_chars(tail_sentence(text).as_str());
    let short = if chars_eq(&h, &t) {
        h
    } else {
        let mut v = h;
        push_str(&mut v, " ... ");
        append_chars(&mut v, &t);
        v
    };
    if short.len() <= 103 {
        short
    } else {
        let n = short.len();
        let mut out = slice_chars(&short, 0, 50);
        push_str(&mut out, "...");
        append_chars(&mut out, &slice_chars(&short, n - 50, n));
        assert(short@.subrange(0, 50) =~= short@.take(50));
        assert(short@.subrange(n - 50, n as int) =~= short@.skip(n - 50));
        out
    }
}

/// The list-item prefix pattern: numbering, lettering, CJK enumerations,
/// circled numbers, bullets, roman numerals, dashes and brackets.
pub const LIST_ITEM_PATTERN: &'static str = "^(?:\\d+[.)]|\\d+）|\\d+．|\\d+、|\\(\\d+\\)|\\([a-zA-Z]\\)|（\\d+）|[a-zA-Z][.)]|[一二三四五六七八九十百千万]+、|\\([一二三四五六七八九十百千万]+\\)|（[一二三四五六七八九十百千万]+）|[\\x{2460}-\\x{2473}\\x{3251}-\\x{325F}]|[•▪▫]|[IVXLCDM]+\\.|-|\\$|\\t|[\\[\\(「【（]|第[一二三四五六七八九十百千万][条节章])\\s*";

/// Whether `s` starts like a list item.
pub open spec fn is_list_item_spec(s: Seq<char>) -> bool {
    pattern::regex_match_of(LIST_ITEM_PATTERN@, s) == Some(true)
}

/// Whether `s` starts with a list-item marker.
pub fn is_list_item(s: &str) -> (r: bool)
    ensures
        r == is_list_item_spec(s@),
{
    match regex_is_match(LIST_ITEM_PATTERN, s) {
        Some(b) => b,
        None => false,
    }
}

/// Whether `str2` plausibly continues `str1`: both non-empty, `str1` does not
/// end a sentence (trimmed, its last character is no terminator, nor closing
/// punctuation after one), `str1` has at least 10 characters, `str2` is no
/// list item, neither holds a tab, and they do not both start with a digit.
pub open spec fn merge_rules_spec(s1: Seq<char>, s2: Seq<char>) -> bool {
    let t = chars::trim_spec(s1);
    &&& s1.len() > 0
    &&& s2.len() > 0
    &&& !(t.len() > 0 && is_term_spec(t.last()))
    &&& !(t.len() > 1 && is_close_spec(t.last()) && is_term_spec(t[t.len() - 2]))
    &&& s1.len() >= 10
    &&& !is_list_item_spec(s2)
    &&& !s1.contains('\t')
    &&& !s2.contains('\t')
    &&& !(chars::is_digit_spec(s1[0]) && chars::is_digit_spec(s2[0]))
}

fn has_char(s: &Vec<char>, c: char) -> (r: bool)
    ensures
        r == s@.contains(c),
{
    let mut i: usize = 0;
    while i < s.len()
        invariant
            i <= s.len(),
            forall|k: int| 0 <= k < i ==> s@[k] != c,
        decreases s.len() - i,
    {
        if s[i] == c {
            assert(s@[i as int] == c);
            return true;
        }
        i = i + 1;
    }
    false
}

/// Decides whether `str2` plausibly continues `str1`.
pub fn merge_rules(str1: &str, str2: &str) -> (r: bool)
    ensures
        r == merge_rules_spec(str1@, str2@),
{
    let s1 = to_chars(str1);
    let s2 = to_chars(str2);
    if s1.len() == 0 || s2.len() == 0 {
        return false;
    }
    let t = trim(&s1);
    if t.len() > 0 {
        let last = t[t.len() - 1];
        if is_term(last) {
            return false;
        }
        if t.len() > 1 {
            let second_last = t[t.len() - 2];
            if is_close(last) && is_term(second_last) {
                return false;
            }
        }
    }
    if s1.len() < 10 {
        return false;
    }
    if is_list_item(str2) {
        return false;
    }
    if has_char(&s1, '\t') || has_char(&s2, '\t') {
        return false;
    }
    let d1 = '0' <= s1[0] && s1[0] <= '9';
    let d2 = '0' <= s2[0] && s2[0] <= '9';
    if d1 && d2 {
        return false;
    }
    true
}


/// Whether a block type takes part in truncation detection.
pub open spec fn text_like(kind: Seq<char>) -> bool {
    kind == "text"@ || kind == "list_item"@
}

/// Whether a block type ends the search for a continuation.
pub open spec fn stops_scan(kind: Seq<char>) -> bool {
    chars::find_sub(kind, "equation"@) is Some || chars::find_sub(kind, "title"@) is Some
}

/// The first block after `pos - 1` that continues block `i`, unless an
/// equation or title comes first.
pub open spec fn partner(bs: Seq<WorkBlock>, i: int, pos: int) -> Option<int>
    decreases bs.len() - pos,
{
    if pos < 0 || pos >= bs.len() {
        None
    } else if stops_scan(bs[pos].kind@) {
        None
    } else if text_like(bs[pos].kind@) && merge_rules_spec(bs[i].content@, bs[pos].content@) {
        Some(pos)
    } else {
        partner(bs, i, pos + 1)
    }
}

/// `s` with `x` appended unless already present.
pub open spec fn add_unique(s: Seq<int>, x: int) -> Seq<int> {
    if s.contains(x) {
        s
    } else {
        s.push(x)
    }
}

/// Candidate positions among the first `n` blocks, in discovery order:
/// each text block with a continuation, then that continuation.
pub open spec fn contd_candidates(bs: Seq<WorkBlock>, n: nat) -> Seq<int>
    decreases n,
{
    if n == 0 {
        seq![]
    } else {
        let prev = contd_candidates(bs, (n - 1) as nat);
        let i = n - 1;
        if i < bs.len() && text_like(bs[i].kind@) {
            match partner(bs, i, i + 1) {
                Some(pos) => add_unique(add_unique(prev, i), pos),
                None => prev,
            }
        } else {
            prev
        }
    }
}

/// A 0..1 coordinate in millionths, as per-mille truncated toward zero.
pub open spec fn permille(v: i64) -> int {
    if v >= 0 {
        v / 1000
    } else {
        -((-v) / 1000)
    }
}

/// `j` shows block `b` at position `i` with `content`; its box is
/// `[top, left, bottom, right]` in per-mille.
pub open spec fn judge_shows(j: JudgeBlock, i: int, b: WorkBlock, content: Seq<char>) -> bool {
    &&& j.idx == i
    &&& j.content@ == content
    &&& j.page == b.page
    &&& j.bbox@[0]@ == chars::decimal_int(permille(b.bbox[1]))
    &&& j.bbox@[1]@ == chars::decimal_int(permille(b.bbox[0]))
    &&& j.bbox@[2]@ == chars::decimal_int(permille(b.bbox[3]))
    &&& j.bbox@[3]@ == chars::decimal_int(permille(b.bbox[2]))
}

pub(crate) fn permille_exec(v: i64) -> (r: i64)
    ensures
        r == permille(v),
{
    if v >= 0 {
        v / 1000
    } else if v > -1000 {
        0
    } else {
        let m = 0 - (v + 1000);
        0 - (m / 1000 + 1)
    }
}

fn permille_text(v: i64) -> (r: String)
    ensures
        r@ == chars::decimal_int(permille(v)),
{
    let p = permille_exec(v);
    from_chars(i64_to_chars(p).as_slice())
}

/// The judge block for block `b` at position `i`, showing `content`.
pub(crate) fn judge_of(b: &WorkBlock, i: usize, content: Vec<char>) -> (j: JudgeBlock)
    requires
        i <= i64::MAX,
    ensures
        judge_shows(j, i as int, *b, content@),
{
    let bbox = [
        permille_text(b.bbox[1]),
        permille_text(b.bbox[0]),
        permille_text(b.bbox[3]),
        permille_text(b.bbox[2]),
    ];
    JudgeBlock { idx: i as i64, content: from_chars(content.as_slice()), page: b.page, bbox }
}

/// Whether `s` equals the literal `lit`.
pub(crate) fn str_is(s: &String, lit: &str) -> (r: bool)
    ensures
        r == (s@ == lit@),
{
    chars_eq(&to_chars(s.as_str()), &to_chars(lit))
}

/// Whether `lit` occurs in `s`.
pub(crate) fn str_has(s: &String, lit: &str) -> (r: bool)
    ensures
        r == (chars::find_sub(s@, lit@) is Some),
{
    let found = find_sub_from(&to_chars(s.as_str()), &to_chars(lit), 0);
    found.is_some()
}

fn is_text_like(kind: &String) -> (r: bool)
    ensures
        r == text_like(kind@),
{
    str_is(kind, "text") || str_is(kind, "list_item")
}

fn find_partner(blocks: &Vec<WorkBlock>, i: usize) -> (r: Option<usize>)
    requires
        i < blocks@.len(),
    ensures
        match r {
            Some(p) => partner(blocks@, i as int, i + 1) == Some(p as int),
            None => partner(blocks@, i as int, i + 1) is None,
        },
{
    let n = blocks.len();
    let mut pos = i + 1;
    while pos < blocks.len()
        invariant
            i < blocks@.len(),
            i + 1 <= pos <= blocks@.len(),
            partner(blocks@, i as int, i + 1) == partner(blocks@, i as int, pos as int),
        decreases blocks.len() - pos,
    {
        let kind = &blocks[pos].kind;
        if str_has(kind, "equation") || str_has(kind, "title") {
            return None;
        }
        if is_text_like(kind) && merge_rules(blocks[i].content.as_str(), blocks[pos].content.as_str()) {
            return Some(pos);
        }
        pos = pos + 1;
    }
    None
}

fn push_unique(v: &mut Vec<usize>, x: usize)
    ensures
        final(v)@.map_values(|k: usize| k as int) == add_unique(old(v)@.map_values(|k: usize| k as int), x as int),
        final(v)@ == if old(v)@.contains(x) {
            old(v)@
        } else {
            old(v)@.push(x)
        },
{
    let mut k: usize = 0;
    while k < v.len()
        invariant
            k <= v.len(),
            forall|m: int| 0 <= m < k ==> v@[m] != x,
        decreases v.len() - k,
    {
        if v[k] == x {
            assert(v@.map_values(|k: usize| k as int)[k as int] == x as int);
            assert(v@[k as int] == x);
            return;
        }
        k = k + 1;
    }
    let ghost before = v@;
    v.push(x);
    proof {
        let m0 = before.map_values(|k: usize| k as int);
        if m0.contains(x as int) {
            let w = choose|w: int| 0 <= w < m0.len() && m0[w] == x as int;
            assert(before[w] == x);
        }
        assert(v@.map_values(|k: usize| k as int) =~= m0.push(x as int));
    }
}

/// Selects truncation candidates and builds their judge blocks.
pub fn filter_contd(blocks: &Vec<WorkBlock>) -> (r: Vec<JudgeBlock>)
    requires
        blocks@.len() <= i64::MAX,
    ensures
        r@.len() == contd_candidates(blocks@, blocks@.len()).len(),
        forall|k: int|
            0 <= k < r@.len() ==> {
                let i = contd_candidates(blocks@, blocks@.len())[k];
                judge_shows(#[trigger] r@[k], i, blocks@[i], shorten_spec(blocks@[i].content@))
            },
{
    let mut potential: Vec<usize> = Vec::new();
    let mut i: usize = 0;
    while i < blocks.len()
        invariant
            i <= blocks@.len(),
            potential@.map_values(|k: usize| k as int) == contd_candidates(blocks@, i as nat),
            forall|m: int| 0 <= m < potential@.len() ==> potential@[m] < blocks@.len(),
        decreases blocks.len() - i,
    {
        if is_text_like(&blocks[i].kind) {
            match find_partner(blocks, i) {
                Some(pos) => {
                    proof {
                        lemma_partner_range(blocks@, i as int, i + 1);
                    }
                    push_unique(&mut potential, i);
                    push_unique(&mut potential, pos);

                },
                None => {},
            }
        }
        i = i + 1;
    }
    let ghost cands = potential@.map_values(|k: usize| k as int);
    let mut out: Vec<JudgeBlock> = Vec::new();
    let mut k: usize = 0;
    while k < potential.len()
        invariant
            k <= potential@.len(),
            blocks@.len() <= i64::MAX,
            cands == potential@.map_values(|k: usize| k as int),
            forall|m: int| 0 <= m < potential@.len() ==> potential@[m] < blocks@.len(),
            out@.len() == k,
            forall|m: int|
                0 <= m < k ==> judge_shows(#[trigger] out@[m], cands[m], blocks@[cands[m]], shorten_spec(blocks@[cands[m]].content@)),
        decreases potential.len() - k,
    {
        let idx = potential[k];
        let b = &blocks[idx];
        let j = judge_of(b, idx, shorten(b.content.as_str()));
        out.push(j);
        k = k + 1;
    }
    out
}

proof fn lemma_partner_range(bs: Seq<WorkBlock>, i: int, pos: int)
    ensures
        partner(bs, i, pos) matches Some(p) ==> pos <= p < bs.len() && 0 <= p,
    decreases bs.len() - pos,
{
    if !(pos < 0 || pos >= bs.len()) && !stops_scan(bs[pos].kind@) && !(text_like(bs[pos].kind@)
        && merge_rules_spec(bs[i].content@, bs[pos].content@)) {
        lemma_partner_range(bs, i, pos + 1);
    }
}


/// Every candidate position is a position of the blocks.
pub proof fn lemma_contd_candidates_range(bs: Seq<WorkBlock>, n: nat, k: int)
    requires
        0 <= k < contd_candidates(bs, n).len(),
    ensures
        0 <= contd_candidates(bs, n)[k] < bs.len(),
    decreases n,
{
    if n > 0 {
        let prev = contd_candidates(bs, (n - 1) as nat);
        let i = n - 1;
        if i < bs.len() && text_like(bs[i].kind@) {
            lemma_partner_range(bs, i, i + 1);
            match partner(bs, i, i + 1) {
                Some(pos) => {
                    let a = add_unique(prev, i);
                    let c = add_unique(a, pos);
                    if k < prev.len() {
                        lemma_contd_candidates_range(bs, (n - 1) as nat, k);
                        assert(c[k] == prev[k]);
                    } else if k < a.len() {
                        assert(c[k] == a[k]);
                    }
                },
                None => {
                    lemma_contd_candidates_range(bs, (n - 1) as nat, k);
                },
            }
        } else {
            lemma_contd_candidates_range(bs, (n - 1) as nat, k);
        }
    }
}

/// One judge line of a prompt: id, page, box and content after their markers.
pub open spec fn judge_line(j: JudgeBlock) -> Seq<char> {
    "<|id|>"@ + chars::decimal_int(j.idx as int) + "<|page|>"@ + chars::decimal_int(j.page as int)
        + "<|box|>"@ + chars::join_spec(Seq::new(4, |k: int| j.bbox@[k]@), " "@) + "<|content|>"@
        + j.content@
}

/// A prompt: `header` followed by the judge lines joined by newlines.
pub open spec fn judge_prompt_spec(header: Seq<char>, chunk: Seq<JudgeBlock>) -> Seq<char> {
    header + chars::join_spec(Seq::new(chunk.len(), |i: int| judge_line(chunk[i])), "\n"@)
}

fn judge_line_exec(j: &JudgeBlock) -> (r: Vec<char>)
    ensures
        r@ == judge_line(*j),
{
    let mut out: Vec<char> = Vec::new();
    push_str(&mut out, "<|id|>");
    append_chars(&mut out, &i64_to_chars(j.idx));
    push_str(&mut out, "<|page|>");
    append_chars(&mut out, &i64_to_chars(j.page));
    push_str(&mut out, "<|box|>");
    let mut parts: Vec<Vec<char>> = Vec::new();
    let mut k: usize = 0;
    while k < 4
        invariant
            k <= 4,
            parts.deep_view() =~= Seq::new(k as nat, |m: int| j.bbox@[m]@),
        decreases 4 - k,
    {
        let ghost before = parts.deep_view();
        let part = to_chars(j.bbox[k].as_str());
        assert(part.deep_view() =~= part@);
        parts.push(part);
        assert(parts.deep_view() =~= before.push(j.bbox@[k as int]@));
        k = k + 1;
    }
    let sep = to_chars(" ");
    append_chars(&mut out, &chars::join(&parts, &sep));
    push_str(&mut out, "<|content|>");
    append_chars(&mut out, &to_chars(j.content.as_str()));
    out
}

/// `header` followed by the judge lines of `chunk`.
pub(crate) fn judge_prompt(header: &str, chunk: &[JudgeBlock]) -> (r: String)
    ensures
        r@ == judge_prompt_spec(header@, chunk@),
{
    let mut lines: Vec<Vec<char>> = Vec::new();
    let mut i: usize = 0;
    while i < chunk.len()
        invariant
            i <= chunk@.len(),
            lines.deep_view() =~= Seq::new(i as nat, |k: int| judge_line(chunk@[k])),
        decreases chunk.len() - i,
    {
        let ghost before = lines.deep_view();
        let line = judge_line_exec(&chunk[i]);
        assert(line.deep_view() =~= line@);
        lines.push(line);
        assert(lines.deep_view() =~= before.push(judge_line(chunk@[i as int])));
        i = i + 1;
    }
    let mut out = to_chars(header);
    append_chars(&mut out, &chars::join(&lines, &to_chars("\n")));
    from_chars(out.as_slice())
}

/// Builds the `Truncation Detection` prompt for a chunk of judge blocks.
pub fn build_contd_prompt(chunk: &[JudgeBlock]) -> (r: String)
    ensures
        r@ == judge_prompt_spec("<image>\nTruncation Detection: "@, chunk@),
{
    judge_prompt("<image>\nTruncation Detection: ", chunk)
}

/// `<|src_id|>S<|tgt_id|>T` lines parsed into `(S, T)` pairs.
pub fn parse_src_tgt(s: &str) -> (r: Vec<(i64, i64)>)
    ensures
        r@ == labels::parse_pairs_spec(s@, "<|src_id|>"@, "<|tgt_id|>"@),
{
    parse_marked_pairs(s, "<|src_id|>", "<|tgt_id|>")
}

/// An answer with the `<|from|>` / `<|to|>` aliases rewritten.
pub open spec fn unalias_spec(s: Seq<char>) -> Seq<char> {
    chars::replace_spec(
        chars::replace_spec(s, "<|from|>"@, "<|src_id|>"@),
        "<|to|>"@,
        "<|tgt_id|>"@,
    )
}

/// Parses the truncation pairs of a model answer, accepting the
/// `<|from|>` / `<|to|>` aliases.
pub fn parse_contd_pairs(response: &str) -> (r: Vec<(i64, i64)>)
    ensures
        r@ == labels::parse_pairs_spec(unalias_spec(response@), "<|src_id|>"@, "<|tgt_id|>"@),
{
    proof {
        reveal_strlit("<|from|>");
        reveal_strlit("<|to|>");
    }
    let a = replace_chars(&to_chars(response), &to_chars("<|from|>"), &to_chars("<|src_id|>"));
    let b = replace_chars(&a, &to_chars("<|to|>"), &to_chars("<|tgt_id|>"));
    let normalized = from_chars(b.as_slice());
    parse_src_tgt(normalized.as_str())
}

/// The `contd` a block at position `k` ends with after applying `pairs`
/// in order: the last pair naming `k` as source sets it to target + 1.
pub open spec fn contd_after(c: i64, k: int, pairs: Seq<(i64, i64)>) -> i64
    decreases pairs.len(),
{
    if pairs.len() == 0 {
        c
    } else if pairs.last().0 == k {
        (pairs.last().1 + 1) as i64
    } else {
        contd_after(c, k, pairs.drop_last())
    }
}

/// `b` is `a` with only its `contd` replaced by `c`.
pub open spec fn with_contd(a: WorkBlock, b: WorkBlock, c: i64) -> bool {
    b == WorkBlock { contd: c, ..a }
}

/// Applies truncation pairs: block `src` continues into block `tgt`
/// (`contd = tgt + 1`); pairs whose source is out of range are ignored.
pub fn apply_contd(blocks: &mut Vec<WorkBlock>, pairs: &[(i64, i64)])
    requires
        forall|i: int| 0 <= i < pairs@.len() ==> #[trigger] pairs@[i].1 < i64::MAX,
    ensures
        final(blocks)@.len() == old(blocks)@.len(),
        forall|k: int|
            0 <= k < old(blocks)@.len() ==> with_contd(
                old(blocks)@[k],
                #[trigger] final(blocks)@[k],
                contd_after(old(blocks)@[k].contd, k, pairs@),
            ),
{
    let ghost orig = blocks@;
    let mut i: usize = 0;
    while i < pairs.len()
        invariant
            i <= pairs@.len(),
            forall|m: int| 0 <= m < pairs@.len() ==> #[trigger] pairs@[m].1 < i64::MAX,
            blocks@.len() == orig.len(),
            forall|k: int|
                0 <= k < orig.len() ==> with_contd(
                    orig[k],
                    #[trigger] blocks@[k],
                    contd_after(orig[k].contd, k, pairs@.take(i as int)),
                ),
        decreases pairs.len() - i,
    {
        let (src, tgt) = pairs[i];
        assert(pairs@.take(i + 1).drop_last() =~= pairs@.take(i as int));
        assert(pairs@.take(i + 1).last() == pairs@[i as int]);
        assert(pairs@[i as int].1 < i64::MAX);
        let ghost before = blocks@;
        if 0 <= src && (src as i128) < (blocks.len() as i128) {
            let k = src as usize;
            blocks[k].contd = tgt + 1;
            assert(blocks@ == before.update(k as int, WorkBlock { contd: (tgt + 1) as i64, ..before[k as int] }));
        }
        proof {
            assert forall|k: int| 0 <= k < orig.len() implies with_contd(
                orig[k],
                #[trigger] blocks@[k],
                contd_after(orig[k].contd, k, pairs@.take(i + 1)),
            ) by {
                assert(with_contd(orig[k], before[k], contd_after(orig[k].contd, k, pairs@.take(i as int))));
                if k == src as int {
                    assert(blocks@[k] == WorkBlock { contd: (tgt + 1) as i64, ..before[k] });
                } else {
                    assert(blocks@[k] == before[k]);
                }
            }
        }
        i = i + 1;
    }
    assert(pairs@.take(pairs.len() as int) =~= pairs@);
}

/// Serializes accepted pairs as `<|src_id|>S<|tgt_id|>T` lines.
pub fn contd_output(pairs: &[(i64, i64)]) -> (r: String)
    ensures
        r@ == labels::render_pairs_spec(pairs@, "<|src_id|>"@, "<|tgt_id|>"@),
{
    render_marked_pairs(pairs, "<|src_id|>", "<|tgt_id|>")
}

} // verus!
