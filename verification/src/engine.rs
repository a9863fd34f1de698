//! Training-data generation for the four subtasks: each case pairs the
//! inference prompt with the inference output serialization; the
//! table-merge case has a training format of its own. Also picks the JSON
//! text out of a model's free-form answer.

use vstd::prelude::*;
use crate::chars::{to_chars, from_chars, append_chars, push_str, i64_to_chars, decimal_int, join_spec};
use crate::labels;
use crate::title::{build_title_prompt, title_output, LevelPair};
use crate::truncation::{build_contd_prompt, contd_output, judge_prompt_spec, JudgeBlock};
use crate::visual::{build_image_prompt, image_prompt_spec, ImageJudge};

verus! {

/// A training item: the page image, the human turn (the prompt) and the
/// model turn (the expected answer). Its type is always `grounding`.
#[derive(Debug)]
pub struct TrainingItem {
    /// Page image path.
    pub image: String,
    /// The human turn.
    pub human: String,
    /// The model turn.
    pub gpt: String,
}

/// Text-truncation training case.
pub fn contd_case(chunk: &[JudgeBlock], pairs: &[(i64, i64)], image: &str) -> (r: TrainingItem)
    ensures
        r.image@ == image@,
        r.human@ == judge_prompt_spec("<image>\nTruncation Detection: "@, chunk@),
        r.gpt@ == labels::render_pairs_spec(pairs@, "<|src_id|>"@, "<|tgt_id|>"@),
{
    TrainingItem {
        image: String::from_str(image),
        human: build_contd_prompt(chunk),
        gpt: contd_output(pairs),
    }
}

/// Title-hierarchy training case.
pub fn title_case(chunk: &[JudgeBlock], results: &[LevelPair], image: &str) -> (r: TrainingItem)
    ensures
        r.image@ == image@,
        r.human@ == judge_prompt_spec("<image>\nTitle Level Analysis: "@, chunk@),
        r.gpt@ == labels::render_pairs_spec(
            results@.map_values(|p: LevelPair| (p.id, p.level)),
            "<|id|>"@,
            "<|level|>"@,
        ),
{
    TrainingItem {
        image: String::from_str(image),
        human: build_title_prompt(chunk),
        gpt: title_output(results),
    }
}

/// Image-text association training case.
pub fn image_case(chunk: &[ImageJudge], pairs: &[(i64, i64)], image: &str) -> (r: TrainingItem)
    ensures
        r.image@ == image@,
        r.human@ == image_prompt_spec(chunk@),
        r.gpt@ == labels::render_pairs_spec(pairs@, "<|src_id|>"@, "<|tgt_id|>"@),
{
    TrainingItem {
        image: String::from_str(image),
        human: build_image_prompt(chunk),
        gpt: contd_output(pairs),
    }
}

/// A table-merge judge line for the training prompt; the row lists are
/// given already serialized as JSON text.
#[derive(Debug)]
pub struct TableJudge {
    /// 0-based block position.
    pub idx: i64,
    /// 1-based page.
    pub page: i64,
    /// Column count.
    pub col_count: i64,
    /// Caption text.
    pub caption: String,
    /// Last rows of the upper table, as JSON text.
    pub last_rows: String,
    /// First rows of the lower table, as JSON text.
    pub first_rows: String,
}

/// A table-merge training result.
#[derive(Debug)]
pub struct TableResult {
    /// Source (upper) block id.
    pub src: i64,
    /// Target (lower) block id.
    pub tgt: i64,
    /// Merge decision (0/1).
    pub merge: i64,
    /// Per-cell merge flags.
    pub cell_list: Vec<i64>,
}

/// The prompt line of a table judge.
pub open spec fn table_judge_line(b: TableJudge) -> Seq<char> {
    "<|id|>"@ + decimal_int(b.idx as int) + "<|page|>"@ + decimal_int(b.page as int)
        + "<|col_count|>"@ + decimal_int(b.col_count as int) + "<|caption|>"@ + b.caption@
        + "<|last_rows|>"@ + b.last_rows@ + "<|first_rows|>"@ + b.first_rows@
}

/// The answer line of a table result.
pub open spec fn table_result_line(r: TableResult) -> Seq<char> {
    "<|src_id|>"@ + decimal_int(r.src as int) + "<|tgt_id|>"@ + decimal_int(r.tgt as int)
        + "<|merge|>"@ + decimal_int(r.merge as int) + "<|cell_list|>"@ + join_spec(
        Seq::new(r.cell_list@.len(), |k: int| decimal_int(r.cell_list@[k] as int)),
        ","@,
    )
}

fn table_judge_line_exec(b: &TableJudge) -> (r: Vec<char>)
    ensures
        r@ == table_judge_line(*b),
{
    let mut out = to_chars("<|id|>");
    append_chars(&mut out, &i64_to_chars(b.idx));
    push_str(&mut out, "<|page|>");
    append_chars(&mut out, &i64_to_chars(b.page));
    push_str(&mut out, "<|col_count|>");
    append_chars(&mut out, &i64_to_chars(b.col_count));
    push_str(&mut out, "<|caption|>");
    push_str(&mut out, b.caption.as_str());
    push_str(&mut out, "<|last_rows|>");
    push_str(&mut out, b.last_rows.as_str());
    push_str(&mut out, "<|first_rows|>");
    push_str(&mut out, b.first_rows.as_str());
    out
}

fn table_result_line_exec(r: &TableResult) -> (out: Vec<char>)
    ensures
        out@ == table_result_line(*r),
{
    let mut cells: Vec<Vec<char>> = Vec::new();
    let mut k: usize = 0;
    while k < r.cell_list.len()
        invariant
            k <= r.cell_list@.len(),
            cells.deep_view() == Seq::new(k as nat, |q: int| decimal_int(r.cell_list@[q] as int)),
        decreases r.cell_list@.len() - k,
    {
        let d = i64_to_chars(r.cell_list[k]);
        let ghost before = cells.deep_view();
        assert(d.deep_view() =~= d@);
        let ghost dv = d@;
        cells.push(d);
        assert(cells.deep_view() =~= before.push(dv));
        assert(cells.deep_view() =~= Seq::new((k + 1) as nat, |q: int| decimal_int(r.cell_list@[q] as int)));
        k = k + 1;
    }
    let mut out = to_chars("<|src_id|>");
    append_chars(&mut out, &i64_to_chars(r.src));
    push_str(&mut out, "<|tgt_id|>");
    append_chars(&mut out, &i64_to_chars(r.tgt));
    push_str(&mut out, "<|merge|>");
    append_chars(&mut out, &i64_to_chars(r.merge));
    push_str(&mut out, "<|cell_list|>");
    let joined = crate::chars::join(&cells, &to_chars(","));
    append_chars(&mut out, &joined);
    out
}

fn join_lines(lines: &Vec<Vec<char>>) -> (r: Vec<char>)
    ensures
        r@ == join_spec(lines.deep_view(), "\n"@),
{
    crate::chars::join(lines, &to_chars("\n"))
}

/// Table-merge training case: its prompt lists each table's id, page,
/// column count, caption and boundary rows; its answer lists each pair with
/// the merge decision and the cell flags.
pub fn table_merge_case(blocks: &[TableJudge], results: &[TableResult], image: &str) -> (r: TrainingItem)
    ensures
        r.image@ == image@,
        r.human@ == "<image>\nTable Merge Detection: "@ + join_spec(
            Seq::new(blocks@.len(), |k: int| table_judge_line(blocks@[k])),
            "\n"@,
        ),
        r.gpt@ == join_spec(Seq::new(results@.len(), |k: int| table_result_line(results@[k])), "\n"@),
{
    let mut ins: Vec<Vec<char>> = Vec::new();
    let mut k: usize = 0;
    while k < blocks.len()
        invariant
            k <= blocks@.len(),
            ins.deep_view() == Seq::new(k as nat, |q: int| table_judge_line(blocks@[q])),
        decreases blocks@.len() - k,
    {
        let l = table_judge_line_exec(&blocks[k]);
        assert(l.deep_view() =~= l@);
        let ghost before = ins.deep_view();
        let ghost lv = l@;
        ins.push(l);
        assert(ins.deep_view() =~= before.push(lv));
        assert(ins.deep_view() =~= Seq::new((k + 1) as nat, |q: int| table_judge_line(blocks@[q])));
        k = k + 1;
    }
    let mut outs: Vec<Vec<char>> = Vec::new();
    let mut k: usize = 0;
    while k < results.len()
        invariant
            k <= results@.len(),
            outs.deep_view() == Seq::new(k as nat, |q: int| table_result_line(results@[q])),
        decreases results@.len() - k,
    {
        let l = table_result_line_exec(&results[k]);
        assert(l.deep_view() =~= l@);
        let ghost before = outs.deep_view();
        let ghost lv = l@;
        outs.push(l);
        assert(outs.deep_view() =~= before.push(lv));
        assert(outs.deep_view() =~= Seq::new((k + 1) as nat, |q: int| table_result_line(results@[q])));
        k = k + 1;
    }
    let mut human = to_chars("<image>\nTable Merge Detection: ");
    append_chars(&mut human, &join_lines(&ins));
    TrainingItem {
        image: String::from_str(image),
        human: from_chars(human.as_slice()),
        gpt: from_chars(join_lines(&outs).as_slice()),
    }
}

/// The text of a fenced ```` ```json ```` block: after the first opening
/// fence, up to the next fence, trimmed.
pub open spec fn fenced_json_spec(s: Seq<char>) -> Option<Seq<char>> {
    match crate::chars::find_sub(s, "```json"@) {
        None => None,
        Some(i) => {
            let rest = s.skip(i + 7);
            match crate::chars::find_sub(rest, "```"@) {
                None => None,
                Some(e) => Some(crate::chars::trim_spec(rest.take(e))),
            }
        },
    }
}

/// The text of a fenced JSON block, if the answer has one.
pub fn extract_fenced_json(output: &str) -> (r: Option<String>)
    ensures
        match r {
            Some(t) => fenced_json_spec(output@) == Some(t@),
            None => fenced_json_spec(output@) is None,
        },
{
    proof {
        reveal_strlit("```json");
    }
    let s = to_chars(output);
    let open = to_chars("```json");
    let i = match crate::chars::find_sub_from(&s, &open, 0) {
        None => {
            return None;
        },
        Some(i) => i,
    };
    let n = s.len();
    assert(i + 7 <= n);
    let rest = crate::chars::slice_chars(&s, i + 7, s.len());
    assert(rest@ =~= s@.skip(i + 7));
    let e = match crate::chars::find_sub_from(&rest, &to_chars("```"), 0) {
        None => {
            return None;
        },
        Some(e) => e,
    };
    let body = crate::chars::slice_chars(&rest, 0, e);
    assert(body@ =~= rest@.take(e as int));
    let t = crate::chars::trim(&body);
    Some(from_chars(t.as_slice()))
}

/// Position of the last occurrence of `c`.
pub open spec fn rfind_char(s: Seq<char>, c: char, k: int) -> Option<int>
    decreases k,
{
    if k <= 0 {
        None
    } else if s[k - 1] == c {
        Some(k - 1)
    } else {
        rfind_char(s, c, k - 1)
    }
}

/// The JSON text to parse out of a model answer: a fenced ```` ```json ````
/// block if there is one, else the span from the first `[` to the last `]`
/// when they are in that order, else the whole answer.
pub open spec fn json_candidate_spec(s: Seq<char>) -> Seq<char> {
    match fenced_json_spec(s) {
        Some(t) => t,
        None => match (crate::chars::index_of_char(s, '['), rfind_char(s, ']', s.len() as int)) {
            (Some(a), Some(b)) => if b > a { s.subrange(a, b + 1) } else { s },
            _ => s,
        },
    }
}

proof fn lemma_rfind_char(s: Seq<char>, c: char, k: int)
    requires
        k <= s.len(),
    ensures
        rfind_char(s, c, k) matches Some(i) ==> 0 <= i < k,
    decreases k,
{
    if k > 0 && s[k - 1] != c {
        lemma_rfind_char(s, c, k - 1);
    }
}

/// The JSON text of a model answer, to be parsed.
pub fn json_candidate(output: &str) -> (r: String)
    ensures
        r@ == json_candidate_spec(output@),
{
    if let Some(t) = extract_fenced_json(output) {
        return t;
    }
    let s = to_chars(output);
    let mut a: usize = 0;
    while a < s.len() && s[a] != '['
        invariant
            a <= s@.len(),
            forall|k: int| 0 <= k < a ==> s@[k] != '[',
        decreases s@.len() - a,
    {
        a = a + 1;
    }
    let mut b: usize = s.len();
    while b > 0 && s[b - 1] != ']'
        invariant
            b <= s@.len(),
            rfind_char(s@, ']', s@.len() as int) == rfind_char(s@, ']', b as int),
        decreases b,
    {
        b = b - 1;
    }
    proof {
        lemma_rfind_char(s@, ']', s@.len() as int);
        crate::chars::lemma_index_of_char(s@, '[', a as int);
    }
    if a < s.len() && b > 0 && b - 1 > a {
        assert(crate::chars::index_of_char(s@, '[') == Some(a as int));
        let span = crate::chars::slice_chars(&s, a, b);
        return from_chars(span.as_slice());
    }
    proof {
        if a < s.len() {
            assert(crate::chars::index_of_char(s@, '[') == Some(a as int));
        } else {
            assert(crate::chars::index_of_char(s@, '[') is None);
        }
    }
    String::from_str(output)
}

} // verus!
