//! The arguments of the pipeline stages, and how the end-to-end run lays its
//! stages out under one work directory.

use vstd::prelude::*;
use crate::chars::{to_chars, from_chars, append_chars, push_str};

verus! {

/// `base` joined with `seg` as a path is pushed: an absolute `seg` replaces
/// `base`; otherwise exactly one `/` separates them (none after an empty
/// `base`).
pub open spec fn join_path_spec(base: Seq<char>, seg: Seq<char>) -> Seq<char> {
    if seg.len() > 0 && seg[0] == '/' {
        seg
    } else if base.len() == 0 {
        seg
    } else if base.last() == '/' {
        base + seg
    } else {
        base + "/"@ + seg
    }
}

/// Joins a relative or absolute path segment onto a base path.
pub fn join_path(base: &str, seg: &str) -> (r: String)
    ensures
        r@ == join_path_spec(base@, seg@),
{
    let b = to_chars(base);
    let s = to_chars(seg);
    proof {
        reveal_strlit("/");
    }
    if s.len() > 0 && s[0] == '/' {
        return from_chars(s.as_slice());
    }
    if b.len() == 0 {
        return from_chars(s.as_slice());
    }
    let mut out = b.clone();
    assert(out@ == b@);
    if b[b.len() - 1] != '/' {
        push_str(&mut out, "/");
    }
    append_chars(&mut out, &s);
    from_chars(out.as_slice())
}

/// Arguments of the `normalize` stage.
#[derive(Debug)]
pub struct NormalizeArgs {
    /// OCR model name (selects the reader).
    pub model: String,
    /// Directory holding `<doc_id>/...` inputs for this model.
    pub input_dir: String,
    /// Output root; results go under `<output_dir>/<model>/`.
    pub output_dir: String,
    /// Limit on the number of documents (`0` = all).
    pub doc_limit: usize,
}

/// Arguments of the `infer` stage.
#[derive(Debug)]
pub struct InferArgs {
    /// Directory of normalized `<doc>.json` files.
    pub input_dir: String,
    /// Directory for the `doc_blocks` output.
    pub output_dir: String,
    /// Provider name; the configured default when absent.
    pub provider: Option<String>,
    /// Directory of source PDFs for page images.
    pub pdf_dir: Option<String>,
    /// Limit on the number of documents (`0` = all).
    pub doc_limit: usize,
}

/// Arguments of the `build-tree` stage.
#[derive(Debug)]
pub struct BuildTreeArgs {
    /// Directory of `doc_blocks` JSON files.
    pub input_dir: String,
    /// Directory for the tree JSON output.
    pub output_dir: String,
    /// Directory for the text previews.
    pub txt_dir: String,
}

/// Arguments of the `split-subnode` stage.
#[derive(Debug)]
pub struct SplitSubnodeArgs {
    /// Directory of tree JSON files.
    pub input_dir: String,
    /// Directory for the split trees.
    pub output_dir: String,
}

/// Arguments of the end-to-end `run`.
#[derive(Debug)]
pub struct RunArgs {
    /// OCR model name (selects the reader).
    pub model: String,
    /// Directory of the model's outputs (`<doc_id>/...`).
    pub input_dir: String,
    /// Working directory for all intermediate and final outputs.
    pub work_dir: String,
    /// Provider; the configured default when absent.
    pub provider: Option<String>,
    /// Directory of source PDFs for page images.
    pub pdf_dir: Option<String>,
    /// Limit on the number of documents (`0` = all).
    pub doc_limit: usize,
}

/// The abstract value of an optional string.
pub open spec fn opt_view(o: Option<String>) -> Option<Seq<char>> {
    match o {
        Some(s) => Some(s@),
        None => None,
    }
}

fn copy_opt(o: &Option<String>) -> (r: Option<String>)
    ensures
        opt_view(r) == opt_view(*o),
{
    match o {
        Some(s) => Some(s.clone()),
        None => None,
    }
}

impl RunArgs {
    /// The four stages of the run, chained through `<work_dir>/normalized`,
    /// `<work_dir>/inference`, `<work_dir>/tree` (with previews in
    /// `<work_dir>/tree_txt`) and `<work_dir>/final`.
    pub fn stage_plan(&self) -> (r: (NormalizeArgs, InferArgs, BuildTreeArgs, SplitSubnodeArgs))
        ensures
            r.0.model@ == self.model@,
            r.0.input_dir@ == self.input_dir@,
            r.0.output_dir@ == join_path_spec(self.work_dir@, "normalized"@),
            r.0.doc_limit == self.doc_limit,
            r.1.input_dir@ == join_path_spec(join_path_spec(self.work_dir@, "normalized"@), self.model@),
            r.1.output_dir@ == join_path_spec(self.work_dir@, "inference"@),
            opt_view(r.1.provider) == opt_view(self.provider),
            opt_view(r.1.pdf_dir) == opt_view(self.pdf_dir),
            r.1.doc_limit == self.doc_limit,
            r.2.input_dir@ == join_path_spec(self.work_dir@, "inference"@),
            r.2.output_dir@ == join_path_spec(self.work_dir@, "tree"@),
            r.2.txt_dir@ == join_path_spec(self.work_dir@, "tree_txt"@),
            r.3.input_dir@ == join_path_spec(self.work_dir@, "tree"@),
            r.3.output_dir@ == join_path_spec(self.work_dir@, "final"@),
    {
        let wd = self.work_dir.as_str();
        let normalized = join_path(wd, "normalized");
        let inference = join_path(wd, "inference");
        let tree = join_path(wd, "tree");
        let tree_txt = join_path(wd, "tree_txt");
        let final_dir = join_path(wd, "final");
        let infer_in = join_path(normalized.as_str(), self.model.as_str());
        let n = NormalizeArgs {
            model: self.model.clone(),
            input_dir: self.input_dir.clone(),
            output_dir: normalized,
            doc_limit: self.doc_limit,
        };
        let i = InferArgs {
            input_dir: infer_in,
            output_dir: join_path(wd, "inference"),
            provider: copy_opt(&self.provider),
            pdf_dir: copy_opt(&self.pdf_dir),
            doc_limit: self.doc_limit,
        };
        let b = BuildTreeArgs { input_dir: inference, output_dir: join_path(wd, "tree"), txt_dir: tree_txt };
        let s = SplitSubnodeArgs { input_dir: tree, output_dir: final_dir };
        (n, i, b, s)
    }
}

/// How many of `n` listed documents a stage processes under `doc_limit`.
pub fn limited_count(n: usize, doc_limit: usize) -> (r: usize)
    ensures
        r == if doc_limit > 0 && doc_limit < n { doc_limit } else { n },
{
    if doc_limit > 0 && doc_limit < n {
        doc_limit
    } else {
        n
    }
}

} // verus!
