//! HTML table structure for cross-page table merging.
//!
//! A table is parsed once into rows of cells carrying `colspan` and `rowspan`.
//! Cells are laid out on a grid the way an HTML renderer places them: each
//! cell takes the first free column of its row, and claims the rectangle of
//! slots its spans cover, unless an earlier cell already claimed a slot.
//! Column counts, header detection and the span-annotated first/last rows are
//! all read off that layout.

use vstd::prelude::*;
use std::collections::HashMap;
use unicode_normalization::UnicodeNormalization;
use crate::chars;
use crate::chars::{to_chars, from_chars, trim, split_whitespace, join, u64_to_chars, append_chars, parse_usize, chars_eq, push_str, find_sub_from};

verus! {

broadcast use vstd::std_specs::hash::group_hash_axioms;

/// The NFKC normal form of a text, as the `unicode-normalization` crate computes it.
pub uninterp spec fn nfkc_of(text: Seq<char>) -> Seq<char>;

/// `UnicodeNormalization::nfkc` (unicode-normalization), collected into a
/// `String`. The result is the crate's NFKC form of `text`; the normalization
/// tables themselves are not restated here.
#[verifier::external_body]
fn nfkc(text: &str) -> (r: String)
    ensures
        r@ == nfkc_of(text@),
{
    text.nfkc().collect()
}

/// Folds full-width forms to their half-width equivalents (NFKC).
pub fn full_to_half(text: &str) -> (r: String)
    ensures
        r@ == nfkc_of(text@),
{
    nfkc(text)
}

/// The normalized text with every whitespace character removed.
pub open spec fn squeezed_spec(text: Seq<char>) -> Seq<char> {
    chars::concat_spec(chars::words_spec(nfkc_of(text)))
}

/// NFKC-normalize and drop all whitespace.
fn collapse_ws(text: &str) -> (r: Vec<char>)
    ensures
        r@ == squeezed_spec(text@),
{
    let n = nfkc(text);
    let words = split_whitespace(&to_chars(n.as_str()));
    let empty: Vec<char> = Vec::new();
    assert(empty@ =~= Seq::<char>::empty());
    join(&words, &empty)
}

/// One table cell.
#[derive(Debug, Clone)]
pub struct Cell {
    /// Column span (1 when absent).
    pub colspan: usize,
    /// Row span (1 when absent).
    pub rowspan: usize,
    /// Concatenated descendant text.
    pub raw: String,
}

impl Cell {
    /// The cell text with surrounding whitespace trimmed.
    pub fn text_stripped(&self) -> (r: String)
        ensures
            r@ == chars::trim_spec(self.raw@),
    {
        let t = trim(&to_chars(self.raw.as_str()));
        from_chars(t.as_slice())
    }
}

/// A parsed table: rows of cells in document order.
#[derive(Debug, Clone)]
pub struct Table {
    /// Rows, each a list of cells.
    pub rows: Vec<Vec<Cell>>,
}

/// A cell as the contracts see it: `(colspan, rowspan, raw text)`.
pub type CellModel = (int, int, Seq<char>);

/// A table as the contracts see it: rows of cell models.
pub type TableModel = Seq<Seq<CellModel>>;

/// The model of a cell.
pub open spec fn cell_model(c: Cell) -> CellModel {
    (c.colspan as int, c.rowspan as int, c.raw@)
}

/// The model of a row of cells.
pub open spec fn row_model(row: Seq<Cell>) -> Seq<CellModel> {
    Seq::new(row.len(), |j: int| cell_model(row[j]))
}

impl Table {
    /// The model of this table.
    pub open spec fn model(&self) -> TableModel {
        Seq::new(self.rows@.len(), |i: int| row_model(self.rows@[i]@))
    }
}

/// Size limit on spans and table dimensions. A page-sized table is far below
/// it; far above it the layout grid would not fit in memory.
pub open spec fn span_limit() -> int {
    0x400
}

/// Every span, the row count and every row length stay within `span_limit`.
pub open spec fn within_limits(m: TableModel) -> bool {
    &&& m.len() <= span_limit()
    &&& forall|i: int| 0 <= i < m.len() ==> #[trigger] m[i].len() <= span_limit()
    &&& forall|i: int, j: int|
        0 <= i < m.len() && 0 <= j < m[i].len() ==> {
            &&& (#[trigger] m[i][j]).0 <= span_limit()
            &&& m[i][j].1 <= span_limit()
        }
}

/// A claimed grid slot: `(row, col, origin_row, origin_cell)`.
pub type Slot = (usize, usize, usize, usize);

/// The origin of the first slot claimed at `(r, c)`, if any.
pub open spec fn lookup(occ: Seq<Slot>, r: int, c: int) -> Option<(usize, usize)>
    decreases occ.len(),
{
    if occ.len() == 0 {
        None
    } else {
        match lookup(occ.drop_last(), r, c) {
            Some(o) => Some(o),
            None => if occ.last().0 == r && occ.last().1 == c {
                Some((occ.last().2, occ.last().3))
            } else {
                None
            },
        }
    }
}

/// One past the largest column of any claimed slot.
pub open spec fn col_bound(occ: Seq<Slot>) -> int
    decreases occ.len(),
{
    if occ.len() == 0 {
        0
    } else {
        let b = col_bound(occ.drop_last());
        if occ.last().1 + 1 > b {
            occ.last().1 + 1
        } else {
            b
        }
    }
}

/// One past the largest column claimed in row `r` (0 for an empty row).
pub open spec fn row_extent(occ: Seq<Slot>, r: int) -> int
    decreases occ.len(),
{
    if occ.len() == 0 {
        0
    } else {
        let b = row_extent(occ.drop_last(), r);
        if occ.last().0 == r && occ.last().1 + 1 > b {
            occ.last().1 + 1
        } else {
            b
        }
    }
}

/// Claimed slots lie below `col_bound`.
pub proof fn lemma_lookup_bound(occ: Seq<Slot>, r: int, c: int)
    ensures
        lookup(occ, r, c) is Some ==> c < col_bound(occ),
        lookup(occ, r, c) is Some ==> c < row_extent(occ, r),
        row_extent(occ, r) <= col_bound(occ),
        0 <= row_extent(occ, r),
    decreases occ.len(),
{
    if occ.len() > 0 {
        lemma_lookup_bound(occ.drop_last(), r, c);
    }
}

/// Claim `(r, c)` for `o` unless it is already claimed.
pub open spec fn add_slot(occ: Seq<Slot>, r: int, c: int, o: (usize, usize)) -> Seq<Slot> {
    if lookup(occ, r, c) is Some {
        occ
    } else {
        occ.push((r as usize, c as usize, o.0, o.1))
    }
}

/// Claim columns `c .. c + n` of row `r`.
pub open spec fn fill_cols(occ: Seq<Slot>, r: int, c: int, n: nat, o: (usize, usize)) -> Seq<
    Slot,
>
    decreases n,
{
    if n == 0 {
        occ
    } else {
        add_slot(fill_cols(occ, r, c, (n - 1) as nat, o), r, c + n - 1, o)
    }
}

/// Claim the rectangle of rows `r .. r + m` and columns `c .. c + n`.
pub open spec fn fill_rect(occ: Seq<Slot>, r: int, m: nat, c: int, n: nat, o: (usize, usize)) -> Seq<
    Slot,
>
    decreases m,
{
    if m == 0 {
        occ
    } else {
        fill_cols(fill_rect(occ, r, (m - 1) as nat, c, n, o), r + m - 1, c, n, o)
    }
}

/// The first unclaimed column of row `r` at or after `c`.
pub open spec fn next_free(occ: Seq<Slot>, r: int, c: int) -> int
    decreases col_bound(occ) - c,
{
    if lookup(occ, r, c) is Some {
        proof {
            lemma_lookup_bound(occ, r, c);
        }
        next_free(occ, r, c + 1)
    } else {
        c
    }
}

/// Layout after placing the first `k` cells of row `r`, starting from `occ`
/// and a running maximum `m0`: `(slots, next column, running maximum)`.
pub open spec fn place_row(occ: Seq<Slot>, m0: int, r: int, row: Seq<CellModel>, k: nat) -> (
    Seq<Slot>,
    int,
    int,
)
    decreases k,
{
    if k == 0 {
        (occ, 0, m0)
    } else {
        let prev = place_row(occ, m0, r, row, (k - 1) as nat);
        let cell = row[k - 1];
        let start = next_free(prev.0, r, prev.1);
        let slots = fill_rect(prev.0, r, cell.1 as nat, start, cell.0 as nat, (r as usize, (k - 1) as usize));
        let next = start + cell.0;
        (slots, next, if next > prev.2 { next } else { prev.2 })
    }
}

/// Layout of the first `n` rows: `(slots, widest column reached)`.
pub open spec fn place_rows(rows: TableModel, n: nat) -> (Seq<Slot>, int)
    decreases n,
{
    if n == 0 {
        (seq![], 0)
    } else {
        let prev = place_rows(rows, (n - 1) as nat);
        let placed = place_row(prev.0, prev.1, n - 1, rows[n - 1], rows[n - 1].len());
        (placed.0, placed.2)
    }
}

/// The claimed slots of the whole table.
pub open spec fn occupancy(m: TableModel) -> Seq<Slot> {
    place_rows(m, m.len()).0
}

/// Total columns: the furthest column any cell reaches.
pub open spec fn total_columns_spec(m: TableModel) -> int {
    place_rows(m, m.len()).1
}

/// Every slot names an existing cell as its origin.
pub open spec fn origins_valid(occ: Seq<Slot>, m: TableModel) -> bool {
    forall|i: int|
        0 <= i < occ.len() ==> {
            &&& (#[trigger] occ[i]).2 < m.len()
            &&& occ[i].3 < m[occ[i].2 as int].len()
        }
}

proof fn lemma_lookup_valid(occ: Seq<Slot>, m: TableModel, r: int, c: int)
    requires
        origins_valid(occ, m),
    ensures
        lookup(occ, r, c) matches Some(o) ==> o.0 < m.len() && o.1 < m[o.0 as int].len(),
    decreases occ.len(),
{
    if occ.len() > 0 {
        assert(origins_valid(occ.drop_last(), m)) by {
            assert forall|i: int| 0 <= i < occ.drop_last().len() implies {
                &&& (#[trigger] occ.drop_last()[i]).2 < m.len()
                &&& occ.drop_last()[i].3 < m[occ.drop_last()[i].2 as int].len()
            } by {
                assert(occ.drop_last()[i] == occ[i]);
            }
        }
        lemma_lookup_valid(occ.drop_last(), m, r, c);
        assert(occ.last() == occ[occ.len() - 1]);
    }
}

proof fn lemma_next_free_range(occ: Seq<Slot>, r: int, c: int)
    ensures
        c <= next_free(occ, r, c),
        next_free(occ, r, c) <= c || next_free(occ, r, c) <= col_bound(occ),
        lookup(occ, r, next_free(occ, r, c)) is None,
    decreases col_bound(occ) - c,
{
    if lookup(occ, r, c) is Some {
        lemma_lookup_bound(occ, r, c);
        lemma_next_free_range(occ, r, c + 1);
    }
}

proof fn lemma_col_bound_nonneg(occ: Seq<Slot>)
    ensures
        col_bound(occ) >= 0,
    decreases occ.len(),
{
    if occ.len() > 0 {
        lemma_col_bound_nonneg(occ.drop_last());
    }
}

proof fn lemma_fill_cols(occ: Seq<Slot>, m: TableModel, r: int, c: int, n: nat, o: (usize, usize))
    requires
        0 <= r,
        0 <= c,
        r <= usize::MAX,
        c + n <= usize::MAX,
        o.0 < m.len(),
        o.1 < m[o.0 as int].len(),
        origins_valid(occ, m),
    ensures
        col_bound(fill_cols(occ, r, c, n, o)) <= if col_bound(occ) > c + n {
            col_bound(occ)
        } else {
            c + n
        },
        origins_valid(fill_cols(occ, r, c, n, o), m),
    decreases n,
{
    lemma_col_bound_nonneg(occ);
    if n > 0 {
        lemma_fill_cols(occ, m, r, c, (n - 1) as nat, o);
        let prev = fill_cols(occ, r, c, (n - 1) as nat, o);
        if lookup(prev, r, c + n - 1) is None {
            let next = prev.push((r as usize, (c + n - 1) as usize, o.0, o.1));
            assert(next.drop_last() =~= prev);
            assert forall|i: int| 0 <= i < next.len() implies {
                &&& (#[trigger] next[i]).2 < m.len()
                &&& next[i].3 < m[next[i].2 as int].len()
            } by {
                if i < prev.len() {
                    assert(next[i] == prev[i]);
                }
            }
        }
    }
}

proof fn lemma_fill_rect(occ: Seq<Slot>, m: TableModel, r: int, h: nat, c: int, n: nat, o: (usize, usize))
    requires
        0 <= r,
        0 <= c,
        r + h <= usize::MAX,
        c + n <= usize::MAX,
        o.0 < m.len(),
        o.1 < m[o.0 as int].len(),
        origins_valid(occ, m),
    ensures
        col_bound(fill_rect(occ, r, h, c, n, o)) <= if col_bound(occ) > c + n {
            col_bound(occ)
        } else {
            c + n
        },
        origins_valid(fill_rect(occ, r, h, c, n, o), m),
    decreases h,
{
    if h > 0 {
        lemma_fill_rect(occ, m, r, (h - 1) as nat, c, n, o);
        lemma_fill_cols(fill_rect(occ, r, (h - 1) as nat, c, n, o), m, r + h - 1, c, n, o);
    }
}

/// The origin of the first slot claimed at `(r, c)`.
fn lookup_slot(occ: &Vec<Slot>, r: usize, c: usize) -> (res: Option<(usize, usize)>)
    ensures
        res == lookup(occ@, r as int, c as int),
{
    let mut found: Option<(usize, usize)> = None;
    let mut i: usize = 0;
    while i < occ.len()
        invariant
            i <= occ.len(),
            found == lookup(occ@.take(i as int), r as int, c as int),
        decreases occ.len() - i,
    {
        assert(occ@.take(i + 1).drop_last() =~= occ@.take(i as int));
        assert(occ@.take(i + 1).last() == occ@[i as int]);
        if found.is_none() && occ[i].0 == r && occ[i].1 == c {
            found = Some((occ[i].2, occ[i].3));
        }
        i = i + 1;
    }
    assert(occ@.take(occ.len() as int) =~= occ@);
    found
}

/// Claims columns `c .. c + n` of row `r` for origin `o`.
fn claim_cols(occ: &mut Vec<Slot>, r: usize, c: usize, n: usize, o: (usize, usize))
    requires
        c + n <= usize::MAX,
    ensures
        final(occ)@ == fill_cols(old(occ)@, r as int, c as int, n as nat, o),
{
    let ghost start = occ@;
    let mut k: usize = 0;
    while k < n
        invariant
            k <= n,
            c + n <= usize::MAX,
            occ@ == fill_cols(start, r as int, c as int, k as nat, o),
        decreases n - k,
    {
        if lookup_slot(occ, r, c + k).is_none() {
            occ.push((r, c + k, o.0, o.1));
        }
        k = k + 1;
    }
}

/// Claims the rectangle of rows `r .. r + m`, columns `c .. c + n`.
fn claim_rect(occ: &mut Vec<Slot>, r: usize, m: usize, c: usize, n: usize, o: (usize, usize))
    requires
        r + m <= usize::MAX,
        c + n <= usize::MAX,
    ensures
        final(occ)@ == fill_rect(old(occ)@, r as int, m as nat, c as int, n as nat, o),
{
    let ghost start = occ@;
    let mut k: usize = 0;
    while k < m
        invariant
            k <= m,
            r + m <= usize::MAX,
            c + n <= usize::MAX,
            occ@ == fill_rect(start, r as int, k as nat, c as int, n as nat, o),
        decreases m - k,
    {
        claim_cols(occ, r + k, c, n, o);
        k = k + 1;
    }
}

/// The first free column of row `r` at or after `c`.
fn first_free(occ: &Vec<Slot>, r: usize, c: usize) -> (res: usize)
    requires
        col_bound(occ@) < usize::MAX,
    ensures
        res == next_free(occ@, r as int, c as int),
{
    let mut k = c;
    loop
        invariant
            c <= k,
            col_bound(occ@) < usize::MAX,
            next_free(occ@, r as int, c as int) == next_free(occ@, r as int, k as int),
        decreases col_bound(occ@) - k,
    {
        if lookup_slot(occ, r, k).is_none() {
            return k;
        }
        proof {
            lemma_lookup_bound(occ@, r as int, k as int);
        }
        k = k + 1;
    }
}


impl Table {
    /// Lays the cells out on the grid: the claimed slots, in claiming order,
    /// and the furthest column any cell reaches.
    fn layout(&self) -> (res: (Vec<Slot>, usize))
        requires
            within_limits(self.model()),
        ensures
            res.0@ == occupancy(self.model()),
            res.1 == total_columns_spec(self.model()),
            origins_valid(res.0@, self.model()),
            col_bound(res.0@) <= 0x4000_0000,
    {
        let mut occ: Vec<Slot> = Vec::new();
        let mut max_cols: usize = 0;
        let mut row_idx: usize = 0;
        while row_idx < self.rows.len()
            invariant
                within_limits(self.model()),
                row_idx <= self.rows.len(),
                (occ@, max_cols as int) == place_rows(self.model(), row_idx as nat),
                origins_valid(occ@, self.model()),
                col_bound(occ@) <= row_idx * 0x10_0000,
                max_cols <= row_idx * 0x10_0000,
            decreases self.rows.len() - row_idx,
        {
            let row = &self.rows[row_idx];
            let ghost occ0 = occ@;
            let ghost m0 = max_cols as int;
            let mut col_idx: usize = 0;
            let mut k: usize = 0;
            assert(self.model()[row_idx as int].len() <= span_limit());
            while k < row.len()
                invariant
                    within_limits(self.model()),
                    row_idx < self.rows.len(),
                    row@ == self.rows@[row_idx as int]@,
                    row@.len() <= span_limit(),
                    k <= row.len(),
                    (occ@, col_idx as int, max_cols as int) == place_row(
                        occ0,
                        m0,
                        row_idx as int,
                        row_model(row@),
                        k as nat,
                    ),
                    origins_valid(occ@, self.model()),
                    col_bound(occ@) <= row_idx * 0x10_0000 + k * 0x400,
                    col_idx <= row_idx * 0x10_0000 + k * 0x400,
                    max_cols <= row_idx * 0x10_0000 + k * 0x400,
                decreases row.len() - k,
            {
                let cell = &row[k];
                assert(self.model()[row_idx as int][k as int].0 <= span_limit());
                assert(self.model()[row_idx as int][k as int].1 <= span_limit());
                let start = first_free(&occ, row_idx, col_idx);
                proof {
                    lemma_next_free_range(occ@, row_idx as int, col_idx as int);
                    lemma_fill_rect(
                        occ@,
                        self.model(),
                        row_idx as int,
                        cell.rowspan as nat,
                        start as int,
                        cell.colspan as nat,
                        (row_idx, k),
                    );
                }
                claim_rect(&mut occ, row_idx, cell.rowspan, start, cell.colspan, (row_idx, k));
                col_idx = start + cell.colspan;
                if col_idx > max_cols {
                    max_cols = col_idx;
                }
                k = k + 1;
            }
            row_idx = row_idx + 1;
        }
        (occ, max_cols)
    }

    /// Whether the table has any rows.
    pub fn has_rows(&self) -> (r: bool)
        ensures
            r == (self.rows@.len() > 0),
    {
        self.rows.len() > 0
    }

    /// Total columns, accounting for colspan/rowspan occupancy.
    pub fn total_columns(&self) -> (r: usize)
        requires
            within_limits(self.model()),
        ensures
            r == total_columns_spec(self.model()),
    {
        if self.rows.len() == 0 {
            return 0;
        }
        self.layout().1
    }

    /// Occupancy of the grid: each claimed slot with the cell that claimed it.
    fn occupied_cells(&self) -> (r: Vec<Slot>)
        requires
            within_limits(self.model()),
        ensures
            r@ == occupancy(self.model()),
            origins_valid(r@, self.model()),
            col_bound(r@) <= 0x4000_0000,
    {
        self.layout().0
    }
}

/// The largest column claimed in row `r`, plus one (0 for an empty row).
fn extent_of_row(occ: &Vec<Slot>, r: usize) -> (res: usize)
    requires
        col_bound(occ@) <= usize::MAX,
    ensures
        res == row_extent(occ@, r as int),
{
    let mut best: usize = 0;
    let mut i: usize = 0;
    while i < occ.len()
        invariant
            i <= occ.len(),
            col_bound(occ@) <= usize::MAX,
            best == row_extent(occ@.take(i as int), r as int),
        decreases occ.len() - i,
    {
        assert(occ@.take(i + 1).drop_last() =~= occ@.take(i as int));
        assert(occ@.take(i + 1).last() == occ@[i as int]);
        proof {
            lemma_slot_below_bound(occ@, i as int);
        }
        if occ[i].0 == r && occ[i].1 + 1 > best {
            best = occ[i].1 + 1;
        }
        i = i + 1;
    }
    assert(occ@.take(occ.len() as int) =~= occ@);
    best
}

proof fn lemma_slot_below_bound(occ: Seq<Slot>, i: int)
    requires
        0 <= i < occ.len(),
    ensures
        occ[i].1 + 1 <= col_bound(occ),
    decreases occ.len(),
{
    if i < occ.len() - 1 {
        lemma_slot_below_bound(occ.drop_last(), i);
        assert(occ.drop_last()[i] == occ[i]);
    }
}


impl Table {
    /// Per-row effective column count: the highest claimed column of the row,
    /// plus one (0 when the row claims nothing).
    pub fn effective_cols_per_row(&self) -> (r: HashMap<usize, usize>)
        requires
            within_limits(self.model()),
        ensures
            r@.dom() =~= Set::new(|i: usize| i < self.rows@.len()),
            forall|i: usize| i < self.rows@.len() ==> r@[i] == row_extent(occupancy(self.model()), i as int),
    {
        let occ = self.occupied_cells();
        let mut out: HashMap<usize, usize> = HashMap::new();
        let mut row_idx: usize = 0;
        while row_idx < self.rows.len()
            invariant
                row_idx <= self.rows.len(),
                occ@ == occupancy(self.model()),
                col_bound(occ@) <= 0x4000_0000,
                out@.dom() =~= Set::new(|i: usize| i < row_idx),
                forall|i: usize| i < row_idx ==> out@[i] == row_extent(occ@, i as int),
            decreases self.rows.len() - row_idx,
        {
            let e = extent_of_row(&occ, row_idx);
            out.insert(row_idx, e);
            row_idx = row_idx + 1;
        }
        out
    }

    /// Effective columns of one row (0 for a row index past the table).
    pub fn row_effective_columns(&self, row_idx: usize) -> (r: usize)
        requires
            within_limits(self.model()),
        ensures
            r == if row_idx < self.rows@.len() {
                row_extent(occupancy(self.model()), row_idx as int)
            } else {
                0
            },
    {
        if row_idx >= self.rows.len() {
            return 0;
        }
        let occ = self.occupied_cells();
        extent_of_row(&occ, row_idx)
    }
}

/// Sum of the colspans of a row.
pub open spec fn colspan_sum(row: Seq<CellModel>) -> int
    decreases row.len(),
{
    if row.len() == 0 {
        0
    } else {
        colspan_sum(row.drop_last()) + row.last().0
    }
}

/// Sum of colspans in a row.
pub fn row_colspan_total(row: &[Cell]) -> (r: usize)
    requires
        colspan_sum(row_model(row@)) <= usize::MAX,
    ensures
        r == colspan_sum(row_model(row@)),
{
    let ghost rm = row_model(row@);
    let mut total: usize = 0;
    let mut i: usize = 0;
    while i < row.len()
        invariant
            i <= row.len(),
            rm == row_model(row@),
            colspan_sum(rm) <= usize::MAX,
            total == colspan_sum(rm.take(i as int)),
        decreases row.len() - i,
    {
        assert(rm.take(i + 1).drop_last() =~= rm.take(i as int));
        assert(rm.take(i + 1).last() == rm[i as int]);
        proof {
            lemma_colspan_sum_prefix(rm, i + 1);
        }
        total = total + row[i].colspan;
        i = i + 1;
    }
    assert(rm.take(row.len() as int) =~= rm);
    total
}

proof fn lemma_colspan_sum_prefix(row: Seq<CellModel>, n: int)
    requires
        0 <= n <= row.len(),
        forall|j: int| 0 <= j < row.len() ==> #[trigger] row[j].0 >= 0,
    ensures
        colspan_sum(row.take(n)) <= colspan_sum(row),
    decreases row.len(),
{
    if n < row.len() {
        lemma_colspan_sum_prefix(row.drop_last(), n);
        assert(row.drop_last().take(n) =~= row.take(n));
    } else {
        assert(row.take(n) =~= row);
    }
}

/// A row's colspan sum is at most `span_limit` per cell.
pub proof fn lemma_colspan_sum_bound(row: Seq<CellModel>)
    requires
        forall|j: int| 0 <= j < row.len() ==> 0 <= #[trigger] row[j].0 <= span_limit(),
    ensures
        0 <= colspan_sum(row) <= row.len() * span_limit(),
    decreases row.len(),
{
    if row.len() > 0 {
        lemma_colspan_sum_bound(row.drop_last());
    }
}

/// Raw cell count of a row.
pub fn row_visual_columns(row: &[Cell]) -> (r: usize)
    ensures
        r == row@.len(),
{
    row.len()
}

/// Two cells agree in spans and in their whitespace-free normalized text.
pub open spec fn cells_match(a: CellModel, b: CellModel) -> bool {
    &&& a.0 == b.0
    &&& a.1 == b.1
    &&& squeezed_spec(a.2) == squeezed_spec(b.2)
}

/// Two rows have the same cell count and pairwise matching cells.
pub open spec fn rows_match(a: Seq<CellModel>, b: Seq<CellModel>) -> bool {
    &&& a.len() == b.len()
    &&& forall|j: int| 0 <= j < a.len() ==> cells_match(#[trigger] a[j], b[j])
}

/// How many leading rows the header comparison looks at.
pub open spec fn header_window(m1: TableModel, m2: TableModel) -> int {
    let m = if m1.len() < m2.len() {
        m1.len()
    } else {
        m2.len()
    };
    if m < 5 {
        m as int
    } else {
        5
    }
}

fn row_matches(a: &Vec<Cell>, b: &Vec<Cell>) -> (r: bool)
    ensures
        r == rows_match(row_model(a@), row_model(b@)),
{
    if a.len() != b.len() {
        return false;
    }
    let mut j: usize = 0;
    while j < a.len()
        invariant
            j <= a.len(),
            a.len() == b.len(),
            forall|k: int| 0 <= k < j ==> cells_match(#[trigger] row_model(a@)[k], row_model(b@)[k]),
        decreases a.len() - j,
    {
        let x = &a[j];
        let y = &b[j];
        assert(row_model(a@)[j as int] == cell_model(a@[j as int]));
        assert(row_model(b@)[j as int] == cell_model(b@[j as int]));
        if x.colspan != y.colspan || x.rowspan != y.rowspan {
            return false;
        }
        let sx = collapse_ws(x.raw.as_str());
        let sy = collapse_ws(y.raw.as_str());
        if !chars_eq(&sx, &sy) {
            return false;
        }
        j = j + 1;
    }
    assert(row_model(a@).len() == row_model(b@).len());
    true
}

/// Leading matching rows from row `i` on, within the header window.
pub open spec fn headers_from(m1: TableModel, m2: TableModel, i: int) -> int
    decreases header_window(m1, m2) - i,
{
    if i < 0 || i >= header_window(m1, m2) {
        i
    } else if rows_match(m1[i], m2[i]) {
        headers_from(m1, m2, i + 1)
    } else {
        i
    }
}

/// The number of leading header rows two tables share.
pub open spec fn headers_spec(m1: TableModel, m2: TableModel) -> int {
    headers_from(m1, m2, 0)
}

/// Count of leading header rows shared by two tables: rows match when cell
/// counts and each cell's colspan, rowspan and normalized text agree. At most
/// five rows are compared, and counting stops at the first mismatch.
pub fn detect_table_headers(t1: &Table, t2: &Table) -> (r: usize)
    ensures
        r == headers_spec(t1.model(), t2.model()),
        r <= header_window(t1.model(), t2.model()),
        forall|i: int| 0 <= i < r ==> rows_match(#[trigger] t1.model()[i], t2.model()[i]),
        r < header_window(t1.model(), t2.model()) ==> !rows_match(t1.model()[r as int], t2.model()[r as int]),
{
    let mut min_rows = if t1.rows.len() < t2.rows.len() {
        t1.rows.len()
    } else {
        t2.rows.len()
    };
    if min_rows > 5 {
        min_rows = 5;
    }
    let mut header_rows: usize = 0;
    while header_rows < min_rows
        invariant
            min_rows == header_window(t1.model(), t2.model()),
            header_rows <= min_rows,
            min_rows <= t1.rows@.len(),
            min_rows <= t2.rows@.len(),
            headers_spec(t1.model(), t2.model()) == headers_from(t1.model(), t2.model(), header_rows as int),
            forall|i: int| 0 <= i < header_rows ==> rows_match(#[trigger] t1.model()[i], t2.model()[i]),
        decreases min_rows - header_rows,
    {
        let ok = row_matches(&t1.rows[header_rows], &t2.rows[header_rows]);
        assert(t1.model()[header_rows as int] == row_model(t1.rows@[header_rows as int]@));
        assert(t2.model()[header_rows as int] == row_model(t2.rows@[header_rows as int]@));
        if !ok {
            return header_rows;
        }
        header_rows = header_rows + 1;
    }
    header_rows
}

/// The span annotation put in front of a cell's text: `rowspan=R`,
/// `colspan=C` (comma-joined when both exceed 1), then `", "` and the text;
/// the bare text when neither span exceeds 1.
pub open spec fn span_label_spec(rowspan: int, colspan: int, text: Seq<char>) -> Seq<char> {
    let rpart = "rowspan="@ + chars::decimal_nat(rowspan as nat);
    let cpart = "colspan="@ + chars::decimal_nat(colspan as nat);
    if rowspan > 1 && colspan > 1 {
        rpart + ","@ + cpart + ", "@ + text
    } else if rowspan > 1 {
        rpart + ", "@ + text
    } else if colspan > 1 {
        cpart + ", "@ + text
    } else {
        text
    }
}

/// Formats the span-info string for a cell.
fn span_label(cell: &Cell, text: &Vec<char>) -> (r: Vec<char>)
    ensures
        r@ == span_label_spec(cell.rowspan as int, cell.colspan as int, text@),
{
    if cell.rowspan <= 1 && cell.colspan <= 1 {
        return text.clone();
    }
    let mut out: Vec<char> = Vec::new();
    if cell.rowspan > 1 {
        push_str(&mut out, "rowspan=");
        append_chars(&mut out, &u64_to_chars(cell.rowspan as u64));
    }
    if cell.colspan > 1 {
        if cell.rowspan > 1 {
            push_str(&mut out, ",");
        }
        push_str(&mut out, "colspan=");
        append_chars(&mut out, &u64_to_chars(cell.colspan as u64));
    }
    push_str(&mut out, ", ");
    append_chars(&mut out, text);
    proof {
        let rpart = "rowspan="@ + chars::decimal_nat(cell.rowspan as nat);
        let cpart = "colspan="@ + chars::decimal_nat(cell.colspan as nat);
        if cell.rowspan > 1 && cell.colspan > 1 {
            assert(out@ =~= rpart + ","@ + cpart + ", "@ + text@);
        } else if cell.rowspan > 1 {
            assert(out@ =~= rpart + ", "@ + text@);
        } else {
            assert(out@ =~= cpart + ", "@ + text@);
        }
    }
    out
}


/// Origins of the distinct cells claiming columns `0 .. n` of row `r`, in
/// column order, each listed at its first column.
pub open spec fn row_ids(occ: Seq<Slot>, r: int, n: nat) -> Seq<(usize, usize)>
    decreases n,
{
    if n == 0 {
        seq![]
    } else {
        let prev = row_ids(occ, r, (n - 1) as nat);
        match lookup(occ, r, n - 1) {
            Some(o) => if prev.contains(o) {
                prev
            } else {
                prev.push(o)
            },
            None => prev,
        }
    }
}

/// The cell an origin names.
pub open spec fn cell_at(m: TableModel, o: (usize, usize)) -> CellModel {
    m[o.0 as int][o.1 as int]
}

/// A cell's trimmed text, NFKC-normalized when `fold` is set.
pub open spec fn cell_text(c: CellModel, fold: bool) -> Seq<char> {
    if fold {
        nfkc_of(chars::trim_spec(c.2))
    } else {
        chars::trim_spec(c.2)
    }
}

/// The span-annotated text of the cell an origin names.
pub open spec fn cell_label(m: TableModel, o: (usize, usize), fold: bool) -> Seq<char> {
    let c = cell_at(m, o);
    span_label_spec(c.1, c.0, cell_text(c, fold))
}

/// Labels of the cells of visual row `r`, in column order.
pub open spec fn row_labels(m: TableModel, occ: Seq<Slot>, r: int, fold: bool) -> Seq<Seq<char>> {
    let ids = row_ids(occ, r, row_extent(occ, r) as nat);
    Seq::new(ids.len(), |i: int| cell_label(m, ids[i], fold))
}

/// Sum of the colspans of the cells an origin list names.
pub open spec fn ids_colspan(m: TableModel, ids: Seq<(usize, usize)>) -> int
    decreases ids.len(),
{
    if ids.len() == 0 {
        0
    } else {
        ids_colspan(m, ids.drop_last()) + cell_at(m, ids.last()).0
    }
}

/// Sum of the colspans of the cells of visual row `r`.
pub open spec fn row_span_total(m: TableModel, occ: Seq<Slot>, r: int) -> int {
    ids_colspan(m, row_ids(occ, r, row_extent(occ, r) as nat))
}

/// Visual row `r` is one cell spanning at least the whole table width.
pub open spec fn full_width_row(m: TableModel, occ: Seq<Slot>, r: int, fold: bool, total: int) -> bool {
    row_labels(m, occ, r, fold).len() == 1 && row_span_total(m, occ, r) >= total
}

proof fn lemma_row_ids_len(occ: Seq<Slot>, r: int, n: nat)
    ensures
        row_ids(occ, r, n).len() <= n,
    decreases n,
{
    if n > 0 {
        lemma_row_ids_len(occ, r, (n - 1) as nat);
    }
}

fn contains_id(ids: &Vec<(usize, usize)>, o: (usize, usize)) -> (r: bool)
    ensures
        r == ids@.contains(o),
{
    let mut i: usize = 0;
    while i < ids.len()
        invariant
            i <= ids.len(),
            forall|k: int| 0 <= k < i ==> ids@[k] != o,
        decreases ids.len() - i,
    {
        if ids[i].0 == o.0 && ids[i].1 == o.1 {
            assert(ids@[i as int] == o);
            return true;
        }
        i = i + 1;
    }
    false
}

/// The cell text used in labels.
fn label_text(cell: &Cell, fold: bool) -> (r: Vec<char>)
    ensures
        r@ == cell_text(cell_model(*cell), fold),
{
    let stripped = trim(&to_chars(cell.raw.as_str()));
    if fold {
        let s = from_chars(stripped.as_slice());
        to_chars(nfkc(s.as_str()).as_str())
    } else {
        stripped
    }
}

/// The labels of the distinct cells occupying visual row `row`, in column
/// order, and the sum of their colspans.
fn row_cells_in_order(table: &Table, occ: &Vec<Slot>, row: usize, fold: bool) -> (res: (
    Vec<String>,
    u64,
))
    requires
        within_limits(table.model()),
        origins_valid(occ@, table.model()),
        col_bound(occ@) <= 0x4000_0000,
    ensures
        res.0.deep_view() == row_labels(table.model(), occ@, row as int, fold),
        res.1 == row_span_total(table.model(), occ@, row as int),
{
    let ext = extent_of_row(occ, row);
    let mut seen: Vec<(usize, usize)> = Vec::new();
    let mut data: Vec<String> = Vec::new();
    let mut colspan_sum: u64 = 0;
    let mut c: usize = 0;
    proof {
        lemma_lookup_bound(occ@, row as int, 0);
    }
    while c < ext
        invariant
            within_limits(table.model()),
            origins_valid(occ@, table.model()),
            c <= ext,
            ext <= 0x4000_0000,
            seen@ == row_ids(occ@, row as int, c as nat),
            data.deep_view() =~= Seq::new(seen@.len(), |i: int| cell_label(table.model(), seen@[i], fold)),
            colspan_sum == ids_colspan(table.model(), seen@),
            colspan_sum <= seen@.len() * 0x400,
        decreases ext - c,
    {
        proof {
            lemma_row_ids_len(occ@, row as int, c as nat);
            lemma_lookup_valid(occ@, table.model(), row as int, c as int);
        }
        match lookup_slot(occ, row, c) {
            Some(o) => {
                if !contains_id(&seen, o) {
                    let cell = &table.rows[o.0][o.1];
                    assert(table.model()[o.0 as int][o.1 as int].0 <= span_limit());
                    let text = label_text(cell, fold);
                    let label = span_label(cell, &text);
                    let ghost before = seen@;
                    let ghost before_data = data.deep_view();
                    seen.push(o);
                    assert(seen@.drop_last() =~= before);
                    colspan_sum = colspan_sum + cell.colspan as u64;
                    let s = from_chars(label.as_slice());
                    data.push(s);
                    proof {
                        assert(data.deep_view() =~= before_data.push(s@));
                        assert(s@ == cell_label(table.model(), o, fold));
                        assert(data.deep_view() =~= Seq::new(
                            seen@.len(),
                            |i: int| cell_label(table.model(), seen@[i], fold),
                        ));
                    }
                }
            },
            None => {},
        }
        c = c + 1;
    }
    (data, colspan_sum)
}


/// Rows visited walking up from `curr` to `lower`: empty rows are skipped,
/// and the walk stops after the first row that is not one full-width cell.
pub open spec fn rows_upward(m: TableModel, occ: Seq<Slot>, total: int, curr: int, lower: int) -> Seq<
    Seq<Seq<char>>,
>
    decreases curr - lower + 1,
{
    if curr < lower {
        seq![]
    } else {
        let d = row_labels(m, occ, curr, false);
        if d.len() == 0 {
            rows_upward(m, occ, total, curr - 1, lower)
        } else if full_width_row(m, occ, curr, false, total) {
            seq![d] + rows_upward(m, occ, total, curr - 1, lower)
        } else {
            seq![d]
        }
    }
}

/// Rows visited walking down from `curr` to before `end` (normalized text),
/// with the same skipping and stopping rule.
pub open spec fn rows_downward(m: TableModel, occ: Seq<Slot>, total: int, curr: int, end: int) -> Seq<
    Seq<Seq<char>>,
>
    decreases end - curr,
{
    if curr >= end {
        seq![]
    } else {
        let d = row_labels(m, occ, curr, true);
        if d.len() == 0 {
            rows_downward(m, occ, total, curr + 1, end)
        } else if full_width_row(m, occ, curr, true, total) {
            seq![d] + rows_downward(m, occ, total, curr + 1, end)
        } else {
            seq![d]
        }
    }
}

/// The last visual rows of a table, top to bottom: at most five rows are
/// looked at, walking upward from the last while each row is one full-width cell.
pub open spec fn last_rows_spec(m: TableModel) -> Seq<Seq<Seq<char>>> {
    if m.len() == 0 {
        seq![]
    } else {
        let last = m.len() - 1;
        let lower = if last >= 4 {
            last - 4
        } else {
            0
        };
        rows_upward(m, occupancy(m), total_columns_spec(m), last, lower).reverse()
    }
}

/// The first data rows of a table after `header_rows` header rows (the last
/// row when the headers cover the table), walking down at most five rows
/// while each row is one full-width cell.
pub open spec fn first_rows_spec(m: TableModel, header_rows: int) -> Seq<Seq<Seq<char>>> {
    let len = m.len() as int;
    if len == 0 {
        seq![]
    } else {
        let start = if header_rows < len {
            header_rows
        } else {
            len - 1
        };
        let end = if start + 5 < len {
            start + 5
        } else {
            len
        };
        rows_downward(m, occupancy(m), total_columns_spec(m), start, end)
    }
}

/// Last visual rows of a table with span info.
pub fn last_row_span_info(table: &Table) -> (r: Vec<Vec<String>>)
    requires
        within_limits(table.model()),
    ensures
        r.deep_view() == last_rows_spec(table.model()),
{
    if table.rows.len() == 0 {
        return Vec::new();
    }
    let (occ, total) = table.layout();
    let last = table.rows.len() - 1;
    let lower = if last >= 4 {
        last - 4
    } else {
        0
    };
    let ghost whole = rows_upward(table.model(), occ@, total as int, last as int, lower as int);
    let mut acc: Vec<Vec<String>> = Vec::new();
    let mut curr = last + 1;
    let mut done = false;
    while curr > lower && !done
        invariant
            within_limits(table.model()),
            origins_valid(occ@, table.model()),
            col_bound(occ@) <= 0x4000_0000,
            lower <= curr <= last + 1,
            whole == rows_upward(table.model(), occ@, total as int, last as int, lower as int),
            done ==> acc.deep_view() == whole,
            !done ==> acc.deep_view() + rows_upward(table.model(), occ@, total as int, curr - 1, lower as int)
                == whole,
        decreases curr,
    {
        curr = curr - 1;
        let (data, colspan_sum) = row_cells_in_order(table, &occ, curr, false);
        let ghost before = acc.deep_view();
        let ghost rest = rows_upward(table.model(), occ@, total as int, curr - 1, lower as int);
        if data.len() > 0 {
            let full = data.len() == 1 && colspan_sum >= total as u64;
            acc.push(data);
            proof {
                assert(acc.deep_view() =~= before.push(data.deep_view()));
            }
            if !full {
                done = true;
                assert(acc.deep_view() =~= before + seq![data.deep_view()]);
            } else {
                assert(acc.deep_view() + rest =~= before + (seq![data.deep_view()] + rest));
            }
        }
    }
    if !done {
        assert(acc.deep_view() =~= whole);
    }
    let mut out: Vec<Vec<String>> = Vec::new();
    let ghost n = acc.len();
    while acc.len() > 0
        invariant
            n == whole.len(),
            acc.len() <= n,
            acc.deep_view() == whole.subrange(0, acc.len() as int),
            out.deep_view() =~= whole.subrange(acc.len() as int, n as int).reverse(),
        decreases acc.len(),
    {
        let ghost before = out.deep_view();
        let ghost k = acc.len() - 1;
        let ghost old_acc = acc@;
        let ghost old_deep = acc.deep_view();
        assert(old_deep[k] == old_acc[k].deep_view());
        let item = acc.pop().unwrap();
        proof {
            assert(item.deep_view() == whole[k]);
            assert(acc.deep_view() =~= old_deep.subrange(0, k));
        }
        out.push(item);
        proof {
            assert(acc.deep_view() =~= whole.subrange(0, k));
            assert(out.deep_view() =~= before.push(whole[k]));
        }
    }
    out
}


/// First data rows of a table (after `header_rows`) with span info, on
/// NFKC-normalized cell text.
pub fn first_data_row_span_info(table: &Table, header_rows: usize) -> (r: Vec<Vec<String>>)
    requires
        within_limits(table.model()),
    ensures
        r.deep_view() == first_rows_spec(table.model(), header_rows as int),
{
    if table.rows.len() == 0 {
        return Vec::new();
    }
    let (occ, total) = table.layout();
    let len = table.rows.len();
    let start = if header_rows < len {
        header_rows
    } else {
        len - 1
    };
    let end = if start + 5 < len {
        start + 5
    } else {
        len
    };
    let ghost whole = rows_downward(table.model(), occ@, total as int, start as int, end as int);
    let mut acc: Vec<Vec<String>> = Vec::new();
    let mut curr = start;
    let mut done = false;
    while curr < end && !done
        invariant
            within_limits(table.model()),
            origins_valid(occ@, table.model()),
            col_bound(occ@) <= 0x4000_0000,
            start <= curr <= end,
            whole == rows_downward(table.model(), occ@, total as int, start as int, end as int),
            done ==> acc.deep_view() == whole,
            !done ==> acc.deep_view() + rows_downward(table.model(), occ@, total as int, curr as int, end as int)
                == whole,
        decreases end - curr,
    {
        let (data, colspan_sum) = row_cells_in_order(table, &occ, curr, true);
        let ghost before = acc.deep_view();
        let ghost rest = rows_downward(table.model(), occ@, total as int, curr + 1, end as int);
        if data.len() > 0 {
            let full = data.len() == 1 && colspan_sum >= total as u64;
            acc.push(data);
            proof {
                assert(acc.deep_view() =~= before.push(data.deep_view()));
            }
            if !full {
                done = true;
                assert(acc.deep_view() =~= before + seq![data.deep_view()]);
            } else {
                assert(acc.deep_view() + rest =~= before + (seq![data.deep_view()] + rest));
            }
        }
        curr = curr + 1;
    }
    if !done {
        assert(acc.deep_view() =~= whole);
    }
    acc
}

/// The span a `colspan`/`rowspan` attribute gives: its trimmed value parsed
/// as an unsigned integer, 1 when the attribute is absent or does not parse.
pub open spec fn span_value(attr: Option<Seq<char>>) -> int {
    match attr {
        None => 1,
        Some(s) => match chars::parse_usize_spec(chars::trim_spec(s)) {
            Some(n) => n as int,
            None => 1,
        },
    }
}

/// Parses a `colspan`/`rowspan` attribute value.
fn parse_span(attr: Option<&str>) -> (r: usize)
    ensures
        r == span_value(match attr {
            Some(s) => Some(s@),
            None => None,
        }),
{
    match attr {
        None => 1,
        Some(s) => match parse_usize(&trim(&to_chars(s))) {
            Some(n) => n,
            None => 1,
        },
    }
}

/// The raw cells an HTML fragment holds, as scraper reads them: for each
/// `tr` element in document order, for each `td`/`th` element below it, the
/// `colspan` attribute, the `rowspan` attribute and the concatenated text.
pub uninterp spec fn html_cells_of(html: Seq<char>) -> Seq<Seq<(Option<Seq<char>>, Option<Seq<char>>, Seq<char>)>>;

/// Raw cells of an HTML fragment, through `scraper::Html::parse_fragment`
/// and the selectors `tr` and `td, th`. The result is the named value
/// `html_cells_of(html)`; HTML parsing itself is not restated.
#[verifier::external_body]
fn html_cells(html: &str) -> (r: Vec<Vec<(Option<String>, Option<String>, String)>>)
    ensures
        r.deep_view() == html_cells_of(html@),
{
    let doc = scraper::Html::parse_fragment(html);
    let (Ok(tr_sel), Ok(cell_sel)) = (scraper::Selector::parse("tr"), scraper::Selector::parse("td, th")) else {
        return Vec::new();
    };
    doc.select(&tr_sel).map(|tr| tr.select(&cell_sel).map(|c| (
        c.value().attr("colspan").map(String::from),
        c.value().attr("rowspan").map(String::from),
        c.text().collect::<String>(),
    )).collect()).collect()
}

/// The table model of raw cells: spans parsed, text kept.
pub open spec fn cells_model(cells: Seq<Seq<(Option<Seq<char>>, Option<Seq<char>>, Seq<char>)>>) -> TableModel {
    Seq::new(
        cells.len(),
        |i: int| Seq::new(
            cells[i].len(),
            |j: int| (span_value(cells[i][j].0), span_value(cells[i][j].1), cells[i][j].2),
        ),
    )
}

fn span_of(attr: &Option<String>) -> (r: usize)
    ensures
        r == span_value(match attr {
            Some(s) => Some(s@),
            None => None,
        }),
{
    match attr {
        Some(s) => parse_span(Some(s.as_str())),
        None => parse_span(None),
    }
}

/// Builds a table from raw cells: spans parsed, text kept as is.
pub fn table_from_cells(cells: Vec<Vec<(Option<String>, Option<String>, String)>>) -> (t: Table)
    ensures
        t.model() == cells_model(cells.deep_view()),
{
    let mut rows: Vec<Vec<Cell>> = Vec::new();
    let mut i: usize = 0;
    while i < cells.len()
        invariant
            i <= cells.len(),
            rows@.len() == i,
            forall|a: int| 0 <= a < i ==> #[trigger] rows@[a]@.len() == cells.deep_view()[a].len(),
            forall|a: int, b: int|
                0 <= a < i && 0 <= b < cells.deep_view()[a].len() ==> {
                    &&& (#[trigger] rows@[a]@[b]).colspan == span_value(cells.deep_view()[a][b].0)
                    &&& rows@[a]@[b].rowspan == span_value(cells.deep_view()[a][b].1)
                    &&& rows@[a]@[b].raw@ == cells.deep_view()[a][b].2
                },
        decreases cells.len() - i,
    {
        let src = &cells[i];
        assert(cells.deep_view()[i as int] == src.deep_view());
        let mut row: Vec<Cell> = Vec::new();
        let mut j: usize = 0;
        while j < src.len()
            invariant
                j <= src.len(),
                row@.len() == j,
                forall|b: int|
                    0 <= b < j ==> {
                        &&& (#[trigger] row@[b]).colspan == span_value(src.deep_view()[b].0)
                        &&& row@[b].rowspan == span_value(src.deep_view()[b].1)
                        &&& row@[b].raw@ == src.deep_view()[b].2
                    },
            decreases src.len() - j,
        {
            let c = &src[j];
            assert(src.deep_view()[j as int] == c.deep_view());
            let colspan = span_of(&c.0);
            let rowspan = span_of(&c.1);
            let raw = c.2.clone();
            row.push(Cell { colspan, rowspan, raw });
            j = j + 1;
        }
        rows.push(row);
        i = i + 1;
    }
    let t = Table { rows };
    assert(t.model() =~~= cells_model(cells.deep_view()));
    t
}

/// Parses a table from an HTML fragment. Non-table input yields no rows.
pub fn parse_table(html: &str) -> (t: Table)
    ensures
        t.model() == cells_model(html_cells_of(html@)),
{
    table_from_cells(html_cells(html))
}


/// The rows of an HTML table, as substrings from each `<tr` to the
/// `</tr>` that closes it, scanning from position `k`.
pub open spec fn rows_from(s: Seq<char>, k: int) -> Seq<Seq<char>>
    decreases s.len() - k,
{
    match chars::find_from(s, "<tr"@, k) {
        None => seq![],
        Some(a) => match chars::find_from(s, "</tr>"@, a) {
            None => seq![],
            Some(b) => {
                proof {
                    chars::lemma_find_from_range(s, "<tr"@, k);
                    chars::lemma_find_from_range(s, "</tr>"@, a);
                    reveal_strlit("</tr>");
                }
                seq![s.subrange(a, b + 5)] + rows_from(s, b + 5)
            },
        },
    }
}

/// Last position where `p` occurs in `s` before position `k`.
pub open spec fn rfind_before(s: Seq<char>, p: Seq<char>, k: int) -> Option<int>
    decreases k,
{
    if k <= 0 {
        None
    } else if chars::occurs_at(s, p, k - 1) {
        Some(k - 1)
    } else {
        rfind_before(s, p, k - 1)
    }
}

/// A header row repeated at the top of the continuation: it holds a `<th`
/// cell and equals the row at the same position of the first part.
pub open spec fn repeated_header(prev: Seq<Seq<char>>, cur: Seq<Seq<char>>, i: int) -> bool {
    &&& i < prev.len()
    &&& i < cur.len()
    &&& cur[i] == prev[i]
    &&& chars::find_sub(cur[i], "<th"@) is Some
}

/// How many leading rows of the continuation repeat the first part's header.
pub open spec fn header_skip(prev: Seq<Seq<char>>, cur: Seq<Seq<char>>, i: int) -> int
    decreases cur.len() - i,
{
    if 0 <= i && repeated_header(prev, cur, i) {
        header_skip(prev, cur, i + 1)
    } else {
        i
    }
}

/// The first part with the continuation's rows (its repeated header rows
/// left out) inserted before the first part's last `</table>`, or appended
/// when it has none.
pub open spec fn merge_html_spec(prev: Seq<char>, cur: Seq<char>) -> Seq<char> {
    let prows = rows_from(prev, 0);
    let crows = rows_from(cur, 0);
    let added = chars::concat_spec(crows.skip(header_skip(prows, crows, 0)));
    match rfind_before(prev, "</table>"@, prev.len() as int) {
        Some(pos) => prev.take(pos) + added + prev.skip(pos),
        None => prev + added,
    }
}

proof fn lemma_header_skip_range(prev: Seq<Seq<char>>, cur: Seq<Seq<char>>, i: int)
    requires
        0 <= i <= cur.len(),
    ensures
        i <= header_skip(prev, cur, i) <= cur.len(),
    decreases cur.len() - i,
{
    if repeated_header(prev, cur, i) {
        lemma_header_skip_range(prev, cur, i + 1);
    }
}

/// The rows of an HTML table.
fn table_rows(s: &Vec<char>) -> (r: Vec<Vec<char>>)
    ensures
        r.deep_view() == rows_from(s@, 0),
{
    let open = to_chars("<tr");
    let close = to_chars("</tr>");
    proof {
        reveal_strlit("<tr");
        reveal_strlit("</tr>");
    }
    let mut out: Vec<Vec<char>> = Vec::new();
    let mut k: usize = 0;
    loop
        invariant
            k <= s@.len(),
            open@ == "<tr"@,
            close@ == "</tr>"@,
            close@.len() == 5,
            out.deep_view() + rows_from(s@, k as int) == rows_from(s@, 0),
        decreases s@.len() - k,
    {
        let a = match find_sub_from(s, &open, k) {
            None => {
                assert(out.deep_view() =~= rows_from(s@, 0));
                return out;
            },
            Some(a) => a,
        };
        let b = match find_sub_from(s, &close, a) {
            None => {
                assert(out.deep_view() =~= rows_from(s@, 0));
                return out;
            },
            Some(b) => b,
        };
        assert(chars::occurs_at(s@, close@, b as int));
        let n = s.len();
        assert(b + 5 <= n);
        let row = chars::slice_chars(s, a, b + 5);
        let ghost before = out.deep_view();
        assert(row.deep_view() =~= row@);
        out.push(row);
        proof {
            assert(out.deep_view() =~= before.push(s@.subrange(a as int, b + 5)));
            assert(rows_from(s@, k as int) == seq![s@.subrange(a as int, b + 5)] + rows_from(
                s@,
                b + 5,
            ));
            assert(out.deep_view() + rows_from(s@, b + 5) =~= before + rows_from(s@, k as int));
        }
        k = b + 5;
    }
}

fn has_th(row: &Vec<char>) -> (r: bool)
    ensures
        r == (chars::find_sub(row@, "<th"@) is Some),
{
    let th = to_chars("<th");
    find_sub_from(row, &th, 0).is_some()
}

/// Merges the continuation `cur` of a table split across pages into its
/// first part `prev`: the continuation's rows, without the header rows it
/// repeats, are appended to the first part's rows.
pub fn merge_html(prev: &str, cur: &str) -> (r: String)
    ensures
        r@ == merge_html_spec(prev@, cur@),
{
    let p = to_chars(prev);
    let c = to_chars(cur);
    let prows = table_rows(&p);
    let crows = table_rows(&c);
    let mut skip: usize = 0;
    while skip < prows.len() && skip < crows.len() && chars_eq(&prows[skip], &crows[skip]) && has_th(
        &crows[skip],
    )
        invariant
            skip <= crows@.len(),
            header_skip(prows.deep_view(), crows.deep_view(), skip as int) == header_skip(
                prows.deep_view(),
                crows.deep_view(),
                0,
            ),
        decreases crows@.len() - skip,
    {
        assert(prows.deep_view()[skip as int] == prows@[skip as int]@);
        assert(crows.deep_view()[skip as int] == crows@[skip as int]@);
        skip = skip + 1;
    }
    proof {
        if skip < prows.len() && skip < crows.len() {
            assert(prows.deep_view()[skip as int] == prows@[skip as int]@);
            assert(crows.deep_view()[skip as int] == crows@[skip as int]@);
        }
        assert(!repeated_header(prows.deep_view(), crows.deep_view(), skip as int));
    }
    let mut added: Vec<char> = Vec::new();
    let mut i: usize = skip;
    while i < crows.len()
        invariant
            skip <= i <= crows@.len(),
            added@ == chars::concat_spec(crows.deep_view().subrange(skip as int, i as int)),
        decreases crows@.len() - i,
    {
        let ghost before = crows.deep_view().subrange(skip as int, i as int);
        append_chars(&mut added, &crows[i]);
        proof {
            let now = crows.deep_view().subrange(skip as int, i + 1);
            assert(now.drop_last() =~= before);
            assert(now.last() == crows@[i as int]@);
            if i == skip {
                assert(before.len() == 0);
                assert(added@ =~= now[0]);
            } else {
                assert(added@ =~= chars::join_spec(now.drop_last(), seq![]) + seq![] + now.last());
            }
        }
        i = i + 1;
    }
    assert(crows.deep_view().subrange(skip as int, crows@.len() as int) =~= crows.deep_view().skip(
        skip as int,
    ));
    let end = to_chars("</table>");
    let mut pos: usize = p.len();
    let mut found = false;
    while pos > 0 && !found
        invariant
            pos <= p@.len(),
            end@ == "</table>"@,
            found ==> pos < p@.len() && chars::occurs_at(p@, end@, pos as int)
                && rfind_before(p@, end@, p@.len() as int) == Some(pos as int),
            !found ==> rfind_before(p@, end@, p@.len() as int) == rfind_before(p@, end@, pos as int),
        decreases pos + (if found { 0int } else { 1int }),
    {
        if chars::occurs_at_exec(&p, &end, pos - 1) {
            pos = pos - 1;
            found = true;
        } else {
            pos = pos - 1;
        }
    }
    let mut out: Vec<char> = Vec::new();
    if found {
        let head = chars::slice_chars(&p, 0, pos);
        let tail = chars::slice_chars(&p, pos, p.len());
        append_chars(&mut out, &head);
        append_chars(&mut out, &added);
        append_chars(&mut out, &tail);
        assert(head@ =~= p@.take(pos as int));
        assert(tail@ =~= p@.skip(pos as int));
    } else {
        append_chars(&mut out, &p);
        append_chars(&mut out, &added);
    }
    from_chars(out.as_slice())
}

} // verus!
