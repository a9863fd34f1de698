//! Title-hierarchy evaluation: the tree edit distance between two title
//! trees, each given as `(label, level)` nodes in reading order under a
//! synthetic `ROOT`.
//!
//! A node list is read as a tree in preorder: each node's subtree is the run
//! of following nodes with a greater level, up to the first node whose level
//! is not greater. Position `0` is the root; position `p >= 1` is node
//! `p - 1` of the list.

use vstd::prelude::*;
use crate::chars::{to_chars, from_chars, chars_eq, trim, trim_spec, lower_of, to_lower, parse_i64, parse_i64_spec};
use crate::errors::{normalize_text, normalize_text_spec};
use crate::pattern::{regex_remove_all, regex_removed_of, regex_groups2, regex_groups2_of};

verus! {

/// The label of position `p`.
pub open spec fn lab(ns: Seq<(Seq<char>, i64)>, p: int) -> Seq<char> {
    if p <= 0 { "ROOT"@ } else { ns[p - 1].0 }
}

/// The first position at or after `q` whose level is not greater than
/// `lvl` (or one past the last node).
pub open spec fn level_end(ns: Seq<(Seq<char>, i64)>, q: int, lvl: i64) -> int
    decreases ns.len() + 1 - q,
{
    if q < 1 || q > ns.len() {
        q
    } else if ns[q - 1].1 <= lvl {
        q
    } else {
        level_end(ns, q + 1, lvl)
    }
}

/// One past the last position of the subtree at `p`.
pub open spec fn sub_end(ns: Seq<(Seq<char>, i64)>, p: int) -> int {
    if p <= 0 { ns.len() + 1int } else { level_end(ns, p + 1, ns[p - 1].1) }
}

pub proof fn lemma_level_end(ns: Seq<(Seq<char>, i64)>, q: int, lvl: i64)
    requires
        1 <= q,
    ensures
        q <= level_end(ns, q, lvl),
        q <= ns.len() + 1 ==> level_end(ns, q, lvl) <= ns.len() + 1,
        forall|k: int| q <= k < level_end(ns, q, lvl) ==> (#[trigger] ns[k - 1]).1 > lvl,
        level_end(ns, q, lvl) <= ns.len() ==> ns[level_end(ns, q, lvl) - 1].1 <= lvl,
    decreases ns.len() + 1 - q,
{
    if q <= ns.len() && ns[q - 1].1 > lvl {
        lemma_level_end(ns, q + 1, lvl);
    }
}

proof fn lemma_level_end_skip(ns: Seq<(Seq<char>, i64)>, a: int, b: int, lvl: i64)
    requires
        1 <= a <= b <= ns.len() + 1,
        forall|k: int| a <= k < b ==> (#[trigger] ns[k - 1]).1 > lvl,
    ensures
        level_end(ns, a, lvl) == level_end(ns, b, lvl),
    decreases b - a,
{
    if a < b {
        lemma_level_end_skip(ns, a + 1, b, lvl);
    }
}

proof fn lemma_level_end_mono(ns: Seq<(Seq<char>, i64)>, q: int, l1: i64, l2: i64)
    requires
        1 <= q,
        l2 <= l1,
    ensures
        level_end(ns, q, l1) <= level_end(ns, q, l2),
    decreases ns.len() + 1 - q,
{
    lemma_level_end(ns, q, l2);
    if q <= ns.len() && ns[q - 1].1 > l1 {
        lemma_level_end_mono(ns, q + 1, l1, l2);
    }
}

pub proof fn lemma_sub_end(ns: Seq<(Seq<char>, i64)>, p: int)
    requires
        0 <= p <= ns.len(),
    ensures
        p + 1 <= sub_end(ns, p) <= ns.len() + 1,
{
    if p >= 1 {
        lemma_level_end(ns, p + 1, ns[p - 1].1);
    }
}

/// A subtree nested in another ends no later than it.
proof fn lemma_sub_end_nested(ns: Seq<(Seq<char>, i64)>, x: int, a: int)
    requires
        0 <= x <= a < sub_end(ns, x),
        x <= ns.len(),
    ensures
        sub_end(ns, a) <= sub_end(ns, x),
        a <= ns.len(),
{
    lemma_sub_end(ns, x);
    if x == 0 {
        lemma_sub_end(ns, a);
    } else if a > x {
        let lx = ns[x - 1].1;
        lemma_level_end(ns, x + 1, lx);
        assert(ns[a - 1].1 > lx);
        let la = ns[a - 1].1;
        lemma_level_end_mono(ns, a + 1, la, lx);
        lemma_level_end_skip(ns, x + 1, a + 1, lx);
    }
}

/// The cost of turning one label into another.
pub open spec fn rename_cost(a: Seq<char>, b: Seq<char>) -> int {
    if a == b { 0 } else { 1 }
}

/// The smallest of three values.
pub open spec fn min3(a: int, b: int, c: int) -> int {
    if a <= b && a <= c { a } else if b <= c { b } else { c }
}

/// The edit distance between the forests of positions `[i1, j1)` of `t1`
/// and `[i2, j2)` of `t2`, with unit insert and delete costs and a rename
/// cost of 1 between different labels: decomposing at the leftmost roots,
/// either that root is deleted, or inserted, or the two leftmost trees are
/// matched with each other and the rest of the forests with each other.
pub open spec fn fdist(
    t1: Seq<(Seq<char>, i64)>,
    t2: Seq<(Seq<char>, i64)>,
    i1: int,
    j1: int,
    i2: int,
    j2: int,
) -> int
    decreases (if j1 > i1 { j1 - i1 } else { 0 }) + (if j2 > i2 { j2 - i2 } else { 0 }),
{
    if i1 >= j1 && i2 >= j2 {
        0
    } else if i2 >= j2 {
        fdist(t1, t2, i1 + 1, j1, i2, j2) + 1
    } else if i1 >= j1 {
        fdist(t1, t2, i1, j1, i2 + 1, j2) + 1
    } else {
        let s1 = if sub_end(t1, i1) < j1 && sub_end(t1, i1) > i1 { sub_end(t1, i1) } else { j1 };
        let s2 = if sub_end(t2, i2) < j2 && sub_end(t2, i2) > i2 { sub_end(t2, i2) } else { j2 };
        let del = fdist(t1, t2, i1 + 1, j1, i2, j2) + 1;
        let ins = fdist(t1, t2, i1, j1, i2 + 1, j2) + 1;
        if s1 == j1 && s2 == j2 {
            min3(del, ins, fdist(t1, t2, i1 + 1, j1, i2 + 1, j2) + rename_cost(lab(t1, i1), lab(t2, i2)))
        } else {
            min3(del, ins, fdist(t1, t2, s1, j1, s2, j2) + fdist(t1, t2, i1, s1, i2, s2))
        }
    }
}

/// The tree edit distance between two title trees.
pub open spec fn ted_spec(t1: Seq<(Seq<char>, i64)>, t2: Seq<(Seq<char>, i64)>) -> int {
    fdist(t1, t2, 0, t1.len() + 1int, 0, t2.len() + 1int)
}

proof fn lemma_fdist_bound(t1: Seq<(Seq<char>, i64)>, t2: Seq<(Seq<char>, i64)>, i1: int, j1: int, i2: int, j2: int)
    ensures
        0 <= fdist(t1, t2, i1, j1, i2, j2) <= (if j1 > i1 { j1 - i1 } else { 0 }) + (if j2 > i2 { j2 - i2 } else { 0 }),
    decreases (if j1 > i1 { j1 - i1 } else { 0 }) + (if j2 > i2 { j2 - i2 } else { 0 }),
{
    if i1 >= j1 && i2 >= j2 {
    } else if i2 >= j2 {
        lemma_fdist_bound(t1, t2, i1 + 1, j1, i2, j2);
    } else if i1 >= j1 {
        lemma_fdist_bound(t1, t2, i1, j1, i2 + 1, j2);
    } else {
        let s1 = if sub_end(t1, i1) < j1 && sub_end(t1, i1) > i1 { sub_end(t1, i1) } else { j1 };
        let s2 = if sub_end(t2, i2) < j2 && sub_end(t2, i2) > i2 { sub_end(t2, i2) } else { j2 };
        lemma_fdist_bound(t1, t2, i1 + 1, j1, i2, j2);
        lemma_fdist_bound(t1, t2, i1, j1, i2 + 1, j2);
        if s1 == j1 && s2 == j2 {
            lemma_fdist_bound(t1, t2, i1 + 1, j1, i2 + 1, j2);
        } else {
            lemma_fdist_bound(t1, t2, s1, j1, s2, j2);
            lemma_fdist_bound(t1, t2, i1, s1, i2, s2);
        }
    }
}

/// The abstract value of a node list.
pub open spec fn nodes_view(ns: Seq<(String, i64)>) -> Seq<(Seq<char>, i64)> {
    ns.map_values(|n: (String, i64)| (n.0@, n.1))
}

/// The number of nodes of a title tree, the synthetic root excluded.
pub fn count_nodes_excluding_root(nodes: &Vec<(String, i64)>) -> (r: usize)
    ensures
        r == nodes@.len(),
{
    nodes.len()
}


/// The labels and subtree ends of every position of a title tree.
fn tree_positions(nodes: &Vec<(String, i64)>) -> (r: (Vec<Vec<char>>, Vec<usize>))
    requires
        nodes@.len() < usize::MAX,
    ensures
        r.0@.len() == nodes@.len() + 1,
        r.1@.len() == nodes@.len() + 1,
        forall|p: int| 0 <= p <= nodes@.len() ==> (#[trigger] r.0@[p])@ == lab(nodes_view(nodes@), p),
        forall|p: int| 0 <= p <= nodes@.len() ==> #[trigger] r.1@[p] == sub_end(nodes_view(nodes@), p),
{
    let ghost t = nodes_view(nodes@);
    let n = nodes.len();
    let mut labels: Vec<Vec<char>> = Vec::new();
    let mut ends: Vec<usize> = Vec::new();
    labels.push(to_chars("ROOT"));
    ends.push(n + 1);
    let mut p: usize = 1;
    while p <= n
        invariant
            1 <= p <= n + 1,
            n == nodes@.len(),
            n < usize::MAX,
            t == nodes_view(nodes@),
            labels@.len() == p,
            ends@.len() == p,
            forall|k: int| 0 <= k < p ==> (#[trigger] labels@[k])@ == lab(t, k),
            forall|k: int| 0 <= k < p ==> #[trigger] ends@[k] == sub_end(t, k),
        decreases n + 1 - p,
    {
        let lvl = nodes[p - 1].1;
        assert(t[p - 1].1 == lvl);
        let mut q: usize = p + 1;
        while q <= n && nodes[q - 1].1 > lvl
            invariant
                p + 1 <= q <= n + 1,
                n == nodes@.len(),
                t == nodes_view(nodes@),
                lvl == t[p - 1].1,
                n < usize::MAX,
                level_end(t, p + 1, lvl) == level_end(t, q as int, lvl),
            decreases n + 1 - q,
        {
            assert(t[q - 1].1 == nodes@[q - 1].1);
            q = q + 1;
        }
        proof {
            if q <= n {
                assert(t[q - 1].1 == nodes@[q - 1].1);
            }
        }
        labels.push(to_chars(nodes[p - 1].0.as_str()));
        ends.push(q);
        p = p + 1;
    }
    (labels, ends)
}

/// What the pair computation may read: tree distances of the subtree pairs
/// already done (rows for later first positions, and the current row for
/// later second positions).
pub open spec fn done_pairs(
    t1: Seq<(Seq<char>, i64)>,
    t2: Seq<(Seq<char>, i64)>,
    tdr: Seq<Vec<usize>>,
    cur: Seq<usize>,
    x: int,
    y: int,
) -> bool {
    let n1 = t1.len() as int;
    let n2 = t2.len() as int;
    &&& tdr.len() == n1 - x
    &&& cur.len() == n2 - y
    &&& forall|r: int| 0 <= r < tdr.len() ==> (#[trigger] tdr[r])@.len() == n2 + 1
    &&& forall|r: int, c: int|
        #![trigger tdr[r]@[c]]
        0 <= r < tdr.len() && 0 <= c <= n2 ==> tdr[r]@[c] == fdist(
            t1,
            t2,
            n1 - r,
            sub_end(t1, n1 - r),
            n2 - c,
            sub_end(t2, n2 - c),
        )
    &&& forall|c: int|
        0 <= c < cur.len() ==> #[trigger] cur[c] == fdist(
            t1,
            t2,
            x,
            sub_end(t1, x),
            n2 - c,
            sub_end(t2, n2 - c),
        )
}

/// Positions agree with the tree.
pub open spec fn positions_ok(t: Seq<(Seq<char>, i64)>, labels: Seq<Vec<char>>, ends: Seq<usize>) -> bool {
    &&& labels.len() == t.len() + 1
    &&& ends.len() == t.len() + 1
    &&& forall|p: int| 0 <= p <= t.len() ==> (#[trigger] labels[p])@ == lab(t, p)
    &&& forall|p: int| 0 <= p <= t.len() ==> #[trigger] ends[p] == sub_end(t, p)
}

fn min3_exec(a: usize, b: usize, c: usize) -> (r: usize)
    ensures
        r == min3(a as int, b as int, c as int),
{
    if a <= b && a <= c { a } else if b <= c { b } else { c }
}

/// The distance between the subtrees at `x` and `y`, from the distances of
/// the subtree pairs nested in them.
#[verifier::spinoff_prover]
#[verifier::rlimit(60)]
fn pair_distance(
    x: usize,
    y: usize,
    la: &Vec<Vec<char>>,
    ea: &Vec<usize>,
    lb: &Vec<Vec<char>>,
    eb: &Vec<usize>,
    tdr: &Vec<Vec<usize>>,
    cur: &Vec<usize>,
    Ghost(t1): Ghost<Seq<(Seq<char>, i64)>>,
    Ghost(t2): Ghost<Seq<(Seq<char>, i64)>>,
) -> (r: usize)
    requires
        x <= t1.len(),
        y <= t2.len(),
        t1.len() + t2.len() <= usize::MAX / 8,
        positions_ok(t1, la@, ea@),
        positions_ok(t2, lb@, eb@),
        done_pairs(t1, t2, tdr@, cur@, x as int, y as int),
    ensures
        r == fdist(t1, t2, x as int, sub_end(t1, x as int), y as int, sub_end(t2, y as int)),
{
    let n1 = la.len() - 1;
    let n2 = lb.len() - 1;
    let e1 = ea[x];
    let e2 = eb[y];
    proof {
        lemma_sub_end(t1, x as int);
        lemma_sub_end(t2, y as int);
    }
    let mut rows: Vec<Vec<usize>> = Vec::new();
    let mut a: usize = e1 + 1;
    while a > x
        invariant
            x <= a <= e1 + 1,
            e1 == sub_end(t1, x as int),
            e2 == sub_end(t2, y as int),
            x + 1 <= e1 <= n1 + 1,
            y + 1 <= e2 <= n2 + 1,
            n1 == t1.len(),
            n2 == t2.len(),
            x <= t1.len(),
            y <= t2.len(),
            t1.len() + t2.len() <= usize::MAX / 8,
            positions_ok(t1, la@, ea@),
            positions_ok(t2, lb@, eb@),
            done_pairs(t1, t2, tdr@, cur@, x as int, y as int),
            rows@.len() == e1 + 1 - a,
            forall|r: int| 0 <= r < rows@.len() ==> (#[trigger] rows@[r])@.len() == e2 - y + 1,
            forall|r: int, c: int|
                #![trigger rows@[r]@[c]]
                0 <= r < rows@.len() && 0 <= c <= e2 - y ==> rows@[r]@[c] == fdist(
                    t1,
                    t2,
                    e1 - r,
                    e1 as int,
                    e2 - c,
                    e2 as int,
                ),
        decreases a,
    {
        a = a - 1;
        let ra = e1 - a;
        if a < e1 {
            proof {
                lemma_sub_end_nested(t1, x as int, a as int);
                lemma_sub_end(t1, a as int);
            }
        }
        let mut row: Vec<usize> = Vec::new();
        let mut b: usize = e2 + 1;
        while b > y
            invariant
                x <= a <= e1,
                y <= b <= e2 + 1,
                ra == e1 - a,
                e1 == sub_end(t1, x as int),
                e2 == sub_end(t2, y as int),
                x + 1 <= e1 <= n1 + 1,
                y + 1 <= e2 <= n2 + 1,
                a < e1 ==> a + 1 <= sub_end(t1, a as int) <= e1,
                n1 == t1.len(),
                n2 == t2.len(),
                t1.len() + t2.len() <= usize::MAX / 8,
                positions_ok(t1, la@, ea@),
                positions_ok(t2, lb@, eb@),
                done_pairs(t1, t2, tdr@, cur@, x as int, y as int),
                rows@.len() == ra,
                forall|r: int| 0 <= r < rows@.len() ==> (#[trigger] rows@[r])@.len() == e2 - y + 1,
                forall|r: int, c: int|
                    #![trigger rows@[r]@[c]]
                    0 <= r < rows@.len() && 0 <= c <= e2 - y ==> rows@[r]@[c] == fdist(
                        t1,
                        t2,
                        e1 - r,
                        e1 as int,
                        e2 - c,
                        e2 as int,
                    ),
                row@.len() == e2 + 1 - b,
                forall|c: int| 0 <= c < row@.len() ==> #[trigger] row@[c] == fdist(
                    t1,
                    t2,
                    a as int,
                    e1 as int,
                    e2 - c,
                    e2 as int,
                ),
            decreases b,
        {
            b = b - 1;
            let cb = e2 - b;
            proof {
                lemma_fdist_bound(t1, t2, a as int, e1 as int, b as int, e2 as int);
            }
            let val: usize = if a == e1 && b == e2 {
                0
            } else if b == e2 {
                assert(rows@[ra - 1]@[0] == fdist(t1, t2, a + 1, e1 as int, b as int, e2 as int));
                proof {
                    lemma_fdist_bound(t1, t2, a + 1, e1 as int, b as int, e2 as int);
                }
                rows[ra - 1][0] + 1
            } else if a == e1 {
                proof {
                    lemma_fdist_bound(t1, t2, a as int, e1 as int, b + 1, e2 as int);
                }
                row[cb - 1] + 1
            } else {
                proof {
                    lemma_sub_end_nested(t2, y as int, b as int);
                    lemma_sub_end(t2, b as int);
                    lemma_fdist_bound(t1, t2, a + 1, e1 as int, b as int, e2 as int);
                    lemma_fdist_bound(t1, t2, a as int, e1 as int, b + 1, e2 as int);
                }
                let sa = ea[a];
                let sb = eb[b];
                let s1 = if sa < e1 && sa > a { sa } else { e1 };
                let s2 = if sb < e2 && sb > b { sb } else { e2 };
                assert(s1 == sub_end(t1, a as int));
                assert(s2 == sub_end(t2, b as int));
                let del = rows[ra - 1][cb] + 1;
                let ins = row[cb - 1] + 1;
                if s1 == e1 && s2 == e2 {
                    proof {
                        lemma_fdist_bound(t1, t2, a + 1, e1 as int, b + 1, e2 as int);
                    }
                    let same = chars_eq(&la[a], &lb[b]);
                    let cost: usize = if same { 0 } else { 1 };
                    let diag = rows[ra - 1][cb - 1] + cost;
                    min3_exec(del, ins, diag)
                } else {
                    proof {
                        lemma_fdist_bound(t1, t2, s1 as int, e1 as int, s2 as int, e2 as int);
                        lemma_fdist_bound(t1, t2, a as int, s1 as int, b as int, s2 as int);
                        lemma_sub_end(t1, a as int);
                    }
                    let rest = rows[e1 - s1][e2 - s2];
                    let inner = if a > x {
                        assert(tdr@[n1 - a]@[n2 - b] == fdist(
                            t1,
                            t2,
                            a as int,
                            sub_end(t1, a as int),
                            b as int,
                            sub_end(t2, b as int),
                        ));
                        tdr[n1 - a][n2 - b]
                    } else {
                        assert(cur@[n2 - b] == fdist(
                            t1,
                            t2,
                            x as int,
                            sub_end(t1, x as int),
                            b as int,
                            sub_end(t2, b as int),
                        ));
                        cur[n2 - b]
                    };
                    min3_exec(del, ins, rest + inner)
                }
            };
            row.push(val);
        }
        rows.push(row);
    }
    rows[e1 - x][e2 - y]
}

/// The tree edit distance between two title trees given as `(label,
/// level)` nodes in reading order, each under a synthetic `ROOT`.
pub fn tree_edit_distance(a: &Vec<(String, i64)>, b: &Vec<(String, i64)>) -> (r: usize)
    requires
        a@.len() + b@.len() <= usize::MAX / 8,
    ensures
        r == ted_spec(nodes_view(a@), nodes_view(b@)),
{
    let ghost t1 = nodes_view(a@);
    let ghost t2 = nodes_view(b@);
    let (la, ea) = tree_positions(a);
    let (lb, eb) = tree_positions(b);
    let n1 = a.len();
    let n2 = b.len();
    let mut tdr: Vec<Vec<usize>> = Vec::new();
    let mut x: usize = n1 + 1;
    while x > 0
        invariant
            x <= n1 + 1,
            n1 == t1.len(),
            n2 == t2.len(),
            t1 == nodes_view(a@),
            t2 == nodes_view(b@),
            t1.len() + t2.len() <= usize::MAX / 8,
            positions_ok(t1, la@, ea@),
            positions_ok(t2, lb@, eb@),
            tdr@.len() == n1 + 1 - x,
            forall|r: int| 0 <= r < tdr@.len() ==> (#[trigger] tdr@[r])@.len() == n2 + 1,
            forall|r: int, c: int|
                #![trigger tdr@[r]@[c]]
                0 <= r < tdr@.len() && 0 <= c <= n2 ==> tdr@[r]@[c] == fdist(
                    t1,
                    t2,
                    n1 - r,
                    sub_end(t1, n1 - r),
                    n2 - c,
                    sub_end(t2, n2 - c),
                ),
        decreases x,
    {
        x = x - 1;
        let mut cur: Vec<usize> = Vec::new();
        let mut y: usize = n2 + 1;
        while y > 0
            invariant
                x <= n1,
                y <= n2 + 1,
                n1 == t1.len(),
                n2 == t2.len(),
                t1.len() + t2.len() <= usize::MAX / 8,
                positions_ok(t1, la@, ea@),
                positions_ok(t2, lb@, eb@),
                tdr@.len() == n1 - x,
                cur@.len() == n2 + 1 - y,
                forall|r: int| 0 <= r < tdr@.len() ==> (#[trigger] tdr@[r])@.len() == n2 + 1,
                forall|r: int, c: int|
                    #![trigger tdr@[r]@[c]]
                    0 <= r < tdr@.len() && 0 <= c <= n2 ==> tdr@[r]@[c] == fdist(
                        t1,
                        t2,
                        n1 - r,
                        sub_end(t1, n1 - r),
                        n2 - c,
                        sub_end(t2, n2 - c),
                    ),
                forall|c: int|
                    0 <= c < cur@.len() ==> #[trigger] cur@[c] == fdist(
                        t1,
                        t2,
                        x as int,
                        sub_end(t1, x as int),
                        n2 - c,
                        sub_end(t2, n2 - c),
                    ),
            decreases y,
        {
            y = y - 1;
            let d = pair_distance(x, y, &la, &ea, &lb, &eb, &tdr, &cur, Ghost(t1), Ghost(t2));
            cur.push(d);
        }
        tdr.push(cur);
    }
    proof {
        assert(tdr@[n1 as int]@[n2 as int] == fdist(t1, t2, 0, sub_end(t1, 0), 0, sub_end(t2, 0)));
    }
    tdr[n1][n2]
}


/// The length of the common run of `a` and `b` ending at `a[i]`, `b[j]`,
/// not reaching below `alo` and `blo`.
pub open spec fn run_len(a: Seq<char>, b: Seq<char>, alo: int, blo: int, i: int, j: int) -> int
    decreases i - alo + 1,
{
    if i < alo || j < blo || i >= a.len() || j >= b.len() || a[i] != b[j] {
        0
    } else {
        1 + run_len(a, b, alo, blo, i - 1, j - 1)
    }
}

/// The best match so far after looking at the runs ending at `a[i]` and
/// `b[j']` for `j' < j`: a longer run replaces it; a tie keeps the earlier.
pub open spec fn scan_j(
    a: Seq<char>,
    b: Seq<char>,
    alo: int,
    blo: int,
    bhi: int,
    i: int,
    j: int,
    best: (int, int, int),
) -> (int, int, int)
    decreases bhi - j,
{
    if j >= bhi {
        best
    } else {
        let k = run_len(a, b, alo, blo, i, j);
        let nb = if k > best.2 { (i + 1 - k, j + 1 - k, k) } else { best };
        scan_j(a, b, alo, blo, bhi, i, j + 1, nb)
    }
}

/// The best match over the runs ending at `a[i']` for `i <= i' < ahi`.
pub open spec fn scan_i(
    a: Seq<char>,
    b: Seq<char>,
    alo: int,
    ahi: int,
    blo: int,
    bhi: int,
    i: int,
    best: (int, int, int),
) -> (int, int, int)
    decreases ahi - i,
{
    if i >= ahi {
        best
    } else {
        scan_i(a, b, alo, ahi, blo, bhi, i + 1, scan_j(a, b, alo, blo, bhi, i, blo, best))
    }
}

/// The longest common run of `a[alo..ahi]` and `b[blo..bhi]` as
/// `(start in a, start in b, length)`: the first longest one met scanning
/// by end position in `a`, then in `b`; `(alo, blo, 0)` when none.
pub open spec fn longest_match_spec(a: Seq<char>, b: Seq<char>, alo: int, ahi: int, blo: int, bhi: int) -> (int, int, int) {
    scan_i(a, b, alo, ahi, blo, bhi, alo, (alo, blo, 0))
}

/// The number of matched characters of the Ratcliff-Obershelp procedure:
/// the longest common run, then recursively the parts on either side.
pub open spec fn matching_spec(a: Seq<char>, b: Seq<char>, alo: int, ahi: int, blo: int, bhi: int) -> int
    decreases (if ahi > alo { ahi - alo } else { 0 }) + (if bhi > blo { bhi - blo } else { 0 }),
{
    let m = longest_match_spec(a, b, alo, ahi, blo, bhi);
    let i = m.0;
    let j = m.1;
    let k = m.2;
    if k <= 0 || !(alo <= i && i + k <= ahi && blo <= j && j + k <= bhi) {
        0
    } else {
        k + matching_spec(a, b, alo, i, blo, j) + matching_spec(a, b, i + k, ahi, j + k, bhi)
    }
}

/// The longest common run of `a[alo..ahi]` and `b[blo..bhi]`.
pub fn find_longest_match(
    a: &Vec<char>,
    b: &Vec<char>,
    alo: usize,
    ahi: usize,
    blo: usize,
    bhi: usize,
) -> (r: (usize, usize, usize))
    requires
        alo <= ahi <= a@.len(),
        blo <= bhi <= b@.len(),
    ensures
        (r.0 as int, r.1 as int, r.2 as int) == longest_match_spec(a@, b@, alo as int, ahi as int, blo as int, bhi as int),
{
    let w = bhi - blo;
    let mut prev: Vec<usize> = Vec::new();
    let mut q: usize = 0;
    while q < w
        invariant
            q <= w,
            w == bhi - blo,
            prev@.len() == q,
            forall|t: int| 0 <= t < q ==> #[trigger] prev@[t] == 0,
        decreases w - q,
    {
        prev.push(0);
        q = q + 1;
    }
    let mut besti = alo;
    let mut bestj = blo;
    let mut bestk: usize = 0;
    let mut i = alo;
    while i < ahi
        invariant
            alo <= i <= ahi,
            ahi <= a@.len(),
            blo <= bhi <= b@.len(),
            w == bhi - blo,
            prev@.len() == w,
            forall|t: int| 0 <= t < w ==> #[trigger] prev@[t] == run_len(a@, b@, alo as int, blo as int, i - 1, blo + t),
            scan_i(a@, b@, alo as int, ahi as int, blo as int, bhi as int, alo as int, (alo as int, blo as int, 0))
                == scan_i(a@, b@, alo as int, ahi as int, blo as int, bhi as int, i as int, (besti as int, bestj as int, bestk as int)),
            bestk <= i - alo,
            forall|t: int| 0 <= t < w ==> #[trigger] prev@[t] <= i - alo,
        decreases ahi - i,
    {
        let mut cur: Vec<usize> = Vec::new();
        let mut j = blo;
        let ghost best0 = (besti as int, bestj as int, bestk as int);
        while j < bhi
            invariant
                alo <= i < ahi,
                ahi <= a@.len(),
                blo <= j <= bhi,
                bhi <= b@.len(),
                w == bhi - blo,
                prev@.len() == w,
                forall|t: int| 0 <= t < w ==> #[trigger] prev@[t] == run_len(a@, b@, alo as int, blo as int, i - 1, blo + t),
                cur@.len() == j - blo,
                forall|t: int| 0 <= t < j - blo ==> #[trigger] cur@[t] == run_len(a@, b@, alo as int, blo as int, i as int, blo + t),
                scan_j(a@, b@, alo as int, blo as int, bhi as int, i as int, blo as int, best0)
                    == scan_j(a@, b@, alo as int, blo as int, bhi as int, i as int, j as int, (besti as int, bestj as int, bestk as int)),
                bestk <= i + 1 - alo,
                forall|t: int| 0 <= t < j - blo ==> #[trigger] cur@[t] <= i + 1 - alo,
                forall|t: int| 0 <= t < w ==> #[trigger] prev@[t] <= i - alo,
            decreases bhi - j,
        {
            if j > blo {
                assert(prev@[(j - 1 - blo) as int] == run_len(a@, b@, alo as int, blo as int, i - 1, j - 1));
            } else {
                assert(run_len(a@, b@, alo as int, blo as int, i - 1, j - 1) == 0);
            }
            let k: usize = if a[i] == b[j] {
                if j > blo {
                    prev[j - 1 - blo] + 1
                } else {
                    1
                }
            } else {
                0
            };
            assert(k == run_len(a@, b@, alo as int, blo as int, i as int, j as int));
            proof {
                lemma_run_len_bound(a@, b@, alo as int, blo as int, i as int, j as int);
            }
            if k > bestk {
                besti = i + 1 - k;
                bestj = j + 1 - k;
                bestk = k;
            }
            cur.push(k);
            j = j + 1;
        }
        prev = cur;
        i = i + 1;
    }
    (besti, bestj, bestk)
}

proof fn lemma_run_len_bound(a: Seq<char>, b: Seq<char>, alo: int, blo: int, i: int, j: int)
    ensures
        0 <= run_len(a, b, alo, blo, i, j),
        run_len(a, b, alo, blo, i, j) <= i - alo + 1 || run_len(a, b, alo, blo, i, j) == 0,
        run_len(a, b, alo, blo, i, j) <= j - blo + 1 || run_len(a, b, alo, blo, i, j) == 0,
    decreases i - alo + 1,
{
    if !(i < alo || j < blo || i >= a.len() || j >= b.len() || a[i] != b[j]) {
        lemma_run_len_bound(a, b, alo, blo, i - 1, j - 1);
    }
}

/// The number of characters the Ratcliff-Obershelp procedure matches
/// between `a[alo..ahi]` and `b[blo..bhi]`.
pub fn matching_total(
    a: &Vec<char>,
    b: &Vec<char>,
    alo: usize,
    ahi: usize,
    blo: usize,
    bhi: usize,
) -> (r: usize)
    requires
        alo <= ahi <= a@.len(),
        blo <= bhi <= b@.len(),
    ensures
        r == matching_spec(a@, b@, alo as int, ahi as int, blo as int, bhi as int),
        r <= ahi - alo,
    decreases ahi - alo + bhi - blo,
{
    let (i, j, k) = find_longest_match(a, b, alo, ahi, blo, bhi);
    if k == 0 || !(alo <= i && i <= ahi && k <= ahi - i && blo <= j && j <= bhi && k <= bhi - j) {
        return 0;
    }
    let left = matching_total(a, b, alo, i, blo, j);
    let right = matching_total(a, b, i + k, ahi, j + k, bhi);
    k + left + right
}


/// What text comparison ignores: everything but ASCII letters and digits
/// and CJK ideographs.
pub const COMPACT_PATTERN: &'static str = "[^0-9A-Za-z\\x{4e00}-\\x{9fff}]+";

/// The compact form of a text: normalized, stripped to letters, digits and
/// CJK ideographs, lower-cased (nothing is stripped if the pattern is
/// refused).
pub open spec fn compact_spec(text: Seq<char>) -> Seq<char> {
    let n = normalize_text_spec(text);
    match regex_removed_of(COMPACT_PATTERN@, n) {
        Some(t) => lower_of(t),
        None => lower_of(n),
    }
}

/// The compact form of a text, for comparing titles.
pub fn compact_text(text: &str) -> (r: String)
    ensures
        r@ == compact_spec(text@),
{
    let n = normalize_text(text);
    match regex_remove_all(COMPACT_PATTERN, n.as_str()) {
        Some(t) => to_lower(t.as_str()),
        None => to_lower(n.as_str()),
    }
}

/// The content recorded last for `id` among the first `k` entries.
pub open spec fn content_for(entries: Seq<(Seq<char>, Seq<char>)>, id: Seq<char>, k: int) -> Option<Seq<char>>
    decreases k,
{
    if k <= 0 {
        None
    } else if entries[k - 1].0 == id {
        Some(entries[k - 1].1)
    } else {
        content_for(entries, id, k - 1)
    }
}

/// The abstract value of an id-to-content list.
pub open spec fn entries_view(v: Seq<(String, String)>) -> Seq<(Seq<char>, Seq<char>)> {
    v.map_values(|e: (String, String)| (e.0@, e.1@))
}

/// The node of a title tree labelled by its block's compact content
/// (empty for an unknown block).
pub open spec fn content_node(entries: Seq<(Seq<char>, Seq<char>)>, node: (Seq<char>, i64)) -> (Seq<char>, i64) {
    match content_for(entries, node.0, entries.len() as int) {
        Some(c) => (compact_spec(c), node.1),
        None => (seq![], node.1),
    }
}

fn lookup_content(entries: &Vec<(String, String)>, id: &String) -> (r: Option<String>)
    ensures
        match r {
            Some(c) => content_for(entries_view(entries@), id@, entries@.len() as int) == Some(c@),
            None => content_for(entries_view(entries@), id@, entries@.len() as int) is None,
        },
{
    let ghost ev = entries_view(entries@);
    let idc = to_chars(id.as_str());
    let mut k = entries.len();
    while k > 0
        invariant
            k <= entries@.len(),
            ev == entries_view(entries@),
            idc@ == id@,
            content_for(ev, id@, entries@.len() as int) == content_for(ev, id@, k as int),
        decreases k,
    {
        assert(ev[k - 1] == (entries@[k - 1].0@, entries@[k - 1].1@));
        if chars_eq(&to_chars(entries[k - 1].0.as_str()), &idc) {
            return Some(entries[k - 1].1.clone());
        }
        k = k - 1;
    }
    None
}

/// Relabels title-tree nodes by their blocks' compact content, for the
/// content-aware score; `block_by_id` lists `(id, content)` entries, a later
/// entry for an id replacing an earlier one.
pub fn content_aware_nodes(raw_nodes: &Vec<(String, i64)>, block_by_id: &Vec<(String, String)>) -> (r: Vec<(String, i64)>)
    ensures
        nodes_view(r@) == Seq::new(
            raw_nodes@.len(),
            |k: int| content_node(entries_view(block_by_id@), nodes_view(raw_nodes@)[k]),
        ),
{
    let ghost ev = entries_view(block_by_id@);
    let mut out: Vec<(String, i64)> = Vec::new();
    let mut k: usize = 0;
    while k < raw_nodes.len()
        invariant
            k <= raw_nodes@.len(),
            ev == entries_view(block_by_id@),
            nodes_view(out@) == Seq::new(k as nat, |q: int| content_node(ev, nodes_view(raw_nodes@)[q])),
        decreases raw_nodes@.len() - k,
    {
        let (id, level) = (&raw_nodes[k].0, raw_nodes[k].1);
        assert(nodes_view(raw_nodes@)[k as int] == (id@, level));
        let content = match lookup_content(block_by_id, id) {
            Some(c) => compact_text(c.as_str()),
            None => String::new(),
        };
        assert((content@, level) == content_node(ev, (id@, level))) by {
            assert(content_node(ev, (id@, level)).0 =~= content@);
        }
        let ghost before = nodes_view(out@);
        let ghost cv = content@;
        out.push((content, level));
        assert(nodes_view(out@) =~= before.push((cv, level)));
        assert(nodes_view(out@) =~= Seq::new((k + 1) as nat, |q: int| content_node(ev, nodes_view(raw_nodes@)[q])));
        k = k + 1;
    }
    out
}

/// The label line pattern: `<|id|>ID<|level|>LEVEL`.
pub const LABEL_PATTERN: &'static str = "^<\\|id\\|>([^<]+)<\\|level\\|>(-?\\d+)";

/// The lines of a text as `str::lines` yields them: split at `\n`, a final
/// empty piece dropped, a trailing `\r` removed from each line.
pub open spec fn lines_spec(s: Seq<char>) -> Seq<Seq<char>> {
    let pieces = crate::chars::split_char_spec(s, '\n');
    let kept = if s.len() == 0 || s.last() == '\n' { pieces.drop_last() } else { pieces };
    Seq::new(
        kept.len(),
        |k: int| if kept[k].len() > 0 && kept[k].last() == '\r' { kept[k].drop_last() } else { kept[k] },
    )
}

/// The `(id, level)` node a label line gives, when it matches and its level
/// is a non-negative `i64`.
pub open spec fn label_node(line: Seq<char>) -> Option<(Seq<char>, i64)> {
    match regex_groups2_of(LABEL_PATTERN@, trim_spec(line)) {
        Some(g) => match parse_i64_spec(g.1) {
            Some(level) => if level >= 0 { Some((trim_spec(g.0), level)) } else { None },
            None => None,
        },
        None => None,
    }
}

/// The nodes of the first `k` lines.
pub open spec fn label_nodes_upto(lines: Seq<Seq<char>>, k: int) -> Seq<(Seq<char>, i64)>
    decreases k,
{
    if k <= 0 {
        seq![]
    } else {
        match label_node(lines[k - 1]) {
            Some(n) => label_nodes_upto(lines, k - 1).push(n),
            None => label_nodes_upto(lines, k - 1),
        }
    }
}

fn text_lines(s: &Vec<char>) -> (r: Vec<Vec<char>>)
    ensures
        r.deep_view() == lines_spec(s@),
{
    let pieces = crate::chars::split_char(s, '\n');
    let ghost pv = pieces.deep_view();
    assert(pv.len() >= 1);
    let n = if s.len() == 0 || s[s.len() - 1] == '\n' { pieces.len() - 1 } else { pieces.len() };
    let ghost kept = if s@.len() == 0 || s@.last() == '\n' { pv.drop_last() } else { pv };
    assert(kept.len() == n);
    let mut out: Vec<Vec<char>> = Vec::new();
    let mut k: usize = 0;
    while k < n
        invariant
            k <= n,
            n == kept.len(),
            n <= pieces@.len(),
            pv == pieces.deep_view(),
            forall|q: int| 0 <= q < n ==> kept[q] == pv[q],
            out.deep_view() == Seq::new(
                k as nat,
                |q: int| if kept[q].len() > 0 && kept[q].last() == '\r' { kept[q].drop_last() } else { kept[q] },
            ),
        decreases n - k,
    {
        let p = &pieces[k];
        assert(pv[k as int] == p@);
        let line = if p.len() > 0 && p[p.len() - 1] == '\r' {
            crate::chars::slice_chars(p, 0, p.len() - 1)
        } else {
            crate::chars::slice_chars(p, 0, p.len())
        };
        assert(p@.drop_last() =~= p@.subrange(0, p@.len() - 1) || p@.len() == 0);
        assert(p@ =~= p@.subrange(0, p@.len() as int));
        let ghost before = out.deep_view();
        let ghost lv = line@;
        assert(line.deep_view() =~= line@);
        out.push(line);
        assert(out.deep_view() =~= before.push(lv));
        assert(out.deep_view() =~= Seq::new(
            (k + 1) as nat,
            |q: int| if kept[q].len() > 0 && kept[q].last() == '\r' { kept[q].drop_last() } else { kept[q] },
        ));
        k = k + 1;
    }
    out
}

/// Parses `<|id|>I<|level|>L` label lines, keeping those with a
/// non-negative level.
pub fn parse_title_labels(raw: &str) -> (r: Vec<(String, i64)>)
    ensures
        nodes_view(r@) == label_nodes_upto(lines_spec(raw@), lines_spec(raw@).len() as int),
{
    let s = to_chars(raw);
    let lines = text_lines(&s);
    let ghost lv = lines.deep_view();
    let mut out: Vec<(String, i64)> = Vec::new();
    let mut k: usize = 0;
    while k < lines.len()
        invariant
            k <= lines@.len(),
            lv == lines.deep_view(),
            lv == lines_spec(raw@),
            nodes_view(out@) == label_nodes_upto(lv, k as int),
        decreases lines@.len() - k,
    {
        assert(lv[k as int] == lines@[k as int]@);
        let t = trim(&lines[k]);
        let ts = from_chars(t.as_slice());
        if let Some((g1, g2)) = regex_groups2(LABEL_PATTERN, ts.as_str()) {
            if let Some(level) = parse_i64(&to_chars(g2.as_str())) {
                if level >= 0 {
                    let id = from_chars(trim(&to_chars(g1.as_str())).as_slice());
                    let ghost before = nodes_view(out@);
                    out.push((id, level));
                    assert(nodes_view(out@) =~= before.push((id@, level)));
                }
            }
        }
        k = k + 1;
    }
    out
}

} // verus!
