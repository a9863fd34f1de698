//! Document tree assembly: remaps page supplements, merges cross-page tables,
//! groups text under titles, builds the heading-level tree, attaches visual
//! elements with their captions and footnotes, adds page supplements, and
//! renders the indented text preview.

use vstd::prelude::*;
use crate::chars::{to_chars, from_chars, append_chars, push_str, i64_to_chars, decimal_int};
use crate::truncation::{str_is, str_has};

verus! {

/// The abstract value of a location.
pub ghost struct LocView {
    pub bbox: Seq<i64>,
    pub page: i64,
}

/// The abstract value of a tree node.
pub ghost struct CompView {
    pub cp_type: Seq<char>,
    pub title: Seq<char>,
    pub metadata: Seq<char>,
    pub content: Seq<char>,
    pub level: i64,
    pub location: Seq<LocView>,
    pub block_ids: Seq<i64>,
    pub children: Seq<CompView>,
}

/// A `{bbox, page}` location entry; the box is in millionths of the page.
#[derive(Debug)]
pub struct Location {
    /// Bounding box.
    pub bbox: Vec<i64>,
    /// 1-based page number.
    pub page: i64,
}

impl View for Location {
    type V = LocView;

    open spec fn view(&self) -> LocView {
        LocView { bbox: self.bbox@, page: self.page }
    }
}

/// A document-tree node.
#[derive(Debug)]
pub struct Component {
    /// Node type (`root`, `text`, `table`, `image`, supplement types, ...).
    pub cp_type: String,
    /// Title / heading text.
    pub title: String,
    /// Free-form metadata (footnotes, supplement content).
    pub metadata: String,
    /// Body content.
    pub content: String,
    /// Heading level / link level.
    pub level: i64,
    /// Source locations.
    pub location: Vec<Location>,
    /// Source block ids.
    pub block_ids: Vec<i64>,
    /// Child nodes.
    pub children: Vec<Component>,
}

/// The abstract values of a sequence of locations.
pub open spec fn locs_view(ls: Seq<Location>) -> Seq<LocView> {
    ls.map_values(|l: Location| l@)
}

impl Component {
    /// The abstract value of this node and its subtree.
    pub open spec fn tree(self) -> CompView
        decreases self,
    {
        CompView {
            cp_type: self.cp_type@,
            title: self.title@,
            metadata: self.metadata@,
            content: self.content@,
            level: self.level,
            location: locs_view(self.location@),
            block_ids: self.block_ids@,
            children: Seq::new(
                self.children@.len(),
                |i: int|
                    if 0 <= i < self.children@.len() {
                        self.children@[i].tree()
                    } else {
                        arbitrary()
                    },
            ),
        }
    }
}


/// The abstract value of a document element.
pub ghost struct ElemView {
    pub kind: Seq<char>,
    pub source_label: Seq<char>,
    pub content: Seq<char>,
    pub level: i64,
    pub id: Option<i64>,
    pub page: i64,
    pub bbox: Seq<i64>,
    pub contd: i64,
    pub image: i64,
    pub table_merge: i64,
    pub merged_locations: Option<Seq<LocView>>,
    pub merged_block_ids: Option<Seq<i64>>,
}

/// One inference output block as the tree builder reads it. Absent integer
/// fields hold their defaults: `-1` for `level`, `contd`, `image` and
/// `table_merge`, `0` for `page`.
#[derive(Debug)]
pub struct TreeElement {
    /// Block type.
    pub kind: String,
    /// The reader's original label (used to recognise page supplements).
    pub source_label: String,
    /// Block content.
    pub content: String,
    /// Heading level (`-1` when not a heading).
    pub level: i64,
    /// Block id, when present.
    pub id: Option<i64>,
    /// 1-based page number.
    pub page: i64,
    /// Bounding box in millionths of the page.
    pub bbox: Vec<i64>,
    /// Id of the block this one continues (`-1`: none).
    pub contd: i64,
    /// Id of the block this one is linked to (`-1`: none).
    pub image: i64,
    /// Id of the table this one continues on the next page (`-1`: none).
    pub table_merge: i64,
    /// Locations of the merged parts of a cross-page table.
    pub merged_locations: Option<Vec<Location>>,
    /// Block ids of the merged parts of a cross-page table.
    pub merged_block_ids: Option<Vec<i64>>,
}

impl View for TreeElement {
    type V = ElemView;

    open spec fn view(&self) -> ElemView {
        ElemView {
            kind: self.kind@,
            source_label: self.source_label@,
            content: self.content@,
            level: self.level,
            id: self.id,
            page: self.page,
            bbox: self.bbox@,
            contd: self.contd,
            image: self.image,
            table_merge: self.table_merge,
            merged_locations: match self.merged_locations {
                Some(v) => Some(locs_view(v@)),
                None => None,
            },
            merged_block_ids: match self.merged_block_ids {
                Some(v) => Some(v@),
                None => None,
            },
        }
    }
}

/// The abstract values of a sequence of elements.
pub open spec fn elems_view(es: Seq<TreeElement>) -> Seq<ElemView> {
    es.map_values(|e: TreeElement| e@)
}

/// The supplement type a text block's source label stands for.
pub open spec fn supplement_source_spec(label: Seq<char>) -> Option<Seq<char>> {
    if label == "page_title"@ {
        Some("page_title"@)
    } else if label == "page_number"@ || label == "number"@ {
        Some("page_number"@)
    } else if label == "page_footnote"@ || label == "footnote"@ {
        Some("page_footnote"@)
    } else if label == "header"@ {
        Some("header"@)
    } else if label == "aside_text"@ {
        Some("aside_text"@)
    } else if label == "footer"@ {
        Some("footer"@)
    } else {
        None
    }
}

/// The supplement type a text block's source label stands for, if any.
pub fn supplement_source_label(label: &String) -> (r: Option<&'static str>)
    ensures
        match r {
            Some(s) => supplement_source_spec(label@) == Some(s@),
            None => supplement_source_spec(label@) is None,
        },
{
    if str_is(label, "page_title") {
        Some("page_title")
    } else if str_is(label, "page_number") || str_is(label, "number") {
        Some("page_number")
    } else if str_is(label, "page_footnote") || str_is(label, "footnote") {
        Some("page_footnote")
    } else if str_is(label, "header") {
        Some("header")
    } else if str_is(label, "aside_text") {
        Some("aside_text")
    } else if str_is(label, "footer") {
        Some("footer")
    } else {
        None
    }
}

/// Types attached beside the text flow (visuals and their captions/notes).
pub open spec fn special_type(t: Seq<char>) -> bool {
    t == "table_footnote"@ || t == "table"@ || t == "chart"@ || t == "table_caption"@
        || t == "image_footnote"@ || t == "image"@ || t == "image_caption"@ || t == "seal"@
}

/// Types of large composite blocks, kept out of the text flow.
pub open spec fn large_block_type(t: Seq<char>) -> bool {
    t == "super"@ || t == "list"@ || t == "ref_block"@ || t == "equation_block"@
        || t == "image_block"@
}

/// Page supplement types.
pub open spec fn supplement_type(t: Seq<char>) -> bool {
    t == "page_title"@ || t == "page_number"@ || t == "page_footnote"@ || t == "header"@
        || t == "aside_text"@ || t == "footer"@
}

/// Types that become visual nodes.
pub open spec fn visual_type(t: Seq<char>) -> bool {
    t == "table"@ || t == "chart"@ || t == "image"@ || t == "seal"@ || t == "image_block"@
}

fn is_special_type(t: &String) -> (r: bool)
    ensures
        r == special_type(t@),
{
    str_is(t, "table_footnote") || str_is(t, "table") || str_is(t, "chart") || str_is(
        t,
        "table_caption",
    ) || str_is(t, "image_footnote") || str_is(t, "image") || str_is(t, "image_caption")
        || str_is(t, "seal")
}

fn is_large_block_type(t: &String) -> (r: bool)
    ensures
        r == large_block_type(t@),
{
    str_is(t, "super") || str_is(t, "list") || str_is(t, "ref_block") || str_is(
        t,
        "equation_block",
    ) || str_is(t, "image_block")
}

fn is_supplement_type(t: &String) -> (r: bool)
    ensures
        r == supplement_type(t@),
{
    str_is(t, "page_title") || str_is(t, "page_number") || str_is(t, "page_footnote")
        || str_is(t, "header") || str_is(t, "aside_text") || str_is(t, "footer")
}

/// Whether a node type is a visual type.
pub(crate) fn is_visual_type_pub(t: &String) -> (r: bool)
    ensures
        r == visual_type(t@),
{
    is_visual_type(t)
}

fn is_visual_type(t: &String) -> (r: bool)
    ensures
        r == visual_type(t@),
{
    str_is(t, "table") || str_is(t, "chart") || str_is(t, "image") || str_is(t, "seal")
        || str_is(t, "image_block")
}

/// A text block whose source label names a page supplement takes that type.
pub open spec fn remapped(e: ElemView) -> ElemView {
    if e.kind == "text"@ && supplement_source_spec(e.source_label) is Some {
        ElemView { kind: supplement_source_spec(e.source_label).unwrap(), ..e }
    } else {
        e
    }
}

/// A title without a level is demoted to text.
pub open spec fn demoted(e: ElemView) -> ElemView {
    if e.kind == "title"@ && e.level < 0 {
        ElemView { kind: "text"@, ..e }
    } else {
        e
    }
}

fn remap_supplements(elements: &mut Vec<TreeElement>)
    ensures
        final(elements)@.len() == old(elements)@.len(),
        forall|i: int|
            0 <= i < old(elements)@.len() ==> #[trigger] final(elements)@[i]@ == remapped(
                old(elements)@[i]@,
            ),
{
    let ghost orig = elements@;
    let mut i: usize = 0;
    while i < elements.len()
        invariant
            i <= elements@.len(),
            elements@.len() == orig.len(),
            forall|k: int| 0 <= k < i ==> #[trigger] elements@[k]@ == remapped(orig[k]@),
            forall|k: int| i <= k < orig.len() ==> #[trigger] elements@[k] == orig[k],
        decreases elements@.len() - i,
    {
        if str_is(&elements[i].kind, "text") {
            let m = supplement_source_label(&elements[i].source_label);
            if let Some(mapped) = m {
                elements[i].kind = String::from_str(mapped);
            }
        }
        i = i + 1;
    }
}

fn demote_untitled(elements: &mut Vec<TreeElement>)
    ensures
        final(elements)@.len() == old(elements)@.len(),
        forall|i: int|
            0 <= i < old(elements)@.len() ==> #[trigger] final(elements)@[i]@ == demoted(
                old(elements)@[i]@,
            ),
{
    let ghost orig = elements@;
    let mut i: usize = 0;
    while i < elements.len()
        invariant
            i <= elements@.len(),
            elements@.len() == orig.len(),
            forall|k: int| 0 <= k < i ==> #[trigger] elements@[k]@ == demoted(orig[k]@),
            forall|k: int| i <= k < orig.len() ==> #[trigger] elements@[k] == orig[k],
        decreases elements@.len() - i,
    {
        if str_is(&elements[i].kind, "title") && elements[i].level < 0 {
            elements[i].kind = String::from_str("text");
        }
        i = i + 1;
    }
}

/// The largest id of a title before block `idx`, or `0`.
pub open spec fn former_title(es: Seq<ElemView>, idx: i64) -> i64
    decreases es.len(),
{
    if es.len() == 0 {
        0
    } else {
        let prev = former_title(es.drop_last(), idx);
        let e = es.last();
        let id = match e.id { Some(v) => v, None => -1i64 };
        if e.kind == "title"@ && id < idx && id > prev {
            id
        } else {
            prev
        }
    }
}

fn find_former_title(elements: &Vec<TreeElement>, idx: i64) -> (r: i64)
    ensures
        r == former_title(elems_view(elements@), idx),
{
    let mut former: i64 = 0;
    let mut i: usize = 0;
    while i < elements.len()
        invariant
            i <= elements@.len(),
            former == former_title(elems_view(elements@.take(i as int)), idx),
        decreases elements@.len() - i,
    {
        proof {
            assert(elems_view(elements@.take(i + 1)).drop_last() =~= elems_view(
                elements@.take(i as int),
            ));
        }
        let e = &elements[i];
        if str_is(&e.kind, "title") {
            let id = match &e.id { Some(v) => *v, None => -1 };
            if id < idx && id > former {
                former = id;
            }
        }
        i = i + 1;
    }
    assert(elements@.take(i as int) =~= elements@);
    former
}


/// The id of an element, `-1` when it has none.
pub open spec fn id_or_none(e: ElemView) -> i64 {
    match e.id {
        Some(v) => v,
        None => -1i64,
    }
}

/// The last position of an element with the given id.
pub open spec fn last_with_id(es: Seq<ElemView>, id: i64) -> Option<int>
    decreases es.len(),
{
    if es.len() == 0 {
        None
    } else if es.last().id == Some(id) {
        Some(es.len() - 1)
    } else {
        last_with_id(es.drop_last(), id)
    }
}

/// Links pointing at `from` are redirected to `to`.
pub open spec fn redirected(e: ElemView, from: i64, to: i64) -> ElemView {
    if e.image == from {
        ElemView { image: to, ..e }
    } else {
        e
    }
}

/// The table at `idx` absorbs its continuation, if it names one that has
/// not been absorbed yet and that is a later table.
pub open spec fn merge_step(st: (Seq<ElemView>, Seq<i64>), idx: int) -> (Seq<ElemView>, Seq<i64>) {
    let es = st.0;
    let partners = st.1;
    let e = es[idx];
    let pid = e.table_merge;
    if e.kind != "table"@ || pid < 0 || partners.contains(pid) {
        st
    } else {
        match last_with_id(es, pid) {
            None => st,
            Some(pi) => if pi <= idx || es[pi].kind != "table"@ {
                st
            } else {
                let eid = id_or_none(e);
                let p = es[pi];
                let merged = ElemView {
                    content: crate::table::merge_html_spec(e.content, p.content),
                    merged_locations: Some(
                        seq![LocView { bbox: e.bbox, page: e.page }, LocView { bbox: p.bbox, page: p.page }],
                    ),
                    merged_block_ids: Some(seq![eid, pid]),
                    ..e
                };
                let es2 = es.update(idx, merged);
                (Seq::new(es2.len(), |k: int| redirected(es2[k], pid, eid)), partners.push(pid))
            },
        }
    }
}

/// The merge steps for the first `k` elements.
pub open spec fn merge_fold(es: Seq<ElemView>, k: int) -> (Seq<ElemView>, Seq<i64>)
    decreases k,
{
    if k <= 0 {
        (es, seq![])
    } else {
        merge_step(merge_fold(es, k - 1), k - 1)
    }
}

/// Whether an element survives the merge: absorbed continuations are dropped.
pub open spec fn survives(e: ElemView, partners: Seq<i64>) -> bool {
    match e.id {
        Some(id) => !partners.contains(id),
        None => true,
    }
}

/// The surviving elements, in order.
pub open spec fn survivors(es: Seq<ElemView>, partners: Seq<i64>) -> Seq<ElemView>
    decreases es.len(),
{
    if es.len() == 0 {
        seq![]
    } else {
        let prev = survivors(es.drop_last(), partners);
        if survives(es.last(), partners) {
            prev.push(es.last())
        } else {
            prev
        }
    }
}

/// Cross-page table merging: each table that names its continuation absorbs
/// it (content merged, both locations and ids recorded, links to the
/// continuation redirected), and the absorbed continuations are dropped.
pub open spec fn merge_tables_spec(es: Seq<ElemView>) -> Seq<ElemView> {
    let st = merge_fold(es, es.len() as int);
    survivors(st.0, st.1)
}

proof fn lemma_merge_fold_len(es: Seq<ElemView>, k: int)
    requires
        0 <= k <= es.len(),
    ensures
        merge_fold(es, k).0.len() == es.len(),
    decreases k,
{
    if k > 0 {
        lemma_merge_fold_len(es, k - 1);
    }
}

proof fn lemma_last_with_id(es: Seq<ElemView>, id: i64)
    ensures
        last_with_id(es, id) matches Some(i) ==> 0 <= i < es.len() && es[i].id == Some(id),
    decreases es.len(),
{
    if es.len() > 0 && es.last().id != Some(id) {
        lemma_last_with_id(es.drop_last(), id);
    }
}

fn last_index_with_id(elements: &Vec<TreeElement>, id: i64) -> (r: Option<usize>)
    ensures
        match r {
            Some(i) => last_with_id(elems_view(elements@), id) == Some(i as int) && i
                < elements@.len(),
            None => last_with_id(elems_view(elements@), id) is None,
        },
{
    proof {
        lemma_last_with_id(elems_view(elements@), id);
    }
    let mut k: usize = elements.len();
    assert(elements@.take(k as int) =~= elements@);
    while k > 0
        invariant
            k <= elements@.len(),
            last_with_id(elems_view(elements@), id) == last_with_id(
                elems_view(elements@.take(k as int)),
                id,
            ),
        decreases k,
    {
        let ghost pre = elems_view(elements@.take(k as int));
        assert(pre.drop_last() =~= elems_view(elements@.take(k - 1)));
        if elements[k - 1].id == Some(id) {
            return Some(k - 1);
        }
        k = k - 1;
    }
    assert(elems_view(elements@.take(0)) =~= Seq::<ElemView>::empty());
    None
}

fn contains_id(v: &Vec<i64>, x: i64) -> (r: bool)
    ensures
        r == v@.contains(x),
{
    let mut i: usize = 0;
    while i < v.len()
        invariant
            i <= v@.len(),
            forall|k: int| 0 <= k < i ==> v@[k] != x,
        decreases v@.len() - i,
    {
        if v[i] == x {
            assert(v@[i as int] == x);
            return true;
        }
        i = i + 1;
    }
    false
}

pub(crate) fn copy_ids(v: &Vec<i64>) -> (r: Vec<i64>)
    ensures
        r@ == v@,
{
    let mut out: Vec<i64> = Vec::new();
    let mut i: usize = 0;
    while i < v.len()
        invariant
            i <= v@.len(),
            out@ == v@.take(i as int),
        decreases v@.len() - i,
    {
        out.push(v[i]);
        assert(v@.take(i + 1) =~= v@.take(i as int).push(v@[i as int]));
        i = i + 1;
    }
    assert(v@.take(i as int) =~= v@);
    out
}

fn location_of(e: &TreeElement) -> (r: Location)
    ensures
        r@ == (LocView { bbox: e.bbox@, page: e.page }),
{
    Location { bbox: copy_ids(&e.bbox), page: e.page }
}

fn redirect_links(elements: &mut Vec<TreeElement>, from: i64, to: i64)
    ensures
        final(elements)@.len() == old(elements)@.len(),
        elems_view(final(elements)@) == Seq::new(
            old(elements)@.len(),
            |k: int| redirected(old(elements)@[k]@, from, to),
        ),
{
    let ghost orig = elements@;
    let mut i: usize = 0;
    while i < elements.len()
        invariant
            i <= elements@.len(),
            elements@.len() == orig.len(),
            forall|k: int| 0 <= k < i ==> #[trigger] elements@[k]@ == redirected(orig[k]@, from, to),
            forall|k: int| i <= k < orig.len() ==> #[trigger] elements@[k] == orig[k],
        decreases elements@.len() - i,
    {
        if elements[i].image == from {
            elements[i].image = to;
        }
        i = i + 1;
    }
    assert(elems_view(elements@) =~= Seq::new(orig.len(), |k: int| redirected(orig[k]@, from, to)));
}

fn merge_cross_page_tables(mut elements: Vec<TreeElement>) -> (r: Vec<TreeElement>)
    ensures
        elems_view(r@) == merge_tables_spec(elems_view(elements@)),
{
    let ghost orig = elems_view(elements@);
    let mut partners: Vec<i64> = Vec::new();
    let mut idx: usize = 0;
    while idx < elements.len()
        invariant
            idx <= elements@.len(),
            elements@.len() == orig.len(),
            (elems_view(elements@), partners@) == merge_fold(orig, idx as int),
        decreases elements@.len() - idx,
    {
        let ghost st = (elems_view(elements@), partners@);
        assert(elems_view(elements@)[idx as int] == elements@[idx as int]@);
        let pid = elements[idx].table_merge;
        if str_is(&elements[idx].kind, "table") && pid >= 0 && !contains_id(&partners, pid) {
            match last_index_with_id(&elements, pid) {
                None => {},
                Some(pi) => {
                    assert(elems_view(elements@)[pi as int] == elements@[pi as int]@);
                    if pi > idx && str_is(&elements[pi].kind, "table") {
                        let eid = match &elements[idx].id { Some(v) => *v, None => -1 };
                        let merged = crate::table::merge_html(
                            elements[idx].content.as_str(),
                            elements[pi].content.as_str(),
                        );
                        let loc_e = location_of(&elements[idx]);
                        let loc_p = location_of(&elements[pi]);
                        let locs = vec![loc_e, loc_p];
                        let ids = vec![eid, pid];
                        let ghost before = elems_view(elements@);
                        elements[idx].content = merged;
                        elements[idx].merged_locations = Some(locs);
                        elements[idx].merged_block_ids = Some(ids);
                        proof {
                            let p = before[pi as int];
                            let e = before[idx as int];
                            assert(locs_view(locs@) =~= seq![LocView { bbox: e.bbox, page: e.page }, LocView { bbox: p.bbox, page: p.page }]);
                            assert(ids@ =~= seq![eid, pid]);
                            let m = ElemView {
                                content: crate::table::merge_html_spec(e.content, p.content),
                                merged_locations: Some(
                                    seq![LocView { bbox: e.bbox, page: e.page }, LocView { bbox: p.bbox, page: p.page }],
                                ),
                                merged_block_ids: Some(seq![eid, pid]),
                                ..e
                            };
                            assert(elems_view(elements@) =~= before.update(idx as int, m));
                        }
                        redirect_links(&mut elements, pid, eid);
                        partners.push(pid);
                    }
                },
            }
        }
        idx = idx + 1;
    }
    proof {
        lemma_merge_fold_len(orig, orig.len() as int);
    }
    let ghost fin = elems_view(elements@);
    let mut out: Vec<TreeElement> = Vec::new();
    let ghost total = elements@.len();
    let mut k: usize = 0;
    while elements.len() > 0
        invariant
            k + elements@.len() == total,
            total <= usize::MAX,
            total == fin.len(),
            elems_view(elements@) == fin.skip(k as int),
            elems_view(out@) == survivors(fin.take(k as int), partners@),
            (fin, partners@) == merge_fold(orig, orig.len() as int),
        decreases elements@.len(),
    {
        let ghost rest = elements@;
        let e = elements.remove(0);
        proof {
            assert(e@ == fin[k as int]) by {
                assert(elems_view(rest)[0] == rest[0]@);
            }
            assert(elements@ =~= rest.skip(1));
            assert(elems_view(elements@) =~= elems_view(rest).skip(1));
            assert(elems_view(elements@) =~= fin.skip(k + 1));
            assert(fin.take(k + 1).drop_last() =~= fin.take(k as int));
        }
        let keep = match &e.id {
            Some(id) => !contains_id(&partners, *id),
            None => true,
        };
        if keep {
            let ghost before = out@;
            out.push(e);
            assert(elems_view(out@) =~= elems_view(before).push(e@));
        }
        k = k + 1;
    }
    assert(fin.take(k as int) =~= fin);
    out
}


/// The location of an element.
pub open spec fn loc_of(e: ElemView) -> LocView {
    LocView { bbox: e.bbox, page: e.page }
}

/// The text node that collects body text before the first title.
pub open spec fn default_text() -> CompView {
    CompView {
        cp_type: "text"@,
        title: "Default Title"@,
        metadata: seq![],
        content: seq![],
        level: 1,
        location: seq![],
        block_ids: seq![],
        children: seq![],
    }
}

/// Whether an element's text joins the flow under the current title.
pub open spec fn flow_text(t: Seq<char>) -> bool {
    !special_type(t) && !large_block_type(t) && !supplement_type(t)
}

/// One element of the text grouping: a title opens a new text node (the
/// current one is kept unless it is the untouched default); body text is
/// appended to the current node, joined by a continuation or split marker.
pub open spec fn text_step(st: (Seq<CompView>, Seq<i64>, CompView), e: ElemView) -> (
    Seq<CompView>,
    Seq<i64>,
    CompView,
) {
    let comps = st.0;
    let contd = st.1;
    let cur = st.2;
    if e.kind == "title"@ {
        let kept = if cur.title != "Default Title"@ || cur.content.len() > 0 {
            comps.push(cur)
        } else {
            comps
        };
        (
            kept,
            contd,
            CompView {
                cp_type: "text"@,
                title: e.content,
                metadata: seq![],
                content: seq![],
                level: e.level,
                location: seq![loc_of(e)],
                block_ids: seq![id_or_none(e)],
                children: seq![],
            },
        )
    } else if flow_text(e.kind) {
        let contd2 = if e.contd >= 0 { contd.push(e.contd) } else { contd };
        let id = id_or_none(e);
        let label = if contd2.contains(id) { "<|txt_contd|>"@ } else { "<|txt_split|>"@ };
        let content = if cur.content.len() == 0 { e.content } else { cur.content + label + e.content };
        (
            comps,
            contd2,
            CompView {
                content: content,
                location: cur.location.push(loc_of(e)),
                block_ids: cur.block_ids.push(id),
                ..cur
            },
        )
    } else {
        st
    }
}

/// The text grouping over the first `k` elements.
pub open spec fn text_fold(es: Seq<ElemView>, k: int) -> (Seq<CompView>, Seq<i64>, CompView)
    decreases k,
{
    if k <= 0 {
        (seq![], seq![], default_text())
    } else {
        text_step(text_fold(es, k - 1), es[k - 1])
    }
}

/// The text nodes: body text grouped under the title before it.
pub open spec fn text_components_spec(es: Seq<ElemView>) -> Seq<CompView> {
    let st = text_fold(es, es.len() as int);
    st.0.push(st.2)
}

/// The abstract values of a sequence of nodes.
pub open spec fn trees(cs: Seq<Component>) -> Seq<CompView> {
    cs.map_values(|c: Component| c.tree())
}

fn is_flow_text(t: &String) -> (r: bool)
    ensures
        r == flow_text(t@),
{
    !is_special_type(t) && !is_large_block_type(t) && !is_supplement_type(t)
}

fn push_location(v: &mut Vec<Location>, l: Location)
    ensures
        locs_view(final(v)@) == locs_view(old(v)@).push(l@),
{
    let ghost before = v@;
    v.push(l);
    assert(locs_view(v@) =~= locs_view(before).push(l@));
}

fn get_text_components(elements: &Vec<TreeElement>) -> (r: Vec<Component>)
    ensures
        trees(r@) == text_components_spec(elems_view(elements@)),
{
    let ghost es = elems_view(elements@);
    let mut comps: Vec<Component> = Vec::new();
    let mut contd_list: Vec<i64> = Vec::new();
    let mut cur = Component {
        cp_type: String::from_str("text"),
        title: String::from_str("Default Title"),
        metadata: String::new(),
        content: String::new(),
        level: 1,
        location: Vec::new(),
        block_ids: Vec::new(),
        children: Vec::new(),
    };
    assert(cur.tree() =~= default_text()) by {
        assert(cur.tree().children =~= Seq::<CompView>::empty());
        assert(cur.tree().location =~= Seq::<LocView>::empty());
    }
    let mut i: usize = 0;
    while i < elements.len()
        invariant
            i <= elements@.len(),
            es == elems_view(elements@),
            cur.children@.len() == 0,
            (trees(comps@), contd_list@, cur.tree()) == text_fold(es, i as int),
        decreases elements@.len() - i,
    {
        let e = &elements[i];
        assert(es[i as int] == e@);
        let ghost st = (trees(comps@), contd_list@, cur.tree());
        if str_is(&e.kind, "title") {
            let keep = !str_is(&cur.title, "Default Title") || to_chars(cur.content.as_str()).len() > 0;
            let id = match &e.id { Some(v) => *v, None => -1 };
            let fresh = Component {
                cp_type: String::from_str("text"),
                title: e.content.clone(),
                metadata: String::new(),
                content: String::new(),
                level: e.level,
                location: vec![location_of(e)],
                block_ids: vec![id],
                children: Vec::new(),
            };
            proof {
                assert(fresh.tree().children =~= Seq::<CompView>::empty());
                assert(fresh.tree().location =~= seq![loc_of(e@)]);
                assert(fresh.tree().block_ids =~= seq![id]);
                assert(cur.tree().content.len() == cur.content@.len());
            }
            if keep {
                let ghost before = comps@;
                comps.push(cur);
                assert(trees(comps@) =~= trees(before).push(st.2));
            }
            cur = fresh;
        } else if is_flow_text(&e.kind) {
            if e.contd >= 0 {
                contd_list.push(e.contd);
            }
            let id = match &e.id { Some(v) => *v, None => -1 };
            let is_contd = contains_id(&contd_list, id);
            let mut text = to_chars(cur.content.as_str());
            if text.len() > 0 {
                if is_contd {
                    push_str(&mut text, "<|txt_contd|>");
                } else {
                    push_str(&mut text, "<|txt_split|>");
                }
                push_str(&mut text, e.content.as_str());
            } else {
                text = to_chars(e.content.as_str());
            }
            cur.content = from_chars(text.as_slice());
            push_location(&mut cur.location, location_of(e));
            let ghost ids_before = cur.block_ids@;
            cur.block_ids.push(id);
            proof {
                let nxt = text_step(st, e@);
                assert(cur.tree().children =~= nxt.2.children);
                assert(cur.tree() == nxt.2);
            }
        }
        proof {
            assert(text_fold(es, i + 1) == text_step(text_fold(es, i as int), es[i as int]));
        }
        i = i + 1;
    }
    let ghost st = (trees(comps@), contd_list@, cur.tree());
    let ghost before = comps@;
    comps.push(cur);
    assert(trees(comps@) =~= trees(before).push(st.2));
    comps
}


/// The level a node nests by: its heading level, or `100` without one.
pub open spec fn eff_level(c: CompView) -> int {
    if c.level > 0 { c.level as int } else { 100 }
}

/// The first position at or after `lo` whose node does not nest below
/// level `lvl` (or the end).
pub open spec fn block_end(cs: Seq<CompView>, lo: int, lvl: int) -> int
    decreases cs.len() - lo,
{
    if lo >= cs.len() {
        lo
    } else if eff_level(cs[lo]) <= lvl {
        lo
    } else {
        block_end(cs, lo + 1, lvl)
    }
}

pub proof fn lemma_block_end(cs: Seq<CompView>, lo: int, lvl: int)
    requires
        0 <= lo,
    ensures
        lo <= block_end(cs, lo, lvl),
        lo <= cs.len() ==> block_end(cs, lo, lvl) <= cs.len(),
        forall|k: int| lo <= k < block_end(cs, lo, lvl) ==> eff_level(#[trigger] cs[k]) > lvl,
        block_end(cs, lo, lvl) < cs.len() ==> eff_level(cs[block_end(cs, lo, lvl)]) <= lvl,
    decreases cs.len() - lo,
{
    if lo < cs.len() && eff_level(cs[lo]) > lvl {
        lemma_block_end(cs, lo + 1, lvl);
    }
}

proof fn lemma_block_end_skip(cs: Seq<CompView>, a: int, b: int, lvl: int)
    requires
        0 <= a <= b <= cs.len(),
        forall|k: int| a <= k < b ==> eff_level(#[trigger] cs[k]) > lvl,
    ensures
        block_end(cs, a, lvl) == block_end(cs, b, lvl),
    decreases b - a,
{
    if a < b {
        lemma_block_end_skip(cs, a + 1, b, lvl);
    }
}

/// The sibling nodes that start at `lo` under a parent of level `lvl`:
/// each node takes as children the following nodes that nest deeper than
/// it, up to the first one that does not.
pub open spec fn forest(cs: Seq<CompView>, lo: int, lvl: int) -> Seq<CompView>
    decreases cs.len() - lo,
{
    if lo < 0 || lo >= cs.len() || eff_level(cs[lo]) <= lvl {
        seq![]
    } else {
        let e = block_end(cs, lo + 1, eff_level(cs[lo]));
        proof {
            lemma_block_end(cs, lo + 1, eff_level(cs[lo]));
        }
        seq![CompView { children: forest(cs, lo + 1, eff_level(cs[lo])), ..cs[lo] }] + forest(
            cs,
            e,
            lvl,
        )
    }
}

/// The heading-level tree over the text nodes: a root of level `0` whose
/// subtree nests each node under the nearest earlier node of lower level.
pub open spec fn level_tree(cs: Seq<CompView>) -> CompView {
    CompView {
        cp_type: "root"@,
        title: seq![],
        metadata: seq![],
        content: seq![],
        level: 0,
        location: seq![],
        block_ids: seq![],
        children: forest(cs, 0, 0),
    }
}

fn eff_level_exec(c: &Component) -> (r: i64)
    ensures
        r == eff_level(c.tree()),
{
    if c.level > 0 { c.level } else { 100 }
}

/// `rev` holds the nodes from position `cs.len() - rev.len()` on, last first.
pub open spec fn holds_rest(rev: Seq<Component>, cs: Seq<CompView>) -> bool {
    &&& rev.len() <= cs.len()
    &&& forall|k: int| 0 <= k < rev.len() ==> #[trigger] rev[k].tree() == cs[cs.len() - 1 - k]
}

fn take_forest(rev: &mut Vec<Component>, lvl: i64, Ghost(cs): Ghost<Seq<CompView>>) -> (r: Vec<
    Component,
>)
    requires
        holds_rest(old(rev)@, cs),
        lvl >= 0,
    ensures
        final(rev)@.len() == cs.len() - block_end(
            cs,
            cs.len() - old(rev)@.len(),
            lvl as int,
        ),
        final(rev)@ == old(rev)@.take(final(rev)@.len() as int),
        trees(r@) == forest(cs, cs.len() - old(rev)@.len(), lvl as int),
    decreases old(rev)@.len(),
{
    let ghost lo = cs.len() - rev@.len();
    let ghost orig = rev@;
    let mut out: Vec<Component> = Vec::new();
    proof {
        lemma_block_end(cs, lo, lvl as int);
    }
    loop
        invariant
            rev@.len() <= orig.len(),
            rev@ == orig.take(rev@.len() as int),
            holds_rest(orig, cs),
            orig == old(rev)@,
            lo == cs.len() - orig.len(),
            lvl >= 0,
            forall|k: int| lo <= k < cs.len() - rev@.len() ==> eff_level(#[trigger] cs[k]) > lvl,
            trees(out@) + forest(cs, cs.len() - rev@.len(), lvl as int) == forest(cs, lo, lvl as int),
        ensures
            rev@.len() == 0 || eff_level(cs[cs.len() - rev@.len()]) <= lvl,
            rev@.len() <= orig.len(),
            rev@ == orig.take(rev@.len() as int),
            forall|k: int| lo <= k < cs.len() - rev@.len() ==> eff_level(#[trigger] cs[k]) > lvl,
            trees(out@) + forest(cs, cs.len() - rev@.len(), lvl as int) == forest(cs, lo, lvl as int),
        decreases rev@.len(),
    {
        let ghost cur = cs.len() - rev@.len();
        if rev.len() == 0 {
            break;
        }
        let n = rev.len();
        assert(rev@[n - 1] == orig[n - 1]);
        assert(rev@[n - 1].tree() == cs[cur]);
        if eff_level_exec(&rev[n - 1]) <= lvl {
            break;
        }
        let mut c = rev.pop().unwrap();
        let ce = eff_level_exec(&c);
        proof {
            assert(holds_rest(rev@, cs)) by {
                assert forall|k: int| 0 <= k < rev@.len() implies #[trigger] rev@[k].tree()
                    == cs[cs.len() - 1 - k] by {
                    assert(rev@[k] == orig[k]);
                }
            }
            lemma_block_end(cs, cur + 1, ce as int);
        }
        let ghost rev_before = rev@;
        assert(rev@.len() < old(rev)@.len());
        let kids = take_forest(rev, ce, Ghost(cs));
        let ghost e = block_end(cs, cur + 1, ce as int);
        let ghost node = c.tree();
        c.children = kids;
        proof {
            assert(c.tree().children =~= trees(kids@));
            assert(c.tree() == CompView { children: forest(cs, cur + 1, eff_level(cs[cur])), ..cs[cur] });
            assert(forest(cs, cur, lvl as int) == seq![c.tree()] + forest(cs, e, lvl as int));
            assert(rev@ =~= orig.take(rev@.len() as int));
            assert forall|k: int| lo <= k < cs.len() - rev@.len() implies eff_level(#[trigger] cs[k])
                > lvl by {
                if k >= cur + 1 {
                    assert(eff_level(cs[k]) > ce);
                }
            }
        }
        let ghost out_before = trees(out@);
        let ghost ct = c.tree();
        out.push(c);
        proof {
            assert(trees(out@) =~= out_before.push(ct));
            assert(trees(out@) + forest(cs, e, lvl as int) =~= out_before + forest(
                cs,
                cur,
                lvl as int,
            ));
        }
    }
    proof {
        let cur = cs.len() - rev@.len();
        lemma_block_end_skip(cs, lo, cur, lvl as int);
        assert(forest(cs, cur, lvl as int) =~= Seq::<CompView>::empty());
        assert(trees(out@) =~= forest(cs, lo, lvl as int));
    }
    out
}


fn construct_by_level(text_components: Vec<Component>) -> (r: Component)
    ensures
        r.tree() == level_tree(trees(text_components@)),
{
    let ghost orig = text_components@;
    let ghost cs = trees(orig);
    let ghost n = orig.len();
    let mut src = text_components;
    let mut rev: Vec<Component> = Vec::new();
    while src.len() > 0
        invariant
            src@ == orig.take(src@.len() as int),
            rev@.len() + src@.len() == n,
            n == orig.len(),
            forall|k: int| 0 <= k < rev@.len() ==> #[trigger] rev@[k] == orig[n - 1 - k],
        decreases src@.len(),
    {
        let c = src.pop().unwrap();
        rev.push(c);
        assert(src@ =~= orig.take(src@.len() as int));
    }
    proof {
        assert forall|k: int| 0 <= k < rev@.len() implies #[trigger] rev@[k].tree() == cs[cs.len()
            - 1 - k] by {
            assert(rev@[k] == orig[n - 1 - k]);
        }
    }
    let kids = take_forest(&mut rev, 0, Ghost(cs));
    let root = Component {
        cp_type: String::from_str("root"),
        title: String::new(),
        metadata: String::new(),
        content: String::new(),
        level: 0,
        location: Vec::new(),
        block_ids: Vec::new(),
        children: kids,
    };
    proof {
        assert(root.tree().children =~= trees(kids@));
        assert(root.tree().location =~= Seq::<LocView>::empty());
        assert(root.tree() =~= level_tree(cs));
    }
    root
}

/// Joins a caption or footnote onto the text gathered so far with a space.
pub open spec fn joined(acc: Seq<char>, x: Seq<char>) -> Seq<char> {
    if acc.len() == 0 { x } else { acc + " "@ + x }
}

/// The visual node for an element before captions and footnotes are added.
pub open spec fn visual_base(e: ElemView) -> CompView {
    CompView {
        cp_type: e.kind,
        title: seq![],
        metadata: seq![],
        content: e.content,
        level: e.image,
        location: match e.merged_locations {
            Some(l) => l,
            None => seq![loc_of(e)],
        },
        block_ids: match e.merged_block_ids {
            Some(b) => b,
            None => seq![id_or_none(e)],
        },
        children: seq![],
    }
}

/// A block linked to the visual with id `id` adds itself as a caption (title)
/// or as a footnote (metadata).
pub open spec fn caption_step(vc: CompView, id: i64, x: ElemView) -> CompView {
    if x.image != id {
        vc
    } else if crate::chars::find_sub(x.kind, "caption"@) is Some {
        CompView {
            title: joined(vc.title, x.content),
            location: vc.location.push(loc_of(x)),
            block_ids: vc.block_ids.push(id_or_none(x)),
            ..vc
        }
    } else if crate::chars::find_sub(x.kind, "footnote"@) is Some {
        CompView {
            metadata: joined(vc.metadata, x.content),
            location: vc.location.push(loc_of(x)),
            block_ids: vc.block_ids.push(id_or_none(x)),
            ..vc
        }
    } else {
        vc
    }
}

/// Captions and footnotes of the first `k` blocks added to a visual node.
pub open spec fn caption_fold(es: Seq<ElemView>, vc: CompView, id: i64, k: int) -> CompView
    decreases k,
{
    if k <= 0 {
        vc
    } else {
        caption_step(caption_fold(es, vc, id, k - 1), id, es[k - 1])
    }
}

/// The visual node of element `e`, with everything linked to it.
pub open spec fn visual_node(es: Seq<ElemView>, e: ElemView) -> CompView {
    caption_fold(es, visual_base(e), id_or_none(e), es.len() as int)
}

/// The visual nodes of the first `k` elements, in order.
pub open spec fn visuals_upto(es: Seq<ElemView>, k: int) -> Seq<CompView>
    decreases k,
{
    if k <= 0 {
        seq![]
    } else if visual_type(es[k - 1].kind) {
        visuals_upto(es, k - 1).push(visual_node(es, es[k - 1]))
    } else {
        visuals_upto(es, k - 1)
    }
}

pub(crate) fn copy_locations(v: &Vec<Location>) -> (r: Vec<Location>)
    ensures
        locs_view(r@) == locs_view(v@),
{
    let mut out: Vec<Location> = Vec::new();
    let mut i: usize = 0;
    while i < v.len()
        invariant
            i <= v@.len(),
            locs_view(out@) == locs_view(v@.take(i as int)),
        decreases v@.len() - i,
    {
        let l = Location { bbox: copy_ids(&v[i].bbox), page: v[i].page };
        let ghost before = out@;
        out.push(l);
        assert(l@ == v@[i as int]@);
        assert(locs_view(out@) =~= locs_view(before).push(l@));
        assert(locs_view(v@.take(i + 1)) =~= locs_view(v@.take(i as int)).push(v@[i as int]@));
        i = i + 1;
    }
    assert(v@.take(i as int) =~= v@);
    out
}

fn joined_string(acc: &String, x: &String) -> (r: String)
    ensures
        r@ == joined(acc@, x@),
{
    let a = to_chars(acc.as_str());
    if a.len() == 0 {
        x.clone()
    } else {
        let mut out = a;
        push_str(&mut out, " ");
        push_str(&mut out, x.as_str());
        from_chars(out.as_slice())
    }
}

fn visual_component(elements: &Vec<TreeElement>, e: &TreeElement) -> (r: Component)
    ensures
        r.tree() == visual_node(elems_view(elements@), e@),
        r.children@.len() == 0,
{
    let ghost es = elems_view(elements@);
    let id = match &e.id { Some(v) => *v, None => -1 };
    let location = match &e.merged_locations {
        Some(l) => copy_locations(l),
        None => vec![location_of(e)],
    };
    let block_ids = match &e.merged_block_ids {
        Some(b) => copy_ids(b),
        None => vec![id],
    };
    let mut vc = Component {
        cp_type: e.kind.clone(),
        title: String::new(),
        metadata: String::new(),
        content: e.content.clone(),
        level: e.image,
        location,
        block_ids,
        children: Vec::new(),
    };
    proof {
        assert(vc.tree().children =~= Seq::<CompView>::empty());
        assert(vc.tree().location =~= visual_base(e@).location);
        assert(vc.tree().block_ids =~= visual_base(e@).block_ids);
        assert(vc.tree().cp_type =~= visual_base(e@).cp_type);
        assert(vc.tree().content =~= visual_base(e@).content);
        assert(vc.tree().title =~= visual_base(e@).title);
        assert(vc.tree() =~= visual_base(e@));
    }
    let mut k: usize = 0;
    while k < elements.len()
        invariant
            k <= elements@.len(),
            es == elems_view(elements@),
            id == id_or_none(e@),
            vc.children@.len() == 0,
            vc.tree() == caption_fold(es, visual_base(e@), id, k as int),
        decreases elements@.len() - k,
    {
        let x = &elements[k];
        assert(es[k as int] == x@);
        let ghost before = vc.tree();
        if x.image == id {
            if str_has(&x.kind, "caption") {
                vc.title = joined_string(&vc.title, &x.content);
                push_location(&mut vc.location, location_of(x));
                vc.block_ids.push(match &x.id { Some(v) => *v, None => -1 });
                assert(vc.tree().children =~= before.children);
                assert(vc.tree() =~= caption_step(before, id, x@));
            } else if str_has(&x.kind, "footnote") {
                vc.metadata = joined_string(&vc.metadata, &x.content);
                push_location(&mut vc.location, location_of(x));
                vc.block_ids.push(match &x.id { Some(v) => *v, None => -1 });
                assert(vc.tree().children =~= before.children);
                assert(vc.tree() =~= caption_step(before, id, x@));
            }
        }
        k = k + 1;
    }
    vc
}

fn visual_components(elements: &Vec<TreeElement>) -> (r: Vec<Component>)
    ensures
        trees(r@) == visuals_upto(elems_view(elements@), elements@.len() as int),
        forall|i: int| 0 <= i < r@.len() ==> (#[trigger] r@[i]).children@.len() == 0,
{
    let ghost es = elems_view(elements@);
    let mut out: Vec<Component> = Vec::new();
    let mut k: usize = 0;
    while k < elements.len()
        invariant
            k <= elements@.len(),
            es == elems_view(elements@),
            trees(out@) == visuals_upto(es, k as int),
            forall|i: int| 0 <= i < out@.len() ==> (#[trigger] out@[i]).children@.len() == 0,
        decreases elements@.len() - k,
    {
        let e = &elements[k];
        assert(es[k as int] == e@);
        if is_visual_type(&e.kind) {
            let vc = visual_component(elements, e);
            let ghost before = out@;
            out.push(vc);
            assert(trees(out@) =~= trees(before).push(vc.tree()));
        }
        k = k + 1;
    }
    out
}


/// The first other visual whose block ids hold the link target of visual `i`,
/// searching from position `j`.
pub open spec fn first_parent(vs: Seq<CompView>, i: int, j: int) -> Option<int>
    decreases vs.len() - j,
{
    if j < 0 || j >= vs.len() {
        None
    } else if j != i && vs[j].block_ids.contains(vs[i].level) {
        Some(j)
    } else {
        first_parent(vs, i, j + 1)
    }
}

/// The visual that visual `i` nests under, if any.
pub open spec fn parent_of(vs: Seq<CompView>, i: int) -> Option<int> {
    first_parent(vs, i, 0)
}

/// The visuals among the first `k` that nest under visual `j`, in order.
pub open spec fn kids_upto(vs: Seq<CompView>, j: int, k: int) -> Seq<int>
    decreases k,
{
    if k <= 0 {
        seq![]
    } else if parent_of(vs, k - 1) == Some(j) {
        kids_upto(vs, j, k - 1).push(k - 1)
    } else {
        kids_upto(vs, j, k - 1)
    }
}

/// The visuals that nest under visual `j`, in order.
pub open spec fn kids_of(vs: Seq<CompView>, j: int) -> Seq<int> {
    kids_upto(vs, j, vs.len() as int)
}

/// Visual `i` with the visuals nested under it, to depth `fuel`.
pub open spec fn nested(vs: Seq<CompView>, i: int, fuel: nat) -> CompView
    decreases fuel,
{
    if fuel == 0 {
        vs[i]
    } else {
        let ks = kids_of(vs, i);
        CompView { children: Seq::new(ks.len(), |m: int| nested(vs, ks[m], (fuel - 1) as nat)), ..vs[i] }
    }
}

proof fn lemma_first_parent(vs: Seq<CompView>, i: int, j: int)
    ensures
        first_parent(vs, i, j) matches Some(p) ==> 0 <= p < vs.len() && p != i,
    decreases vs.len() - j,
{
    if 0 <= j < vs.len() && !(j != i && vs[j].block_ids.contains(vs[i].level)) {
        lemma_first_parent(vs, i, j + 1);
    }
}

proof fn lemma_kids_upto(vs: Seq<CompView>, j: int, k: int)
    requires
        k <= vs.len(),
    ensures
        forall|m: int| 0 <= m < kids_upto(vs, j, k).len() ==> 0 <= #[trigger] kids_upto(vs, j, k)[m] < k,
    decreases k,
{
    if k > 0 {
        lemma_kids_upto(vs, j, k - 1);
        let prev = kids_upto(vs, j, k - 1);
        assert forall|m: int| 0 <= m < kids_upto(vs, j, k).len() implies 0
            <= #[trigger] kids_upto(vs, j, k)[m] < k by {
            if m < prev.len() {
                assert(kids_upto(vs, j, k)[m] == prev[m]);
            }
        }
    }
}

fn clone_leaf(c: &Component) -> (r: Component)
    requires
        c.children@.len() == 0,
    ensures
        r.tree() == c.tree(),
        r.children@.len() == 0,
{
    let r = Component {
        cp_type: c.cp_type.clone(),
        title: c.title.clone(),
        metadata: c.metadata.clone(),
        content: c.content.clone(),
        level: c.level,
        location: copy_locations(&c.location),
        block_ids: copy_ids(&c.block_ids),
        children: Vec::new(),
    };
    assert(r.tree().children =~= c.tree().children);
    assert(r.tree() =~= c.tree());
    r
}

fn parents_of(vs: &Vec<Component>) -> (r: Vec<Option<usize>>)
    ensures
        r@.len() == vs@.len(),
        forall|i: int| 0 <= i < vs@.len() ==> match #[trigger] r@[i] {
            Some(p) => parent_of(trees(vs@), i) == Some(p as int),
            None => parent_of(trees(vs@), i) is None,
        },
{
    let ghost ts = trees(vs@);
    let n = vs.len();
    let mut out: Vec<Option<usize>> = Vec::new();
    let mut i: usize = 0;
    while i < n
        invariant
            i <= n,
            n == vs@.len(),
            ts == trees(vs@),
            out@.len() == i,
            forall|m: int| 0 <= m < i ==> match #[trigger] out@[m] {
                Some(p) => parent_of(ts, m) == Some(p as int),
                None => parent_of(ts, m) is None,
            },
        decreases n - i,
    {
        let target = vs[i].level;
        let mut j: usize = 0;
        let mut found: Option<usize> = None;
        while j < n && found.is_none()
            invariant
                j <= n,
                n == vs@.len(),
                ts == trees(vs@),
                i < n,
                target == ts[i as int].level,
                found is None ==> first_parent(ts, i as int, 0) == first_parent(
                    ts,
                    i as int,
                    j as int,
                ),
                found matches Some(p) ==> first_parent(ts, i as int, 0) == Some(p as int),
            decreases n - j + (if found is None { 1int } else { 0int }),
        {
            assert(ts[j as int].block_ids == vs@[j as int].block_ids@);
            if j != i && contains_id(&vs[j].block_ids, target) {
                found = Some(j);
            } else {
                j = j + 1;
            }
        }
        out.push(found);
        i = i + 1;
    }
    out
}

fn kids_lists(parents: &Vec<Option<usize>>, Ghost(ts): Ghost<Seq<CompView>>) -> (r: Vec<Vec<usize>>)
    requires
        parents@.len() == ts.len(),
        forall|i: int| 0 <= i < ts.len() ==> match #[trigger] parents@[i] {
            Some(p) => parent_of(ts, i) == Some(p as int),
            None => parent_of(ts, i) is None,
        },
    ensures
        r@.len() == ts.len(),
        forall|j: int| 0 <= j < ts.len() ==> (#[trigger] r@[j])@.map_values(|x: usize| x as int) == kids_of(ts, j),
{
    let n = parents.len();
    let mut out: Vec<Vec<usize>> = Vec::new();
    let mut j: usize = 0;
    while j < n
        invariant
            j <= n,
            n == ts.len(),
            parents@.len() == ts.len(),
            forall|i: int| 0 <= i < ts.len() ==> match #[trigger] parents@[i] {
                Some(p) => parent_of(ts, i) == Some(p as int),
                None => parent_of(ts, i) is None,
            },
            out@.len() == j,
            forall|m: int| 0 <= m < j ==> (#[trigger] out@[m])@.map_values(|x: usize| x as int) == kids_of(ts, m),
        decreases n - j,
    {
        let mut ks: Vec<usize> = Vec::new();
        let mut i: usize = 0;
        while i < n
            invariant
                i <= n,
                j < n,
                n == ts.len(),
                parents@.len() == ts.len(),
                forall|q: int| 0 <= q < ts.len() ==> match #[trigger] parents@[q] {
                    Some(p) => parent_of(ts, q) == Some(p as int),
                    None => parent_of(ts, q) is None,
                },
                ks@.map_values(|x: usize| x as int) == kids_upto(ts, j as int, i as int),
            decreases n - i,
        {
            let ghost before = ks@;
            let hit = match parents[i] {
                Some(p) => p == j,
                None => false,
            };
            assert(hit == (parent_of(ts, i as int) == Some(j as int))) by {
                match parents@[i as int] {
                    Some(p) => {},
                    None => {},
                }
            }
            if hit {
                ks.push(i);
                assert(ks@.map_values(|x: usize| x as int) =~= before.map_values(|x: usize| x as int).push(i as int));
            }
            i = i + 1;
        }
        out.push(ks);
        j = j + 1;
    }
    out
}

fn materialize_visual(
    i: usize,
    fuel: usize,
    visuals: &Vec<Component>,
    kids: &Vec<Vec<usize>>,
) -> (r: Component)
    requires
        i < visuals@.len(),
        kids@.len() == visuals@.len(),
        forall|j: int| 0 <= j < visuals@.len() ==> (#[trigger] kids@[j])@.map_values(|x: usize| x as int) == kids_of(trees(visuals@), j),
        forall|j: int| 0 <= j < visuals@.len() ==> (#[trigger] visuals@[j]).children@.len() == 0,
    ensures
        r.tree() == nested(trees(visuals@), i as int, fuel as nat),
    decreases fuel,
{
    let ghost ts = trees(visuals@);
    assert(ts[i as int] == visuals@[i as int].tree());
    let mut c = clone_leaf(&visuals[i]);
    if fuel == 0 {
        return c;
    }
    let ks = &kids[i];
    proof {
        lemma_kids_upto(ts, i as int, ts.len() as int);
    }
    let ghost kv = kids_of(ts, i as int);
    assert(ks@.map_values(|x: usize| x as int) == kv);
    let mut children: Vec<Component> = Vec::new();
    let mut m: usize = 0;
    while m < ks.len()
        invariant
            m <= ks@.len(),
            ks@.map_values(|x: usize| x as int) == kv,
            kv == kids_of(ts, i as int),
            forall|q: int| 0 <= q < kv.len() ==> 0 <= #[trigger] kv[q] < ts.len(),
            ts == trees(visuals@),
            kids@.len() == visuals@.len(),
            forall|j: int| 0 <= j < visuals@.len() ==> (#[trigger] kids@[j])@.map_values(|x: usize| x as int) == kids_of(trees(visuals@), j),
            forall|j: int| 0 <= j < visuals@.len() ==> (#[trigger] visuals@[j]).children@.len() == 0,
            fuel > 0,
            trees(children@) == Seq::new(m as nat, |q: int| nested(ts, kv[q], (fuel - 1) as nat)),
        decreases ks@.len() - m,
    {
        assert(kv[m as int] == ks@[m as int] as int);
        let child = materialize_visual(ks[m], fuel - 1, visuals, kids);
        let ghost before = trees(children@);
        let ghost ct = child.tree();
        children.push(child);
        assert(trees(children@) =~= before.push(ct));
        assert(ct == nested(ts, kv[m as int], (fuel - 1) as nat));
        assert(trees(children@) =~= Seq::new((m + 1) as nat, |q: int| nested(ts, kv[q], (fuel - 1) as nat)));
        m = m + 1;
    }
    let ghost ct = c.tree();
    c.children = children;
    proof {
        assert(c.tree().children =~= trees(children@));
        assert(c.tree() == CompView { children: trees(children@), ..ct });
        assert(ct == ts[i as int]);
        assert(kv.len() == m);
        let nt = nested(ts, i as int, fuel as nat);
        assert(nt.children =~= trees(children@));
        assert(c.tree() == nt);
    }
    c
}


/// Whether a node of the subtree holds block id `id`.
pub open spec fn has_id(t: CompView, id: i64) -> bool
    decreases t, 0int,
{
    t.block_ids.contains(id) || any_has_id(t.children, id, 0)
}

/// Whether a node of one of the subtrees from position `k` holds `id`.
pub open spec fn any_has_id(cs: Seq<CompView>, id: i64, k: int) -> bool
    decreases cs, cs.len() - k,
{
    if k < 0 || k >= cs.len() {
        false
    } else {
        has_id(cs[k], id) || any_has_id(cs, id, k + 1)
    }
}

/// The first subtree from position `k` that holds `id`.
pub open spec fn first_with(cs: Seq<CompView>, id: i64, k: int) -> Option<int>
    decreases cs.len() - k,
{
    if k < 0 || k >= cs.len() {
        None
    } else if has_id(cs[k], id) {
        Some(k)
    } else {
        first_with(cs, id, k + 1)
    }
}

pub proof fn lemma_first_with(cs: Seq<CompView>, id: i64, k: int)
    requires
        0 <= k,
    ensures
        first_with(cs, id, k) matches Some(i) ==> k <= i < cs.len() && has_id(cs[i], id),
        first_with(cs, id, k) is None <==> !any_has_id(cs, id, k),
    decreases cs.len() - k,
{
    if k < cs.len() && !has_id(cs[k], id) {
        lemma_first_with(cs, id, k + 1);
    }
}

/// `v` added as the last child of the first node, in preorder, that holds
/// block id `id`.
pub open spec fn attach(t: CompView, id: i64, v: CompView) -> CompView
    decreases t,
{
    if t.block_ids.contains(id) {
        CompView { children: t.children.push(v), ..t }
    } else {
        match first_with(t.children, id, 0) {
            Some(k) => {
                proof {
                    lemma_first_with(t.children, id, 0);
                    assert(decreases_to!(t => t.children));
                    assert(decreases_to!(t.children => t.children[k]));
                }
                CompView { children: t.children.update(k, attach(t.children[k], id, v)), ..t }
            },
            None => t,
        }
    }
}

fn attach_node(node: &mut Component, id: i64, v: Component) -> (r: Option<Component>)
    ensures
        has_id(old(node).tree(), id) ==> r is None && final(node).tree() == attach(
            old(node).tree(),
            id,
            v.tree(),
        ),
        !has_id(old(node).tree(), id) ==> r == Some(v) && final(node).tree() == old(node).tree(),
    decreases old(node).tree(),
{
    let ghost t = node.tree();
    if contains_id(&node.block_ids, id) {
        let ghost vt = v.tree();
        let ghost kids0 = node.children@;
        node.children.push(v);
        proof {
            assert(trees(node.children@) =~= trees(kids0).push(vt));
            assert(node.tree().children =~= t.children.push(vt));
            assert(node.tree() == attach(t, id, vt));
        }
        return None;
    }
    let mut kids: Vec<Component> = Vec::new();
    std::mem::swap(&mut kids, &mut node.children);
    let ghost orig = kids@;
    let ghost ot = trees(orig);
    assert(ot =~= t.children);
    proof {
        lemma_first_with(ot, id, 0);
    }
    let ghost vt = v.tree();
    let mut pending: Option<Component> = Some(v);
    let mut k: usize = 0;
    while k < kids.len() && pending.is_some()
        invariant
            k <= kids@.len(),
            kids@.len() == orig.len(),
            ot == trees(orig),
            ot == t.children,
            t == old(node).tree(),
            vt == v.tree(),
            pending matches Some(w) ==> w == v && trees(kids@) == ot && first_with(ot, id, 0)
                == first_with(ot, id, k as int),
            pending is None ==> (first_with(ot, id, 0) matches Some(k0) && k0 < k && trees(kids@)
                == ot.update(k0, attach(ot[k0], id, vt))),
        decreases kids@.len() - k + (if pending is None { 0int } else { 1int }),
    {
        let ghost kb = trees(kids@);
        let mut child = kids.remove(k);
        let w = pending.take().unwrap();
        assert(child.tree() == kb[k as int]);
        assert(child.tree() == ot[k as int]);
        assert(decreases_to!(t => t.children));
        assert(decreases_to!(t.children => t.children[k as int]));
        assert(decreases_to!(old(node).tree() => child.tree()));
        let ghost w_tree = w.tree();
        assert(w == v);
        let ghost kr = kids@;
        pending = attach_node(&mut child, id, w);
        let ghost ct = child.tree();
        kids.insert(k, child);
        assert(kids@ == kr.insert(k as int, child));
        assert(trees(kids@) =~= kb.update(k as int, ct));
        proof {
            if pending is None {
                assert(has_id(ot[k as int], id));
                assert(w_tree == vt);
                assert(ct == attach(ot[k as int], id, w_tree));
                assert(first_with(ot, id, k as int) == Some(k as int));
                assert(trees(kids@) =~= ot.update(k as int, attach(ot[k as int], id, vt)));
            } else {
                assert(trees(kids@) =~= kb);
                assert(!has_id(ot[k as int], id));
            }
        }
        k = k + 1;
    }
    std::mem::swap(&mut kids, &mut node.children);
    proof {
        if pending is None {
            assert(node.tree().children =~= trees(node.children@));
            assert(!has_id(t, id) == false) by {
                lemma_first_with(ot, id, 0);
            }
            assert(node.tree() == attach(t, id, vt));
        } else {
            assert(first_with(ot, id, 0) is None);
            assert(node.tree().children =~= t.children);
            assert(node.tree() == t);
            assert(!has_id(t, id));
        }
    }
    pending
}

/// The smallest of the ids, or `0` for none.
pub open spec fn min_id(ids: Seq<i64>) -> i64
    decreases ids.len(),
{
    if ids.len() == 0 {
        0
    } else if ids.len() == 1 {
        ids[0]
    } else {
        let m = min_id(ids.drop_last());
        if ids.last() < m { ids.last() } else { m }
    }
}

fn min_id_exec(ids: &Vec<i64>) -> (r: i64)
    ensures
        r == min_id(ids@),
{
    if ids.len() == 0 {
        return 0;
    }
    let mut m = ids[0];
    let mut i: usize = 1;
    assert(ids@.take(1).drop_last() =~= Seq::<i64>::empty());
    while i < ids.len()
        invariant
            1 <= i <= ids@.len(),
            m == min_id(ids@.take(i as int)),
        decreases ids@.len() - i,
    {
        assert(ids@.take(i + 1).drop_last() =~= ids@.take(i as int));
        if ids[i] < m {
            m = ids[i];
        }
        i = i + 1;
    }
    assert(ids@.take(i as int) =~= ids@);
    m
}

/// Where a top-level visual is attached: its link target, or, unlinked, the
/// last title before its first block.
pub open spec fn visual_target(es: Seq<ElemView>, vc: CompView) -> i64 {
    if vc.level >= 0 { vc.level } else { former_title(es, min_id(vc.block_ids)) }
}

/// The top-level visuals among the first `i`, with the visuals nested
/// under them, attached to the tree one after another.
pub open spec fn attach_visuals(t: CompView, es: Seq<ElemView>, vs: Seq<CompView>, i: int) -> CompView
    decreases i,
{
    if i <= 0 {
        t
    } else {
        let prev = attach_visuals(t, es, vs, i - 1);
        if parent_of(vs, i - 1) is Some {
            prev
        } else {
            let vc = nested(vs, i - 1, vs.len());
            let target = visual_target(es, vc);
            if has_id(prev, target) { attach(prev, target, vc) } else { prev }
        }
    }
}

/// The tree with the visual elements attached.
pub open spec fn with_visuals(t: CompView, es: Seq<ElemView>) -> CompView {
    let vs = visuals_upto(es, es.len() as int);
    attach_visuals(t, es, vs, vs.len() as int)
}

fn add_special_elements(root: &mut Component, elements: &Vec<TreeElement>)
    ensures
        final(root).tree() == with_visuals(old(root).tree(), elems_view(elements@)),
{
    let ghost es = elems_view(elements@);
    let visuals = visual_components(elements);
    let ghost vs = trees(visuals@);
    let parents = parents_of(&visuals);
    let kids = kids_lists(&parents, Ghost(vs));
    let n = visuals.len();
    let ghost t0 = root.tree();
    let mut i: usize = 0;
    while i < n
        invariant
            i <= n,
            n == visuals@.len(),
            vs == trees(visuals@),
            es == elems_view(elements@),
            vs == visuals_upto(es, es.len() as int),
            parents@.len() == n,
            forall|q: int| 0 <= q < n ==> match #[trigger] parents@[q] {
                Some(p) => parent_of(vs, q) == Some(p as int),
                None => parent_of(vs, q) is None,
            },
            kids@.len() == n,
            forall|j: int| 0 <= j < n ==> (#[trigger] kids@[j])@.map_values(|x: usize| x as int) == kids_of(vs, j),
            forall|j: int| 0 <= j < n ==> (#[trigger] visuals@[j]).children@.len() == 0,
            root.tree() == attach_visuals(t0, es, vs, i as int),
        decreases n - i,
    {
        let top = match parents[i] {
            Some(_) => false,
            None => true,
        };
        assert(top == (parent_of(vs, i as int) is None)) by {
            match parents@[i as int] {
                Some(_) => {},
                None => {},
            }
        }
        if top {
            let vc = materialize_visual(i, n, &visuals, &kids);
            let target = if vc.level >= 0 {
                vc.level
            } else {
                find_former_title(elements, min_id_exec(&vc.block_ids))
            };
            let ghost before = root.tree();
            let ghost vt = vc.tree();
            let _ = attach_node(root, target, vc);
            assert(root.tree() == (if has_id(before, target) { attach(before, target, vt) } else { before }));
        }
        i = i + 1;
    }
}


/// The base title of a page supplement: `Page {page} - {type}`.
pub open spec fn sup_base(page: i64, t: Seq<char>) -> Seq<char> {
    "Page "@ + decimal_int(page as int) + " - "@ + t
}

/// The `k`-th title tried for a supplement: the base, then the base with
/// ` - 1`, ` - 2`, ... appended.
pub open spec fn candidate(base: Seq<char>, k: int) -> Seq<char> {
    if k <= 0 { base } else { base + " - "@ + decimal_int(k) }
}

/// The first candidate from `k` on that is not taken yet.
pub open spec fn free_from(exist: Seq<Seq<char>>, base: Seq<char>, k: int) -> int
    decreases exist.len() + 1 - k,
{
    if k > exist.len() || !exist.contains(candidate(base, k)) {
        k
    } else {
        free_from(exist, base, k + 1)
    }
}

proof fn lemma_candidate_injective(base: Seq<char>, i: int, j: int)
    requires
        0 <= i,
        0 <= j,
        candidate(base, i) == candidate(base, j),
    ensures
        i == j,
{
    reveal_strlit(" - ");
    if i > 0 && j > 0 {
        let ci = candidate(base, i);
        let cj = candidate(base, j);
        let p = base.len() + 3int;
        assert(ci.skip(p) =~= decimal_int(i));
        assert(cj.skip(p) =~= decimal_int(j));
        crate::chars::lemma_decimal_nat_injective(i as nat, j as nat);
    } else if i > 0 {
        crate::chars::lemma_decimal_nat(i as nat);
        assert(candidate(base, i).len() > candidate(base, j).len());
    } else if j > 0 {
        crate::chars::lemma_decimal_nat(j as nat);
        assert(candidate(base, j).len() > candidate(base, i).len());
    }
}

/// At most `exist.len()` candidates can all be taken.
proof fn lemma_candidates_bounded(exist: Seq<Seq<char>>, base: Seq<char>, m: int)
    requires
        0 <= m,
        forall|i: int| 0 <= i < m ==> exist.contains(#[trigger] candidate(base, i)),
    ensures
        m <= exist.len(),
{
    let dom = vstd::set_lib::set_int_range(0, m);
    vstd::set_lib::lemma_int_range(0, m);
    let f = |i: int| candidate(base, i);
    let img = dom.map(f);
    assert(vstd::relations::injective_on(f, dom)) by {
        assert forall|x1: int, x2: int|
            dom.contains(x1) && dom.contains(x2) && #[trigger] f(x1) == #[trigger] f(x2) implies x1
            == x2 by {
            lemma_candidate_injective(base, x1, x2);
        }
    }
    vstd::set_lib::lemma_map_size(dom, img, f);
    assert(img.subset_of(exist.to_set())) by {
        assert forall|y: Seq<char>| img.contains(y) implies exist.to_set().contains(y) by {
            let x = choose|x: int| dom.contains(x) && f(x) == y;
            assert(exist.contains(candidate(base, x)));
        }
    }
    vstd::seq_lib::seq_to_set_is_finite(exist);
    vstd::set_lib::lemma_len_subset(img, exist.to_set());
    exist.lemma_cardinality_of_set();
}

/// One element of the supplement pass: a page supplement becomes a root
/// child titled with the first free candidate.
pub open spec fn supp_step(st: (Seq<CompView>, Seq<Seq<char>>), e: ElemView) -> (
    Seq<CompView>,
    Seq<Seq<char>>,
) {
    if !supplement_type(e.kind) {
        st
    } else {
        let base = sup_base(e.page, e.kind);
        let title = candidate(base, free_from(st.1, base, 0));
        (
            st.0.push(
                CompView {
                    cp_type: e.kind,
                    title: title,
                    metadata: e.content,
                    content: e.content,
                    level: -1i64,
                    location: seq![loc_of(e)],
                    block_ids: seq![id_or_none(e)],
                    children: seq![],
                },
            ),
            st.1.push(title),
        )
    }
}

/// The supplement pass over the first `k` elements.
pub open spec fn supp_fold(es: Seq<ElemView>, k: int) -> (Seq<CompView>, Seq<Seq<char>>)
    decreases k,
{
    if k <= 0 {
        (seq![], seq![])
    } else {
        supp_step(supp_fold(es, k - 1), es[k - 1])
    }
}

/// The tree with the page supplements added as last children of the root.
pub open spec fn with_supplements(t: CompView, es: Seq<ElemView>) -> CompView {
    CompView { children: t.children + supp_fold(es, es.len() as int).0, ..t }
}

fn contains_chars(v: &Vec<Vec<char>>, x: &Vec<char>) -> (r: bool)
    ensures
        r == v.deep_view().contains(x@),
{
    let mut i: usize = 0;
    while i < v.len()
        invariant
            i <= v@.len(),
            forall|k: int| 0 <= k < i ==> v.deep_view()[k] != x@,
        decreases v@.len() - i,
    {
        assert(v.deep_view()[i as int] == v@[i as int]@);
        if crate::chars::chars_eq(&v[i], x) {
            return true;
        }
        i = i + 1;
    }
    false
}

fn supplement_title(exist: &Vec<Vec<char>>, base: &Vec<char>) -> (r: Vec<char>)
    ensures
        r@ == candidate(base@, free_from(exist.deep_view(), base@, 0)),
{
    let ghost ex = exist.deep_view();
    let mut cnt: usize = 0;
    let mut title = base.clone();
    assert(title@ == base@);
    while contains_chars(exist, &title)
        invariant
            cnt <= ex.len(),
            ex == exist.deep_view(),
            title@ == candidate(base@, cnt as int),
            forall|i: int| 0 <= i < cnt ==> ex.contains(#[trigger] candidate(base@, i)),
            free_from(ex, base@, 0) == free_from(ex, base@, cnt as int),
        decreases ex.len() - cnt,
    {
        proof {
            assert(forall|i: int| 0 <= i < cnt + 1 ==> ex.contains(#[trigger] candidate(base@, i)));
            lemma_candidates_bounded(ex, base@, cnt + 1);
        }
        assert(cnt + 1 <= exist.len());
        cnt = cnt + 1;
        let mut t = base.clone();
        push_str(&mut t, " - ");
        let digits = crate::chars::u64_to_chars(cnt as u64);
        append_chars(&mut t, &digits);
        title = t;
    }
    title
}

fn supplement_base(page: i64, kind: &String) -> (r: Vec<char>)
    ensures
        r@ == sup_base(page, kind@),
{
    let mut out = to_chars("Page ");
    let digits = i64_to_chars(page);
    append_chars(&mut out, &digits);
    push_str(&mut out, " - ");
    push_str(&mut out, kind.as_str());
    out
}

fn add_supplement(root: &mut Component, elements: &Vec<TreeElement>)
    ensures
        final(root).tree() == with_supplements(old(root).tree(), elems_view(elements@)),
{
    let ghost es = elems_view(elements@);
    let ghost t0 = root.tree();
    let ghost kids0 = root.children@;
    let mut exist: Vec<Vec<char>> = Vec::new();
    let mut added: Vec<Component> = Vec::new();
    let mut i: usize = 0;
    while i < elements.len()
        invariant
            i <= elements@.len(),
            es == elems_view(elements@),
            (trees(added@), exist.deep_view()) == supp_fold(es, i as int),
        decreases elements@.len() - i,
    {
        let e = &elements[i];
        assert(es[i as int] == e@);
        if is_supplement_type(&e.kind) {
            let base = supplement_base(e.page, &e.kind);
            let title = supplement_title(&exist, &base);
            let supp = Component {
                cp_type: e.kind.clone(),
                title: from_chars(title.as_slice()),
                metadata: e.content.clone(),
                content: e.content.clone(),
                level: -1,
                location: vec![location_of(e)],
                block_ids: vec![match &e.id { Some(v) => *v, None => -1 }],
                children: Vec::new(),
            };
            let ghost ex_before = exist.deep_view();
            let ghost added_before = trees(added@);
            let ghost st = supp_step(supp_fold(es, i as int), e@);
            assert(supp.tree().children =~= Seq::<CompView>::empty());
            assert(supp.tree().location =~= st.0.last().location);
            assert(supp.tree().block_ids =~= st.0.last().block_ids);
            let ghost stree = supp.tree();
            added.push(supp);
            assert(title.deep_view() =~= title@);
            exist.push(title);
            assert(exist.deep_view() =~= ex_before.push(st.1.last()));
            assert(trees(added@) =~= added_before.push(stree));
        }
        i = i + 1;
    }
    let ghost kb = root.children@;
    let ghost all_added = trees(added@);
    root.children.append(&mut added);
    proof {
        assert(trees(root.children@) =~= trees(kb) + all_added);
        assert(root.tree().children =~= trees(root.children@));
        assert(t0.children =~= trees(kb));
    }
}


/// The elements the tree is built from: supplements remapped, cross-page
/// tables merged, level-less titles demoted.
pub open spec fn tree_elements(es: Seq<ElemView>) -> Seq<ElemView> {
    let merged = merge_tables_spec(Seq::new(es.len(), |i: int| remapped(es[i])));
    Seq::new(merged.len(), |i: int| demoted(merged[i]))
}

/// The document tree of a sequence of blocks.
pub open spec fn build_tree_spec(es: Seq<ElemView>) -> CompView {
    let els = tree_elements(es);
    with_supplements(with_visuals(level_tree(text_components_spec(els)), els), els)
}

/// Builds the document tree from the inference output blocks: page
/// supplements are remapped by source label, cross-page tables merged,
/// text grouped under titles, titles nested by heading level, visuals
/// attached with their captions and footnotes, and page supplements added
/// under the root.
pub fn build_tree(doc_blocks: Vec<TreeElement>) -> (r: Component)
    ensures
        r.tree() == build_tree_spec(elems_view(doc_blocks@)),
{
    let ghost es = elems_view(doc_blocks@);
    let mut elements = doc_blocks;
    remap_supplements(&mut elements);
    assert(elems_view(elements@) =~= Seq::new(es.len(), |i: int| remapped(es[i])));
    let mut elements = merge_cross_page_tables(elements);
    let ghost merged = elems_view(elements@);
    demote_untitled(&mut elements);
    assert(elems_view(elements@) =~= Seq::new(merged.len(), |i: int| demoted(merged[i])));
    let text = get_text_components(&elements);
    let mut root = construct_by_level(text);
    add_special_elements(&mut root, &elements);
    add_supplement(&mut root, &elements);
    root
}

/// `n` spaces.
pub open spec fn spaces(n: nat) -> Seq<char> {
    Seq::new(n, |i: int| ' ')
}

/// The preview line of a node: indent, title, `|`, the first 30 characters
/// of its content, and `...` when the content is longer.
pub open spec fn txt_line(t: CompView, depth: nat) -> Seq<char> {
    let shown = if t.content.len() > 30 { t.content.take(30) + "..."@ } else { t.content };
    spaces(4 * depth) + t.title + "|"@ + shown
}

/// The preview lines of a subtree, in preorder.
pub open spec fn txt_lines(t: CompView, depth: nat) -> Seq<Seq<char>>
    decreases t, 0int,
{
    seq![txt_line(t, depth)] + kids_lines(t.children, depth + 1, 0)
}

/// The preview lines of the subtrees from position `k`.
pub open spec fn kids_lines(cs: Seq<CompView>, depth: nat, k: int) -> Seq<Seq<char>>
    decreases cs, cs.len() - k,
{
    if k < 0 || k >= cs.len() {
        seq![]
    } else {
        txt_lines(cs[k], depth) + kids_lines(cs, depth, k + 1)
    }
}

/// The indented text preview of a tree, one line per node, each ended by a
/// newline.
pub open spec fn tree_to_txt_spec(t: CompView) -> Seq<char> {
    crate::chars::join_spec(txt_lines(t, 0), "\n"@) + "\n"@
}

fn push_lines(lines: &mut Vec<Vec<char>>, line: Vec<char>)
    ensures
        final(lines).deep_view() == old(lines).deep_view().push(line@),
{
    let ghost before = lines.deep_view();
    assert(line.deep_view() =~= line@);
    lines.push(line);
    assert(lines.deep_view() =~= before.push(line@));
}

fn walk(node: &Component, indent: &Vec<char>, Ghost(depth): Ghost<nat>, lines: &mut Vec<Vec<char>>)
    requires
        indent@ == spaces(4 * depth),
    ensures
        final(lines).deep_view() == old(lines).deep_view() + txt_lines(node.tree(), depth),
    decreases node.tree(),
{
    let ghost t = node.tree();
    let content = to_chars(node.content.as_str());
    let mut line = indent.clone();
    assert(line@ == indent@);
    push_str(&mut line, node.title.as_str());
    push_str(&mut line, "|");
    if content.len() > 30 {
        let head = crate::chars::slice_chars(&content, 0, 30);
        append_chars(&mut line, &head);
        push_str(&mut line, "...");
        assert(head@ =~= t.content.take(30));
    } else {
        append_chars(&mut line, &content);
    }
    let ghost l0 = lines.deep_view();
    assert(line@ =~= txt_line(t, depth));
    let ghost lv = line@;
    push_lines(lines, line);
    assert(lines.deep_view() + kids_lines(t.children, depth + 1, 0) =~= l0 + txt_lines(t, depth));
    let mut inner = indent.clone();
    assert(inner@ == indent@);
    push_str(&mut inner, "    ");
    proof {
        reveal_strlit("    ");
        assert(inner@ =~= spaces(4 * (depth + 1)));
    }
    let mut k: usize = 0;
    while k < node.children.len()
        invariant
            k <= node.children@.len(),
            t == node.tree(),
            inner@ == spaces(4 * (depth + 1)),
            lines.deep_view() + kids_lines(t.children, depth + 1, k as int) == l0 + txt_lines(
                t,
                depth,
            ),
        decreases node.children@.len() - k,
    {
        let ghost lb = lines.deep_view();
        assert(t.children[k as int] == node.children@[k as int].tree());
        assert(decreases_to!(t => t.children));
        assert(decreases_to!(t.children => t.children[k as int]));
        walk(&node.children[k], &inner, Ghost(depth + 1), lines);
        assert(lines.deep_view() + kids_lines(t.children, depth + 1, k + 1) =~= lb + kids_lines(
            t.children,
            depth + 1,
            k as int,
        ));
        k = k + 1;
    }
    assert(lines.deep_view() =~= l0 + txt_lines(t, depth));
}

/// Renders the indented text preview of a tree.
pub fn tree_to_txt(root: &Component) -> (r: String)
    ensures
        r@ == tree_to_txt_spec(root.tree()),
{
    let mut lines: Vec<Vec<char>> = Vec::new();
    let indent: Vec<char> = Vec::new();
    assert(indent@ =~= spaces(0));
    walk(root, &indent, Ghost(0), &mut lines);
    assert(lines.deep_view() =~= txt_lines(root.tree(), 0));
    let mut out = crate::chars::join(&lines, &to_chars("\n"));
    push_str(&mut out, "\n");
    from_chars(out.as_slice())
}

} // verus!
