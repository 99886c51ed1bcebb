//! The side list: the largest children of what is shown, and theirs.

use vstd::prelude::*;

use crate::layout;
use crate::layout::Wedge;
use crate::layout::WedgeV;
use crate::nav;
use crate::sizes;
use crate::text;
use crate::tree;
use crate::tree::Node;
use crate::tree::Tree;

verus! {

/// How many rows children get, and how many theirs.
pub const MAX_TOP: usize = 30;

pub const MAX_SUB: usize = 10;

/// How many rows the view of the smaller items has.
pub const MAX_FOCUS_ROWS: usize = 400;

/// What a row stands for.
pub enum SideKind {
    /// A file or a directory.
    Item { path: Vec<usize>, is_dir: bool },
    /// The smaller items of what is shown, or of the child that the key names.
    Toggle { key: Vec<usize> },
    Note,
}

pub struct SideRow {
    pub label: String,
    /// The size that the label tells; 0 for a note.
    pub size: u64,
    /// The slice that has the row's color.
    pub swatch: Option<usize>,
    pub indent: u8,
    pub kind: SideKind,
}

/// What a [`SideKind`] stands for.
pub ghost enum KindV {
    Item { path: Seq<int>, is_dir: bool },
    Toggle { key: Seq<int> },
    Note,
}

/// What a [`SideRow`] stands for.
pub ghost struct RowV {
    pub label: Seq<char>,
    pub size: int,
    pub swatch: Option<int>,
    pub indent: int,
    pub kind: KindV,
}

impl View for SideKind {
    type V = KindV;

    open spec fn view(&self) -> KindV {
        match *self {
            SideKind::Item { path, is_dir } => KindV::Item { path: layout::indices(path@), is_dir },
            SideKind::Toggle { key } => KindV::Toggle { key: layout::indices(key@) },
            SideKind::Note => KindV::Note,
        }
    }
}

pub open spec fn index_view(i: Option<usize>) -> Option<int> {
    match i {
        Some(n) => Some(n as int),
        None => None,
    }
}

impl View for SideRow {
    type V = RowV;

    open spec fn view(&self) -> RowV {
        RowV {
            label: self.label@,
            size: self.size as int,
            swatch: index_view(self.swatch),
            indent: self.indent as int,
            kind: self.kind@,
        }
    }
}

pub open spec fn row_views(rows: Seq<SideRow>) -> Seq<RowV> {
    Seq::new(rows.len(), |i: int| rows[i]@)
}

// ------------------------------------------------------------ rows

/// What the rows are of: the children shown, the index of the first, the size
/// of all, whether they are the smaller items, and the chart beside them.
pub ghost struct Scope {
    pub kids: Seq<Tree>,
    pub offset: int,
    pub total: int,
    pub focus: bool,
    pub wedges: Seq<WedgeV>,
}

/// The last of the first `n` slices that leads there, in the two inner rings.
pub open spec fn swatch(ws: Seq<WedgeV>, path: Seq<int>, n: int) -> Option<int>
    decreases n,
{
    if n <= 0 {
        None
    } else if ws[n - 1].ring <= 1 && ws[n - 1].path == path {
        Some(n - 1)
    } else {
        swatch(ws, path, n - 1)
    }
}

pub open spec fn toggle_text(n: int, size: int, total: int) -> Seq<char> {
    seq!['('] + text::decimal(n) + " smaller items)  "@ + sizes::human_text(size) + "  "@
        + sizes::percent_text(size, total) + seq!['%']
}

pub open spec fn item_row(c: Tree, path: Seq<int>, s: Scope) -> RowV {
    RowV {
        label: sizes::row_text(c, s.total),
        size: c.size,
        swatch: swatch(s.wedges, path, s.wedges.len() as int),
        indent: path.len() - 1,
        kind: KindV::Item { path, is_dir: c.is_dir },
    }
}

/// One row for the children from `i` on, where they have a size.
pub open spec fn toggle_rows(ts: Seq<Tree>, i: int, key: Seq<int>, s: Scope) -> Seq<RowV> {
    let rest = tree::total(ts.skip(i));
    if rest > 0 {
        seq![
            RowV {
                label: toggle_text(ts.len() - i, rest, s.total),
                size: rest,
                swatch: None,
                indent: key.len() as int,
                kind: KindV::Toggle { key },
            },
        ]
    } else {
        seq![]
    }
}

/// The rows of the children of child `k` from `j` on.
pub open spec fn sub_rows(k: int, j: int, s: Scope) -> Seq<RowV>
    decreases s.kids[k].children.len() - j,
{
    let c = s.kids[k];
    let i = s.offset + k;
    if j < 0 || j >= c.children.len() {
        seq![]
    } else {
        let gc = c.children[j];
        if nav::small(gc.size, c.size) || gc.size == 0 || j >= MAX_SUB {
            toggle_rows(c.children, j, seq![i], s)
        } else {
            seq![item_row(gc, seq![i, j], s)] + sub_rows(k, j + 1, s)
        }
    }
}

pub open spec fn note_text(n: int) -> Seq<char> {
    "\u{2026}and "@ + text::decimal(n) + " more"@
}

/// The rows of the children from `k` on, each before those of its own. The
/// small ones, and those too many, are one row.
pub open spec fn rows(k: int, s: Scope) -> Seq<RowV>
    decreases s.kids.len() - k,
{
    if k < 0 || k >= s.kids.len() {
        seq![]
    } else if s.focus && k >= MAX_FOCUS_ROWS {
        seq![
            RowV {
                label: note_text(s.kids.len() - k),
                size: 0,
                swatch: None,
                indent: 0,
                kind: KindV::Note,
            },
        ]
    } else if !s.focus && (nav::small(s.kids[k].size, s.total) || k >= MAX_TOP) {
        toggle_rows(s.kids, k, seq![], s)
    } else {
        seq![item_row(s.kids[k], seq![s.offset + k], s)] + sub_rows(k, 0, s) + rows(k + 1, s)
    }
}

/// Whether each size is one of the machine.
pub open spec fn fitting(rows: Seq<RowV>) -> bool {
    forall|i: int| 0 <= i < rows.len() ==> (#[trigger] rows[i]).size <= u64::MAX
}

proof fn lemma_fitting_add(a: Seq<RowV>, b: Seq<RowV>)
    ensures
        fitting(a + b) == (fitting(a) && fitting(b)),
{
    let c = a + b;
    if fitting(c) {
        assert forall|i: int| 0 <= i < a.len() implies (#[trigger] a[i]).size <= u64::MAX by {
            assert(c[i] == a[i]);
        }
        assert forall|i: int| 0 <= i < b.len() implies (#[trigger] b[i]).size <= u64::MAX by {
            assert(c[a.len() + i] == b[i]);
        }
    }
}

proof fn lemma_views_push(rows: Seq<SideRow>, r: SideRow)
    ensures
        row_views(rows.push(r)) == row_views(rows).push(r@),
{
    assert(row_views(rows.push(r)) =~= row_views(rows).push(r@));
}

/// Whether two ways are the same.
pub fn same_way(a: &[usize], b: &[usize]) -> (r: bool)
    ensures
        r == (layout::indices(a@) == layout::indices(b@)),
{
    let ghost x = layout::indices(a@);
    let ghost y = layout::indices(b@);
    if a.len() != b.len() {
        assert(x.len() != y.len());
        return false;
    }
    for i in 0..a.len()
        invariant
            a@.len() == b@.len(),
            x == layout::indices(a@),
            y == layout::indices(b@),
            forall|j: int| 0 <= j < i ==> x[j] == y[j],
    {
        if a[i] != b[i] {
            assert(x[i as int] != y[i as int]);
            return false;
        }
    }
    assert(x == y);
    true
}

fn find_swatch(ws: &Vec<Wedge>, path: &[usize]) -> (r: Option<usize>)
    ensures
        index_view(r) == swatch(
            layout::wedge_views(ws@),
            layout::indices(path@),
            ws@.len() as int,
        ),
{
    let ghost views = layout::wedge_views(ws@);
    let ghost p = layout::indices(path@);
    let mut n: usize = ws.len();
    while n > 0
        invariant
            views == layout::wedge_views(ws@),
            p == layout::indices(path@),
            n <= ws@.len(),
            swatch(views, p, ws@.len() as int) == swatch(views, p, n as int),
        decreases n,
    {
        proof {
            assert(views[n - 1] == ws@[n - 1]@);
        }
        if ws[n - 1].ring <= 1 && same_way(ws[n - 1].path.as_slice(), path) {
            return Some(n - 1);
        }
        n = n - 1;
    }
    None
}

fn item(c: &Node, path: Vec<usize>, indent: u8, total: u64, ws: &Vec<Wedge>, Ghost(s): Ghost<Scope>) -> (r:
    SideRow)
    requires
        path@.len() == indent + 1,
        s.total == total,
        s.wedges == layout::wedge_views(ws@),
    ensures
        r@ == item_row(c@, layout::indices(path@), s),
{
    let label = sizes::row_label(c, total);
    let swatch = find_swatch(ws, path.as_slice());
    SideRow {
        label,
        size: c.size,
        swatch,
        indent,
        kind: SideKind::Item { path, is_dir: c.is_dir },
    }
}

fn push_toggle(
    nodes: &[Node],
    i: usize,
    key: Vec<usize>,
    indent: u8,
    total: u64,
    out: &mut Vec<SideRow>,
    Ghost(s): Ghost<Scope>,
) -> (whole: bool)
    requires
        i <= nodes@.len(),
        key@.len() == indent,
        s.total == total,
        total > 0,
    ensures
        whole == fitting(
            toggle_rows(tree::trees(nodes@), i as int, layout::indices(key@), s),
        ),
        whole ==> row_views(final(out)@) == row_views(old(out)@) + toggle_rows(
            tree::trees(nodes@),
            i as int,
            layout::indices(key@),
            s,
        ),
{
    let ghost ts = tree::trees(nodes@);
    let ghost goal = toggle_rows(ts, i as int, layout::indices(key@), s);
    let ghost before = row_views(out@);
    let rest: u64 = match tree::total_from(nodes, i) {
        Some(n) => n,
        None => {
            proof {
                assert(goal[0].size > u64::MAX);
            }
            return false;
        },
    };
    if rest == 0 {
        assert(before + goal == before);
        return true;
    }
    let mut label = String::new();
    label.push('(');
    text::push_decimal(&mut label, (nodes.len() - i) as u128);
    label.append(" smaller items)  ");
    let size = sizes::human(rest);
    label.append(size.as_str());
    label.append("  ");
    let share = sizes::percent(rest, total);
    label.append(share.as_str());
    label.push('%');
    let row = SideRow { label, size: rest, swatch: None, indent, kind: SideKind::Toggle { key } };
    proof {
        assert(row.label@ == toggle_text(ts.len() - i, rest as int, total as int));
        assert(goal == seq![row@]);
        lemma_views_push(out@, row);
        assert(before.push(row@) == before + goal);
    }
    out.push(row);
    true
}

/// The row of child `j` of child `i`.
fn sub_item(gc: &Node, i: usize, j: usize, total: u64, ws: &Vec<Wedge>, Ghost(s): Ghost<Scope>) -> (r:
    SideRow)
    requires
        s.total == total,
        s.wedges == layout::wedge_views(ws@),
    ensures
        r@ == item_row(gc@, seq![i as int, j as int], s),
{
    let mut path: Vec<usize> = Vec::new();
    path.push(i);
    path.push(j);
    assert(layout::indices(path@) =~= seq![i as int, j as int]);
    item(gc, path, 1, total, ws, Ghost(s))
}

/// One row for the children of child `i` from `j` on.
fn push_sub_toggle(
    nodes: &[Node],
    j: usize,
    i: usize,
    total: u64,
    out: &mut Vec<SideRow>,
    Ghost(s): Ghost<Scope>,
) -> (whole: bool)
    requires
        j <= nodes@.len(),
        s.total == total,
        total > 0,
    ensures
        whole == fitting(toggle_rows(tree::trees(nodes@), j as int, seq![i as int], s)),
        whole ==> row_views(final(out)@) == row_views(old(out)@) + toggle_rows(
            tree::trees(nodes@),
            j as int,
            seq![i as int],
            s,
        ),
{
    let mut key: Vec<usize> = Vec::new();
    key.push(i);
    assert(layout::indices(key@) =~= seq![i as int]);
    push_toggle(nodes, j, key, 1, total, out, Ghost(s))
}

proof fn lemma_sub_rows_step(k: int, j: int, s: Scope, done: Seq<RowV>)
    requires
        0 <= k < s.kids.len(),
        0 <= j < s.kids[k].children.len(),
        ({
            let gc = s.kids[k].children[j];
            !(nav::small(gc.size, s.kids[k].size) || gc.size == 0 || j >= MAX_SUB) && gc.size
                <= u64::MAX
        }),
        fitting(done),
    ensures
        ({
            let head = seq![item_row(s.kids[k].children[j], seq![s.offset + k, j], s)];
            &&& done + sub_rows(k, j, s) == (done + head) + sub_rows(k, j + 1, s)
            &&& fitting(done + head)
        }),
{
    let row = item_row(s.kids[k].children[j], seq![s.offset + k, j], s);
    assert(row.size == s.kids[k].children[j].size);
    let none = Seq::<RowV>::empty();
    lemma_step_fits(done, row, none, sub_rows(k, j + 1, s));
    assert(seq![row] + none =~= seq![row]);
    assert(done + seq![row] + none =~= done + seq![row]);
}

fn push_sub_rows(
    c: &Node,
    i: usize,
    total: u64,
    ws: &Vec<Wedge>,
    out: &mut Vec<SideRow>,
    Ghost(s): Ghost<Scope>,
    Ghost(k): Ghost<int>,
) -> (whole: bool)
    requires
        0 <= k < s.kids.len(),
        c@ == s.kids[k],
        i == s.offset + k,
        s.total == total,
        total > 0,
        s.wedges == layout::wedge_views(ws@),
    ensures
        whole == fitting(sub_rows(k, 0, s)),
        whole ==> row_views(final(out)@) == row_views(old(out)@) + sub_rows(k, 0, s),
{
    let ghost before = row_views(out@);
    let ghost goal = sub_rows(k, 0, s);
    let ghost mut done: Seq<RowV> = seq![];
    let ghost mut rest: Seq<RowV> = goal;
    proof {
        tree::lemma_tree_children(*c);
        assert(done + rest =~= goal);
        assert(before + done == before);
    }
    for j in 0..c.children.len()
        invariant
            0 <= k < s.kids.len(),
            c@ == s.kids[k],
            c@.children == tree::trees(c.children@),
            i == s.offset + k,
            s.total == total,
            total > 0,
            s.wedges == layout::wedge_views(ws@),
            goal == sub_rows(k, 0, s),
            goal == done + rest,
            rest == sub_rows(k, j as int, s),
            fitting(done),
            before == row_views(old(out)@),
            row_views(out@) == before + done,
    {
        let gc = &c.children[j];
        assert(c@.children[j as int] == gc@);
        if nav::is_small(gc.size, c.size) || gc.size == 0 || j >= MAX_SUB {
            proof {
                lemma_fitting_add(done, rest);
                assert(before + done + rest =~= before + goal);
            }
            return push_sub_toggle(c.children.as_slice(), j, i, total, out, Ghost(s));
        }
        let row = sub_item(gc, i, j, total, ws, Ghost(s));
        proof {
            lemma_sub_rows_step(k, j as int, s, done);
            lemma_views_push(out@, row);
            assert((before + done).push(row@) == before + (done + seq![row@]));
            done = done + seq![row@];
            rest = sub_rows(k, j + 1, s);
        }
        out.push(row);
    }
    proof {
        assert(rest == Seq::<RowV>::empty());
        assert(done + rest =~= done);
    }
    true
}

proof fn lemma_step_fits(done: Seq<RowV>, row: RowV, sub: Seq<RowV>, next: Seq<RowV>)
    requires
        fitting(done),
        row.size <= u64::MAX,
    ensures
        done + (seq![row] + sub + next) == (done + seq![row] + sub) + next,
        fitting(done + seq![row] + sub) == fitting(sub),
        fitting(done + (seq![row] + sub + next)) ==> fitting(sub),
{
    let head = seq![row];
    assert(done + (head + sub + next) =~= (done + head + sub) + next);
    assert(fitting(head));
    lemma_fitting_add(done, head);
    lemma_fitting_add(done + head, sub);
    lemma_fitting_add(done + head + sub, next);
}

proof fn lemma_rows_step(k: int, s: Scope, done: Seq<RowV>)
    requires
        0 <= k < s.kids.len(),
        !(s.focus && k >= MAX_FOCUS_ROWS),
        !(!s.focus && (nav::small(s.kids[k].size, s.total) || k >= MAX_TOP)),
        s.kids[k].size <= u64::MAX,
        fitting(done),
    ensures
        ({
            let head = seq![item_row(s.kids[k], seq![s.offset + k], s)];
            let sub = sub_rows(k, 0, s);
            &&& done + rows(k, s) == (done + head + sub) + rows(k + 1, s)
            &&& fitting(done + head + sub) == fitting(sub)
            &&& fitting(done + rows(k, s)) ==> fitting(sub)
        }),
{
    let row = item_row(s.kids[k], seq![s.offset + k], s);
    assert(row.size == s.kids[k].size);
    lemma_step_fits(done, row, sub_rows(k, 0, s), rows(k + 1, s));
}

fn note(n: usize) -> (r: SideRow)
    ensures
        r@ == (RowV {
            label: note_text(n as int),
            size: 0,
            swatch: None,
            indent: 0,
            kind: KindV::Note,
        }),
{
    let mut label = String::new();
    label.append("\u{2026}and ");
    text::push_decimal(&mut label, n as u128);
    label.append(" more");
    proof {
        assert(label@ == note_text(n as int));
    }
    SideRow { label, size: 0, swatch: None, indent: 0, kind: SideKind::Note }
}

/// The rows of some children; none where a size is too great for the machine.
pub fn side_rows(
    kids: &[Node],
    offset: usize,
    total: u64,
    focus: bool,
    wedges: &Vec<Wedge>,
) -> (r: Option<Vec<SideRow>>)
    requires
        offset + kids@.len() <= usize::MAX,
        total > 0,
    ensures
        ({
            let s = Scope {
                kids: tree::trees(kids@),
                offset: offset as int,
                total: total as int,
                focus,
                wedges: layout::wedge_views(wedges@),
            };
            match r {
                Some(v) => row_views(v@) == rows(0, s) && fitting(rows(0, s)),
                None => !fitting(rows(0, s)),
            }
        }),
{
    let ghost s = Scope {
        kids: tree::trees(kids@),
        offset: offset as int,
        total: total as int,
        focus,
        wedges: layout::wedge_views(wedges@),
    };
    let ghost goal = rows(0, s);
    let mut out: Vec<SideRow> = Vec::new();
    proof {
        assert(row_views(out@) == Seq::<RowV>::empty());
        assert(row_views(out@) + goal == goal);
    }
    for k in 0..kids.len()
        invariant
            offset + kids@.len() <= usize::MAX,
            total > 0,
            s.kids == tree::trees(kids@),
            s.offset == offset,
            s.total == total,
            s.focus == focus,
            s.wedges == layout::wedge_views(wedges@),
            goal == rows(0, s),
            goal == row_views(out@) + rows(k as int, s),
            fitting(row_views(out@)),
    {
        let c = &kids[k];
        let ghost done = row_views(out@);
        let ghost rest = rows(k as int, s);
        proof {
            assert(s.kids[k as int] == c@);
        }
        if focus && k >= MAX_FOCUS_ROWS {
            let row = note(kids.len() - k);
            proof {
                lemma_views_push(out@, row);
                lemma_fitting_add(done, rest);
                assert(done.push(row@) == done + rest);
            }
            out.push(row);
            return Some(out);
        }
        if !focus && (nav::is_small(c.size, total) || k >= MAX_TOP) {
            let key: Vec<usize> = Vec::new();
            proof {
                assert(layout::indices(key@) == Seq::<int>::empty());
                lemma_fitting_add(done, rest);
            }
            if push_toggle(kids, k, key, 0, total, &mut out, Ghost(s)) {
                return Some(out);
            }
            return None;
        }
        let mut path: Vec<usize> = Vec::new();
        path.push(offset + k);
        let row = item(c, path, 0, total, wedges, Ghost(s));
        proof {
            assert(layout::indices(path@) == seq![s.offset + k]);
            lemma_views_push(out@, row);
            assert(done.push(row@) == done + seq![row@]);
            lemma_rows_step(k as int, s, done);
        }
        out.push(row);
        if !push_sub_rows(c, offset + k, total, wedges, &mut out, Ghost(s), Ghost(k as int)) {
            return None;
        }
    }
    proof {
        assert(rows(kids@.len() as int, s) == Seq::<RowV>::empty());
        assert(row_views(out@) + Seq::<RowV>::empty() == row_views(out@));
    }
    Some(out)
}

// ------------------------------------------------------------ laws

/// A row for an item leads to it, at its level; one for smaller items names a
/// child that there is, or none.
pub open spec fn row_leads(r: RowV, s: Scope) -> bool {
    match r.kind {
        KindV::Item { path, is_dir } => {
            &&& r.indent + 1 == path.len() <= 2
            &&& layout::reached(s.kids, s.offset, path) matches Some(t) && {
                &&& t.is_dir == is_dir
                &&& t.size == r.size
                &&& r.label == sizes::row_text(t, s.total)
            }
        },
        KindV::Toggle { key } => {
            &&& r.size > 0
            &&& r.indent == key.len() <= 1
            &&& key.len() == 1 ==> layout::reached(s.kids, s.offset, key) is Some
        },
        KindV::Note => true,
    }
}

proof fn lemma_sub_rows_lead(k: int, j: int, s: Scope)
    requires
        0 <= k < s.kids.len(),
        0 <= j,
    ensures
        forall|n: int| 0 <= n < sub_rows(k, j, s).len() ==> row_leads(#[trigger] sub_rows(k, j, s)[n], s),
        j <= MAX_SUB ==> sub_rows(k, j, s).len() <= MAX_SUB - j + 1,
    decreases s.kids[k].children.len() - j,
{
    let c = s.kids[k];
    let i = s.offset + k;
    assert(seq![i][0] == i);
    if j < c.children.len() {
        let gc = c.children[j];
        if nav::small(gc.size, c.size) || gc.size == 0 || j >= MAX_SUB {
        } else {
            lemma_sub_rows_lead(k, j + 1, s);
            let row = item_row(gc, seq![i, j], s);
            let rest = sub_rows(k, j + 1, s);
            assert(layout::reached(s.kids, s.offset, seq![i, j]) == Some(gc)) by {
                assert(seq![i, j].skip(1) == seq![j]);
                assert(layout::reached(c.children, 0, seq![j]) == Some(gc));
            }
            assert forall|n: int| 0 <= n < sub_rows(k, j, s).len() implies row_leads(
                #[trigger] sub_rows(k, j, s)[n],
                s,
            ) by {
                if n > 0 {
                    assert(sub_rows(k, j, s)[n] == rest[n - 1]);
                }
            }
        }
    }
}

/// How many children get rows of their own.
pub open spec fn row_limit(focus: bool) -> int {
    if focus {
        MAX_FOCUS_ROWS as int
    } else {
        MAX_TOP as int
    }
}

proof fn lemma_rows_lead(k: int, s: Scope)
    requires
        0 <= k,
    ensures
        forall|n: int| 0 <= n < rows(k, s).len() ==> row_leads(#[trigger] rows(k, s)[n], s),
        k <= row_limit(s.focus) ==> rows(k, s).len() <= (row_limit(s.focus) - k) * (MAX_SUB + 2) + 1,
    decreases s.kids.len() - k,
{
    if k < s.kids.len() {
        if s.focus && k >= MAX_FOCUS_ROWS {
        } else if !s.focus && (nav::small(s.kids[k].size, s.total) || k >= MAX_TOP) {
        } else {
            lemma_sub_rows_lead(k, 0, s);
            lemma_rows_lead(k + 1, s);
            lemma_item_leads(k, s);
            let row = item_row(s.kids[k], seq![s.offset + k], s);
            lemma_of_all(|v: RowV| row_leads(v, s), row, sub_rows(k, 0, s), rows(k + 1, s));
        }
    }
}

proof fn lemma_item_leads(k: int, s: Scope)
    requires
        0 <= k < s.kids.len(),
    ensures
        row_leads(item_row(s.kids[k], seq![s.offset + k], s), s),
{
    assert(seq![s.offset + k][0] == s.offset + k);
}

/// What holds of all parts holds of the whole.
proof fn lemma_of_all(p: spec_fn(RowV) -> bool, row: RowV, sub: Seq<RowV>, next: Seq<RowV>)
    requires
        p(row),
        forall|k: int| 0 <= k < sub.len() ==> p(#[trigger] sub[k]),
        forall|k: int| 0 <= k < next.len() ==> p(#[trigger] next[k]),
    ensures
        forall|k: int|
            0 <= k < (seq![row] + sub + next).len() ==> p(#[trigger] (seq![row] + sub + next)[k]),
{
    let all = seq![row] + sub + next;
    assert forall|k: int| 0 <= k < all.len() implies p(#[trigger] all[k]) by {
        if k == 0 {
        } else if k <= sub.len() {
            assert(all[k] == sub[k - 1]);
        } else {
            assert(all[k] == next[k - 1 - sub.len()]);
        }
    }
}

/// Each row leads to what it stands for.
pub proof fn law_rows_lead(s: Scope, n: int)
    requires
        0 <= n < rows(0, s).len(),
    ensures
        row_leads(rows(0, s)[n], s),
{
    lemma_rows_lead(0, s);
}

/// However many children there are, the list stays short: one row for each
/// child up to a limit, behind it one for each of its own up to a limit and one
/// for the rest, and at last one row for the rest.
pub proof fn law_rows_few(s: Scope)
    ensures
        rows(0, s).len() <= row_limit(s.focus) * (MAX_SUB + 2) + 1,
{
    lemma_rows_lead(0, s);
}

} // verus!
