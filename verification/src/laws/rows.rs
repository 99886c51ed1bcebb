//! What the side list holds.

use vstd::prelude::*;

use crate::layout::WedgeV;
use crate::nav;
use crate::side;
use crate::side::KindV;
use crate::side::RowV;
use crate::side::Scope;
use crate::sizes;
use crate::text;
use crate::tree;
use crate::tree::Tree;

verus! {

/// The color of a row is that of the last slice of its way in the two inner
/// rings.
pub proof fn law_swatch(ws: Seq<WedgeV>, path: Seq<int>, n: int)
    requires
        0 <= n <= ws.len(),
    ensures
        match side::swatch(ws, path, n) {
            Some(i) => {
                &&& 0 <= i < n
                &&& ws[i].ring <= 1 && ws[i].path == path
                &&& forall|j: int| i < j < n ==> !((#[trigger] ws[j]).ring <= 1 && ws[j].path
                    == path)
            },
            None => forall|j: int|
                0 <= j < n ==> !((#[trigger] ws[j]).ring <= 1 && ws[j].path == path),
        },
    decreases n,
{
    if n > 0 && !(ws[n - 1].ring <= 1 && ws[n - 1].path == path) {
        law_swatch(ws, path, n - 1);
    }
}

// ------------------------------------------------------------ rows of children

/// A child of the scope has a row of its own.
spec fn own_row(k: int, s: Scope) -> bool {
    if s.focus {
        k < 400
    } else {
        k < 30 && !nav::small(s.kids[k].size, s.total)
    }
}

spec fn block(k: int, s: Scope) -> Seq<RowV> {
    seq![side::item_row(s.kids[k], seq![s.offset + k], s)] + side::sub_rows(k, 0, s)
}

proof fn lemma_same_sub(k: int, j: int, s: Scope, more: Seq<Tree>)
    requires
        0 <= k < s.kids.len(),
        0 <= j,
    ensures
        side::sub_rows(k, j, Scope { kids: s.kids + more, ..s }) == side::sub_rows(k, j, s),
    decreases s.kids[k].children.len() - j,
{
    let t = Scope { kids: s.kids + more, ..s };
    assert(t.kids[k] == s.kids[k]);
    if j < s.kids[k].children.len() {
        lemma_same_sub(k, j + 1, s, more);
    }
}

proof fn lemma_rows_prefix(s: Scope, more: Seq<Tree>, k: int)
    requires
        0 <= k <= s.kids.len(),
        forall|i: int| 0 <= i < s.kids.len() ==> own_row(i, s),
    ensures
        side::rows(k, Scope { kids: s.kids + more, ..s }) == side::rows(k, s) + side::rows(
            s.kids.len() as int,
            Scope { kids: s.kids + more, ..s },
        ),
    decreases s.kids.len() - k,
{
    let t = Scope { kids: s.kids + more, ..s };
    let n = s.kids.len() as int;
    let tail = side::rows(n, t);
    if k == n {
        assert(side::rows(k, s) == Seq::<RowV>::empty());
        assert(Seq::<RowV>::empty() + tail =~= tail);
    } else {
        assert(own_row(k, s));
        assert(t.kids[k] == s.kids[k]);
        lemma_same_sub(k, 0, s, more);
        lemma_rows_prefix(s, more, k + 1);
        let b = block(k, s);
        let mid = side::rows(k + 1, s);
        assert(side::rows(k, s) == b + mid);
        assert(side::rows(k, t) == b + (mid + tail));
        assert(b + (mid + tail) =~= (b + mid) + tail);
    }
}

/// One more child has one more row, with its own way, and rows for what it holds,
/// as long as neither it nor one before it is small and there are fewer than 30
/// before it; or fewer than 400 among the smaller items.
pub proof fn law_rows_one_more(s: Scope, t: Tree)
    requires
        s.focus ==> s.kids.len() < 400,
        !s.focus ==> s.kids.len() < 30,
        !s.focus ==> !nav::small(t.size, s.total),
        !s.focus ==> forall|k: int|
            0 <= k < s.kids.len() ==> !nav::small((#[trigger] s.kids[k]).size, s.total),
    ensures
        ({
            let all = Scope { kids: s.kids.push(t), ..s };
            let n = s.kids.len() as int;
            side::rows(0, all) == side::rows(0, s).push(
                RowV {
                    label: sizes::row_text(t, s.total),
                    size: t.size,
                    swatch: side::swatch(
                        s.wedges,
                        seq![s.offset + n],
                        s.wedges.len() as int,
                    ),
                    indent: 0,
                    kind: KindV::Item { path: seq![s.offset + n], is_dir: t.is_dir },
                },
            ) + side::sub_rows(n, 0, all)
        }),
        s.kids.len() == 0 ==> side::rows(0, s).len() == 0,
{
    let all = Scope { kids: s.kids.push(t), ..s };
    let n = s.kids.len() as int;
    assert(s.kids + seq![t] =~= s.kids.push(t));
    assert forall|i: int| 0 <= i < s.kids.len() implies own_row(i, s) by {
        assert(s.focus || !nav::small(s.kids[i].size, s.total));
    }
    lemma_rows_prefix(s, seq![t], 0);
    assert(all.kids[n] == t);
    let b = block(n, all);
    let none = Seq::<RowV>::empty();
    assert(side::rows(n + 1, all) == none);
    assert(side::rows(n, all) == b + none);
    let item = side::item_row(t, seq![s.offset + n], all);
    let sub = side::sub_rows(n, 0, all);
    assert(side::rows(0, s) + (b + none) =~= side::rows(0, s).push(item) + sub);
}

/// From the first child on that is small, or the 31st, there is one row for all
/// that are left, where they have a size.
pub proof fn law_rows_smaller(s: Scope, t: Tree, rest: Seq<Tree>)
    requires
        !s.focus,
        s.kids.len() <= 30,
        nav::small(t.size, s.total) || s.kids.len() == 30,
        forall|k: int|
            0 <= k < s.kids.len() ==> !nav::small((#[trigger] s.kids[k]).size, s.total),
    ensures
        ({
            let left = tree::total(seq![t] + rest);
            side::rows(0, Scope { kids: s.kids + (seq![t] + rest), ..s }) == if left > 0 {
                side::rows(0, s).push(
                    RowV {
                        label: seq!['('] + text::decimal((1 + rest.len()) as int)
                            + " smaller items)  "@ + sizes::human_text(left) + "  "@
                            + sizes::percent_text(left, s.total) + seq!['%'],
                        size: left,
                        swatch: None,
                        indent: 0,
                        kind: KindV::Toggle { key: seq![] },
                    },
                )
            } else {
                side::rows(0, s)
            }
        }),
{
    let more = seq![t] + rest;
    let all = Scope { kids: s.kids + more, ..s };
    let n = s.kids.len() as int;
    assert forall|i: int| 0 <= i < s.kids.len() implies own_row(i, s) by {
        assert(!nav::small(s.kids[i].size, s.total));
    }
    lemma_rows_prefix(s, more, 0);
    assert(all.kids[n] == t);
    assert(all.kids.skip(n) =~= more);
    let last = side::toggle_rows(all.kids, n, seq![], all);
    assert(side::rows(n, all) == last);
    if last.len() == 0 {
        assert(side::rows(0, s) + last =~= side::rows(0, s));
    } else {
        assert(side::rows(0, s) + last =~= side::rows(0, s).push(last[0]));
    }
}

/// Among the smaller items there are 400 at most, and a note on how many more
/// there are.
pub proof fn law_rows_note(s: Scope, t: Tree, rest: Seq<Tree>)
    requires
        s.focus,
        s.kids.len() == 400,
    ensures
        side::rows(0, Scope { kids: s.kids + (seq![t] + rest), ..s }) == side::rows(0, s).push(
            RowV {
                label: "\u{2026}and "@ + text::decimal((1 + rest.len()) as int) + " more"@,
                size: 0,
                swatch: None,
                indent: 0,
                kind: KindV::Note,
            },
        ),
{
    let more = seq![t] + rest;
    let all = Scope { kids: s.kids + more, ..s };
    lemma_rows_prefix(s, more, 0);
    let last = side::rows(400, all);
    assert(last.len() == 1);
    assert(side::rows(0, s) + last =~= side::rows(0, s).push(last[0]));
}

// ------------------------------------------------------------ rows below

/// What a child holds has rows too, indented: those that are neither small nor
/// empty, the first 10 at most; and one row for all that are left, where they
/// have a size.
pub proof fn law_sub_rows(s: Scope, k: int, n: int)
    requires
        0 <= k < s.kids.len(),
        0 <= n <= s.kids[k].children.len(),
        n <= 10,
        forall|j: int|
            0 <= j < n ==> !nav::small((#[trigger] s.kids[k].children[j]).size, s.kids[k].size)
                && s.kids[k].children[j].size != 0,
        n < s.kids[k].children.len() ==> n == 10 || nav::small(
            s.kids[k].children[n].size,
            s.kids[k].size,
        ) || s.kids[k].children[n].size == 0,
    ensures
        ({
            let c = s.kids[k];
            let i = s.offset + k;
            let rows = side::sub_rows(k, 0, s);
            let left = tree::total(c.children.skip(n));
            &&& rows.len() == n + if n < c.children.len() && left > 0 {
                1
            } else {
                0int
            }
            &&& forall|j: int|
                0 <= j < n ==> #[trigger] rows[j] == (RowV {
                    label: sizes::row_text(c.children[j], s.total),
                    size: c.children[j].size,
                    swatch: side::swatch(s.wedges, seq![i, j], s.wedges.len() as int),
                    indent: 1,
                    kind: KindV::Item { path: seq![i, j], is_dir: c.children[j].is_dir },
                })
            &&& n < c.children.len() && left > 0 ==> rows[n] == (RowV {
                label: seq!['('] + text::decimal(c.children.len() - n) + " smaller items)  "@
                    + sizes::human_text(left) + "  "@ + sizes::percent_text(left, s.total)
                    + seq!['%'],
                size: left,
                swatch: None,
                indent: 1,
                kind: KindV::Toggle { key: seq![i] },
            })
        }),
{
    let items = item_rows(k, 0, n, s);
    let last = last_rows(k, n, s);
    lemma_sub_rows(s, k, n, 0);
    lemma_item_rows(s, k, n, 0);
    assert forall|j: int| 0 <= j < n implies #[trigger] (items + last)[j] == side::item_row(
        s.kids[k].children[j],
        seq![s.offset + k, j],
        s,
    ) by {
        assert(items[j - 0] == (items + last)[j]);
    }
}

/// The rows of the children `from..n` of a child.
spec fn item_rows(k: int, from: int, n: int, s: Scope) -> Seq<RowV>
    decreases n - from,
{
    if from >= n {
        seq![]
    } else {
        seq![side::item_row(s.kids[k].children[from], seq![s.offset + k, from], s)] + item_rows(
            k,
            from + 1,
            n,
            s,
        )
    }
}

/// The row of those from the `n`th on.
spec fn last_rows(k: int, n: int, s: Scope) -> Seq<RowV> {
    if n < s.kids[k].children.len() {
        side::toggle_rows(s.kids[k].children, n, seq![s.offset + k], s)
    } else {
        seq![]
    }
}

proof fn lemma_sub_rows(s: Scope, k: int, n: int, from: int)
    requires
        0 <= k < s.kids.len(),
        0 <= from <= n <= s.kids[k].children.len(),
        n <= 10,
        forall|j: int|
            0 <= j < n ==> !nav::small((#[trigger] s.kids[k].children[j]).size, s.kids[k].size)
                && s.kids[k].children[j].size != 0,
        n < s.kids[k].children.len() ==> n == 10 || nav::small(
            s.kids[k].children[n].size,
            s.kids[k].size,
        ) || s.kids[k].children[n].size == 0,
    ensures
        side::sub_rows(k, from, s) == item_rows(k, from, n, s) + last_rows(k, n, s),
    decreases n - from,
{
    let last = last_rows(k, n, s);
    if from < n {
        let gc = s.kids[k].children[from];
        assert(!nav::small(gc.size, s.kids[k].size) && gc.size != 0);
        lemma_sub_rows(s, k, n, from + 1);
        let one = seq![side::item_row(gc, seq![s.offset + k, from], s)];
        let mid = item_rows(k, from + 1, n, s);
        assert(one + (mid + last) =~= (one + mid) + last);
    } else {
        assert(Seq::<RowV>::empty() + last =~= last);
    }
}

proof fn lemma_item_rows(s: Scope, k: int, n: int, from: int)
    requires
        from <= n,
    ensures
        item_rows(k, from, n, s).len() == n - from,
        forall|j: int|
            from <= j < n ==> #[trigger] item_rows(k, from, n, s)[j - from] == side::item_row(
                s.kids[k].children[j],
                seq![s.offset + k, j],
                s,
            ),
    decreases n - from,
{
    if from < n {
        lemma_item_rows(s, k, n, from + 1);
        let rest = item_rows(k, from + 1, n, s);
        let all = item_rows(k, from, n, s);
        assert forall|j: int| from <= j < n implies #[trigger] all[j - from] == side::item_row(
            s.kids[k].children[j],
            seq![s.offset + k, j],
            s,
        ) by {
            if j > from {
                assert(all[j - from] == rest[j - (from + 1)]);
            }
        }
    }
}

} // verus!
