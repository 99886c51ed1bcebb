//! What the chart of a directory holds.

use vstd::prelude::*;

use crate::double;
use crate::float;
use crate::hue;
use crate::layout;
use crate::layout::SectorV;
use crate::layout::WedgeV;
use crate::paths;
use crate::single;
use crate::single::Sgl;
use crate::text;
use crate::tree;
use crate::tree::Tree;

verus! {

/// The angle that a child of some size takes of a sector: its share of the
/// directory's size, of the angle of the sector.
spec fn angle(size: int, s: SectorV) -> Sgl {
    single::product(
        single::difference(s.a1, s.a0),
        single::narrowed(double::double_div(double::double_of(size), double::double_of(s.size))),
    )
}

/// Less than 0.02, as binary32 has it.
spec fn thin(angle: Sgl) -> bool {
    single::less(angle, Sgl::Num(float::Flo { m: 10737418, e: -29 }))
}

/// None of some children takes less than 0.02.
spec fn none_thin(ts: Seq<Tree>, s: SectorV) -> bool {
    forall|k: int| 0 <= k < ts.len() ==> !thin(angle((#[trigger] ts[k]).size, s))
}

/// Where the angles of some children end that follow each other.
spec fn edge(ts: Seq<Tree>, s: SectorV) -> Sgl
    decreases ts.len(),
{
    if ts.len() == 0 {
        s.a0
    } else {
        single::sum(edge(ts.drop_last(), s), angle(ts.last().size, s))
    }
}

/// The slice of the child that follows `n` others, from the angle `a` on.
spec fn slice_from(t: Tree, n: int, a: Sgl, s: SectorV) -> WedgeV {
    WedgeV {
        ring: s.ring,
        a0: a,
        a1: single::sum(a, angle(t.size, s)),
        hue: hue_from(t.size, a, s),
        is_dir: t.is_dir,
        lump: false,
        name: t.name,
        size: t.size,
        frac: single::quotient(single::single_of(t.size), single::single_of(s.whole)),
        path: s.path.push(s.first + n),
        abs: Some(paths::joined(s.abs, vstd::utf8::encode_utf8(t.name))),
    }
}

/// The hue at the middle of a slice.
spec fn hue_from(size: int, a: Sgl, s: SectorV) -> Sgl {
    hue::hue(
        s.hue,
        single::sum(
            a,
            single::product(angle(size, s), Sgl::Num(float::Flo { m: 0x80_0000, e: -24 })),
        ),
        s.a0,
        single::difference(s.a1, s.a0),
    )
}

/// The sector of that child, one ring further out, with the angles of its
/// slice.
spec fn sector_from(t: Tree, n: int, a: Sgl, s: SectorV) -> SectorV {
    SectorV {
        size: t.size,
        abs: paths::joined(s.abs, vstd::utf8::encode_utf8(t.name)),
        path: s.path.push(s.first + n),
        first: 0,
        ring: s.ring + 1,
        a0: a,
        a1: single::sum(a, angle(t.size, s)),
        whole: s.whole,
        hue: Some(hue_from(t.size, a, s)),
    }
}

proof fn lemma_slice(t: Tree, n: int, a: Sgl, s: SectorV)
    ensures
        layout::slice(t, n, a, s) == slice_from(t, n, a, s),
        layout::within(t, n, a, s) == sector_from(t, n, a, s),
        layout::sliver(t.size, s) == thin(angle(t.size, s)),
        layout::below(t, n, a, s) == if t.is_dir {
            layout::chart(t.children, sector_from(t, n, a, s))
        } else {
            seq![]
        },
{
    reveal(layout::frac);
    reveal(layout::hue_at);
    reveal_with_fuel(layout::below, 2);
}

proof fn lemma_prefix(ts: Seq<Tree>, more: Seq<Tree>, j: int, s: SectorV)
    requires
        0 <= j <= ts.len(),
        none_thin(ts, s),
    ensures
        layout::chart_from(ts + more, j, edge(ts.take(j), s), s) == layout::chart_from(
            ts,
            j,
            edge(ts.take(j), s),
            s,
        ) + layout::chart_from(ts + more, ts.len() as int, edge(ts, s), s),
    decreases ts.len() - j,
{
    let all = ts + more;
    let a = edge(ts.take(j), s);
    let tail = layout::chart_from(all, ts.len() as int, edge(ts, s), s);
    if j == ts.len() {
        assert(ts.take(j) =~= ts);
        assert(layout::chart_from(ts, j, a, s) == Seq::<WedgeV>::empty());
        assert(Seq::<WedgeV>::empty() + tail =~= tail);
    } else {
        let t = ts[j];
        lemma_slice(t, j, a, s);
        assert(all[j] == t);
        assert(ts.take(j + 1).drop_last() =~= ts.take(j));
        assert(ts.take(j + 1).last() == t);
        let b = edge(ts.take(j + 1), s);
        assert(b == single::sum(a, layout::sweep(t.size, s)));
        lemma_prefix(ts, more, j + 1, s);
        let one = seq![layout::slice(t, j, a, s)] + layout::below(t, j, a, s);
        let mid = layout::chart_from(ts, j + 1, b, s);
        assert(layout::chart_from(all, j, a, s) == one + (mid + tail));
        assert(layout::chart_from(ts, j, a, s) == one + mid);
        assert(one + (mid + tail) =~= (one + mid) + tail);
    }
}

proof fn lemma_chart_more(ts: Seq<Tree>, more: Seq<Tree>, s: SectorV)
    requires
        s.size != 0,
        s.ring < 20,
        none_thin(ts, s),
    ensures
        layout::chart(ts + more, s) == layout::chart(ts, s) + layout::chart_from(
            ts + more,
            ts.len() as int,
            edge(ts, s),
            s,
        ),
{
    assert(ts.take(0) =~= Seq::<Tree>::empty());
    lemma_prefix(ts, more, 0, s);
}

/// Only an empty directory, one without children, and one beyond the rings
/// have no slice.
pub proof fn law_chart_empty(ts: Seq<Tree>, s: SectorV)
    requires
        s.size == 0 || s.ring >= 20 || ts.len() == 0,
    ensures
        layout::chart(ts, s).len() == 0,
{
}

/// One more child adds one slice behind those before it, and then, where it is
/// a directory, the chart of its own children, one ring further out and within
/// the angles of the slice.
proof fn lemma_chart_one_more(ts: Seq<Tree>, t: Tree, s: SectorV)
    requires
        s.size != 0,
        s.ring < 20,
        none_thin(ts, s),
        !thin(angle(t.size, s)),
    ensures
        ({
            let n = ts.len() as int;
            let a = edge(ts, s);
            layout::chart(ts.push(t), s) == layout::chart(ts, s).push(slice_from(t, n, a, s)) + (
            if t.is_dir {
                layout::chart(t.children, sector_from(t, n, a, s))
            } else {
                seq![]
            })
        }),
{
    let n = ts.len() as int;
    let a = edge(ts, s);
    let all = ts + seq![t];
    assert(all =~= ts.push(t));
    assert(all[n] == t);
    lemma_chart_more(ts, seq![t], s);
    lemma_slice(t, n, a, s);
    let w = slice_from(t, n, a, s);
    let sub = layout::below(t, n, a, s);
    let front = layout::chart(ts, s);
    let none = Seq::<WedgeV>::empty();
    let b = single::sum(a, layout::sweep(t.size, s));
    assert(layout::chart_from(all, n + 1, b, s) == none);
    assert(layout::chart_from(all, n, a, s) == seq![w] + sub + none);
    assert(front + (seq![w] + sub + none) =~= front.push(w) + sub);
}

/// From the first child on that is too thin, there is one lump for all that
/// are left, where they have a size and there is room.
proof fn lemma_chart_lump(ts: Seq<Tree>, t: Tree, rest: Seq<Tree>, s: SectorV)
    requires
        s.size != 0,
        s.ring < 20,
        none_thin(ts, s),
        thin(angle(t.size, s)),
    ensures
        ({
            let a = edge(ts, s);
            let left = tree::total(seq![t] + rest);
            let gap = single::difference(s.a1, a);
            let room = single::less(a, s.a1) && single::less(
                Sgl::Num(float::Flo { m: 8589935, e: -32 }),
                gap,
            );
            layout::chart(ts + (seq![t] + rest), s) == if left > 0 && room {
                layout::chart(ts, s).push(
                    WedgeV {
                        ring: s.ring,
                        a0: a,
                        a1: s.a1,
                        hue: Sgl::Num(float::Flo { m: 0, e: -149 }),
                        is_dir: false,
                        lump: true,
                        name: seq!['('] + text::decimal((1 + rest.len()) as int) + " small items)"@,
                        size: left,
                        frac: single::quotient(
                            single::single_of(left),
                            single::single_of(s.whole),
                        ),
                        path: seq![],
                        abs: None,
                    },
                )
            } else {
                layout::chart(ts, s)
            }
        }),
{
    let n = ts.len() as int;
    let a = edge(ts, s);
    let tail = seq![t] + rest;
    let all = ts + tail;
    let front = layout::chart(ts, s);
    assert(all[n] == t);
    assert(all.skip(n) =~= tail);
    reveal(layout::frac);
    lemma_chart_more(ts, tail, s);
    let l = layout::lump(all, n, a, s);
    assert(layout::chart_from(all, n, a, s) == l);
    if l.len() == 0 {
        assert(front + l =~= front);
    } else {
        assert(front + l =~= front.push(l[0]));
    }
}

spec fn sub_chart(ts: Seq<Tree>, s: SectorV, k: int) -> Seq<WedgeV> {
    if ts[k].is_dir {
        layout::chart(ts[k].children, sector_from(ts[k], k, edge(ts.take(k), s), s))
    } else {
        seq![]
    }
}

spec fn after(ts: Seq<Tree>, s: SectorV, k: int) -> Seq<WedgeV> {
    layout::chart_from(ts, k + 1, edge(ts.take(k + 1), s), s)
}

proof fn lemma_split(ts: Seq<Tree>, s: SectorV, k: int)
    requires
        s.size != 0,
        s.ring < 20,
        0 <= k < ts.len(),
        none_thin(ts.take(k + 1), s),
    ensures
        layout::chart(ts, s) == layout::chart(ts.take(k), s).push(
            slice_from(ts[k], k, edge(ts.take(k), s), s),
        ) + sub_chart(ts, s, k) + after(ts, s, k),
{
    lemma_parts(ts, s, k);
    lemma_chart_one_more(ts.take(k), ts[k], s);
    lemma_chart_more(ts.take(k + 1), ts.skip(k + 1), s);
}

proof fn lemma_parts(ts: Seq<Tree>, s: SectorV, k: int)
    requires
        0 <= k < ts.len(),
        none_thin(ts.take(k + 1), s),
    ensures
        ts.take(k).len() == k,
        ts.take(k + 1).len() == k + 1,
        ts.take(k + 1) == ts.take(k).push(ts[k]),
        ts == ts.take(k + 1) + ts.skip(k + 1),
        none_thin(ts.take(k), s),
        !thin(angle(ts[k].size, s)),
{
    let before = ts.take(k);
    let upto = ts.take(k + 1);
    assert(upto =~= before.push(ts[k]));
    assert(ts =~= upto + ts.skip(k + 1));
    assert(upto[k] == ts[k]);
    assert forall|j: int| 0 <= j < before.len() implies !thin(
        angle((#[trigger] before[j]).size, s),
    ) by {
        assert(upto[j] == before[j]);
    }
}

proof fn lemma_middle(a: Seq<WedgeV>, w: WedgeV, b: Seq<WedgeV>, c: Seq<WedgeV>)
    ensures
        ({
            let all = a.push(w) + b + c;
            &&& all[a.len() as int] == w
            &&& all.take(a.len() as int) == a
            &&& all.subrange((a.len() + 1) as int, (a.len() + 1 + b.len()) as int) == b
        }),
{
    let all = a.push(w) + b + c;
    assert(all.take(a.len() as int) =~= a);
    assert(all.subrange((a.len() + 1) as int, (a.len() + 1 + b.len()) as int) =~= b);
}

/// Every child has exactly one slice in the ring of its directory, and there
/// the angle that is its share, as long as neither it nor one before it is too
/// thin, however many there are.
proof fn lemma_child_has_slice(ts: Seq<Tree>, s: SectorV, k: int)
    requires
        s.size != 0,
        s.ring < 20,
        0 <= k < ts.len(),
        none_thin(ts.take(k + 1), s),
    ensures
        ({
            let ws = layout::chart(ts, s);
            let w = slice_from(ts[k], k, edge(ts.take(k), s), s);
            let at = layout::chart(ts.take(k), s).len() as int;
            &&& at < ws.len()
            &&& ws[at] == w
            &&& ws.take(at) == layout::chart(ts.take(k), s)
            &&& forall|j: int|
                0 <= j < ws.len() && (#[trigger] ws[j]).path == s.path.push(s.first + k) ==> j == at
        }),
{
    let ws = layout::chart(ts, s);
    let at = layout::chart(ts.take(k), s).len() as int;
    lemma_split(ts, s, k);
    lemma_middle(
        layout::chart(ts.take(k), s),
        slice_from(ts[k], k, edge(ts.take(k), s), s),
        sub_chart(ts, s, k),
        after(ts, s, k),
    );
    assert forall|j: int| 0 <= j < ws.len() && (#[trigger] ws[j]).path == s.path.push(
        s.first + k,
    ) implies j == at by {
        layout::law_chart_leads(ts, s, j);
        assert(!ws[j].lump);
        if j < at {
            layout::law_chart_ways(ts, s, j, at);
        } else if j > at {
            layout::law_chart_ways(ts, s, at, j);
        }
    }
}

/// The chart of a directory holds those of the directories in it, each one
/// ring further out, whole, and right behind their slices.
proof fn lemma_directory_has_chart(ts: Seq<Tree>, s: SectorV, k: int)
    requires
        s.size != 0,
        s.ring < 20,
        0 <= k < ts.len(),
        none_thin(ts.take(k + 1), s),
        ts[k].is_dir,
    ensures
        ({
            let ws = layout::chart(ts, s);
            let sub = layout::chart(
                ts[k].children,
                sector_from(ts[k], k, edge(ts.take(k), s), s),
            );
            let at = layout::chart(ts.take(k), s).len() + 1;
            &&& at + sub.len() <= ws.len()
            &&& ws.subrange(at as int, (at + sub.len()) as int) == sub
        }),
{
    lemma_split(ts, s, k);
    lemma_middle(
        layout::chart(ts.take(k), s),
        slice_from(ts[k], k, edge(ts.take(k), s), s),
        sub_chart(ts, s, k),
        after(ts, s, k),
    );
}

proof fn lemma_inline(ts: Seq<Tree>, s: SectorV)
    requires
        forall|k: int|
            0 <= k < ts.len() ==> !single::less(
                single::product(
                    single::difference(s.a1, s.a0),
                    single::narrowed(
                        double::double_div(
                            double::double_of((#[trigger] ts[k]).size),
                            double::double_of(s.size),
                        ),
                    ),
                ),
                Sgl::Num(float::Flo { m: 10737418, e: -29 }),
            ),
    ensures
        none_thin(ts, s),
{
}

/// The children whose angles are not less than 0.02 follow each other from the
/// beginning of the sector, so the angle where the next one begins is that
/// where the slice of the last one ends.
#[verifier::rlimit(30)]
proof fn lemma_edge(ts: Seq<Tree>, s: SectorV, j: int)
    requires
        s.size != 0,
        s.ring < 20,
        ts.len() > 0,
        none_thin(ts, s),
        0 <= j < layout::chart(ts, s).len(),
        layout::chart(ts, s)[j].path == s.path.push(s.first + ts.len() - 1),
    ensures
        edge(ts, s) == layout::chart(ts, s)[j].a1,
{
    lemma_take(ts);
    lemma_child_has_slice(ts, s, ts.len() - 1);
}

proof fn lemma_take(ts: Seq<Tree>)
    requires
        ts.len() > 0,
    ensures
        ts.take(ts.len() - 1 + 1) == ts,
        ts.take(ts.len() - 1) == ts.drop_last(),
{
    assert(ts.take(ts.len() - 1 + 1) =~= ts);
    assert(ts.take(ts.len() - 1) =~= ts.drop_last());
}

/// One more child adds one slice behind those before it, however many they
/// are: with its name, size and path, from the angle where the last one ended,
/// and as wide as its share of the sector. Where it is a directory, the chart of
/// its own children follows, one ring further out and within those angles.
pub proof fn law_chart_one_more(ts: Seq<Tree>, t: Tree, s: SectorV)
    requires
        s.size != 0,
        s.ring < 20,
        forall|k: int|
            0 <= k <= ts.len() ==> !single::less(
                single::product(
                    single::difference(s.a1, s.a0),
                    single::narrowed(
                        double::double_div(
                            double::double_of((#[trigger] ts.push(t)[k]).size),
                            double::double_of(s.size),
                        ),
                    ),
                ),
                Sgl::Num(float::Flo { m: 10737418, e: -29 }),
            ),
    ensures
        ({
            let before = layout::chart(ts, s);
            let after = layout::chart(ts.push(t), s);
            let n = before.len() as int;
            let w = after[n];
            let turned = single::product(
                single::difference(s.a1, s.a0),
                single::narrowed(
                    double::double_div(double::double_of(t.size), double::double_of(s.size)),
                ),
            );
            &&& after.len() > n
            &&& after.take(n) == before
            &&& w.ring == s.ring
            &&& ts.len() == 0 ==> w.a0 == s.a0
            &&& forall|j: int|
                0 <= j < n && (#[trigger] before[j]).path == s.path.push(s.first + ts.len() - 1)
                    && ts.len() > 0 ==> w.a0 == before[j].a1
            &&& w.a1 == single::sum(w.a0, turned)
            &&& w.hue == hue::hue(
                s.hue,
                single::sum(
                    w.a0,
                    single::product(turned, Sgl::Num(float::Flo { m: 0x80_0000, e: -24 })),
                ),
                s.a0,
                single::difference(s.a1, s.a0),
            )
            &&& !w.lump
            &&& w.is_dir == t.is_dir
            &&& w.name == t.name
            &&& w.size == t.size
            &&& w.frac == single::quotient(single::single_of(t.size), single::single_of(s.whole))
            &&& w.path == s.path.push(s.first + ts.len())
            &&& w.abs == Some(paths::joined(s.abs, vstd::utf8::encode_utf8(t.name)))
            &&& !t.is_dir ==> after.len() == n + 1
            &&& t.is_dir ==> after.skip(n + 1) == layout::chart(
                t.children,
                SectorV {
                    size: t.size,
                    abs: w.abs->0,
                    path: w.path,
                    first: 0,
                    ring: s.ring + 1,
                    a0: w.a0,
                    a1: w.a1,
                    whole: s.whole,
                    hue: Some(w.hue),
                },
            )
        }),
{
    let all = ts.push(t);
    lemma_inline(all, s);
    assert(all[ts.len() as int] == t);
    assert(none_thin(ts, s)) by {
        assert forall|k: int| 0 <= k < ts.len() implies !thin(angle((#[trigger] ts[k]).size, s)) by {
            assert(all[k] == ts[k]);
        }
    }
    lemma_chart_one_more(ts, t, s);
    let n = ts.len() as int;
    let a = edge(ts, s);
    let before = layout::chart(ts, s);
    let w = slice_from(t, n, a, s);
    lemma_behind(
        before,
        w,
        if t.is_dir {
            layout::chart(t.children, sector_from(t, n, a, s))
        } else {
            seq![]
        },
    );
    assert forall|j: int|
        0 <= j < before.len() && (#[trigger] before[j]).path == s.path.push(s.first + ts.len() - 1)
            && ts.len() > 0 implies a == before[j].a1 by {
        lemma_edge(ts, s, j);
    }
}

proof fn lemma_behind(a: Seq<WedgeV>, w: WedgeV, b: Seq<WedgeV>)
    ensures
        ({
            let all = a.push(w) + b;
            &&& all.take(a.len() as int) == a
            &&& all[a.len() as int] == w
            &&& all.skip((a.len() + 1) as int) == b
            &&& all.len() == a.len() + 1 + b.len()
        }),
{
    let all = a.push(w) + b;
    assert(all.take(a.len() as int) =~= a);
    assert(all.skip((a.len() + 1) as int) =~= b);
}

/// From the first child on whose angle is less than 0.02 there is one lump for
/// all that are left, where they have a size and more than 0.002 is left of the
/// sector; and else nothing.
pub proof fn law_chart_lump(
    ts: Seq<Tree>,
    t: Tree,
    rest: Seq<Tree>,
    s: SectorV,
    a: Sgl,
    j: int,
)
    requires
        ts.len() == 0 ==> a == s.a0,
        ts.len() > 0 ==> {
            &&& 0 <= j < layout::chart(ts, s).len()
            &&& layout::chart(ts, s)[j].path == s.path.push(s.first + ts.len() - 1)
            &&& layout::chart(ts, s)[j].a1 == a
        },
        s.size != 0,
        s.ring < 20,
        forall|k: int|
            0 <= k < ts.len() ==> !single::less(
                single::product(
                    single::difference(s.a1, s.a0),
                    single::narrowed(
                        double::double_div(
                            double::double_of((#[trigger] ts[k]).size),
                            double::double_of(s.size),
                        ),
                    ),
                ),
                Sgl::Num(float::Flo { m: 10737418, e: -29 }),
            ),
        single::less(
            single::product(
                single::difference(s.a1, s.a0),
                single::narrowed(
                    double::double_div(double::double_of(t.size), double::double_of(s.size)),
                ),
            ),
            Sgl::Num(float::Flo { m: 10737418, e: -29 }),
        ),
    ensures
        ({
            let before = layout::chart(ts, s);
            let after = layout::chart(ts + (seq![t] + rest), s);
            let n = before.len() as int;
            let left = tree::total(seq![t] + rest);
            &&& n <= after.len() <= n + 1
            &&& after.take(n) == before
            &&& (after.len() == n + 1) == (left > 0 && single::less(a, s.a1) && single::less(
                Sgl::Num(float::Flo { m: 8589935, e: -32 }),
                single::difference(s.a1, a),
            ))
            &&& after.len() == n + 1 ==> after[n] == (WedgeV {
                ring: s.ring,
                a0: a,
                a1: s.a1,
                hue: Sgl::Num(float::Flo { m: 0, e: -149 }),
                is_dir: false,
                lump: true,
                name: seq!['('] + text::decimal((1 + rest.len()) as int) + " small items)"@,
                size: left,
                frac: single::quotient(single::single_of(left), single::single_of(s.whole)),
                path: seq![],
                abs: None,
            })
        }),
{
    lemma_inline(ts, s);
    lemma_chart_lump(ts, t, rest, s);
    let before = layout::chart(ts, s);
    let after = layout::chart(ts + (seq![t] + rest), s);
    assert(after.take(before.len() as int) =~= before);
    if ts.len() > 0 {
        lemma_edge(ts, s, j);
    }
}

/// Every child has exactly one slice in the ring of its directory, as long as
/// neither its angle nor one before it is less than 0.02, however many there
/// are; and where it is a directory the chart of its own children is in the
/// whole one, right behind that slice, one ring further out.
pub proof fn law_child_has_slice(ts: Seq<Tree>, s: SectorV, k: int)
    requires
        s.size != 0,
        s.ring < 20,
        0 <= k < ts.len(),
        forall|j: int|
            0 <= j <= k ==> !single::less(
                single::product(
                    single::difference(s.a1, s.a0),
                    single::narrowed(
                        double::double_div(
                            double::double_of((#[trigger] ts[j]).size),
                            double::double_of(s.size),
                        ),
                    ),
                ),
                Sgl::Num(float::Flo { m: 10737418, e: -29 }),
            ),
    ensures
        ({
            let ws = layout::chart(ts, s);
            &&& exists|i: int|
                {
                    let w = #[trigger] ws[i];
                    let sub = layout::chart(
                        ts[k].children,
                        SectorV {
                            size: ts[k].size,
                            abs: w.abs->0,
                            path: w.path,
                            first: 0,
                            ring: s.ring + 1,
                            a0: w.a0,
                            a1: w.a1,
                            whole: s.whole,
                            hue: Some(w.hue),
                        },
                    );
                    &&& 0 <= i < ws.len()
                    &&& w.ring == s.ring
                    &&& w.path == s.path.push(s.first + k)
                    &&& !w.lump
                    &&& w.name == ts[k].name
                    &&& w.size == ts[k].size
                    &&& w.is_dir == ts[k].is_dir
                    &&& w.abs == Some(paths::joined(s.abs, vstd::utf8::encode_utf8(ts[k].name)))
                    &&& w.a1 == single::sum(
                        w.a0,
                        single::product(
                            single::difference(s.a1, s.a0),
                            single::narrowed(
                                double::double_div(
                                    double::double_of(ts[k].size),
                                    double::double_of(s.size),
                                ),
                            ),
                        ),
                    )
                    &&& ts[k].is_dir ==> i + 1 + sub.len() <= ws.len() && ws.subrange(
                        i + 1,
                        i + 1 + sub.len(),
                    ) == sub
                }
            &&& forall|i: int, j: int|
                0 <= i < ws.len() && 0 <= j < ws.len() && (#[trigger] ws[i]).path == s.path.push(
                    s.first + k,
                ) && (#[trigger] ws[j]).path == s.path.push(s.first + k) ==> i == j
        }),
{
    let upto = ts.take(k + 1);
    assert forall|j: int| 0 <= j < upto.len() implies !thin(angle((#[trigger] upto[j]).size, s)) by {
        assert(upto[j] == ts[j]);
    }
    lemma_child_has_slice(ts, s, k);
    if ts[k].is_dir {
        lemma_directory_has_chart(ts, s, k);
    }
    let ws = layout::chart(ts, s);
    let at = layout::chart(ts.take(k), s).len() as int;
    assert(ws[at] == slice_from(ts[k], k, edge(ts.take(k), s), s));
}

/// Some sizes together.
pub proof fn law_total(ts: Seq<Tree>, t: Tree)
    ensures
        tree::total(ts.push(t)) == tree::total(ts) + t.size,
        tree::total(Seq::<Tree>::empty()) == 0,
{
    assert(ts.push(t).drop_last() =~= ts);
}

} // verus!
