//! The chart: each ring is one level of the tree, each slice of it a child
//! whose angle is its share of its directory.

use vstd::prelude::*;
use vstd::slice::slice_to_vec;
use vstd::string::*;

use crate::double;
use crate::float;
use crate::float::Num;
use crate::hue;
use crate::order;
use crate::paths;
use crate::single;
use crate::single::Sgl;
use crate::single::Single;
use crate::text;
use crate::tree;
use crate::tree::Node;
use crate::tree::Tree;

verus! {

/// How many levels are shown.
pub const MAX_RINGS: usize = 20;

/// A slice of a ring.
pub struct Wedge {
    /// 0 for the innermost.
    pub ring: usize,
    pub a0: Single,
    pub a1: Single,
    pub hue: Single,
    pub is_dir: bool,
    /// Whether it stands for the many children that are too thin.
    pub lump: bool,
    pub name: String,
    pub size: u64,
    /// The share of the directory shown.
    pub frac: Single,
    /// The indices of the children that lead to it; none for a lump.
    pub path: Vec<usize>,
    /// Where it is; nowhere for a lump.
    pub abs: Option<Vec<u8>>,
}

/// What a [`Wedge`] stands for.
pub ghost struct WedgeV {
    pub ring: int,
    pub a0: Sgl,
    pub a1: Sgl,
    pub hue: Sgl,
    pub is_dir: bool,
    pub lump: bool,
    pub name: Seq<char>,
    pub size: int,
    pub frac: Sgl,
    pub path: Seq<int>,
    pub abs: Option<Seq<u8>>,
}

/// Some indices, as numbers.
pub open spec fn indices(v: Seq<usize>) -> Seq<int> {
    Seq::new(v.len(), |i: int| v[i] as int)
}

impl View for Wedge {
    type V = WedgeV;

    open spec fn view(&self) -> WedgeV {
        WedgeV {
            ring: self.ring as int,
            a0: self.a0@,
            a1: self.a1@,
            hue: self.hue@,
            is_dir: self.is_dir,
            lump: self.lump,
            name: self.name@,
            size: self.size as int,
            frac: self.frac@,
            path: indices(self.path@),
            abs: match self.abs {
                Some(p) => Some(p@),
                None => None,
            },
        }
    }
}

pub open spec fn wedge_views(ws: Seq<Wedge>) -> Seq<WedgeV> {
    Seq::new(ws.len(), |i: int| ws[i]@)
}

/// The angles are numbers of the format, the share is below `2^72`, and there
/// is such a ring.
pub open spec fn wedge_wf(w: WedgeV) -> bool {
    &&& 0 <= w.ring < MAX_RINGS
    &&& single::wf(w.a0)
    &&& single::wf(w.a1)
    &&& single::wf(w.hue)
    &&& single::wf(w.frac)
    &&& w.frac matches Sgl::Num(f) && f.e <= 48
}

pub open spec fn well_formed(ws: Seq<WedgeV>) -> bool {
    forall|i: int| 0 <= i < ws.len() ==> wedge_wf(#[trigger] ws[i])
}

/// The part of a ring that a directory's children share.
pub struct Sector {
    /// The size of the directory.
    pub size: u64,
    pub abs: Vec<u8>,
    pub path: Vec<usize>,
    /// The index of the first of the children.
    pub first: usize,
    pub ring: usize,
    pub a0: Single,
    pub a1: Single,
    /// The size of the directory shown.
    pub whole: u64,
    /// The hue of the directory, where it has a slice.
    pub hue: Option<Single>,
}

/// What a [`Sector`] stands for.
pub ghost struct SectorV {
    pub size: int,
    pub abs: Seq<u8>,
    pub path: Seq<int>,
    pub first: int,
    pub ring: int,
    pub a0: Sgl,
    pub a1: Sgl,
    pub whole: int,
    pub hue: Option<Sgl>,
}

impl View for Sector {
    type V = SectorV;

    open spec fn view(&self) -> SectorV {
        SectorV {
            size: self.size as int,
            abs: self.abs@,
            path: indices(self.path@),
            first: self.first as int,
            ring: self.ring as int,
            a0: self.a0@,
            a1: self.a1@,
            whole: self.whole as int,
            hue: match self.hue {
                Some(h) => Some(h@),
                None => None,
            },
        }
    }
}

/// The angles are numbers of the format, in order, and so is the hue.
pub open spec fn angled(s: SectorV) -> bool {
    &&& single::wf(s.a0)
    &&& single::wf(s.a1)
    &&& !single::less(s.a1, s.a0)
    &&& s.hue matches Some(h) ==> single::wf(h)
}

/// The binary32 nearest to 0.02: thinner children get lumped.
pub open spec fn min_sweep() -> Sgl {
    Sgl::Num(float::Flo { m: 10737418, e: -29 })
}

/// The binary32 nearest to 0.002: a thinner lump is not drawn.
pub open spec fn min_lump() -> Sgl {
    Sgl::Num(float::Flo { m: 8589935, e: -32 })
}

/// `size` of `of`, divided in binary64 and kept in binary32.
pub open spec fn share(size: int, of: int) -> Sgl {
    single::narrowed(double::double_div(double::double_of(size), double::double_of(of)))
}

/// How far the slice of a child turns.
pub open spec fn sweep(size: int, s: SectorV) -> Sgl {
    single::product(single::difference(s.a1, s.a0), share(size, s.size))
}

/// Whether a child is too thin for a slice of its own.
pub open spec fn sliver(size: int, s: SectorV) -> bool {
    single::less(sweep(size, s), min_sweep())
}

/// The share of the directory shown, in binary32.
#[verifier::opaque]
pub open spec fn frac(size: int, whole: int) -> Sgl {
    single::quotient(single::single_of(size), single::single_of(whole))
}

/// The hue of the slice of a child, from the angle `a` on.
#[verifier::opaque]
pub open spec fn hue_at(size: int, a: Sgl, s: SectorV) -> Sgl {
    hue::hue(
        s.hue,
        single::sum(a, single::product(sweep(size, s), hue::half())),
        s.a0,
        single::difference(s.a1, s.a0),
    )
}

/// The slice of child `i`, from the angle `a` on.
pub open spec fn slice(t: Tree, i: int, a: Sgl, s: SectorV) -> WedgeV {
    WedgeV {
        ring: s.ring,
        a0: a,
        a1: single::sum(a, sweep(t.size, s)),
        hue: hue_at(t.size, a, s),
        is_dir: t.is_dir,
        lump: false,
        name: t.name,
        size: t.size,
        frac: frac(t.size, s.whole),
        path: s.path.push(s.first + i),
        abs: Some(paths::joined(s.abs, vstd::utf8::encode_utf8(t.name))),
    }
}

/// What the children of child `i` share.
pub open spec fn within(t: Tree, i: int, a: Sgl, s: SectorV) -> SectorV {
    SectorV {
        size: t.size,
        abs: paths::joined(s.abs, vstd::utf8::encode_utf8(t.name)),
        path: s.path.push(s.first + i),
        first: 0,
        ring: s.ring + 1,
        a0: a,
        a1: single::sum(a, sweep(t.size, s)),
        whole: s.whole,
        hue: Some(hue_at(t.size, a, s)),
    }
}

pub open spec fn lump_name(n: int) -> Seq<char> {
    seq!['('] + text::decimal(n) + " small items)"@
}

/// Whether enough of the sector is left to show a lump in.
pub open spec fn room(a: Sgl, s: SectorV) -> bool {
    single::less(a, s.a1) && single::less(min_lump(), single::difference(s.a1, a))
}

/// The one slice for all children from `i` on, where it has a size and room.
pub open spec fn lump(ts: Seq<Tree>, i: int, a: Sgl, s: SectorV) -> Seq<WedgeV> {
    let rest = tree::total(ts.skip(i));
    if rest > 0 && room(a, s) {
        seq![
            WedgeV {
                ring: s.ring,
                a0: a,
                a1: s.a1,
                hue: hue::zero(),
                is_dir: false,
                lump: true,
                name: lump_name(ts.len() - i),
                size: rest,
                frac: frac(rest, s.whole),
                path: seq![],
                abs: None,
            },
        ]
    } else {
        seq![]
    }
}

/// The slices of some children and of what they hold: each directory's before
/// those of its children. From the first sliver on they are one lump.
pub open spec fn chart(ts: Seq<Tree>, s: SectorV) -> Seq<WedgeV>
    decreases ts, ts.len() + 1,
{
    if s.size == 0 || s.ring >= MAX_RINGS {
        seq![]
    } else {
        chart_from(ts, 0, s.a0, s)
    }
}

/// Those of the children from `i` on, beginning at the angle `a`.
pub open spec fn chart_from(ts: Seq<Tree>, i: int, a: Sgl, s: SectorV) -> Seq<WedgeV>
    decreases ts, ts.len() - i,
{
    if i < 0 || i >= ts.len() {
        seq![]
    } else if sliver(ts[i].size, s) {
        lump(ts, i, a, s)
    } else {
        seq![slice(ts[i], i, a, s)] + below(ts[i], i, a, s) + chart_from(
            ts,
            i + 1,
            single::sum(a, sweep(ts[i].size, s)),
            s,
        )
    }
}

/// Those of what child `i` holds.
pub open spec fn below(t: Tree, i: int, a: Sgl, s: SectorV) -> Seq<WedgeV>
    decreases t, 0int,
{
    if t.is_dir {
        chart(t.children, within(t, i, a, s))
    } else {
        seq![]
    }
}

// ------------------------------------------------------------ layout

/// Whether each size is one of the machine: a lump's may not be.
pub open spec fn fitting(ws: Seq<WedgeV>) -> bool {
    forall|i: int| 0 <= i < ws.len() ==> (#[trigger] ws[i]).size <= u64::MAX
}

proof fn lemma_fitting_add(a: Seq<WedgeV>, b: Seq<WedgeV>)
    ensures
        fitting(a + b) == (fitting(a) && fitting(b)),
{
    let c = a + b;
    if fitting(c) {
        assert forall|i: int| 0 <= i < a.len() implies (#[trigger] a[i]).size <= u64::MAX by {
            assert(c[i] == a[i]);
        }
        assert forall|i: int| 0 <= i < b.len() implies (#[trigger] b[i]).size <= u64::MAX by {
            assert(c[a.len() + i] == b[i]);
        }
    }
}

fn share_of(size: u64, of: u64) -> (r: Single)
    requires
        of > 0,
    ensures
        r@ == share(size as int, of as int),
        single::wf(r@),
{
    let q = double::quotient(double::double(size), double::double(of));
    single::narrow(q)
}

fn frac_of(size: u64, whole: u64) -> (r: Single)
    ensures
        r@ == frac(size as int, whole as int),
        single::wf(r@),
        whole > 0 ==> (r@ matches Sgl::Num(f) && f.e <= 48),
{
    proof {
        reveal(frac);
        if whole > 0 {
            single::lemma_single_of(size as int);
            single::lemma_single_of(whole as int);
            single::lemma_quotient_bound(
                single::single_of(size as int)->Num_0,
                single::single_of(whole as int)->Num_0,
            );
        }
    }
    single::single(size).over(single::single(whole))
}

fn is_sliver(sweep: Single) -> (r: bool)
    requires
        single::wf(sweep@),
    ensures
        r == single::less(sweep@, min_sweep()),
{
    proof {
        float::lemma_up_values();
    }
    sweep.under(Single::Num(Num { m: 10737418, e: -29 }))
}

fn has_room(a: Single, s: &Sector) -> (r: bool)
    requires
        single::wf(a@),
        angled(s@),
    ensures
        r == room(a@, s@),
{
    proof {
        float::lemma_up_values();
        if single::less(a@, s.a1@) {
            single::lemma_less_asym(a@, s.a1@);
        }
    }
    a.under(s.a1) && Single::Num(Num { m: 8589935, e: -32 }).under(s.a1.minus(a))
}

/// The slice of child `i`, and what its children share.
fn slice_of(child: &Node, i: usize, a: Single, turned: Single, end: Single, s: &Sector) -> (r: (
    Wedge,
    Sector,
))
    requires
        s.first + i <= usize::MAX,
        s.ring < MAX_RINGS,
        angled(s@),
        single::wf(a@),
        single::wf(turned@),
        single::wf(end@),
        turned@ == sweep(child.size as int, s@),
        end@ == single::sum(a@, turned@),
    ensures
        r.0@ == slice(child@, i as int, a@, s@),
        s.whole > 0 ==> wedge_wf(r.0@),
        r.1@ == within(child@, i as int, a@, s@),
        angled(r.1@),
{
    proof {
        reveal(hue_at);
        float::lemma_up_values();
        single::lemma_sum_above(a@, turned@);
    }
    let mid = a.plus(turned.times(Single::Num(Num { m: 0x80_0000, e: -24 })));
    let hue = hue::hue_of(s.hue, mid, s.a0, s.a1.minus(s.a0));
    let mut path = slice_to_vec(s.path.as_slice());
    path.push(s.first + i);
    let abs = paths::join(s.abs.as_slice(), child.name.as_str().as_bytes_vec().as_slice());
    let inner = Sector {
        size: child.size,
        abs: slice_to_vec(abs.as_slice()),
        path: slice_to_vec(path.as_slice()),
        first: 0,
        ring: s.ring + 1,
        a0: a,
        a1: end,
        whole: s.whole,
        hue: Some(hue),
    };
    proof {
        assert(indices(path@) == s@.path.push(s@.first + i));
    }
    let w = Wedge {
        ring: s.ring,
        a0: a,
        a1: end,
        hue,
        is_dir: child.is_dir,
        lump: false,
        name: child.name.clone(),
        size: child.size,
        frac: frac_of(child.size, s.whole),
        path,
        abs: Some(abs),
    };
    (w, inner)
}

proof fn lemma_push_well_formed(ws: Seq<Wedge>, w: Wedge)
    requires
        well_formed(wedge_views(ws)),
        wedge_wf(w@),
    ensures
        well_formed(wedge_views(ws.push(w))),
{
    lemma_views_push(ws, w);
    let before = wedge_views(ws);
    let after = before.push(w@);
    assert forall|i: int| 0 <= i < after.len() implies wedge_wf(#[trigger] after[i]) by {
        if i < before.len() {
            assert(after[i] == before[i]);
        }
    }
}

proof fn lemma_views_push(ws: Seq<Wedge>, w: Wedge)
    ensures
        wedge_views(ws.push(w)) == wedge_views(ws).push(w@),
{
    assert(wedge_views(ws.push(w)) =~= wedge_views(ws).push(w@));
}

proof fn lemma_head_fits(w: WedgeV, sub: Seq<WedgeV>)
    requires
        w.size <= u64::MAX,
    ensures
        fitting(seq![w] + sub) == fitting(sub),
{
    assert(fitting(seq![w]));
    lemma_fitting_add(seq![w], sub);
}

/// From a child with a slice of its own the chart is that slice, what the child
/// holds, and the chart from the next one.
proof fn lemma_chart_step(ts: Seq<Tree>, i: int, a: Sgl, s: SectorV)
    requires
        0 <= i < ts.len(),
        !sliver(ts[i].size, s),
    ensures
        chart_from(ts, i, a, s) == seq![slice(ts[i], i, a, s)] + below(ts[i], i, a, s)
            + chart_from(ts, i + 1, slice(ts[i], i, a, s).a1, s),
{
}

proof fn lemma_step(ts: Seq<Tree>, i: int, a: Sgl, s: SectorV)
    requires
        0 <= i < ts.len(),
        !sliver(ts[i].size, s),
    ensures
        ({
            let part = seq![slice(ts[i], i, a, s)] + below(ts[i], i, a, s);
            &&& chart_from(ts, i, a, s) == part + chart_from(
                ts,
                i + 1,
                single::sum(a, sweep(ts[i].size, s)),
                s,
            )
            &&& fitting(chart_from(ts, i, a, s)) ==> fitting(part)
        }),
{
    let w = slice(ts[i], i, a, s);
    let part = seq![w] + below(ts[i], i, a, s);
    lemma_chart_step(ts, i, a, s);
    lemma_fitting_add(part, chart_from(ts, i + 1, w.a1, s));
}

proof fn lemma_on(
    before: Seq<WedgeV>,
    done: Seq<WedgeV>,
    part: Seq<WedgeV>,
    next: Seq<WedgeV>,
)
    requires
        fitting(done),
        fitting(part),
    ensures
        fitting(done + part),
        before + done + part == before + (done + part),
        done + (part + next) == (done + part) + next,
{
    lemma_fitting_add(done, part);
    assert(before + done + part =~= before + (done + part));
    assert(done + (part + next) =~= (done + part) + next);
}

/// Lays out child `i`, and what it holds.
fn lay_out_child(
    child: &Node,
    i: usize,
    a: Single,
    turned: Single,
    end: Single,
    s: &Sector,
    out: &mut Vec<Wedge>,
) -> (whole: bool)
    requires
        angled(s@),
        s.first + i <= usize::MAX,
        s.ring < MAX_RINGS,
        single::wf(a@),
        single::wf(turned@),
        single::wf(end@),
        turned@ == sweep(child.size as int, s@),
        end@ == single::sum(a@, turned@),
    ensures
        ({
            let ws = seq![slice(child@, i as int, a@, s@)] + below(child@, i as int, a@, s@);
            &&& whole == fitting(ws)
            &&& whole ==> wedge_views(final(out)@) == wedge_views(old(out)@) + ws
        }),
        whole && s.whole > 0 && well_formed(wedge_views(old(out)@)) ==> well_formed(
            wedge_views(final(out)@),
        ),
    decreases MAX_RINGS - s.ring, 0int,
{
    let ghost before = wedge_views(out@);
    let ghost head = seq![slice(child@, i as int, a@, s@)];
    let ghost sub = below(child@, i as int, a@, s@);
    let (w, inner) = slice_of(child, i, a, turned, end, s);
    proof {
        lemma_views_push(out@, w);
        if s.whole > 0 && well_formed(wedge_views(out@)) {
            lemma_push_well_formed(out@, w);
        }
        lemma_head_fits(w@, sub);
        assert(before.push(w@) =~= before + head);
        assert(before + head + sub =~= before + (head + sub));
    }
    out.push(w);
    if child.is_dir {
        proof {
            tree::lemma_tree_children(*child);
            assert(child.children@.len() == child.children.len());
            reveal_with_fuel(below, 2);
        }
        lay_out(child.children.as_slice(), &inner, out)
    } else {
        proof {
            reveal_with_fuel(below, 2);
            assert(sub =~= Seq::<WedgeV>::empty());
            assert(before + head + sub =~= before + head);
        }
        true
    }
}

/// What becomes of the chart at one child.
enum Stage {
    /// A lump is too large for the machine.
    Failed,
    /// All is laid out.
    Last,
    /// The next child begins at this angle.
    On(Single),
}

/// How some slices put behind others go on from child `i`.
spec fn staged(
    ts: Seq<Tree>,
    i: int,
    a: Sgl,
    s: SectorV,
    before: Seq<WedgeV>,
    after: Seq<WedgeV>,
    r: Stage,
) -> bool {
    let all = chart_from(ts, i, a, s);
    match r {
        Stage::Failed => !fitting(all),
        Stage::Last => fitting(all) && after == before + all,
        Stage::On(end) => {
            let part = seq![slice(ts[i], i, a, s)] + below(ts[i], i, a, s);
            &&& single::wf(end@)
            &&& fitting(part)
            &&& after == before + part
            &&& all == part + chart_from(ts, i + 1, end@, s)
        },
    }
}

/// Lays out child `i`, or all from it on where it is too thin.
fn lay_out_one(children: &[Node], i: usize, a: Single, span: Single, s: &Sector, out: &mut Vec<
    Wedge,
>) -> (r: Stage)
    requires
        angled(s@),
        i < children@.len(),
        s.first + children@.len() <= usize::MAX,
        s.size > 0,
        s.ring < MAX_RINGS,
        span@ == single::difference(s.a1@, s.a0@),
        single::wf(span@),
        single::wf(a@),
    ensures
        staged(
            tree::trees(children@),
            i as int,
            a@,
            s@,
            wedge_views(old(out)@),
            wedge_views(final(out)@),
            r,
        ),
        r !is Failed && s.whole > 0 && well_formed(wedge_views(old(out)@)) ==> well_formed(
            wedge_views(final(out)@),
        ),
    decreases MAX_RINGS - s.ring, 1int,
{
    let ghost ts = tree::trees(children@);
    let child = &children[i];
    assert(ts[i as int] == child@);
    let turned = span.times(share_of(child.size, s.size));
    if is_sliver(turned) {
        return if push_lump(children, i, a, s, out) {
            Stage::Last
        } else {
            Stage::Failed
        };
    }
    let end = a.plus(turned);
    proof {
        lemma_step(ts, i as int, a@, s@);
    }
    if lay_out_child(child, i, a, turned, end, s, out) {
        Stage::On(end)
    } else {
        Stage::Failed
    }
}

/// Lays out some children, and behind each directory what it holds; says
/// whether each lump has a size of the machine.
fn lay_out(children: &[Node], s: &Sector, out: &mut Vec<Wedge>) -> (whole: bool)
    requires
        angled(s@),
        s.first + children@.len() <= usize::MAX,
    ensures
        whole == fitting(chart(tree::trees(children@), s@)),
        whole ==> wedge_views(final(out)@) == wedge_views(old(out)@) + chart(
            tree::trees(children@),
            s@,
        ),
        whole && s.whole > 0 && well_formed(wedge_views(old(out)@)) ==> well_formed(
            wedge_views(final(out)@),
        ),
    decreases MAX_RINGS - s.ring, 2int,
{
    let ghost ts = tree::trees(children@);
    let ghost before = wedge_views(out@);
    if s.size == 0 || s.ring >= MAX_RINGS {
        assert(before + chart(ts, s@) =~= before);
        return true;
    }
    let span = s.a1.minus(s.a0);
    let mut a = s.a0;
    let ghost goal = chart_from(ts, 0, a@, s@);
    let ghost mut done: Seq<WedgeV> = seq![];
    let ghost mut rest: Seq<WedgeV> = goal;
    proof {
        assert(chart(ts, s@) == goal);
        assert(done + rest =~= goal);
        assert(before + done =~= before);
    }
    for i in 0..children.len()
        invariant
            ts == tree::trees(children@),
            angled(s@),
            s.first + children@.len() <= usize::MAX,
            s.size > 0,
            s.ring < MAX_RINGS,
            span@ == single::difference(s.a1@, s.a0@),
            single::wf(span@),
            single::wf(a@),
            goal == chart(ts, s@),
            goal == done + rest,
            rest == chart_from(ts, i as int, a@, s@),
            fitting(done),
            before == wedge_views(old(out)@),
            wedge_views(out@) == before + done,
            s.whole > 0 && well_formed(before) ==> well_formed(wedge_views(out@)),
    {
        let stage = lay_out_one(children, i, a, span, s, out);
        proof {
            lemma_fitting_add(done, rest);
            assert(before + done + rest =~= before + (done + rest));
        }
        match stage {
            Stage::Failed => {
                return false;
            },
            Stage::Last => {
                return true;
            },
            Stage::On(end) => {
                proof {
                    let next = chart_from(ts, i + 1, end@, s@);
                    let part = seq![slice(ts[i as int], i as int, a@, s@)] + below(
                        ts[i as int],
                        i as int,
                        a@,
                        s@,
                    );
                    lemma_on(before, done, part, next);
                    done = done + part;
                    rest = next;
                }
                a = end;
            },
        }
    }
    proof {
        assert(rest == Seq::<WedgeV>::empty());
        assert(done + rest =~= done);
    }
    true
}

/// Lays out some children, and behind each directory what it holds; nothing
/// where a lump is too large for the machine.
pub fn layout(children: &[Node], s: &Sector) -> (r: Option<Vec<Wedge>>)
    requires
        angled(s@),
        s.first + children@.len() <= usize::MAX,
    ensures
        ({
            let ws = chart(tree::trees(children@), s@);
            match r {
                Some(v) => {
                    &&& wedge_views(v@) == ws
                    &&& fitting(ws)
                    &&& s.whole > 0 ==> well_formed(ws)
                },
                None => !fitting(ws),
            }
        }),
{
    let mut out: Vec<Wedge> = Vec::new();
    proof {
        let ws = chart(tree::trees(children@), s@);
        assert(wedge_views(out@) == Seq::<WedgeV>::empty());
        assert(wedge_views(out@) + ws == ws);
    }
    if lay_out(children, s, &mut out) {
        Some(out)
    } else {
        None
    }
}

fn push_lump(children: &[Node], i: usize, a: Single, s: &Sector, out: &mut Vec<Wedge>) -> (whole: bool)
    requires
        i < children@.len(),
        single::wf(a@),
        angled(s@),
        s.ring < MAX_RINGS,
    ensures
        whole == fitting(lump(tree::trees(children@), i as int, a@, s@)),
        whole ==> wedge_views(final(out)@) == wedge_views(old(out)@) + lump(
            tree::trees(children@),
            i as int,
            a@,
            s@,
        ),
        whole && s.whole > 0 && well_formed(wedge_views(old(out)@)) ==> well_formed(
            wedge_views(final(out)@),
        ),
{
    let ghost ts = tree::trees(children@);
    let ghost goal = lump(ts, i as int, a@, s@);
    let ghost before = wedge_views(out@);
    if !has_room(a, s) {
        assert(before + goal == before);
        return true;
    }
    let rest: u64 = match tree::total_from(children, i) {
        Some(n) => n,
        None => {
            proof {
                assert(goal[0].size > u64::MAX);
            }
            return false;
        },
    };
    if rest == 0 {
        assert(before + goal == before);
        return true;
    }
    proof {
        float::lemma_up_values();
    }
    let mut name = String::new();
    name.push('(');
    text::push_decimal(&mut name, (children.len() - i) as u128);
    name.append(" small items)");
    let w = Wedge {
        ring: s.ring,
        a0: a,
        a1: s.a1,
        hue: Single::Num(Num { m: 0, e: -149 }),
        is_dir: false,
        lump: true,
        name,
        size: rest,
        frac: frac_of(rest, s.whole),
        path: Vec::new(),
        abs: None,
    };
    proof {
        assert(indices(w.path@) == Seq::<int>::empty());
        assert(w.name@ == lump_name(ts.len() - i));
        assert(goal == seq![w@]);
        if s.whole > 0 && well_formed(wedge_views(out@)) {
            lemma_push_well_formed(out@, w);
        }
    }
    out.push(w);
    assert(wedge_views(out@) == before + goal);
    true
}

// ------------------------------------------------------------ laws

/// A smaller child of the same directory does not turn further.
proof fn lemma_sweep_mono(size1: int, size2: int, s: SectorV)
    requires
        angled(s),
        s.size > 0,
        0 <= size1 <= size2,
        single::less(sweep(size2, s), min_sweep()),
    ensures
        single::at_most(sweep(size1, s), sweep(size2, s)),
        single::wf(sweep(size1, s)),
        single::wf(sweep(size2, s)),
{
    let f = float::binary64();
    let d1 = double::double_of(size1);
    let d2 = double::double_of(size2);
    let v = double::double_of(s.size);
    let q1 = double::double_div(d1, v);
    let q2 = double::double_div(d2, v);
    float::lemma_up_values();
    float::lemma_up_unit(size1);
    float::lemma_up_unit(size2);
    float::lemma_nearest_mono(f, size1, 1, 0, size2, 1, 0);
    float::lemma_nearest_canonical(f, size1, 1, 0);
    float::lemma_nearest_canonical(f, size2, 1, 0);
    float::lemma_nearest_canonical(f, s.size, 1, 0);
    double::lemma_positive(s.size);
    assert((d1.m * float::up(d1.e - d2.e)) * v.m <= (d2.m * float::up(d2.e - d1.e)) * v.m)
        by (nonlinear_arith)
        requires
            d1.m * float::up(d1.e - d2.e) <= d2.m * float::up(d2.e - d1.e),
            v.m > 0,
    ;
    float::lemma_nearest_mono(f, d1.m, v.m, d1.e - v.e, d2.m, v.m, d2.e - v.e);
    float::lemma_nearest_canonical(f, d1.m, v.m, d1.e - v.e);
    float::lemma_nearest_canonical(f, d2.m, v.m, d2.e - v.e);
    single::lemma_round_mono(q1.m, 1, q1.e, q2.m, 1, q2.e);
    single::lemma_round_wf(q1.m, 1, q1.e);
    single::lemma_round_wf(q2.m, 1, q2.e);
    let span = single::difference(s.a1, s.a0);
    single::lemma_difference_wf(s.a1, s.a0);
    single::lemma_product_wf(span, share(size2, s.size));
    single::lemma_product_wf(span, share(size1, s.size));
    assert(span is Num && share(size2, s.size) is Num);
    single::lemma_product_mono(span, share(size1, s.size), share(size2, s.size));
}

/// Among children sorted by size everything from the first sliver on is one.
pub proof fn law_slivers(ts: Seq<Tree>, i: int, j: int, s: SectorV)
    requires
        angled(s),
        s.size > 0,
        order::descending(ts),
        0 <= i <= j < ts.len(),
        ts[j].size >= 0,
        sliver(ts[i].size, s),
    ensures
        sliver(ts[j].size, s),
{
    lemma_sweep_mono(ts[j].size, ts[i].size, s);
    float::lemma_up_values();
    single::lemma_less_trans(sweep(ts[j].size, s), sweep(ts[i].size, s), min_sweep());
}

/// What the indices lead to, from the children of a directory: `first` is the
/// index of the first of them.
pub open spec fn reached(ts: Seq<Tree>, first: int, path: Seq<int>) -> Option<Tree>
    decreases path.len(),
{
    if path.len() == 0 {
        None
    } else {
        let i = path[0] - first;
        if i < 0 || i >= ts.len() {
            None
        } else if path.len() == 1 {
            Some(ts[i])
        } else {
            reached(ts[i].children, 0, path.skip(1))
        }
    }
}

/// Where that is, from the place of the directory.
pub open spec fn located(ts: Seq<Tree>, first: int, path: Seq<int>, abs: Seq<u8>) -> Seq<u8>
    decreases path.len(),
{
    if path.len() == 0 {
        abs
    } else {
        let t = ts[path[0] - first];
        located(
            t.children,
            0,
            path.skip(1),
            paths::joined(abs, vstd::utf8::encode_utf8(t.name)),
        )
    }
}

/// A lump leads nowhere; any other slice leads to what it shows, and lies as
/// many rings out as that is levels down.
pub open spec fn leads(ts: Seq<Tree>, s: SectorV, w: WedgeV) -> bool {
    let n = s.path.len() as int;
    &&& s.ring <= w.ring < MAX_RINGS
    &&& w.lump ==> w.path.len() == 0 && w.abs is None && !w.is_dir && w.size > 0
    &&& !w.lump ==> {
        let p = w.path.skip(n);
        &&& w.path.len() == n + 1 + (w.ring - s.ring)
        &&& w.path.take(n) == s.path
        &&& reached(ts, s.first, p) matches Some(t) && {
            &&& t.name == w.name
            &&& t.size == w.size
            &&& t.is_dir == w.is_dir
        }
        &&& w.abs == Some(located(ts, s.first, p, s.abs))
    }
}

spec fn all_lead(ts: Seq<Tree>, s: SectorV, ws: Seq<WedgeV>) -> bool {
    forall|k: int| 0 <= k < ws.len() ==> leads(ts, s, #[trigger] ws[k])
}

/// A way that begins with another, and one step more.
proof fn lemma_way_on(way: Seq<int>, start: Seq<int>, next: int)
    requires
        way.len() > start.len(),
        way.take(start.len() as int + 1) == start.push(next),
    ensures
        way.take(start.len() as int) == start,
        way.skip(start.len() as int)[0] == next,
        way.skip(start.len() as int).skip(1) == way.skip(start.len() as int + 1),
{
    let n = start.len() as int;
    assert(way.take(n) =~= way.take(n + 1).take(n));
    assert(start.push(next).take(n) =~= start);
    assert(way.take(n + 1)[n] == next);
    assert(way.skip(n).skip(1) =~= way.skip(n + 1));
}

proof fn lemma_leads_up(t: Tree, ts: Seq<Tree>, i: int, a: Sgl, s: SectorV, w: WedgeV)
    requires
        0 <= i < ts.len(),
        t == ts[i],
        leads(t.children, within(t, i, a, s), w),
    ensures
        leads(ts, s, w),
        w.ring > s.ring,
{
    if !w.lump {
        lemma_way_on(w.path, s.path, s.first + i);
    }
}

proof fn lemma_all_lead_up(
    t: Tree,
    ts: Seq<Tree>,
    i: int,
    a: Sgl,
    s: SectorV,
    sub: Seq<WedgeV>,
)
    requires
        0 <= i < ts.len(),
        t == ts[i],
        all_lead(t.children, within(t, i, a, s), sub),
    ensures
        all_lead(ts, s, sub),
{
    assert forall|k: int| 0 <= k < sub.len() implies leads(ts, s, #[trigger] sub[k]) by {
        lemma_leads_up(t, ts, i, a, s, sub[k]);
    }
}

proof fn lemma_slice_leads(ts: Seq<Tree>, i: int, a: Sgl, s: SectorV)
    requires
        0 <= i < ts.len(),
        s.ring < MAX_RINGS,
    ensures
        leads(ts, s, slice(ts[i], i, a, s)),
{
    let w = slice(ts[i], i, a, s);
    let n = s.path.len() as int;
    assert(w.path.skip(n) == seq![s.first + i]);
    assert(w.path.take(n) == s.path);
    assert(seq![s.first + i].skip(1) == Seq::<int>::empty());
    reveal_with_fuel(located, 2);
}

proof fn lemma_chart_leads(ts: Seq<Tree>, s: SectorV)
    ensures
        all_lead(ts, s, chart(ts, s)),
    decreases ts, ts.len() + 2,
{
    reveal_with_fuel(chart, 2);
    if s.size != 0 && s.ring < MAX_RINGS {
        lemma_chart_from_leads(ts, 0, s.a0, s);
        assert(chart(ts, s) == chart_from(ts, 0, s.a0, s));
    }
}

proof fn lemma_below_is(t: Tree, i: int, a: Sgl, s: SectorV)
    ensures
        below(t, i, a, s) == if t.is_dir {
            chart(t.children, within(t, i, a, s))
        } else {
            seq![]
        },
{
    reveal_with_fuel(below, 2);
}

proof fn lemma_below_leads(ts: Seq<Tree>, i: int, a: Sgl, s: SectorV)
    requires
        0 <= i < ts.len(),
    ensures
        all_lead(ts, s, below(ts[i], i, a, s)),
    decreases ts, 0int,
{
    let t = ts[i];
    lemma_below_is(t, i, a, s);
    if t.is_dir {
        lemma_chart_leads(t.children, within(t, i, a, s));
        lemma_all_lead_up(t, ts, i, a, s, chart(t.children, within(t, i, a, s)));
    }
}

/// What holds of all parts holds of the whole.
proof fn lemma_of_all(
    p: spec_fn(WedgeV) -> bool,
    w: WedgeV,
    sub: Seq<WedgeV>,
    next: Seq<WedgeV>,
)
    requires
        p(w),
        forall|k: int| 0 <= k < sub.len() ==> p(#[trigger] sub[k]),
        forall|k: int| 0 <= k < next.len() ==> p(#[trigger] next[k]),
    ensures
        forall|k: int|
            0 <= k < (seq![w] + sub + next).len() ==> p(#[trigger] (seq![w] + sub + next)[k]),
{
    let all = seq![w] + sub + next;
    assert forall|k: int| 0 <= k < all.len() implies p(#[trigger] all[k]) by {
        if k == 0 {
        } else if k <= sub.len() {
            assert(all[k] == sub[k - 1]);
        } else {
            assert(all[k] == next[k - 1 - sub.len()]);
        }
    }
}

proof fn lemma_all_lead_on(
    ts: Seq<Tree>,
    s: SectorV,
    w: WedgeV,
    sub: Seq<WedgeV>,
    next: Seq<WedgeV>,
)
    requires
        leads(ts, s, w),
        all_lead(ts, s, sub),
        all_lead(ts, s, next),
    ensures
        all_lead(ts, s, seq![w] + sub + next),
{
    lemma_of_all(|v: WedgeV| leads(ts, s, v), w, sub, next);
}

proof fn lemma_chart_from_leads(ts: Seq<Tree>, i: int, a: Sgl, s: SectorV)
    requires
        s.ring < MAX_RINGS,
    ensures
        all_lead(ts, s, chart_from(ts, i, a, s)),
    decreases ts, ts.len() - i + 1,
{
    if 0 <= i < ts.len() && !sliver(ts[i].size, s) {
        let w = slice(ts[i], i, a, s);
        lemma_chart_from_leads(ts, i + 1, w.a1, s);
        lemma_below_leads(ts, i, a, s);
        lemma_slice_leads(ts, i, a, s);
        lemma_all_lead_on(ts, s, w, below(ts[i], i, a, s), chart_from(ts, i + 1, w.a1, s));
        lemma_chart_step(ts, i, a, s);
    }
}

/// Each slice of the chart of a directory leads to what it shows: the indices
/// to the node of that name and size, the path to its place. A lump leads
/// nowhere.
pub proof fn law_chart_leads(ts: Seq<Tree>, s: SectorV, k: int)
    requires
        0 <= k < chart(ts, s).len(),
    ensures
        leads(ts, s, chart(ts, s)[k]),
{
    lemma_chart_leads(ts, s);
}

/// Those of the children from `i` on lead through one of them.
spec fn leads_from(s: SectorV, i: int, w: WedgeV) -> bool {
    !w.lump ==> w.path.len() > s.path.len() && w.path[s.path.len() as int] >= s.first + i
}

proof fn lemma_leads_from(ts: Seq<Tree>, i: int, a: Sgl, s: SectorV)
    requires
        0 <= i,
    ensures
        forall|k: int|
            0 <= k < chart_from(ts, i, a, s).len() ==> leads_from(
                s,
                i,
                #[trigger] chart_from(ts, i, a, s)[k],
            ),
    decreases ts.len() - i,
{
    if i < ts.len() && !sliver(ts[i].size, s) {
        let w = slice(ts[i], i, a, s);
        let sub = below(ts[i], i, a, s);
        let next = chart_from(ts, i + 1, w.a1, s);
        lemma_leads_from(ts, i + 1, w.a1, s);
        lemma_below_through(ts, i, a, s);
        assert forall|k: int| 0 <= k < sub.len() implies leads_from(s, i, #[trigger] sub[k]) by {
            assert(leads_through(s, i, sub[k]));
        }
        assert forall|k: int| 0 <= k < next.len() implies leads_from(s, i, #[trigger] next[k]) by {
            assert(leads_from(s, i + 1, next[k]));
        }
        lemma_of_all(|v: WedgeV| leads_from(s, i, v), w, sub, next);
        lemma_chart_step(ts, i, a, s);
    }
}

/// Those of what child `i` holds lead through it, and on.
spec fn leads_through(s: SectorV, i: int, w: WedgeV) -> bool {
    !w.lump ==> w.path.len() > s.path.len() + 1 && w.path[s.path.len() as int] == s.first + i
}

proof fn lemma_below_through(ts: Seq<Tree>, i: int, a: Sgl, s: SectorV)
    requires
        0 <= i < ts.len(),
    ensures
        forall|k: int|
            0 <= k < below(ts[i], i, a, s).len() ==> leads_through(
                s,
                i,
                #[trigger] below(ts[i], i, a, s)[k],
            ),
{
    let t = ts[i];
    let sub = below(t, i, a, s);
    reveal_with_fuel(below, 2);
    if t.is_dir {
        let inner = within(t, i, a, s);
        lemma_chart_leads(t.children, inner);
        assert(sub == chart(t.children, inner));
        assert forall|k: int| 0 <= k < sub.len() implies leads_through(s, i, #[trigger] sub[k]) by {
            assert(leads(t.children, inner, sub[k]));
            if !sub[k].lump {
                let n = s.path.len() as int;
                assert(sub[k].path.take(n + 1)[n] == inner.path[n]);
            }
        }
    }
}

/// No two slices but lumps lead to the same place.
pub open spec fn ways_differ(ws: Seq<WedgeV>) -> bool {
    forall|i: int, j: int|
        0 <= i < j < ws.len() && !(#[trigger] ws[i]).lump && !(#[trigger] ws[j]).lump ==> ws[i].path
            != ws[j].path
}

proof fn lemma_ways_join(s: SectorV, i: int, w: WedgeV, sub: Seq<WedgeV>, next: Seq<WedgeV>)
    requires
        !w.lump,
        w.path == s.path.push(s.first + i),
        forall|k: int| 0 <= k < sub.len() ==> leads_through(s, i, #[trigger] sub[k]),
        forall|k: int| 0 <= k < next.len() ==> leads_from(s, i + 1, #[trigger] next[k]),
        ways_differ(sub),
        ways_differ(next),
    ensures
        ways_differ(seq![w] + sub + next),
{
    let all = seq![w] + sub + next;
    let n = sub.len() as int;
    assert(w.path[s.path.len() as int] == s.first + i);
    assert forall|j: int, k: int|
        0 <= j < k < all.len() && !(#[trigger] all[j]).lump && !(
        #[trigger] all[k]).lump implies all[j].path != all[k].path by {
        if k <= n {
            assert(all[k] == sub[k - 1]);
            assert(leads_through(s, i, sub[k - 1]));
            if j > 0 {
                assert(all[j] == sub[j - 1]);
            }
        } else {
            assert(all[k] == next[k - 1 - n]);
            assert(leads_from(s, i + 1, next[k - 1 - n]));
            if j > n {
                assert(all[j] == next[j - 1 - n]);
            } else if j > 0 {
                assert(all[j] == sub[j - 1]);
                assert(leads_through(s, i, sub[j - 1]));
            }
        }
    }
}

proof fn lemma_chart_ways(ts: Seq<Tree>, s: SectorV)
    ensures
        ways_differ(chart(ts, s)),
    decreases ts, ts.len() + 2,
{
    reveal_with_fuel(chart, 2);
    if s.size != 0 && s.ring < MAX_RINGS {
        lemma_chart_from_ways(ts, 0, s.a0, s);
    }
}

proof fn lemma_chart_from_ways(ts: Seq<Tree>, i: int, a: Sgl, s: SectorV)
    requires
        0 <= i,
    ensures
        ways_differ(chart_from(ts, i, a, s)),
    decreases ts, ts.len() - i + 1,
{
    if i < ts.len() && !sliver(ts[i].size, s) {
        let w = slice(ts[i], i, a, s);
        let sub = below(ts[i], i, a, s);
        let next = chart_from(ts, i + 1, w.a1, s);
        lemma_chart_from_ways(ts, i + 1, w.a1, s);
        lemma_leads_from(ts, i + 1, w.a1, s);
        lemma_below_through(ts, i, a, s);
        lemma_below_ways(ts, i, a, s);
        lemma_ways_join(s, i, w, sub, next);
        lemma_chart_step(ts, i, a, s);
    }
}

proof fn lemma_below_ways(ts: Seq<Tree>, i: int, a: Sgl, s: SectorV)
    requires
        0 <= i < ts.len(),
    ensures
        ways_differ(below(ts[i], i, a, s)),
    decreases ts, 0int,
{
    reveal_with_fuel(below, 2);
    if ts[i].is_dir {
        lemma_chart_ways(ts[i].children, within(ts[i], i, a, s));
    }
}

/// No two slices of a chart lead to the same place, but lumps, which lead
/// nowhere: a way finds one slice.
pub proof fn law_chart_ways(ts: Seq<Tree>, s: SectorV, i: int, j: int)
    requires
        0 <= i < j < chart(ts, s).len(),
        !chart(ts, s)[i].lump,
        !chart(ts, s)[j].lump,
    ensures
        chart(ts, s)[i].path != chart(ts, s)[j].path,
{
    lemma_chart_ways(ts, s);
}

/// The slices of one ring.
pub open spec fn ring_of(ws: Seq<WedgeV>, ring: int) -> Seq<WedgeV> {
    ws.filter(|w: WedgeV| w.ring == ring)
}

/// Some slices of a directory's children, the first that of child `i`, follow
/// each other from the angle `a` on, each beginning where the last one ends.
/// Only the last may be a lump: it ends with the sector and counts the rest.
pub open spec fn abut(sib: Seq<WedgeV>, ts: Seq<Tree>, i: int, a: Sgl, s: SectorV) -> bool {
    &&& sib.len() > 0 ==> sib[0].a0 == a
    &&& forall|k: int|
        0 <= k < sib.len() && !(#[trigger] sib[k]).lump ==> sib[k].path == s.path.push(
            s.first + i + k,
        )
    &&& forall|k: int|
        0 < k < sib.len() ==> !sib[k - 1].lump && sib[k - 1].a1 == (#[trigger] sib[k]).a0
    &&& sib.len() > 0 && sib.last().lump ==> sib.last().a1 == s.a1 && sib.last().name == lump_name(
        ts.len() - i - (sib.len() - 1),
    )
}

proof fn lemma_ring_of_add(a: Seq<WedgeV>, b: Seq<WedgeV>, ring: int)
    ensures
        ring_of(a + b, ring) == ring_of(a, ring) + ring_of(b, ring),
{
    Seq::filter_distributes_over_add(a, b, |w: WedgeV| w.ring == ring);
}

proof fn lemma_ring_of_none(ws: Seq<WedgeV>, ring: int)
    requires
        forall|k: int| 0 <= k < ws.len() ==> (#[trigger] ws[k]).ring != ring,
    ensures
        ring_of(ws, ring) == Seq::<WedgeV>::empty(),
    decreases ws.len(),
{
    reveal(Seq::filter);
    if ws.len() > 0 {
        assert forall|k: int| 0 <= k < ws.drop_last().len() implies (
        #[trigger] ws.drop_last()[k]).ring != ring by {
            assert(ws.drop_last()[k] == ws[k]);
        }
        lemma_ring_of_none(ws.drop_last(), ring);
    }
}

proof fn lemma_ring_of_one(w: WedgeV)
    ensures
        ring_of(seq![w], w.ring) == seq![w],
{
    reveal(Seq::filter);
    assert(seq![w].drop_last() == Seq::<WedgeV>::empty());
    lemma_ring_of_none(Seq::empty(), w.ring);
    assert(Seq::<WedgeV>::empty().push(w) == seq![w]);
}

proof fn lemma_abut_cons(w: WedgeV, rest: Seq<WedgeV>, ts: Seq<Tree>, i: int, a: Sgl, s: SectorV)
    requires
        w.a0 == a,
        !w.lump,
        w.path == s.path.push(s.first + i),
        abut(rest, ts, i + 1, w.a1, s),
    ensures
        abut(seq![w] + rest, ts, i, a, s),
{
    let sib = seq![w] + rest;
    assert forall|k: int| 0 <= k < sib.len() && !(#[trigger] sib[k]).lump implies sib[k].path
        == s.path.push(s.first + i + k) by {
        if k > 0 {
            assert(sib[k] == rest[k - 1]);
        }
    }
    assert forall|k: int| 0 < k < sib.len() implies !sib[k - 1].lump && sib[k - 1].a1 == (
    #[trigger] sib[k]).a0 by {
        assert(sib[k] == rest[k - 1]);
        if k > 1 {
            assert(sib[k - 1] == rest[k - 2]);
        }
    }
    if rest.len() > 0 {
        assert(sib.last() == rest.last());
    }
}

proof fn lemma_ring_step(w: WedgeV, sub: Seq<WedgeV>, next: Seq<WedgeV>)
    requires
        forall|k: int| 0 <= k < sub.len() ==> (#[trigger] sub[k]).ring > w.ring,
    ensures
        ring_of(seq![w] + sub + next, w.ring) == seq![w] + ring_of(next, w.ring),
{
    lemma_ring_of_add(seq![w] + sub, next, w.ring);
    lemma_ring_of_add(seq![w], sub, w.ring);
    lemma_ring_of_one(w);
    lemma_ring_of_none(sub, w.ring);
    assert(seq![w] + Seq::<WedgeV>::empty() == seq![w]);
}

proof fn lemma_below_ring(ts: Seq<Tree>, i: int, a: Sgl, s: SectorV)
    requires
        0 <= i < ts.len(),
    ensures
        forall|k: int|
            0 <= k < below(ts[i], i, a, s).len() ==> (#[trigger] below(ts[i], i, a, s)[k]).ring
                > s.ring,
{
    let t = ts[i];
    let sub = below(t, i, a, s);
    reveal_with_fuel(below, 2);
    if t.is_dir {
        lemma_chart_leads(t.children, within(t, i, a, s));
        assert(sub == chart(t.children, within(t, i, a, s)));
        assert forall|k: int| 0 <= k < sub.len() implies (#[trigger] sub[k]).ring > s.ring by {
            assert(leads(t.children, within(t, i, a, s), sub[k]));
        }
    }
}

/// A lump alone, or nothing.
proof fn lemma_abut_lump(ts: Seq<Tree>, i: int, a: Sgl, s: SectorV)
    ensures
        abut(ring_of(lump(ts, i, a, s), s.ring), ts, i, a, s),
{
    let all = lump(ts, i, a, s);
    if all.len() == 0 {
        lemma_ring_of_none(all, s.ring);
    } else {
        lemma_ring_of_one(all[0]);
        assert(all =~= seq![all[0]]);
    }
}

/// A slice, and behind it those of the children from the next one on.
proof fn lemma_abut_slice(ts: Seq<Tree>, i: int, a: Sgl, s: SectorV, next: Seq<WedgeV>)
    requires
        0 <= i < ts.len(),
        abut(ring_of(next, s.ring), ts, i + 1, slice(ts[i], i, a, s).a1, s),
    ensures
        abut(
            ring_of(seq![slice(ts[i], i, a, s)] + below(ts[i], i, a, s) + next, s.ring),
            ts,
            i,
            a,
            s,
        ),
{
    let w = slice(ts[i], i, a, s);
    lemma_below_ring(ts, i, a, s);
    lemma_ring_step(w, below(ts[i], i, a, s), next);
    lemma_abut_cons(w, ring_of(next, s.ring), ts, i, a, s);
}

proof fn lemma_abut(ts: Seq<Tree>, i: int, a: Sgl, s: SectorV)
    requires
        0 <= i <= ts.len(),
        s.ring < MAX_RINGS,
    ensures
        abut(ring_of(chart_from(ts, i, a, s), s.ring), ts, i, a, s),
    decreases ts.len() - i,
{
    if i == ts.len() {
        lemma_ring_of_none(chart_from(ts, i, a, s), s.ring);
    } else if sliver(ts[i].size, s) {
        lemma_abut_lump(ts, i, a, s);
    } else {
        let b = slice(ts[i], i, a, s).a1;
        lemma_abut(ts, i + 1, b, s);
        lemma_abut_slice(ts, i, a, s, chart_from(ts, i + 1, b, s));
        lemma_chart_step(ts, i, a, s);
    }
}

/// In its own ring a directory's children follow each other without a gap,
/// from where its own slice begins.
pub proof fn law_chart_abuts(ts: Seq<Tree>, s: SectorV)
    ensures
        abut(ring_of(chart(ts, s), s.ring), ts, 0, s.a0, s),
{
    reveal_with_fuel(chart, 2);
    if s.size == 0 || s.ring >= MAX_RINGS {
        lemma_ring_of_none(chart(ts, s), s.ring);
    } else {
        lemma_abut(ts, 0, s.a0, s);
    }
}

/// A slice ends no sooner than it begins.
spec fn ordered(w: WedgeV) -> bool {
    single::wf(w.a0) && single::wf(w.a1) && single::at_most(w.a0, w.a1)
}

/// A sector with a span, and a size to share it by.
pub open spec fn spread_out(s: SectorV) -> bool {
    &&& angled(s)
    &&& s.a0 is Num
    &&& s.a1 is Num
    &&& !single::is_zero(single::difference(s.a1, s.a0))
    &&& s.size > 0
}

proof fn lemma_sweep_number(size: int, s: SectorV)
    requires
        spread_out(s),
        size >= 0,
    ensures
        single::wf(sweep(size, s)),
        sweep(size, s) !is Nan,
{
    let f = float::binary64();
    let d = double::double_of(size);
    let v = double::double_of(s.size);
    let q = double::double_div(d, v);
    float::lemma_nearest_canonical(f, size, 1, 0);
    float::lemma_nearest_canonical(f, s.size, 1, 0);
    double::lemma_positive(s.size);
    float::lemma_nearest_canonical(f, d.m, v.m, d.e - v.e);
    single::lemma_round_wf(q.m, 1, q.e);
    single::lemma_difference_wf(s.a1, s.a0);
    single::lemma_difference_below(s.a1, s.a0);
    single::lemma_product_wf(single::difference(s.a1, s.a0), share(size, s.size));
}

proof fn lemma_ordered(ts: Seq<Tree>, i: int, a: Sgl, s: SectorV)
    requires
        0 <= i <= ts.len(),
        spread_out(s),
        single::wf(a),
        a !is Nan,
        forall|k: int| 0 <= k < ts.len() ==> (#[trigger] ts[k]).size >= 0,
    ensures
        forall|k: int|
            0 <= k < chart_from(ts, i, a, s).len() && (#[trigger] chart_from(ts, i, a, s)[k]).ring
                == s.ring ==> ordered(chart_from(ts, i, a, s)[k]),
    decreases ts.len() - i,
{
    if i < ts.len() {
        if sliver(ts[i].size, s) {
            if room(a, s) {
                single::lemma_less_asym(a, s.a1);
            }
        } else {
            let w = slice(ts[i], i, a, s);
            let sub = below(ts[i], i, a, s);
            let next = chart_from(ts, i + 1, w.a1, s);
            lemma_sweep_number(ts[i].size, s);
            single::lemma_sum_above(a, sweep(ts[i].size, s));
            single::lemma_sum_wf(a, sweep(ts[i].size, s));
            lemma_ordered(ts, i + 1, w.a1, s);
            lemma_below_ring(ts, i, a, s);
            lemma_of_all(|v: WedgeV| v.ring == s.ring ==> ordered(v), w, sub, next);
            assert(chart_from(ts, i, a, s) == seq![w] + sub + next);
        }
    }
}

proof fn lemma_apart(sib: Seq<WedgeV>, ts: Seq<Tree>, s: SectorV, i: int, j: int)
    requires
        abut(sib, ts, 0, s.a0, s),
        forall|k: int| 0 <= k < sib.len() ==> ordered(#[trigger] sib[k]),
        0 <= i < j < sib.len(),
    ensures
        single::at_most(sib[i].a1, sib[j].a0),
    decreases j - i,
{
    assert(sib[j - 1].a1 == sib[j].a0);
    assert(ordered(sib[j - 1]));
    assert(ordered(sib[i]));
    if i < j - 1 {
        lemma_apart(sib, ts, s, i, j - 1);
        single::lemma_at_most_trans(sib[i].a1, sib[j - 1].a0, sib[j - 1].a1);
    } else if let Sgl::Num(n) = sib[i].a1 {
        float::lemma_less_canonical(float::binary32(), n, n);
    }
}

/// No angle lies in two slices of the same directory.
pub proof fn law_no_overlap(ts: Seq<Tree>, s: SectorV, i: int, j: int, angle: Sgl)
    requires
        spread_out(s),
        single::wf(angle),
        forall|k: int| 0 <= k < ts.len() ==> (#[trigger] ts[k]).size >= 0,
        ({
            let sib = ring_of(chart(ts, s), s.ring);
            0 <= i < j < sib.len()
        }),
    ensures
        ({
            let sib = ring_of(chart(ts, s), s.ring);
            single::less(angle, sib[i].a1) ==> !single::at_most(sib[j].a0, angle)
        }),
{
    let ws = chart(ts, s);
    let sib = ring_of(ws, s.ring);
    law_chart_abuts(ts, s);
    reveal_with_fuel(chart, 2);
    if s.ring < MAX_RINGS {
        lemma_ordered(ts, 0, s.a0, s);
        assert(ws == chart_from(ts, 0, s.a0, s));
    }
    lemma_ring_of_all(ws, s.ring);
    assert forall|k: int| 0 <= k < sib.len() implies ordered(#[trigger] sib[k]) by {
        let n = choose|n: int| 0 <= n < ws.len() && ws[n] == sib[k];
        assert(ws[n].ring == s.ring);
    }
    lemma_apart(sib, ts, s, i, j);
    if single::less(angle, sib[i].a1) && single::at_most(sib[j].a0, angle) {
        assert(ordered(sib[i]) && ordered(sib[j]));
        single::lemma_at_most_trans(sib[i].a1, sib[j].a0, angle);
    }
}

proof fn lemma_ring_of_all(ws: Seq<WedgeV>, ring: int)
    ensures
        forall|k: int|
            0 <= k < ring_of(ws, ring).len() ==> (#[trigger] ring_of(ws, ring)[k]).ring == ring
                && exists|n: int| 0 <= n < ws.len() && ws[n] == ring_of(ws, ring)[k],
    decreases ws.len(),
{
    reveal(Seq::filter);
    let r = ring_of(ws, ring);
    if ws.len() > 0 {
        let init = ws.drop_last();
        lemma_ring_of_all(init, ring);
        assert forall|k: int| 0 <= k < r.len() implies (#[trigger] r[k]).ring == ring && exists|
            n: int,
        | 0 <= n < ws.len() && ws[n] == r[k] by {
            if k < ring_of(init, ring).len() {
                assert(r[k] == ring_of(init, ring)[k]);
                let n = choose|n: int| 0 <= n < init.len() && init[n] == ring_of(init, ring)[k];
                assert(ws[n] == r[k]);
            } else {
                assert(ws[ws.len() - 1] == r[k]);
            }
        }
    }
}

} // verus!
