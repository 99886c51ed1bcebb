//! What clicks, keys and the pointer do.

use vstd::prelude::*;

use crate::app;
use crate::app::AnimV;
use crate::app::AppV;
use crate::app::Poll;
use crate::app::StateV;
use crate::layout::WedgeV;
use crate::look;
use crate::mounts::MountV;
use crate::nav;
use crate::single;
use crate::single::Sgl;

verus! {

// ------------------------------------------------------------ clicks

/// A click on the slice of a directory opens it, in whatever ring it is: the
/// way goes on along that of the slice, and the chart zooms into its span.
pub proof fn law_click_opens(a: AppV, wi: int)
    requires
        a.anim is None,
        a.hovered == Some(wi),
        0 <= wi < a.wedges.len(),
        a.wedges[wi].is_dir,
        a.wedges[wi].path.len() > 0,
        !(a.wedges[wi].lump && a.wedges[wi].ring == 0 && !a.small_focus),
    ensures
        ({
            let b = app::clicked_on(a, false);
            let w = a.wedges[wi];
            &&& b.nav == a.nav + w.path
            &&& !b.small_focus
            &&& b.anim matches Some(x) && {
                &&& x.span == (w.a0, w.a1)
                &&& x.shift == w.ring + 1
                &&& x.dir_in
                &&& x.old == a.wedges
            }
            &&& b.wedges.len() == 0
            &&& b == (AppV {
                nav: b.nav,
                small_focus: b.small_focus,
                anim: b.anim,
                wedges: b.wedges,
                ..a
            })
        }),
        app::current(a) ==> {
            let t = nav::displayed_tree(a.state->Ready_0, app::clicked_on(a, false).nav);
            t.is_dir && t.name == a.wedges[wi].name && t.size == a.wedges[wi].size
        },
{
    if app::current(a) {
        app::law_zoom_shows(a, wi);
    }
}

/// A click on the lump of the innermost ring shows the smaller items.
pub proof fn law_click_smaller(a: AppV, wi: int)
    requires
        a.anim is None,
        a.hovered == Some(wi),
        0 <= wi < a.wedges.len(),
        a.wedges[wi].lump,
        a.wedges[wi].ring == 0,
        !a.small_focus,
    ensures
        app::clicked_on(a, false) == (AppV { small_focus: true, ..a }),
{
}

/// A click on the slice of a file, on another lump, beside the chart, or
/// while the chart moves does nothing.
pub proof fn law_click_idle(a: AppV, on_hub: bool)
    requires
        a.anim is Some || (!on_hub && (a.hovered is None || {
            let wi = a.hovered->0;
            &&& !(a.wedges[wi].lump && a.wedges[wi].ring == 0 && !a.small_focus)
            &&& !a.wedges[wi].is_dir || a.wedges[wi].path.len() == 0
        })),
    ensures
        app::clicked_on(a, on_hub) == a,
{
}

/// A click on the hub goes up.
pub proof fn law_click_hub(a: AppV)
    requires
        a.anim is None,
    ensures
        ({
            let b = app::clicked_on(a, true);
            &&& a.small_focus ==> b == (AppV { small_focus: false, side_sel: None, ..a })
            &&& !a.small_focus && a.nav.len() > 0 ==> b == (AppV {
                nav: a.nav.take(a.nav.len() - 1),
                pending_up: Some(a.nav[a.nav.len() - 1]),
                side_sel: None,
                ..a
            })
            &&& !a.small_focus && a.nav.len() == 0 ==> b == (AppV { side_sel: None, ..a })
        }),
{
    law_up(a);
}

/// Going up leaves the smaller items where they are shown, else the last
/// directory; at the top it stays.
pub proof fn law_up(a: AppV)
    ensures
        ({
            let b = app::gone_up(a);
            &&& a.small_focus ==> b == (AppV { small_focus: false, side_sel: None, ..a })
            &&& !a.small_focus && a.nav.len() > 0 ==> b == (AppV {
                nav: a.nav.take(a.nav.len() - 1),
                pending_up: Some(a.nav[a.nav.len() - 1]),
                side_sel: None,
                ..a
            })
            &&& !a.small_focus && a.nav.len() == 0 ==> b == (AppV { side_sel: None, ..a })
        }),
{
    if a.nav.len() > 0 {
        assert(a.nav.take(a.nav.len() - 1) =~= a.nav.drop_last());
    }
}

/// Going up from where a click led, once for each ring, leads back.
pub proof fn law_up_undoes_click(a: AppV, wi: int)
    requires
        a.anim is None,
        a.hovered == Some(wi),
        0 <= wi < a.wedges.len(),
        a.wedges[wi].is_dir,
        !a.wedges[wi].lump,
    ensures
        app::ups(app::clicked_on(a, false), a.wedges[wi].path.len()).nav == a.nav,
{
    app::law_up_undoes_zoom(a, wi);
}

/// A part of the path leads to the directory that it names.
pub proof fn law_crumb(a: AppV, idx: int)
    requires
        idx >= 0,
    ensures
        ({
            let b = app::back_to(a, idx);
            &&& b.nav.len() == if idx < a.nav.len() {
                idx
            } else {
                a.nav.len() as int
            }
            &&& forall|k: int| 0 <= k < b.nav.len() ==> b.nav[k] == a.nav[k]
            &&& b == (AppV { nav: b.nav, small_focus: false, anim: None, ..a })
        }),
{
}

/// The row of the smaller items shows those of the directory shown, or of the
/// child that it names.
pub proof fn law_smaller_row(a: AppV, key: Seq<int>)
    ensures
        app::narrowed(a, key) == (AppV {
            nav: if key.len() == 0 {
                a.nav
            } else {
                a.nav.push(key[0])
            },
            small_focus: true,
            side_sel: None,
            ..a
        }),
{
}

/// A row of a directory opens it: by its slice where it has one, and else at
/// once.
pub proof fn law_row_click(a: AppV, path: Seq<int>)
    ensures
        ({
            let b = app::opened(a, path);
            match app::wedge_on(a.wedges, path, 0) {
                Some(wi) => if a.wedges[wi].is_dir && a.wedges[wi].path.len() > 0 {
                    b == (AppV {
                        anim: Some(
                            AnimV {
                                span: (a.wedges[wi].a0, a.wedges[wi].a1),
                                shift: a.wedges[wi].ring + 1,
                                dir_in: true,
                                old: a.wedges,
                            },
                        ),
                        wedges: seq![],
                        nav: a.nav + path,
                        small_focus: false,
                        side_sel: None,
                        ..a
                    })
                } else {
                    b == (AppV { side_sel: None, ..a })
                },
                None => b == (AppV { nav: a.nav + path, side_sel: None, ..a }),
            }
        }),
{
    law_slice_on_way(a.wedges, path, 0);
}

// ------------------------------------------------------------ finding slices

/// The slice of a way is the first one that has it, in the ring where the way
/// ends.
pub proof fn law_slice_on_way(ws: Seq<WedgeV>, path: Seq<int>, from: int)
    requires
        0 <= from,
    ensures
        match app::wedge_on(ws, path, from) {
            Some(i) => {
                &&& from <= i < ws.len()
                &&& ws[i].ring + 1 == path.len() && ws[i].path == path
                &&& forall|j: int| from <= j < i ==> !((#[trigger] ws[j]).ring + 1 == path.len()
                    && ws[j].path == path)
            },
            None => forall|j: int|
                from <= j < ws.len() ==> !((#[trigger] ws[j]).ring + 1 == path.len() && ws[j].path
                    == path),
        },
    decreases ws.len() - from,
{
    if from < ws.len() && !(ws[from].ring + 1 == path.len() && ws[from].path == path) {
        law_slice_on_way(ws, path, from + 1);
    }
}

/// The slice of a child is the first one in the innermost ring that has its
/// way.
pub proof fn law_slice_of_child(ws: Seq<WedgeV>, child: int, from: int)
    requires
        0 <= from,
    ensures
        match app::slice_of(ws, child, from) {
            Some(i) => {
                &&& from <= i < ws.len()
                &&& ws[i].ring == 0 && ws[i].path == seq![child]
                &&& forall|j: int| from <= j < i ==> !((#[trigger] ws[j]).ring == 0 && ws[j].path
                    == seq![child])
            },
            None => forall|j: int|
                from <= j < ws.len() ==> !((#[trigger] ws[j]).ring == 0 && ws[j].path
                    == seq![child]),
        },
    decreases ws.len() - from,
{
    if from < ws.len() && !(ws[from].ring == 0 && ws[from].path == seq![child]) {
        law_slice_of_child(ws, child, from + 1);
    }
}

/// The lump of the innermost ring is the first one there.
pub proof fn law_inner_lump(ws: Seq<WedgeV>, from: int)
    requires
        0 <= from,
    ensures
        match app::inner_lump(ws, from) {
            Some(i) => {
                &&& from <= i < ws.len()
                &&& ws[i].lump && ws[i].ring == 0
                &&& forall|j: int| from <= j < i ==> !((#[trigger] ws[j]).lump && ws[j].ring == 0)
            },
            None => forall|j: int|
                from <= j < ws.len() ==> !((#[trigger] ws[j]).lump && ws[j].ring == 0),
        },
    decreases ws.len() - from,
{
    if from < ws.len() && !(ws[from].lump && ws[from].ring == 0) {
        law_inner_lump(ws, from + 1);
    }
}

/// The ring at a radius is the first one that reaches from no further out to
/// no further in.
pub proof fn law_ring_at(rings: Seq<(Sgl, Sgl)>, r: Sgl, from: int)
    requires
        0 <= from,
    ensures
        match app::ring_at(rings, r, from) {
            Some(i) => {
                &&& from <= i < rings.len()
                &&& single::at_most(rings[i].0, r) && single::at_most(r, rings[i].1)
                &&& forall|j: int|
                    from <= j < i ==> !(single::at_most((#[trigger] rings[j]).0, r)
                        && single::at_most(r, rings[j].1))
            },
            None => forall|j: int|
                from <= j < rings.len() ==> !(single::at_most((#[trigger] rings[j]).0, r)
                    && single::at_most(r, rings[j].1)),
        },
    decreases rings.len() - from,
{
    if from < rings.len() && !(single::at_most(rings[from].0, r) && single::at_most(
        r,
        rings[from].1,
    )) {
        law_ring_at(rings, r, from + 1);
    }
}

/// The slice at an angle of a ring is the first one there that begins no
/// later and ends later.
pub proof fn law_slice_at(ws: Seq<WedgeV>, ring: int, angle: Sgl, from: int)
    requires
        0 <= from,
    ensures
        match app::wedge_at(ws, ring, angle, from) {
            Some(i) => {
                &&& from <= i < ws.len()
                &&& ws[i].ring == ring
                &&& single::at_most(ws[i].a0, angle) && single::less(angle, ws[i].a1)
                &&& forall|j: int|
                    from <= j < i && (#[trigger] ws[j]).ring == ring ==> !(single::at_most(
                        ws[j].a0,
                        angle,
                    ) && single::less(angle, ws[j].a1))
            },
            None => forall|j: int|
                from <= j < ws.len() && (#[trigger] ws[j]).ring == ring ==> !(single::at_most(
                    ws[j].a0,
                    angle,
                ) && single::less(angle, ws[j].a1)),
        },
    decreases ws.len() - from,
{
    if from < ws.len() && !(ws[from].ring == ring && single::at_most(ws[from].a0, angle)
        && single::less(angle, ws[from].a1)) {
        law_slice_at(ws, ring, angle, from + 1);
    }
}

// ------------------------------------------------------------ the pointer

/// The slice under the pointer is the one at its angle in the ring at its
/// radius, whichever ring that is.
pub proof fn law_pointed(
    a: AppV,
    r: Sgl,
    angle: Sgl,
    hub: Sgl,
    rings: Seq<(Sgl, Sgl)>,
    k: int,
    wi: int,
)
    requires
        a.anim is None,
        !single::less(r, hub),
        0 <= k < rings.len(),
        single::at_most(rings[k].0, r) && single::at_most(r, rings[k].1),
        forall|j: int|
            0 <= j < k ==> !(single::at_most((#[trigger] rings[j]).0, r) && single::at_most(
                r,
                rings[j].1,
            )),
        0 <= wi < a.wedges.len(),
        a.wedges[wi].ring == k,
        single::at_most(a.wedges[wi].a0, angle) && single::less(angle, a.wedges[wi].a1),
        forall|j: int|
            0 <= j < wi && (#[trigger] a.wedges[j]).ring == k ==> !(single::at_most(
                a.wedges[j].a0,
                angle,
            ) && single::less(angle, a.wedges[j].a1)),
    ensures
        app::pointed(a, Some((r, angle)), hub, rings) == Some(wi),
{
    law_ring_at(rings, r, 0);
    law_slice_at(a.wedges, k, angle, 0);
}

/// Where the pointer is on no slice, the row that it is on tells: that of the
/// smaller items the inner lump, any other its slice. While the chart moves
/// there is none.
pub proof fn law_pointed_row(
    a: AppV,
    at: Option<(Sgl, Sgl)>,
    hub: Sgl,
    rings: Seq<(Sgl, Sgl)>,
)
    requires
        a.anim is Some || (at matches Some((r, angle)) ==> single::less(r, hub) || forall|
            k: int,
            j: int,
        |
            0 <= k < rings.len() && 0 <= j < a.wedges.len() && (#[trigger] a.wedges[j]).ring == k
                && single::at_most((#[trigger] rings[k]).0, r) && single::at_most(r, rings[k].1)
                ==> !(single::at_most(a.wedges[j].a0, angle) && single::less(
                angle,
                a.wedges[j].a1,
            ))),
    ensures
        app::pointed(a, at, hub, rings) == if a.anim is Some {
            None
        } else {
            match a.side_hover {
                None => None,
                Some(p) => if p.len() == 0 {
                    app::inner_lump(a.wedges, 0)
                } else {
                    app::wedge_on(a.wedges, p, 0)
                },
            }
        },
{
    if let Some((r, angle)) = at {
        law_ring_at(rings, r, 0);
        if let Some(k) = app::ring_at(rings, r, 0) {
            law_slice_at(a.wedges, k, angle, 0);
        }
    }
}

/// The hand is shown over what can be opened or moved, and the closed hand
/// while something is dragged.
pub proof fn law_icon(a: AppV, on_chart: bool, on_hub: bool)
    ensures
        app::icon_for(a, on_chart, on_hub) is Grabbing <==> a.dragging is Some,
        app::icon_for(a, on_chart, on_hub) is Hand <==> {
            &&& a.dragging is None
            &&& on_chart
            &&& on_hub || (a.hovered matches Some(h) && h < a.wedges.len() && (a.wedges[h].is_dir
                || a.wedges[h].lump || a.wedges[h].abs is Some))
        },
{
}

/// The slice under the pointer shines, or the one that is dragged, and all
/// that lead to it.
pub proof fn law_shines(a: AppV, wi: int)
    ensures
        app::touched(a, wi) <==> a.anim is None && (a.hovered == Some(wi) || a.dragging
            == Some(wi)),
        app::lit(a, wi) <==> a.anim is None && {
            ||| a.hovered == Some(wi)
            ||| a.dragging == Some(wi)
            ||| a.hovered matches Some(h) && a.wedges[wi].path.len() > 0 && exists|rest: Seq<int>|
                a.wedges[h].path == #[trigger] (a.wedges[wi].path + rest)
        },
{
    if let Some(h) = a.hovered {
        let way = a.wedges[h].path;
        let start = a.wedges[wi].path;
        if crate::cursor::leads_by(way, start) {
            assert(way =~= start + way.skip(start.len() as int));
        }
        if exists|rest: Seq<int>| way == #[trigger] (start + rest) {
            let rest = choose|rest: Seq<int>| way == #[trigger] (start + rest);
            assert(way.take(start.len() as int) =~= start);
        }
    }
}

// ------------------------------------------------------------ the trash

/// What is dropped on the trash, and is somewhere, is to be moved there once
/// confirmed; dropped anywhere else nothing is.
pub proof fn law_drop(a: AppV, over_trash: bool)
    ensures
        ({
            let b = app::dropped(a, over_trash);
            &&& b == (AppV { dragging: None, pending_trash: b.pending_trash, ..a })
            &&& (a.dragging matches Some(d) && over_trash && 0 <= d < a.wedges.len()
                && a.wedges[d].abs is Some) ==> b.pending_trash == Some(
                (a.wedges[a.dragging->0].abs->0, a.wedges[a.dragging->0].name),
            )
            &&& !(a.dragging matches Some(d) && over_trash && 0 <= d < a.wedges.len()
                && a.wedges[d].abs is Some) ==> b.pending_trash == a.pending_trash
        }),
{
}

// ------------------------------------------------------------ scans

/// A scan begins with an empty chart at the top of what is scanned.
pub proof fn law_scan_begins(
    a: AppV,
    path: Seq<u8>,
    shown: Seq<char>,
    admin: bool,
    mounts: Seq<MountV>,
)
    ensures
        ({
            let b = app::begun(a, path, shown, admin, mounts);
            &&& b.scan_root == path
            &&& b.path_input == shown
            &&& b.mounts == mounts
            &&& b.nav.len() == 0
            &&& b.wedges.len() == 0
            &&& !b.small_focus
            &&& b.state == (StateV::Scanning { admin })
            &&& b == (AppV {
                scan_root: b.scan_root,
                path_input: b.path_input,
                mounts: b.mounts,
                nav: b.nav,
                wedges: b.wedges,
                small_focus: b.small_focus,
                state: b.state,
                ..a
            })
        }),
        ({
            let b = app::fresh(path, shown, mounts);
            &&& b.scan_root == path
            &&& b.path_input == shown
            &&& b.mounts == mounts
            &&& b.nav.len() == 0
            &&& b.wedges.len() == 0
            &&& !b.small_focus
            &&& b.state == (StateV::Scanning { admin: false })
            &&& b.hovered is None && b.dragging is None
            &&& b.pending_trash is None && !b.pending_empty
            &&& b.side_sel is None && !b.pending_g && b.side_hover is None
            &&& b.trash_size is None
            &&& b.anim is None && b.pending_up is None
        }),
{
}

/// What a scan found is shown once it is there, and why it failed where it
/// did; nothing else changes, and no other state.
pub proof fn law_scan_ends(a: AppV, poll: Poll)
    ensures
        ({
            let b = app::collected(a, poll);
            &&& b == (AppV { state: b.state, ..a })
            &&& a.state !is Scanning || poll is Empty ==> b.state == a.state
            &&& a.state is Scanning ==> {
                &&& poll matches Poll::Done(Ok(n)) ==> b.state == StateV::Ready(n@)
                &&& poll matches Poll::Done(Err(e)) ==> b.state == StateV::Error(e@)
                &&& poll is Disconnected ==> b.state == StateV::Error("scan thread died"@)
            }
        }),
{
}

// ------------------------------------------------------------ frames

/// A frame shows the chart of the directory that the way leads to; where that
/// was just come up to, the chart closes into the slice of the child left.
pub proof fn law_frame(a: AppV, ws: Seq<WedgeV>)
    ensures
        ({
            let b = app::framed(a, ws);
            &&& b.wedges == ws
            &&& b.pending_up is None
            &&& b == (AppV { wedges: b.wedges, pending_up: b.pending_up, anim: b.anim, ..a })
            &&& a.pending_up is None ==> b.anim == a.anim
            &&& a.pending_up matches Some(child) ==> match app::slice_of(ws, child, 0) {
                Some(i) => b.anim matches Some(x) && {
                    &&& x.span == (ws[i].a0, ws[i].a1)
                    &&& x.shift == 1
                    &&& !x.dir_in
                    &&& x.old.len() == 0
                },
                None => b.anim == a.anim,
            }
        }),
        a.state matches StateV::Ready(t) ==> app::seen(a) == look::look_at(
            nav::displayed_place(a.scan_root, t, a.nav),
            nav::displayed_tree(t, a.nav),
            a.small_focus,
        ),
{
}

/// A question is open while a move to the trash, or emptying it, is to be
/// confirmed.
pub proof fn law_modal(a: AppV)
    ensures
        app::modal(a) <==> a.pending_trash is Some || a.pending_empty,
{
}

/// The row under the pointer shines, and else that of the cursor.
pub proof fn law_row_shines(a: AppV, hover_row: Option<int>, row: int)
    ensures
        hover_row is Some ==> (app::row_shines(a, hover_row, row) <==> hover_row == Some(row)),
        hover_row is None ==> (app::row_shines(a, hover_row, row) <==> a.side_sel == Some(row)),
{
}

// ------------------------------------------------------------ the way

/// Each step of a way leads to the child that it names; one that names none
/// leads nowhere else.
pub proof fn law_way(base: Seq<u8>, t: crate::tree::Tree, way: Seq<int>, i: int)
    ensures
        nav::displayed_tree(t, Seq::<int>::empty()) == t,
        nav::displayed_place(base, t, Seq::<int>::empty()) == base,
        nav::names(t, Seq::<int>::empty()).len() == 0,
        ({
            let at = nav::displayed_tree(t, way);
            let place = nav::displayed_place(base, t, way);
            let next = way.push(i);
            if 0 <= i < at.children.len() {
                &&& nav::displayed_tree(t, next) == at.children[i]
                &&& nav::displayed_place(base, t, next) == crate::paths::joined(
                    place,
                    vstd::utf8::encode_utf8(at.children[i].name),
                )
                &&& nav::names(t, next) == nav::names(t, way).push(at.children[i].name)
            } else {
                &&& nav::displayed_tree(t, next) == at
                &&& nav::displayed_place(base, t, next) == place
                &&& nav::names(t, next) == nav::names(t, way)
            }
        }),
    decreases way.len(),
{
    let next = way.push(i);
    if way.len() == 0 {
        assert(next[0] == i);
        assert(next.skip(1) =~= Seq::<int>::empty());
        reveal_with_fuel(nav::displayed_tree, 2);
        reveal_with_fuel(nav::displayed_place, 2);
        reveal_with_fuel(nav::names, 2);
        assert(way =~= Seq::<int>::empty());
        if 0 <= i < t.children.len() {
            assert(nav::names(t, next) =~= nav::names(t, way).push(t.children[i].name));
        }
    } else {
        assert(next[0] == way[0]);
        assert(next.skip(1) =~= way.skip(1).push(i));
        if 0 <= way[0] < t.children.len() {
            let c = t.children[way[0]];
            let b = crate::paths::joined(base, vstd::utf8::encode_utf8(c.name));
            law_way(b, c, way.skip(1), i);
            assert(nav::names(t, way) == seq![c.name] + nav::names(c, way.skip(1)));
            let at = nav::displayed_tree(t, way);
            if 0 <= i < at.children.len() {
                assert(nav::names(t, next) =~= nav::names(t, way).push(at.children[i].name));
            }
        } else {
            law_way(base, t, way.skip(1), i);
        }
    }
}

/// Zooming into the slice of a directory goes along its way, in whatever ring it
/// is; into any other slice it does nothing.
pub proof fn law_zoom(a: AppV, wi: int)
    ensures
        ({
            let w = a.wedges[wi];
            let b = app::zoomed(a, wi);
            &&& w.is_dir && w.path.len() > 0 ==> b == (AppV {
                nav: a.nav + w.path,
                small_focus: false,
                anim: Some(
                    AnimV {
                        span: (w.a0, w.a1),
                        shift: w.ring + 1,
                        dir_in: true,
                        old: a.wedges,
                    },
                ),
                wedges: seq![],
                ..a
            })
            &&& !w.is_dir || w.path.len() == 0 ==> b == a
        }),
{
}

} // verus!
