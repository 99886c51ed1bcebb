//! What one sees of a directory: its chart, and the side list of the same
//! children.

use vstd::prelude::*;
use vstd::slice::slice_subrange;

use crate::float;
use crate::float::Num;
use crate::hue;
use crate::layout;
use crate::layout::Sector;
use crate::layout::SectorV;
use crate::layout::Wedge;
use crate::layout::WedgeV;
use crate::nav;
use crate::order;
use crate::side;
use crate::side::RowV;
use crate::side::Scope;
use crate::side::SideRow;
use crate::single;
use crate::single::Sgl;
use crate::single::Single;
use crate::sizes;
use crate::tree;
use crate::tree::Node;
use crate::tree::Tree;

verus! {

pub struct Look {
    /// The size of what is shown, at least 1.
    pub size: u64,
    pub name: String,
    pub wedges: Vec<Wedge>,
    pub rows: Vec<SideRow>,
}

/// What a [`Look`] stands for.
pub ghost struct LookV {
    pub size: int,
    pub name: Seq<char>,
    pub wedges: Seq<WedgeV>,
    pub rows: Seq<RowV>,
}

impl View for Look {
    type V = LookV;

    open spec fn view(&self) -> LookV {
        LookV {
            size: self.size as int,
            name: self.name@,
            wedges: layout::wedge_views(self.wedges@),
            rows: side::row_views(self.rows@),
        }
    }
}

/// How many children come before those that are shown: all that are not small,
/// where only the smaller items are shown.
pub open spec fn offset(shown: Tree, small_focus: bool) -> int {
    let c = nav::first_small(shown.children, shown.size, 0);
    if small_focus && c < shown.children.len() {
        c
    } else {
        0
    }
}

/// Whether only the smaller items are shown: where there are some.
pub open spec fn focused(shown: Tree, small_focus: bool) -> bool {
    small_focus && nav::first_small(shown.children, shown.size, 0) < shown.children.len()
}

/// The children that are shown.
pub open spec fn shown_kids(shown: Tree, small_focus: bool) -> Seq<Tree> {
    shown.children.skip(offset(shown, small_focus))
}

/// Their size together, taken to be at least 1.
pub open spec fn shown_size(shown: Tree, small_focus: bool) -> int {
    sizes::at_least_one(
        if focused(shown, small_focus) {
            tree::total(shown_kids(shown, small_focus))
        } else {
            shown.size
        },
    )
}

pub open spec fn shown_name(shown: Tree, small_focus: bool) -> Seq<char> {
    if focused(shown, small_focus) {
        shown.name + " \u{b7} smaller items"@
    } else {
        shown.name
    }
}

/// The whole chart.
pub open spec fn full(size: int, abs: Seq<u8>, first: int) -> SectorV {
    SectorV {
        size,
        abs,
        path: seq![],
        first,
        ring: 0,
        a0: Sgl::Num(float::Flo { m: 0, e: -149 }),
        a1: hue::turn(),
        whole: size,
        hue: None,
    }
}

pub open spec fn look_at(place: Seq<u8>, shown: Tree, small_focus: bool) -> LookV {
    let kids = shown_kids(shown, small_focus);
    let offset = offset(shown, small_focus);
    let size = shown_size(shown, small_focus);
    let wedges = layout::chart(kids, full(size, place, offset));
    let scope = Scope {
        kids,
        offset,
        total: size,
        focus: focused(shown, small_focus),
        wedges,
    };
    LookV { size, name: shown_name(shown, small_focus), wedges, rows: side::rows(0, scope) }
}

/// Whether each size is one of the machine.
pub open spec fn fitting(l: LookV) -> bool {
    l.size <= u64::MAX && layout::fitting(l.wedges) && side::fitting(l.rows)
}

/// What one sees from the place that the indices lead to; nothing where a size
/// is too great for the machine.
pub fn look(scan_root: &[u8], root: &Node, nav: &[usize], small_focus: bool) -> (r: Option<Look>)
    ensures
        ({
            let way = layout::indices(nav@);
            let l = look_at(
                nav::displayed_place(scan_root@, root@, way),
                nav::displayed_tree(root@, way),
                small_focus,
            );
            match r {
                Some(look) => look@ == l && fitting(l) && layout::well_formed(l.wedges) && l.size
                    >= 1,
                None => !fitting(l),
            }
        }),
{
    let shown = nav::displayed(root, nav);
    let abs = nav::displayed_path(scan_root, root, nav);
    let ghost goal = look_at(abs@, shown@, small_focus);
    let all = shown.children.as_slice();
    proof {
        tree::lemma_tree_children(*shown);
        float::lemma_up_values();
    }
    let cut = nav::cut(all, shown.size);
    let focus = small_focus && cut < all.len();
    let first: usize = if focus {
        cut
    } else {
        0
    };
    let kids = slice_subrange(all, first, all.len());
    proof {
        assert(tree::trees(kids@) == shown_kids(shown@, small_focus));
    }
    let sum: u64 = if focus {
        match tree::total_from(kids, 0) {
            Some(n) => {
                proof {
                    assert(tree::trees(kids@).skip(0) == tree::trees(kids@));
                }
                n
            },
            None => {
                proof {
                    assert(tree::trees(kids@).skip(0) == tree::trees(kids@));
                    assert(goal.size > u64::MAX);
                }
                return None;
            },
        }
    } else {
        shown.size
    };
    let size: u64 = if sum < 1 {
        1
    } else {
        sum
    };
    let sector = Sector {
        size,
        abs,
        path: Vec::new(),
        first,
        ring: 0,
        a0: Single::Num(Num { m: 0, e: -149 }),
        a1: Single::Num(Num { m: 13176795, e: -21 }),
        whole: size,
        hue: None,
    };
    proof {
        assert(layout::indices(sector.path@) == Seq::<int>::empty());
        assert(sector@ == full(size as int, abs@, first as int));
        assert(layout::angled(sector@)) by {
            float::lemma_less_canonical(
                float::binary32(),
                hue::turn()->Num_0,
                float::Flo { m: 0, e: -149 },
            );
        }
    }
    let wedges = match layout::layout(kids, &sector) {
        Some(wedges) => wedges,
        None => {
            return None;
        },
    };
    let rows = match side::side_rows(kids, first, size, focus, &wedges) {
        Some(rows) => rows,
        None => {
            return None;
        },
    };
    let mut name = shown.name.clone();
    if focus {
        name.append(" \u{b7} smaller items");
    }
    Some(Look { size, name, wedges, rows })
}

// ------------------------------------------------------------ laws

/// The view of the smaller items shows all children under 2%, and no other.
pub proof fn law_smaller_items(shown: Tree, k: int)
    requires
        order::descending(shown.children),
        focused(shown, true),
        0 <= k < shown.children.len(),
        shown.children[k].size >= 0,
    ensures
        nav::small(shown.children[k].size, shown.size) <==> k >= offset(shown, true),
{
    nav::law_cut(shown.children, shown.size, k);
}

/// Indices into the children shown are indices into the directory.
proof fn lemma_reached(shown: Tree, small_focus: bool, place: Seq<u8>, path: Seq<int>)
    requires
        layout::reached(shown_kids(shown, small_focus), offset(shown, small_focus), path) is Some,
    ensures
        layout::reached(shown_kids(shown, small_focus), offset(shown, small_focus), path) == Some(
            nav::displayed_tree(shown, path),
        ),
        layout::located(shown_kids(shown, small_focus), offset(shown, small_focus), path, place)
            == nav::displayed_place(place, shown, path),
{
    let off = offset(shown, small_focus);
    nav::lemma_first_small(shown.children, shown.size, 0);
    let ts = shown_kids(shown, small_focus);
    assert(ts[path[0] - off] == shown.children[path[0]]);
    assert(layout::reached(ts, off, path) == layout::reached(shown.children, 0, path));
    assert(layout::located(ts, off, path, place) == layout::located(
        shown.children,
        0,
        path,
        place,
    ));
    nav::law_displayed_reached(shown, path);
    nav::lemma_located(shown, path, place);
}

/// Each slice that is no lump leads to what it shows: following its indices
/// from the directory shown one comes to that node, at that path, as many
/// levels down as the slice lies rings out.
pub proof fn law_wedge_leads(place: Seq<u8>, shown: Tree, small_focus: bool, k: int)
    requires
        0 <= k < look_at(place, shown, small_focus).wedges.len(),
    ensures
        ({
            let w = look_at(place, shown, small_focus).wedges[k];
            let t = nav::displayed_tree(shown, w.path);
            &&& w.lump ==> w.path.len() == 0 && w.abs is None && !w.is_dir
            &&& !w.lump ==> {
                &&& w.path.len() == w.ring + 1
                &&& w.name == t.name
                &&& w.size == t.size
                &&& w.is_dir == t.is_dir
                &&& w.abs == Some(nav::displayed_place(place, shown, w.path))
            }
        }),
{
    let ts = shown_kids(shown, small_focus);
    let s = full(shown_size(shown, small_focus), place, offset(shown, small_focus));
    let w = layout::chart(ts, s)[k];
    layout::law_chart_leads(ts, s, k);
    assert(w.path.skip(0) == w.path);
    if !w.lump {
        lemma_reached(shown, small_focus, place, w.path);
    }
}

/// Each row for an item leads to it in the same way.
pub proof fn law_row_leads(place: Seq<u8>, shown: Tree, small_focus: bool, n: int)
    requires
        0 <= n < look_at(place, shown, small_focus).rows.len(),
    ensures
        ({
            let l = look_at(place, shown, small_focus);
            let r = l.rows[n];
            r.kind matches side::KindV::Item { path, is_dir } ==> {
                let t = nav::displayed_tree(shown, path);
                &&& r.indent + 1 == path.len()
                &&& is_dir == t.is_dir
                &&& r.label == sizes::row_text(t, l.size)
            }
        }),
{
    let l = look_at(place, shown, small_focus);
    let s = Scope {
        kids: shown_kids(shown, small_focus),
        offset: offset(shown, small_focus),
        total: l.size,
        focus: focused(shown, small_focus),
        wedges: l.wedges,
    };
    side::law_rows_lead(s, n);
    if let side::KindV::Item { path, is_dir } = l.rows[n].kind {
        lemma_reached(shown, small_focus, place, path);
    }
}

} // verus!
