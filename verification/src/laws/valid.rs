//! Which values are valid, and what fits the machine.

use vstd::prelude::*;

use crate::admin;
use crate::app;
use crate::app::AppV;
use crate::layout;
use crate::layout::SectorV;
use crate::layout::Wedge;
use crate::layout::WedgeV;
use crate::look;
use crate::look::LookV;
use crate::mounts;
use crate::mounts::Mount;
use crate::nav;
use crate::paths;
use crate::rings;
use crate::side;
use crate::side::RowV;
use crate::side::SideRow;
use crate::single;
use crate::single::Sgl;
use crate::single::Single;
use crate::trash;
use crate::trash::Removal;
use crate::tree;
use crate::tree::Node;
use crate::walk;
use crate::walk::Entry;

verus! {

/// A chart fits the machine where each size in it does, however many slices it
/// has; so does the side list, and what is shown of a directory.
pub proof fn law_fits(ws: Seq<WedgeV>, rows: Seq<RowV>, l: LookV)
    ensures
        layout::fitting(ws) <==> forall|i: int| 0 <= i < ws.len() ==> (#[trigger] ws[i]).size
            <= u64::MAX,
        side::fitting(rows) <==> forall|i: int|
            0 <= i < rows.len() ==> (#[trigger] rows[i]).size <= u64::MAX,
        look::fitting(l) <==> {
            &&& l.size <= u64::MAX
            &&& forall|i: int| 0 <= i < l.wedges.len() ==> (#[trigger] l.wedges[i]).size <= u64::MAX
            &&& forall|i: int| 0 <= i < l.rows.len() ==> (#[trigger] l.rows[i]).size <= u64::MAX
        },
{
}

/// Any sector that ends no earlier than it begins can be laid out.
pub proof fn law_any_sector(s: SectorV)
    requires
        single::wf(s.a0),
        single::wf(s.a1),
        !single::less(s.a1, s.a0),
        s.hue matches Some(h) ==> single::wf(h),
    ensures
        layout::angled(s),
{
}

/// Any slices in the rings are valid, and so is any state of the viewer that
/// shows them.
pub proof fn law_any_state(a: AppV)
    requires
        forall|i: int|
            0 <= i < a.wedges.len() ==> {
                &&& 0 <= (#[trigger] a.wedges[i]).ring < 20
                &&& single::wf(a.wedges[i].a0)
                &&& single::wf(a.wedges[i].a1)
                &&& single::wf(a.wedges[i].hue)
                &&& single::wf(a.wedges[i].frac)
                &&& a.wedges[i].frac matches Sgl::Num(f) && f.e <= 48
            },
        a.anim is None,
    ensures
        app::wf(a),
        a.hovered is None ==> app::aimed(a),
        (a.hovered matches Some(h) && 0 <= h < a.wedges.len()) ==> app::aimed(a),
{
    assert forall|i: int| 0 <= i < a.wedges.len() implies layout::wedge_wf(
        #[trigger] a.wedges[i],
    ) by {}
}

/// A scan with more rights is waited for a quarter of an hour.
pub proof fn law_patience()
    ensures
        admin::MAX_CHECKS * admin::CHECK_EVERY == 15 * 60 * 1000,
{
}

/// What stands for a list has as many elements, each standing for its own.
pub proof fn law_views(
    ns: Seq<Node>,
    ws: Seq<Wedge>,
    rows: Seq<SideRow>,
    ms: Seq<Mount>,
    ps: Seq<Vec<u8>>,
    es: Seq<Entry>,
    names: Seq<String>,
    way: Seq<usize>,
    bs: Seq<(Single, Single)>,
    rs: Seq<Removal>,
)
    ensures
        tree::trees(ns).len() == ns.len(),
        forall|i: int| 0 <= i < ns.len() ==> #[trigger] tree::trees(ns)[i] == ns[i]@,
        layout::wedge_views(ws).len() == ws.len(),
        forall|i: int| 0 <= i < ws.len() ==> #[trigger] layout::wedge_views(ws)[i] == ws[i]@,
        side::row_views(rows).len() == rows.len(),
        forall|i: int| 0 <= i < rows.len() ==> #[trigger] side::row_views(rows)[i] == rows[i]@,
        mounts::mount_views(ms).len() == ms.len(),
        forall|i: int| 0 <= i < ms.len() ==> #[trigger] mounts::mount_views(ms)[i] == ms[i]@,
        paths::views(ps).len() == ps.len(),
        forall|i: int| 0 <= i < ps.len() ==> #[trigger] paths::views(ps)[i] == ps[i]@,
        walk::entry_views(es).len() == es.len(),
        forall|i: int| 0 <= i < es.len() ==> #[trigger] walk::entry_views(es)[i] == es[i]@,
        nav::string_views(names).len() == names.len(),
        forall|i: int| 0 <= i < names.len() ==> #[trigger] nav::string_views(names)[i] == names[i]@,
        layout::indices(way).len() == way.len(),
        forall|i: int| 0 <= i < way.len() ==> #[trigger] layout::indices(way)[i] == way[i],
        rings::bound_views(bs).len() == bs.len(),
        forall|i: int|
            0 <= i < bs.len() ==> #[trigger] rings::bound_views(bs)[i] == (bs[i].0@, bs[i].1@),
        trash::removal_views(rs).len() == rs.len(),
        forall|i: int| 0 <= i < rs.len() ==> #[trigger] trash::removal_views(rs)[i] == rs[i]@,
{
}

/// A listing stands for all its entries; one that could not be read for none.
pub proof fn law_listing(listing: Option<Vec<Entry>>)
    ensures
        listing is None ==> walk::listing_view(listing).len() == 0,
        listing matches Some(es) ==> {
            &&& walk::listing_view(listing).len() == es@.len()
            &&& forall|i: int|
                0 <= i < es@.len() ==> {
                    &&& (#[trigger] walk::listing_view(listing)[i]).path == es@[i].path@
                    &&& walk::listing_view(listing)[i].name == es@[i].name@
                    &&& walk::listing_view(listing)[i].kind == es@[i].kind
                }
        },
{
}

} // verus!
