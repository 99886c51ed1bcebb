//! The one highlight of the side list: the row under the pointer, else the
//! cursor that the keys move.

use vstd::prelude::*;
use vstd::slice::slice_to_vec;

use crate::layout;
use crate::layout::Wedge;
use crate::layout::WedgeV;
use crate::side;
use crate::side::KindV;
use crate::side::RowV;
use crate::side::SideKind;
use crate::side::SideRow;

verus! {

// ------------------------------------------------------------ the cursor

pub open spec fn interactive(r: RowV) -> bool {
    r.kind !is Note
}

/// The first row from `i` on that the cursor can be on.
pub open spec fn next_from(rows: Seq<RowV>, i: int) -> Option<int>
    decreases rows.len() - i,
{
    if i < 0 || i >= rows.len() {
        None
    } else if interactive(rows[i]) {
        Some(i)
    } else {
        next_from(rows, i + 1)
    }
}

/// The last row before `i` that the cursor can be on.
pub open spec fn last_before(rows: Seq<RowV>, i: int) -> Option<int>
    decreases i,
{
    if i <= 0 {
        None
    } else if interactive(rows[i - 1]) {
        Some(i - 1)
    } else {
        last_before(rows, i - 1)
    }
}

fn can_act(r: &SideRow) -> (b: bool)
    ensures
        b == interactive(r@),
{
    match r.kind {
        SideKind::Note => false,
        _ => true,
    }
}

pub fn first_row(rows: &Vec<SideRow>, from: usize) -> (r: Option<usize>)
    ensures
        side::index_view(r) == next_from(side::row_views(rows@), from as int),
        r matches Some(i) ==> from <= i < rows@.len(),
{
    let mut i: usize = from;
    while i < rows.len()
        invariant
            from <= i,
            next_from(side::row_views(rows@), from as int) == next_from(
                side::row_views(rows@),
                i as int,
            ),
        decreases rows@.len() - i,
    {
        if can_act(&rows[i]) {
            return Some(i);
        }
        i = i + 1;
    }
    None
}

pub fn last_row(rows: &Vec<SideRow>, before: usize) -> (r: Option<usize>)
    requires
        before <= rows@.len(),
    ensures
        side::index_view(r) == last_before(side::row_views(rows@), before as int),
        r matches Some(i) ==> i < before,
{
    let mut i: usize = before;
    while i > 0
        invariant
            i <= before <= rows@.len(),
            last_before(side::row_views(rows@), before as int) == last_before(
                side::row_views(rows@),
                i as int,
            ),
        decreases i,
    {
        if can_act(&rows[i - 1]) {
            return Some(i - 1);
        }
        i = i - 1;
    }
    None
}

/// One step down or up; from nowhere to the first or the last row. Where there
/// is no row to go to the cursor stays.
pub open spec fn stepped(rows: Seq<RowV>, from: Option<int>, down: bool) -> Option<int> {
    match from {
        None => if down {
            next_from(rows, 0)
        } else {
            last_before(rows, rows.len() as int)
        },
        Some(at) => {
            let to = if down {
                next_from(rows, at + 1)
            } else {
                last_before(rows, at)
            };
            if to is Some {
                to
            } else {
                from
            }
        },
    }
}

/// A cursor behind the rows cannot step up.
pub fn step(rows: &Vec<SideRow>, from: Option<usize>, down: bool) -> (r: Option<usize>)
    requires
        !down ==> (from matches Some(at) ==> at <= rows@.len()),
    ensures
        side::index_view(r) == stepped(side::row_views(rows@), side::index_view(from), down),
{
    match from {
        None => if down {
            first_row(rows, 0)
        } else {
            last_row(rows, rows.len())
        },
        Some(at) => {
            let to: Option<usize> = if !down {
                last_row(rows, at)
            } else if at < rows.len() {
                first_row(rows, at + 1)
            } else {
                None
            };
            if to.is_some() {
                to
            } else {
                from
            }
        },
    }
}

/// The keys of the side list that were pressed: j, k, g, G, Enter or l.
#[derive(Clone, Copy)]
pub struct Keys {
    pub down: bool,
    pub up: bool,
    pub g: bool,
    pub last: bool,
    pub act: bool,
}

/// Where the cursor goes. The first g of two only waits for the second.
pub open spec fn moved(rows: Seq<RowV>, sel: Option<int>, pending_g: bool, keys: Keys) -> Option<
    int,
> {
    if keys.down {
        stepped(rows, sel, true)
    } else if keys.up {
        stepped(rows, sel, false)
    } else if keys.last {
        last_before(rows, rows.len() as int)
    } else if keys.g && pending_g {
        next_from(rows, 0)
    } else {
        sel
    }
}

/// Whether a first g waits for a second.
pub open spec fn waiting(pending_g: bool, keys: Keys) -> bool {
    !keys.act && !keys.down && !keys.up && !keys.last && (keys.g != pending_g)
}

pub fn move_cursor(rows: &Vec<SideRow>, sel: Option<usize>, pending_g: bool, keys: Keys) -> (r: (
    Option<usize>,
    bool,
))
    requires
        keys.up && !keys.down ==> (sel matches Some(at) ==> at <= rows@.len()),
    ensures
        side::index_view(r.0) == moved(
            side::row_views(rows@),
            side::index_view(sel),
            pending_g,
            keys,
        ),
        r.1 == waiting(pending_g, keys),
{
    let to = if keys.down {
        step(rows, sel, true)
    } else if keys.up {
        step(rows, sel, false)
    } else if keys.last {
        last_row(rows, rows.len())
    } else if keys.g && pending_g {
        first_row(rows, 0)
    } else {
        sel
    };
    (to, !keys.act && !keys.down && !keys.up && !keys.last && keys.g != pending_g)
}

/// The cursor on a row; where it is nowhere, or behind the rows, on the first.
pub open spec fn parked(rows: Seq<RowV>, sel: Option<int>) -> Option<int> {
    match sel {
        Some(at) if at < rows.len() => sel,
        _ => next_from(rows, 0),
    }
}

pub fn park(rows: &Vec<SideRow>, sel: Option<usize>) -> (r: Option<usize>)
    ensures
        side::index_view(r) == parked(side::row_views(rows@), side::index_view(sel)),
{
    match sel {
        Some(at) => if at < rows.len() {
            sel
        } else {
            first_row(rows, 0)
        },
        None => first_row(rows, 0),
    }
}

/// What a row leads to.
pub enum Choice {
    Nothing,
    /// Into a directory.
    Open(Vec<usize>),
    /// Into the smaller items.
    Smaller(Vec<usize>),
}

/// What a [`Choice`] stands for.
pub ghost enum ChoiceV {
    Nothing,
    Open(Seq<int>),
    Smaller(Seq<int>),
}

impl View for Choice {
    type V = ChoiceV;

    open spec fn view(&self) -> ChoiceV {
        match *self {
            Choice::Nothing => ChoiceV::Nothing,
            Choice::Open(p) => ChoiceV::Open(layout::indices(p@)),
            Choice::Smaller(k) => ChoiceV::Smaller(layout::indices(k@)),
        }
    }
}

pub open spec fn chosen(rows: Seq<RowV>, sel: Option<int>) -> ChoiceV {
    match sel {
        Some(at) if 0 <= at < rows.len() => match rows[at].kind {
            KindV::Item { path, is_dir } => if is_dir {
                ChoiceV::Open(path)
            } else {
                ChoiceV::Nothing
            },
            KindV::Toggle { key } => ChoiceV::Smaller(key),
            KindV::Note => ChoiceV::Nothing,
        },
        _ => ChoiceV::Nothing,
    }
}

pub fn choose_row(rows: &Vec<SideRow>, sel: Option<usize>) -> (r: Choice)
    ensures
        r@ == chosen(side::row_views(rows@), side::index_view(sel)),
{
    match sel {
        Some(at) => if at < rows.len() {
            match &rows[at].kind {
                SideKind::Item { path, is_dir } => if *is_dir {
                    Choice::Open(slice_to_vec(path.as_slice()))
                } else {
                    Choice::Nothing
                },
                SideKind::Toggle { key } => Choice::Smaller(slice_to_vec(key.as_slice())),
                SideKind::Note => Choice::Nothing,
            }
        } else {
            Choice::Nothing
        },
        None => Choice::Nothing,
    }
}

/// Nowhere, or on a row that it can be on.
pub open spec fn on_row(rows: Seq<RowV>, sel: Option<int>) -> bool {
    sel matches Some(at) ==> 0 <= at < rows.len() && interactive(rows[at])
}

proof fn lemma_next_from(rows: Seq<RowV>, i: int)
    requires
        0 <= i,
    ensures
        on_row(rows, next_from(rows, i)),
        match next_from(rows, i) {
            Some(n) => i <= n && forall|j: int| i <= j < n ==> !interactive(#[trigger] rows[j]),
            None => forall|j: int| i <= j < rows.len() ==> !interactive(#[trigger] rows[j]),
        },
    decreases rows.len() - i,
{
    if i < rows.len() && !interactive(rows[i]) {
        lemma_next_from(rows, i + 1);
    }
}

proof fn lemma_last_before(rows: Seq<RowV>, i: int)
    requires
        i <= rows.len(),
    ensures
        on_row(rows, last_before(rows, i)),
        match last_before(rows, i) {
            Some(n) => n < i && forall|j: int| n < j < i ==> !interactive(#[trigger] rows[j]),
            None => forall|j: int| 0 <= j < i ==> !interactive(#[trigger] rows[j]),
        },
    decreases i,
{
    if i > 0 && !interactive(rows[i - 1]) {
        lemma_last_before(rows, i - 1);
    }
}

/// The keys keep the cursor on rows that it can be on: it skips the notes.
pub proof fn law_cursor_skips_notes(
    rows: Seq<RowV>,
    sel: Option<int>,
    pending_g: bool,
    keys: Keys,
)
    requires
        on_row(rows, sel),
    ensures
        on_row(rows, moved(rows, sel, pending_g, keys)),
        on_row(rows, parked(rows, sel)),
{
    lemma_next_from(rows, 0);
    lemma_last_before(rows, rows.len() as int);
    if let Some(at) = sel {
        lemma_next_from(rows, at + 1);
        lemma_last_before(rows, at);
    }
}

/// A view with a row that the cursor can be on shows it on one: a cursor from
/// another view that is nowhere, or behind the rows, goes to the first.
pub proof fn law_cursor_visible(rows: Seq<RowV>, sel: Option<int>, k: int)
    requires
        0 <= k < rows.len(),
        interactive(rows[k]),
    ensures
        parked(rows, sel) is Some,
        sel is None ==> on_row(rows, parked(rows, sel)) && parked(rows, sel)->0 <= k,
{
    lemma_next_from(rows, 0);
}

/// A step up undoes a step down that moved.
pub proof fn law_step_back(rows: Seq<RowV>, at: int)
    requires
        on_row(rows, Some(at)),
        stepped(rows, Some(at), true) != Some(at),
    ensures
        stepped(rows, stepped(rows, Some(at), true), false) == Some(at),
{
    lemma_next_from(rows, at + 1);
    let to = next_from(rows, at + 1)->0;
    lemma_last_before(rows, to);
}

// ------------------------------------------------------------ the pointer

pub open spec fn leads_by(way: Seq<int>, start: Seq<int>) -> bool {
    start.len() <= way.len() && way.take(start.len() as int) == start
}

/// Whether a way begins with another.
pub fn is_start(way: &[usize], start: &[usize]) -> (r: bool)
    ensures
        r == leads_by(layout::indices(way@), layout::indices(start@)),
{
    let ghost w = layout::indices(way@);
    let ghost s = layout::indices(start@);
    if start.len() > way.len() {
        return false;
    }
    for i in 0..start.len()
        invariant
            start@.len() <= way@.len(),
            w == layout::indices(way@),
            s == layout::indices(start@),
            forall|j: int| 0 <= j < i ==> w[j] == s[j],
    {
        if way[i] != start[i] {
            assert(w.take(s.len() as int)[i as int] != s[i as int]);
            return false;
        }
    }
    assert(w.take(s.len() as int) == s);
    true
}

/// Whether a row is for what lies on the way.
pub open spec fn on_way(r: RowV, way: Seq<int>) -> bool {
    r.kind matches KindV::Item { path, .. } && leads_by(way, path)
}

pub open spec fn depth(r: RowV) -> int {
    match r.kind {
        KindV::Item { path, .. } => path.len() as int,
        _ => 0,
    }
}

/// The row nearest to the end of the way, the last of those.
pub open spec fn is_deepest(rows: Seq<RowV>, way: Seq<int>, r: Option<int>) -> bool {
    match r {
        None => forall|j: int| 0 <= j < rows.len() ==> !on_way(#[trigger] rows[j], way),
        Some(i) => {
            &&& 0 <= i < rows.len()
            &&& on_way(rows[i], way)
            &&& forall|j: int|
                0 <= j < rows.len() && on_way(#[trigger] rows[j], way) ==> depth(rows[j]) <= depth(
                    rows[i],
                ) && (j > i ==> depth(rows[j]) < depth(rows[i]))
        },
    }
}

/// The row of the smaller items of what is shown.
pub open spec fn small_row(rows: Seq<RowV>, i: int) -> Option<int>
    decreases rows.len() - i,
{
    if i < 0 || i >= rows.len() {
        None
    } else if rows[i].kind == (KindV::Toggle { key: seq![] }) {
        Some(i)
    } else {
        small_row(rows, i + 1)
    }
}

/// The row to light for a slice under the pointer: that of the smaller items
/// for the innermost lump, else the deepest one on the way to it.
pub open spec fn is_hover_row(rows: Seq<RowV>, hovered: Option<WedgeV>, r: Option<int>) -> bool {
    match hovered {
        None => r is None,
        Some(w) => if w.lump && w.ring == 0 {
            r == small_row(rows, 0)
        } else if w.path.len() == 0 {
            r is None
        } else {
            is_deepest(rows, w.path, r)
        },
    }
}

fn find_small_row(rows: &Vec<SideRow>) -> (r: Option<usize>)
    ensures
        side::index_view(r) == small_row(side::row_views(rows@), 0),
{
    for i in 0..rows.len()
        invariant
            small_row(side::row_views(rows@), 0) == small_row(side::row_views(rows@), i as int),
    {
        if let SideKind::Toggle { key } = &rows[i].kind {
            proof {
                assert(key@.len() == 0 ==> layout::indices(key@) == Seq::<int>::empty());
                assert(layout::indices(key@).len() == key@.len());
            }
            if key.len() == 0 {
                return Some(i);
            }
        }
    }
    None
}

fn find_deepest(rows: &Vec<SideRow>, way: &[usize]) -> (r: Option<usize>)
    ensures
        is_deepest(side::row_views(rows@), layout::indices(way@), side::index_view(r)),
{
    let ghost views = side::row_views(rows@);
    let ghost w = layout::indices(way@);
    let mut best: Option<usize> = None;
    let mut len: usize = 0;
    proof {
        assert(views.take(0) == Seq::<RowV>::empty());
    }
    for i in 0..rows.len()
        invariant
            views == side::row_views(rows@),
            w == layout::indices(way@),
            is_deepest(views.take(i as int), w, side::index_view(best)),
            best matches Some(b) ==> b < i && len == depth(views[b as int]),
    {
        let ghost seen = views.take(i as int);
        let ghost now = views.take(i + 1);
        let ghost r = views[i as int];
        proof {
            assert(now == seen.push(r));
            assert(forall|j: int| 0 <= j < i ==> #[trigger] now[j] == seen[j]);
        }
        let mut here = false;
        let mut n: usize = 0;
        if let SideKind::Item { path, .. } = &rows[i].kind {
            here = is_start(way, path.as_slice());
            n = path.len();
        }
        proof {
            assert(here == on_way(r, w));
            assert(here ==> n == depth(r));
        }
        if here && (best.is_none() || n >= len) {
            best = Some(i);
            len = n;
        }
    }
    proof {
        assert(views.take(views.len() as int) == views);
    }
    best
}

pub fn hover_row(rows: &Vec<SideRow>, hovered: Option<&Wedge>) -> (r: Option<usize>)
    ensures
        is_hover_row(
            side::row_views(rows@),
            match hovered {
                Some(w) => Some(w@),
                None => None,
            },
            side::index_view(r),
        ),
{
    match hovered {
        None => None,
        Some(w) => if w.lump && w.ring == 0 {
            find_small_row(rows)
        } else if w.path.len() == 0 {
            None
        } else {
            find_deepest(rows, w.path.as_slice())
        },
    }
}

} // verus!
