//! What the keys do in the side list.

use vstd::prelude::*;

use crate::cursor;
use crate::cursor::ChoiceV;
use crate::cursor::Keys;
use crate::layout::WedgeV;
use crate::side::KindV;
use crate::side::RowV;

verus! {

/// The next row is the first one from a place on that is no note.
pub proof fn law_next_row(rows: Seq<RowV>, from: int)
    requires
        0 <= from,
    ensures
        match cursor::next_from(rows, from) {
            Some(i) => {
                &&& from <= i < rows.len()
                &&& rows[i].kind !is Note
                &&& forall|j: int| from <= j < i ==> (#[trigger] rows[j]).kind is Note
            },
            None => forall|j: int| from <= j < rows.len() ==> (#[trigger] rows[j]).kind is Note,
        },
    decreases rows.len() - from,
{
    if from < rows.len() && rows[from].kind is Note {
        law_next_row(rows, from + 1);
    }
}

/// The row before is the last one before a place that is no note.
pub proof fn law_row_before(rows: Seq<RowV>, before: int)
    requires
        before <= rows.len(),
    ensures
        match cursor::last_before(rows, before) {
            Some(i) => {
                &&& 0 <= i < before
                &&& rows[i].kind !is Note
                &&& forall|j: int| i < j < before ==> (#[trigger] rows[j]).kind is Note
            },
            None => forall|j: int| 0 <= j < before ==> (#[trigger] rows[j]).kind is Note,
        },
    decreases before,
{
    if before > 0 && rows[before - 1].kind is Note {
        law_row_before(rows, before - 1);
    }
}

/// Down goes to the next row that is no note, and up to the one before; at the
/// end the cursor stays. Without a cursor down goes to the first, and up to the
/// last.
pub proof fn law_step(rows: Seq<RowV>, at: int, to: int)
    requires
        0 <= at < rows.len(),
        0 <= to < rows.len(),
        rows[to].kind !is Note,
    ensures
        at < to && (forall|j: int| at < j < to ==> (#[trigger] rows[j]).kind is Note)
            ==> cursor::stepped(rows, Some(at), true) == Some(to),
        to < at && (forall|j: int| to < j < at ==> (#[trigger] rows[j]).kind is Note)
            ==> cursor::stepped(rows, Some(at), false) == Some(to),
        (forall|j: int| at < j < rows.len() ==> (#[trigger] rows[j]).kind is Note)
            ==> cursor::stepped(rows, Some(at), true) == Some(at),
        (forall|j: int| 0 <= j < at ==> (#[trigger] rows[j]).kind is Note) ==> cursor::stepped(
            rows,
            Some(at),
            false,
        ) == Some(at),
        (forall|j: int| 0 <= j < to ==> (#[trigger] rows[j]).kind is Note) ==> cursor::stepped(
            rows,
            None,
            true,
        ) == Some(to),
        (forall|j: int| to < j < rows.len() ==> (#[trigger] rows[j]).kind is Note)
            ==> cursor::stepped(rows, None, false) == Some(to),
{
    law_next_row(rows, at + 1);
    law_row_before(rows, at);
    law_next_row(rows, 0);
    law_row_before(rows, rows.len() as int);
}

/// Down goes before up, up before the last row, and that before the first one,
/// which takes two keys.
pub proof fn law_keys(rows: Seq<RowV>, sel: Option<int>, pending_g: bool, keys: Keys)
    ensures
        ({
            let to = cursor::moved(rows, sel, pending_g, keys);
            &&& keys.down ==> to == cursor::stepped(rows, sel, true)
            &&& keys.up && !keys.down ==> to == cursor::stepped(rows, sel, false)
            &&& keys.last && !keys.up && !keys.down ==> to == cursor::last_before(
                rows,
                rows.len() as int,
            )
            &&& keys.g && pending_g && !keys.last && !keys.up && !keys.down ==> to
                == cursor::next_from(rows, 0)
            &&& !(keys.g && pending_g) && !keys.last && !keys.up && !keys.down ==> to == sel
        }),
        cursor::waiting(pending_g, keys) ==> !keys.act && !keys.down && !keys.up && !keys.last,
        !keys.act && !keys.down && !keys.up && !keys.last ==> (cursor::waiting(pending_g, keys)
            <==> keys.g != pending_g),
{
}

/// A cursor in the list stays; any other goes to the first row that is no note.
pub proof fn law_park(rows: Seq<RowV>, sel: Option<int>)
    ensures
        (sel matches Some(at) && at < rows.len()) ==> cursor::parked(rows, sel) == sel,
        !(sel matches Some(at) && at < rows.len()) ==> cursor::parked(rows, sel)
            == cursor::next_from(rows, 0),
{
}

/// The row of a directory opens it, that of the smaller items shows them, and
/// any other does nothing.
pub proof fn law_choice(rows: Seq<RowV>, at: int)
    ensures
        0 <= at < rows.len() ==> {
            let c = cursor::chosen(rows, Some(at));
            match rows[at].kind {
                KindV::Item { path, is_dir } => {
                    &&& is_dir ==> c == ChoiceV::Open(path)
                    &&& !is_dir ==> c is Nothing
                },
                KindV::Toggle { key } => c == ChoiceV::Smaller(key),
                KindV::Note => c is Nothing,
            }
        },
        !(0 <= at < rows.len()) ==> cursor::chosen(rows, Some(at)) is Nothing,
        cursor::chosen(rows, None) is Nothing,
{
}

/// The row of the slice under the pointer: that of the smaller items for the
/// inner lump; else the one whose way goes furthest along that of the slice, the
/// last of those; and none for another lump.
pub proof fn law_hover_row(rows: Seq<RowV>, w: WedgeV, r: Option<int>)
    requires
        cursor::is_hover_row(rows, Some(w), r),
    ensures
        w.lump && w.ring == 0 ==> match r {
            Some(i) => {
                &&& 0 <= i < rows.len()
                &&& rows[i].kind == (KindV::Toggle { key: seq![] })
                &&& forall|j: int| 0 <= j < i ==> (#[trigger] rows[j]).kind != (KindV::Toggle {
                    key: seq![],
                })
            },
            None => forall|j: int|
                0 <= j < rows.len() ==> (#[trigger] rows[j]).kind != (KindV::Toggle {
                    key: seq![],
                }),
        },
        !(w.lump && w.ring == 0) && w.path.len() == 0 ==> r is None,
        !(w.lump && w.ring == 0) && w.path.len() > 0 ==> match r {
            Some(i) => {
                &&& 0 <= i < rows.len()
                &&& rows[i].kind matches KindV::Item { path, .. } && {
                    &&& path.len() <= w.path.len()
                    &&& w.path.take(path.len() as int) == path
                    &&& forall|j: int|
                        0 <= j < rows.len() ==> ((#[trigger] rows[j]).kind matches KindV::Item {
                            path: other,
                            ..
                        } && other.len() <= w.path.len() && w.path.take(other.len() as int)
                            == other) ==> rows[j].kind->path.len() <= path.len() && (j > i
                            ==> rows[j].kind->path.len() < path.len())
                }
            },
            None => forall|j: int|
                0 <= j < rows.len() ==> !((#[trigger] rows[j]).kind matches KindV::Item {
                    path: other,
                    ..
                } && other.len() <= w.path.len() && w.path.take(other.len() as int) == other),
        },
{
    if w.lump && w.ring == 0 {
        lemma_small_row(rows, 0);
    } else if w.path.len() > 0 {
        if let Some(i) = r {
            assert(cursor::on_way(rows[i], w.path));
            assert forall|j: int|
                0 <= j < rows.len() && ((#[trigger] rows[j]).kind matches KindV::Item {
                    path: other,
                    ..
                } && other.len() <= w.path.len() && w.path.take(other.len() as int)
                    == other) implies rows[j].kind->path.len() <= rows[i].kind->path.len() && (j > i
                ==> rows[j].kind->path.len() < rows[i].kind->path.len()) by {
                assert(cursor::on_way(rows[j], w.path));
                assert(cursor::depth(rows[j]) <= cursor::depth(rows[i]));
            }
        } else {
            assert forall|j: int| 0 <= j < rows.len() implies !((#[trigger] rows[j]).kind matches
                KindV::Item { path: other, .. } && other.len() <= w.path.len() && w.path.take(
                other.len() as int,
            ) == other) by {
                assert(!cursor::on_way(rows[j], w.path));
            }
        }
    }
}

proof fn lemma_small_row(rows: Seq<RowV>, from: int)
    requires
        0 <= from,
    ensures
        match cursor::small_row(rows, from) {
            Some(i) => {
                &&& from <= i < rows.len()
                &&& rows[i].kind == (KindV::Toggle { key: seq![] })
                &&& forall|j: int| from <= j < i ==> (#[trigger] rows[j]).kind != (KindV::Toggle {
                    key: seq![],
                })
            },
            None => forall|j: int|
                from <= j < rows.len() ==> (#[trigger] rows[j]).kind != (KindV::Toggle {
                    key: seq![],
                }),
        },
    decreases rows.len() - from,
{
    if from < rows.len() && rows[from].kind != (KindV::Toggle { key: seq![] }) {
        lemma_small_row(rows, from + 1);
    }
}

/// Without a slice under the pointer no row shines for one.
pub proof fn law_no_hover_row(rows: Seq<RowV>, r: Option<int>)
    requires
        cursor::is_hover_row(rows, None, r),
    ensures
        r is None,
{
}

} // verus!
