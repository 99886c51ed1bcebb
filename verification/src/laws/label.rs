//! What is said of a slice, and of a move to the trash.

use vstd::prelude::*;

use crate::double;
use crate::float::Flo;
use crate::labels;
use crate::labels::Outcome;
use crate::layout::WedgeV;
use crate::single;
use crate::single::Sgl;
use crate::sizes;
use crate::text;

verus! {

/// The name, the size and the share of the directory shown; and what can be
/// done: a directory can be opened, and what is somewhere can be moved to the
/// trash.
pub proof fn law_tooltip(w: WedgeV)
    ensures
        ({
            let share = match single::product(w.frac, Sgl::Num(Flo { m: 13107200, e: -17 })) {
                Sgl::Num(u) => text::decimal(double::tenths(u) / 10) + seq![
                    '.',
                    (48 + double::tenths(u) % 10) as char,
                ],
                Sgl::Inf => "inf"@,
                Sgl::Nan => "NaN"@,
            };
            let said = w.name + seq!['\n'] + sizes::human_text(w.size) + "  \u{b7}  "@ + share
                + seq!['%'];
            let t = labels::tooltip_text(w);
            &&& w.is_dir ==> t == said + "\nclick to open \u{b7} drag to Trash"@
            &&& !w.is_dir && w.abs is Some ==> t == said + "\ndrag to Trash"@
            &&& !w.is_dir && w.abs is None ==> t == said
        }),
{
    let t = labels::tooltip_text(w);
    if !w.is_dir && w.abs is None {
        assert(labels::hint(w) =~= Seq::<char>::empty());
        assert(t =~= w.name + seq!['\n'] + sizes::human_text(w.size) + "  \u{b7}  "@
            + labels::share_text(w.frac) + seq!['%']);
    }
}

/// What became of a move to the trash: the path that was moved, what was said
/// against it without the white space around, or why there is no program.
pub proof fn law_outcome(o: Outcome)
    ensures
        o matches Outcome::Moved(path) ==> labels::outcome_text(o) == "Moved to Trash: "@ + path@,
        o matches Outcome::Refused(said) ==> labels::outcome_text(o) == "Trash failed: "@
            + text::trimmed(said@),
        o matches Outcome::NoProgram(why) ==> labels::outcome_text(o)
            == "Trash failed (need `gio`): "@ + why@,
{
}

} // verus!
