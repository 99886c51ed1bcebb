//! What the viewer says.

use vstd::arithmetic::mul::*;
use vstd::prelude::*;

use crate::double;
use crate::float;
use crate::float::Num;
use crate::layout;
use crate::layout::Wedge;
use crate::layout::WedgeV;
use crate::single;
use crate::single::Sgl;
use crate::single::Single;
use crate::sizes;
use crate::text;

verus! {

/// 100 as a binary32.
pub open spec fn hundred() -> Sgl {
    Sgl::Num(float::Flo { m: 13107200, e: -17 })
}

/// A share in percent with one decimal, computed in binary32.
pub open spec fn share_text(frac: Sgl) -> Seq<char> {
    match single::product(frac, hundred()) {
        Sgl::Num(u) => sizes::with_point(double::tenths(u)),
        Sgl::Inf => "inf"@,
        Sgl::Nan => "NaN"@,
    }
}

proof fn lemma_hundredfold(f: float::Flo)
    requires
        single::wf(Sgl::Num(f)),
        f.e <= 48,
    ensures
        single::product(Sgl::Num(f), hundred()) matches Sgl::Num(u) && u.e <= 56,
{
    let top = float::Flo { m: 0x80_0000, e: 56 };
    let n = f.m * 13107200;
    let d = f.e - 17 - 56;
    float::lemma_up_values();
    float::lemma_up_mono(25, -d);
    float::lemma_up_add(24, 1);
    float::lemma_up_unit(1);
    float::lemma_up_unit(n);
    assert(float::up(d) == 1);
    assert((n * float::up(d)) * 1 <= (0x80_0000 * float::up(-d)) * 1) by (nonlinear_arith)
        requires
            n == f.m * 13107200,
            0 <= f.m < 0x100_0000,
            float::up(d) == 1,
            float::up(-d) >= 0x200_0000,
    ;
    lemma_mul_nonnegative(f.m, 13107200);
    single::lemma_round_exact(top);
    single::lemma_round_mono(n, 1, f.e - 17, top.m, 1, top.e);
    single::lemma_round_wf(n, 1, f.e - 17);
    let r = single::round(n, 1, f.e - 17);
    float::lemma_less_canonical(float::binary32(), top, r->Num_0);
}

/// What clicking or dragging a slice does.
pub open spec fn hint(w: WedgeV) -> Seq<char> {
    if w.is_dir {
        "\nclick to open \u{b7} drag to Trash"@
    } else if w.abs is Some {
        "\ndrag to Trash"@
    } else {
        seq![]
    }
}

/// What is said of the slice under the pointer.
pub open spec fn tooltip_text(w: WedgeV) -> Seq<char> {
    w.name + seq!['\n'] + sizes::human_text(w.size) + "  \u{b7}  "@ + share_text(w.frac) + seq!['%']
        + hint(w)
}

pub fn tooltip(w: &Wedge) -> (r: String)
    requires
        layout::wedge_wf(w@),
    ensures
        r@ == tooltip_text(w@),
{
    let mut out = w.name.clone();
    out.push('\n');
    let size = sizes::human(w.size);
    out.append(size.as_str());
    out.append("  \u{b7}  ");
    proof {
        float::lemma_up_values();
        lemma_hundredfold(w.frac@->Num_0);
    }
    match w.frac.times(Single::Num(Num { m: 13107200, e: -17 })) {
        Single::Num(u) => sizes::push_with_point(&mut out, double::in_tenths(u)),
        Single::Inf => out.append("inf"),
        Single::Nan => out.append("NaN"),
    }
    out.push('%');
    if w.is_dir {
        out.append("\nclick to open \u{b7} drag to Trash");
    } else if w.abs.is_some() {
        out.append("\ndrag to Trash");
    }
    assert(out@ == tooltip_text(w@));
    out
}

/// What stands on a slice.
pub fn wedge_label(w: &Wedge) -> (r: String)
    ensures
        r@ == text::truncated(w.name@, 14) + seq!['\n'] + sizes::human_text(w.size as int),
{
    let mut out = text::truncate(w.name.as_str(), 14);
    out.push('\n');
    let size = sizes::human(w.size);
    out.append(size.as_str());
    out
}

/// What stands on the hub: an arrow where it leads up.
pub fn hub_title(name: &str, leads_up: bool) -> (r: String)
    ensures
        r@ == if leads_up {
            "\u{2b06} "@ + text::truncated(name@, 12)
        } else {
            text::truncated(name@, 14)
        },
{
    if leads_up {
        let mut out = String::new();
        out.append("\u{2b06} ");
        let short = text::truncate(name, 12);
        out.append(short.as_str());
        out
    } else {
        text::truncate(name, 14)
    }
}

/// The head of the side list.
pub fn side_title(name: &str, small_focus: bool) -> (r: String)
    ensures
        ({
            let base = text::without_tail(name@, " \u{b7} smaller items"@);
            r@ == if small_focus {
                "Smaller items in "@ + base
            } else {
                "Items in "@ + base + " directory"@
            }
        }),
{
    let base = text::trim_end_matches(name, " \u{b7} smaller items");
    let mut out = String::new();
    if small_focus {
        out.append("Smaller items in ");
        out.append(base.as_str());
    } else {
        out.append("Items in ");
        out.append(base.as_str());
        out.append(" directory");
    }
    out
}

/// What is said while a scan runs.
pub fn scanning(root: &str, admin: bool, files: u64, bytes: u64) -> (r: String)
    ensures
        r@ == if admin {
            "Scanning "@ + root@ + " as admin\u{2026}\nAuthenticate in the terminal window."@
        } else {
            "Scanning "@ + root@ + " \u{2026}\n"@ + text::decimal(files as int) + " files \u{b7} "@
                + sizes::human_text(bytes as int)
        },
{
    let mut out = String::new();
    out.append("Scanning ");
    out.append(root);
    if admin {
        out.append(" as admin\u{2026}\nAuthenticate in the terminal window.");
    } else {
        out.append(" \u{2026}\n");
        text::push_decimal(&mut out, files as u128);
        out.append(" files \u{b7} ");
        let size = sizes::human(bytes);
        out.append(size.as_str());
    }
    out
}

/// The size of a volume and what of it is free, from counts of its blocks.
pub fn disk_free(blocks: u64, available: u64, block_size: u64) -> (r: (u64, u64))
    requires
        blocks * block_size <= u64::MAX,
        available * block_size <= u64::MAX,
    ensures
        r.0 == blocks * block_size,
        r.1 == available * block_size,
{
    (blocks * block_size, available * block_size)
}

pub fn free_space(total: u64, free: u64) -> (r: String)
    ensures
        r@ == sizes::human_text(free as int) + " free of "@ + sizes::human_text(total as int),
{
    let mut out = sizes::human(free);
    out.append(" free of ");
    let all = sizes::human(total);
    out.append(all.as_str());
    out
}

/// How moving to the trash ended.
pub enum Outcome {
    /// Moved, from this path.
    Moved(String),
    /// Refused; this was said.
    Refused(String),
    /// The program could not be run, for this reason.
    NoProgram(String),
}

pub open spec fn outcome_text(o: Outcome) -> Seq<char> {
    match o {
        Outcome::Moved(path) => "Moved to Trash: "@ + path@,
        Outcome::Refused(said) => "Trash failed: "@ + text::trimmed(said@),
        Outcome::NoProgram(why) => "Trash failed (need `gio`): "@ + why@,
    }
}

pub fn outcome_message(o: &Outcome) -> (r: String)
    ensures
        r@ == outcome_text(*o),
{
    let mut out = String::new();
    match o {
        Outcome::Moved(path) => {
            out.append("Moved to Trash: ");
            out.append(path.as_str());
        },
        Outcome::Refused(said) => {
            out.append("Trash failed: ");
            let said = text::trim(said.as_str());
            out.append(said.as_str());
        },
        Outcome::NoProgram(why) => {
            out.append("Trash failed (need `gio`): ");
            out.append(why.as_str());
        },
    }
    out
}

} // verus!
