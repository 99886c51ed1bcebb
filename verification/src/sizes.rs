//! Sizes and shares as text.

use vstd::prelude::*;

use crate::double;
use crate::float;
use crate::float::Num;
use crate::text;
use crate::tree::Node;
use crate::tree::Tree;

verus! {

/// A count of tenths with its decimal point.
pub open spec fn with_point(tenths: int) -> Seq<char> {
    text::decimal(tenths / 10) + seq!['.', text::digit(tenths % 10)]
}

pub fn push_with_point(out: &mut String, tenths: u128)
    ensures
        final(out)@ == old(out)@ + with_point(tenths as int),
{
    text::push_decimal(out, tenths / 10);
    out.push('.');
    let d = (tenths % 10) as u8;
    out.push((d + 48) as char);
}

/// A text behind enough spaces to fill `n` characters.
pub open spec fn right_aligned(s: Seq<char>, n: int) -> Seq<char> {
    Seq::new((if n > s.len() {
        n - s.len()
    } else {
        0
    }) as nat, |i: int| ' ') + s
}

fn push_right_aligned(out: &mut String, s: &str, n: usize)
    ensures
        final(out)@ == old(out)@ + right_aligned(s@, n as int),
{
    let len = text::chars_of(s).len();
    let ghost before = out@;
    let mut k: usize = len;
    while k < n
        invariant
            len == s@.len(),
            len <= k,
            k <= n || k == len,
            out@ == before + Seq::new((k - len) as nat, |i: int| ' '),
        decreases n - k,
    {
        out.push(' ');
        k = k + 1;
        assert(Seq::new((k - 1 - len) as nat, |i: int| ' ').push(' ') == Seq::new(
            (k - len) as nat,
            |i: int| ' ',
        ));
    }
    out.append(s);
}

/// By which power of 1024 a size is shown: PiB at most.
pub open spec fn unit_index(bytes: int) -> int {
    if bytes < 0x400 {
        0
    } else if bytes < 0x10_0000 {
        1
    } else if bytes < 0x4000_0000 {
        2
    } else if bytes < 0x100_0000_0000 {
        3
    } else if bytes < 0x4_0000_0000_0000 {
        4
    } else {
        5
    }
}

pub open spec fn unit_name(u: int) -> Seq<char> {
    if u == 0 {
        "B"@
    } else if u == 1 {
        "KiB"@
    } else if u == 2 {
        "MiB"@
    } else if u == 3 {
        "GiB"@
    } else if u == 4 {
        "TiB"@
    } else {
        "PiB"@
    }
}

/// A size in units of `1024^u`, as a binary64.
pub open spec fn in_units(bytes: int, u: int) -> float::Flo {
    let v = double::double_of(bytes);
    float::Flo { m: v.m, e: v.e - 10 * u }
}

/// A size as people read it: bytes as they are, else one decimal of the
/// greatest unit that it fills.
pub open spec fn human_text(bytes: int) -> Seq<char> {
    let u = unit_index(bytes);
    if u == 0 {
        text::decimal(bytes) + " B"@
    } else {
        with_point(double::tenths(in_units(bytes, u))) + seq![' '] + unit_name(u)
    }
}

pub fn human(bytes: u64) -> (r: String)
    ensures
        r@ == human_text(bytes as int),
{
    let mut out = String::new();
    if bytes < 0x400 {
        text::push_decimal(&mut out, bytes as u128);
        out.append(" B");
        return out;
    }
    let (u, name): (i32, &str) = if bytes < 0x10_0000 {
        (1, "KiB")
    } else if bytes < 0x4000_0000 {
        (2, "MiB")
    } else if bytes < 0x100_0000_0000 {
        (3, "GiB")
    } else if bytes < 0x4_0000_0000_0000 {
        (4, "TiB")
    } else {
        (5, "PiB")
    };
    let v = double::double(bytes);
    let t = double::in_tenths(Num { m: v.m, e: v.e - 10 * u });
    push_with_point(&mut out, t);
    out.push(' ');
    out.append(name);
    out
}

/// `size` of `total` in percent, computed in binary64.
pub open spec fn percentage(size: int, total: int) -> float::Flo {
    double::double_div(
        double::double_mul(double::double_of(size), float::Flo { m: 100, e: 0 }),
        double::double_of(total),
    )
}

/// A share in percent with one decimal.
pub open spec fn percent_text(size: int, total: int) -> Seq<char> {
    with_point(double::tenths(percentage(size, total)))
}

pub fn percent(size: u64, total: u64) -> (r: String)
    requires
        total > 0,
    ensures
        r@ == percent_text(size as int, total as int),
{
    let s = double::double(size);
    let h = double::product(s, Num { m: 100, e: 0 });
    let t = double::double(total);
    let q = double::quotient(h, t);
    let mut out = String::new();
    push_with_point(&mut out, double::in_tenths(q));
    out
}

pub open spec fn at_least_one(n: int) -> int {
    if n < 1 {
        1
    } else {
        n
    }
}

/// The line of the side list for a node: its size, its share, its name in
/// full, and a slash behind that of a directory.
pub open spec fn row_text(c: Tree, total: int) -> Seq<char> {
    right_aligned(human_text(c.size), 9) + "  "@ + right_aligned(
        percent_text(c.size, at_least_one(total)),
        5,
    ) + "%  "@ + c.name + (if c.is_dir {
        seq!['/']
    } else {
        seq![]
    })
}

pub fn row_label(c: &Node, total: u64) -> (r: String)
    ensures
        r@ == row_text(c@, total as int),
{
    let mut out = String::new();
    let size = human(c.size);
    push_right_aligned(&mut out, size.as_str(), 9);
    out.append("  ");
    let share = percent(
        c.size,
        if total < 1 {
            1
        } else {
            total
        },
    );
    push_right_aligned(&mut out, share.as_str(), 5);
    out.append("%  ");
    out.append(c.name.as_str());
    if c.is_dir {
        out.push('/');
    }
    out
}

} // verus!
