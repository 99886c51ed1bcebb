//! What the command line asks for.

use vstd::prelude::*;
use vstd::string::*;

use crate::nav;
use crate::text;

verus! {

/// What to do.
pub enum Mode {
    /// Write the tree below a path, across volumes or not.
    Scan { path: Vec<u8>, cross: bool },
    /// Show it.
    View { path: Vec<u8>, cross: bool },
}

pub ghost struct ModeV {
    pub view: bool,
    pub path: Seq<u8>,
    pub cross: bool,
}

impl View for Mode {
    type V = ModeV;

    open spec fn view(&self) -> ModeV {
        match *self {
            Mode::Scan { path, cross } => ModeV { view: false, path: path@, cross },
            Mode::View { path, cross } => ModeV { view: true, path: path@, cross },
        }
    }
}

/// Whether an argument is an option.
pub open spec fn is_option(a: Seq<char>) -> bool {
    text::has_prefix(a, "--"@)
}

/// The last of some arguments that is no option.
pub open spec fn last_path(args: Seq<Seq<char>>) -> Option<Seq<char>>
    decreases args.len(),
{
    if args.len() == 0 {
        None
    } else if !is_option(args.last()) {
        Some(args.last())
    } else {
        last_path(args.drop_last())
    }
}

/// The first of the arguments from `i` on that is no option.
pub open spec fn first_path(args: Seq<Seq<char>>, i: int) -> Option<Seq<char>>
    decreases args.len() - i,
{
    if i < 0 || i >= args.len() {
        None
    } else if !is_option(args[i]) {
        Some(args[i])
    } else {
        first_path(args, i + 1)
    }
}

pub open spec fn bytes(s: Seq<char>) -> Seq<u8> {
    vstd::utf8::encode_utf8(s)
}

/// `--scan` comes first, with `--cross` and a path behind it in any order: the
/// last path counts, the root where there is none. Else the first path is
/// shown, where there is none the home directory, and without one the whole
/// disk.
pub open spec fn mode_for(args: Seq<Seq<char>>, home: Option<Seq<u8>>) -> ModeV {
    if args.len() > 0 && args[0] == "--scan"@ {
        let rest = args.skip(1);
        ModeV {
            view: false,
            path: bytes(
                match last_path(rest) {
                    Some(p) => p,
                    None => "/"@,
                },
            ),
            cross: rest.contains("--cross"@),
        }
    } else {
        match (first_path(args, 0), home) {
            (Some(p), _) => ModeV { view: true, path: bytes(p), cross: false },
            (None, Some(h)) => ModeV { view: true, path: h, cross: false },
            (None, None) => ModeV { view: true, path: bytes("/"@), cross: true },
        }
    }
}

fn option(a: &str) -> (r: bool)
    ensures
        r == is_option(a@),
{
    text::starts_with(text::chars_of(a).as_slice(), "--")
}

fn is_text(a: &str, b: &str) -> (r: bool)
    ensures
        r == (a@ == b@),
{
    text::same(text::chars_of(a).as_slice(), b)
}

/// What `--scan` is to write.
pub fn scan_mode(args: &[String]) -> (r: (bool, Vec<u8>))
    ensures
        r.0 == nav::string_views(args@).contains("--cross"@),
        r.1@ == bytes(
            match last_path(nav::string_views(args@)) {
                Some(p) => p,
                None => "/"@,
            },
        ),
{
    let ghost all = nav::string_views(args@);
    let mut cross = false;
    let mut path: Option<&str> = None;
    assert(all.take(0) == Seq::<Seq<char>>::empty());
    for i in 0..args.len()
        invariant
            all == nav::string_views(args@),
            cross == exists|j: int| 0 <= j < i && all[j] == "--cross"@,
            match path {
                Some(p) => last_path(all.take(i as int)) == Some(p@),
                None => last_path(all.take(i as int)) is None,
            },
    {
        let a = args[i].as_str();
        let ghost before = cross;
        proof {
            assert(all.take(i + 1).drop_last() == all.take(i as int));
            assert(all.take(i + 1).last() == a@);
            assert(all[i as int] == a@);
            reveal_strlit("--cross");
            reveal_strlit("--");
            assert("--cross"@.take(2) == "--"@);
        }
        if is_text(a, "--cross") {
            cross = true;
        } else if !option(a) {
            path = Some(a);
        }
        proof {
            if before {
                let j = choose|j: int| 0 <= j < i && all[j] == "--cross"@;
                assert(all[j] == "--cross"@ && j < i + 1);
            }
        }
    }
    assert(all.take(all.len() as int) == all);
    let p = match path {
        Some(p) => p.as_bytes_vec(),
        None => "/".as_bytes_vec(),
    };
    (cross, p)
}

/// What the arguments behind the program's name ask for.
pub fn mode(args: &[String], home: Option<Vec<u8>>) -> (r: Mode)
    ensures
        r@ == mode_for(
            nav::string_views(args@),
            match home {
                Some(h) => Some(h@),
                None => None,
            },
        ),
{
    let ghost all = nav::string_views(args@);
    if args.len() > 0 && is_text(args[0].as_str(), "--scan") {
        let rest = vstd::slice::slice_subrange(args, 1, args.len());
        assert(nav::string_views(rest@) == all.skip(1));
        let (cross, path) = scan_mode(rest);
        return Mode::Scan { path, cross };
    }
    for i in 0..args.len()
        invariant
            all == nav::string_views(args@),
            first_path(all, 0) == first_path(all, i as int),
            !(all.len() > 0 && all[0] == "--scan"@),
    {
        let a = args[i].as_str();
        assert(all[i as int] == a@);
        if !option(a) {
            return Mode::View { path: a.as_bytes_vec(), cross: false };
        }
    }
    match home {
        Some(h) => Mode::View { path: h, cross: false },
        None => Mode::View { path: "/".as_bytes_vec(), cross: true },
    }
}

} // verus!
