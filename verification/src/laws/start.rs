//! How the program is started, and how it asks for a scan with more rights.

use vstd::prelude::*;

use crate::admin;
use crate::admin::Event;
use crate::admin::Phase;
use crate::cli;
use crate::text;
use crate::tree;
use crate::tree::Node;
use crate::tree::Tree;

verus! {

// ------------------------------------------------------------ arguments

/// An argument that begins with two dashes is an option.
pub proof fn law_option(a: Seq<char>)
    ensures
        cli::is_option(a) <==> a.len() >= 2 && a[0] == '-' && a[1] == '-',
{
    reveal_strlit("--");
    let d = seq!['-', '-'];
    assert("--"@ =~= d);
    if a.len() >= 2 {
        assert(a.take(2)[0] == a[0] && a.take(2)[1] == a[1]);
        assert(a.take(2) == d ==> d[0] == a[0] && d[1] == a[1]);
        if a[0] == '-' && a[1] == '-' {
            assert(a.take(2) =~= d);
        }
    }
}

/// The path to write is the last argument that is no option.
pub proof fn law_last_path(args: Seq<Seq<char>>)
    ensures
        match cli::last_path(args) {
            Some(p) => exists|i: int|
                {
                    &&& 0 <= i < args.len()
                    &&& #[trigger] args[i] == p
                    &&& !cli::is_option(p)
                    &&& forall|j: int| i < j < args.len() ==> cli::is_option(#[trigger] args[j])
                },
            None => forall|j: int| 0 <= j < args.len() ==> cli::is_option(#[trigger] args[j]),
        },
    decreases args.len(),
{
    if args.len() > 0 {
        let f = args.drop_last();
        if cli::is_option(args.last()) {
            law_last_path(f);
            match cli::last_path(f) {
                Some(p) => {
                    let i = choose|i: int|
                        {
                            &&& 0 <= i < f.len()
                            &&& #[trigger] f[i] == p
                            &&& !cli::is_option(p)
                            &&& forall|j: int| i < j < f.len() ==> cli::is_option(#[trigger] f[j])
                        };
                    assert(args[i] == p);
                    assert forall|j: int| i < j < args.len() implies cli::is_option(
                        #[trigger] args[j],
                    ) by {
                        if j < f.len() {
                            assert(f[j] == args[j]);
                        }
                    }
                },
                None => {
                    assert forall|j: int| 0 <= j < args.len() implies cli::is_option(
                        #[trigger] args[j],
                    ) by {
                        if j < f.len() {
                            assert(f[j] == args[j]);
                        }
                    }
                },
            }
        } else {
            assert(args[args.len() - 1] == args.last());
        }
    }
}

/// The path to show is the first argument that is no option.
pub proof fn law_first_path(args: Seq<Seq<char>>, from: int)
    requires
        0 <= from,
    ensures
        match cli::first_path(args, from) {
            Some(p) => exists|i: int|
                {
                    &&& from <= i < args.len()
                    &&& #[trigger] args[i] == p
                    &&& !cli::is_option(p)
                    &&& forall|j: int| from <= j < i ==> cli::is_option(#[trigger] args[j])
                },
            None => forall|j: int| from <= j < args.len() ==> cli::is_option(#[trigger] args[j]),
        },
    decreases args.len() - from,
{
    if from < args.len() {
        if cli::is_option(args[from]) {
            law_first_path(args, from + 1);
        } else {
            assert(args[from] == cli::first_path(args, from)->0);
        }
    }
}

/// With `--scan` first, the tree of a path is written, that of the root where no
/// path is given, and across volumes where `--cross` is among the rest. Without
/// it a path is shown: the first one given, else the home directory, and without
/// one the root, across volumes.
pub proof fn law_mode(args: Seq<Seq<char>>, home: Option<Seq<u8>>)
    ensures
        ({
            let m = cli::mode_for(args, home);
            let scan = args.len() > 0 && args[0] == "--scan"@;
            &&& m.view == !scan
            &&& scan ==> {
                let rest = args.skip(1);
                &&& m.cross <==> exists|i: int| 0 < i < args.len() && #[trigger] args[i]
                    == "--cross"@
                &&& cli::last_path(rest) matches Some(p) ==> m.path == vstd::utf8::encode_utf8(p)
                &&& cli::last_path(rest) is None ==> m.path == vstd::utf8::encode_utf8("/"@)
            }
            &&& !scan ==> match cli::first_path(args, 0) {
                Some(p) => m.path == vstd::utf8::encode_utf8(p) && !m.cross,
                None => match home {
                    Some(h) => m.path == h && !m.cross,
                    None => m.path == vstd::utf8::encode_utf8("/"@) && m.cross,
                },
            }
        }),
{
    if args.len() > 0 && args[0] == "--scan"@ {
        let rest = args.skip(1);
        let c = "--cross"@;
        if rest.contains(c) {
            let k = choose|k: int| 0 <= k < rest.len() && rest[k] == c;
            assert(args[k + 1] == c);
        }
        if exists|i: int| 0 < i < args.len() && #[trigger] args[i] == c {
            let i = choose|i: int| 0 < i < args.len() && #[trigger] args[i] == c;
            assert(rest[i - 1] == c);
        }
    }
}

// ------------------------------------------------------------ with more rights

/// The files of a scan with more rights are named after the process, and the
/// command quotes each path.
pub proof fn law_command(
    dir: Seq<char>,
    pid: int,
    exe: Seq<char>,
    target: Seq<char>,
    out: Seq<char>,
    done: Seq<char>,
)
    ensures
        admin::base_text(dir, pid) == dir + "/disksun-scan-"@ + text::decimal(pid),
        ({
            let head = "echo 'disksun needs admin rights to read every file.'; sudo "@
                + text::quoted(exe) + " --scan "@;
            let tail = " "@ + text::quoted(target) + " > "@ + text::quoted(out) + " && touch "@
                + text::quoted(done) + "; ec=$?; if [ $ec -ne 0 ]; then echo FAIL > "@
                + text::quoted(done)
                + "; echo 'scan failed \u{2014} press Enter'; read _; fi"@;
            &&& admin::command_text(exe, target, out, done, true) == head + "--cross"@ + tail
            &&& admin::command_text(exe, target, out, done, false) == head + tail
        }),
{
    let head = "echo 'disksun needs admin rights to read every file.'; sudo "@ + text::quoted(exe)
        + " --scan "@;
    let tail = " "@ + text::quoted(target) + " > "@ + text::quoted(out) + " && touch "@
        + text::quoted(done) + "; ec=$?; if [ $ec -ne 0 ]; then echo FAIL > "@ + text::quoted(done)
        + "; echo 'scan failed \u{2014} press Enter'; read _; fi"@;
    assert(admin::command_text(exe, target, out, done, true) =~= head + "--cross"@ + tail);
    assert(admin::command_text(exe, target, out, done, false) =~= head + tail);
}

/// The mark is looked for until it is there or the time is over; then it is
/// read, and the tree where it tells of no failure.
pub proof fn law_waits(left: int, e: Event)
    requires
        left >= 0,
    ensures
        ({
            let p = admin::next_phase(left, e);
            match e {
                Event::Absent => p is Pause,
                Event::Present => p is Mark,
                Event::Waited => if left > 0 {
                    p is Check
                } else {
                    p is Over
                },
                Event::Mark(said) => {
                    let bad = said matches Some(s) && exists|a: Seq<char>, b: Seq<char>|
                        s@ == #[trigger] (a + "FAIL"@ + b);
                    &&& bad ==> p is Over
                    &&& !bad ==> p is Tree
                },
                Event::Tree(_) => p is Over,
            }
        }),
{
    if let Event::Mark(Some(s)) = e {
        crate::laws::text::law_holds(s@, "FAIL"@);
    }
}

/// Which event belongs to what is awaited.
pub proof fn law_awaited(p: Phase, e: Event)
    ensures
        admin::fits(p, e) <==> {
            ||| p is Check && (e is Absent || e is Present)
            ||| p is Pause && e is Waited
            ||| p is Mark && e is Mark
            ||| p is Tree && e is Tree
        },
{
}

/// A scan with more rights brings the tree that was written, under the name of
/// its target, or tells why there is none.
pub proof fn law_brings(target: Seq<char>, e: Event, r: Result<Node, String>)
    requires
        admin::is_result(target, e, r),
    ensures
        e matches Event::Tree(Ok(txt)) ==> (r matches Ok(n) && exists|t: Tree|
            {
                &&& #[trigger] tree::describes(txt@, t)
                &&& n@.name == target
                &&& n@.size == t.size
                &&& n@.is_dir == t.is_dir
                &&& n@.children == t.children
            }),
        e matches Event::Tree(Err(why)) ==> (r matches Err(m) && m@ == "cannot read scan output: "@
            + why@),
        e is Mark ==> (r matches Err(m) && m@ == "admin scan failed (see the terminal)"@),
        e !is Mark && e !is Tree ==> (r matches Err(m) && m@ == "admin scan timed out"@),
{
}

} // verus!
