//! A scan as admin: this program itself, run by `sudo` in a terminal, leaves
//! the tree in one file and then a mark in another.

use vstd::prelude::*;

use crate::text;
use crate::tree;
use crate::tree::Node;
use crate::tree::Tree;

verus! {

/// How often the mark is looked for: for a quarter of an hour.
pub const MAX_CHECKS: u32 = 4500;

/// How long to wait in between, in milliseconds.
pub const CHECK_EVERY: u64 = 200;

/// The start of the names of both files.
pub open spec fn base_text(dir: Seq<char>, pid: int) -> Seq<char> {
    dir + "/disksun-scan-"@ + text::decimal(pid)
}

/// The files of the tree and of the mark.
pub fn file_names(dir: &str, pid: u32) -> (r: (String, String))
    ensures
        r.0@ == base_text(dir@, pid as int) + ".tree"@,
        r.1@ == base_text(dir@, pid as int) + ".done"@,
{
    let mut base = String::new();
    base.append(dir);
    base.append("/disksun-scan-");
    text::push_decimal(&mut base, pid as u128);
    let mut done = base.clone();
    base.append(".tree");
    done.append(".done");
    (base, done)
}

/// What the terminal runs: each path is one quoted word.
pub open spec fn command_text(
    exe: Seq<char>,
    target: Seq<char>,
    out: Seq<char>,
    done: Seq<char>,
    cross: bool,
) -> Seq<char> {
    "echo 'disksun needs admin rights to read every file.'; sudo "@ + text::quoted(exe)
        + " --scan "@ + (if cross {
        "--cross"@
    } else {
        seq![]
    }) + " "@ + text::quoted(target) + " > "@ + text::quoted(out) + " && touch "@ + text::quoted(
        done,
    ) + "; ec=$?; if [ $ec -ne 0 ]; then echo FAIL > "@ + text::quoted(done)
        + "; echo 'scan failed \u{2014} press Enter'; read _; fi"@
}

fn push_quoted(out: &mut String, word: &str)
    ensures
        final(out)@ == old(out)@ + text::quoted(word@),
{
    let q = text::shell_quote(word);
    out.append(q.as_str());
}

pub fn command(exe: &str, target: &str, out: &str, done: &str, cross: bool) -> (r: String)
    ensures
        r@ == command_text(exe@, target@, out@, done@, cross),
{
    let mut cmd = String::new();
    cmd.append("echo 'disksun needs admin rights to read every file.'; sudo ");
    push_quoted(&mut cmd, exe);
    cmd.append(" --scan ");
    if cross {
        cmd.append("--cross");
    }
    cmd.append(" ");
    push_quoted(&mut cmd, target);
    cmd.append(" > ");
    push_quoted(&mut cmd, out);
    cmd.append(" && touch ");
    push_quoted(&mut cmd, done);
    cmd.append("; ec=$?; if [ $ec -ne 0 ]; then echo FAIL > ");
    push_quoted(&mut cmd, done);
    cmd.append("; echo 'scan failed \u{2014} press Enter'; read _; fi");
    assert(cmd@ == command_text(exe@, target@, out@, done@, cross));
    cmd
}

// ------------------------------------------------------------ waiting

/// What is being waited for.
#[derive(Clone, Copy, PartialEq, Eq, Structural)]
pub enum Phase {
    /// Whether the mark is there.
    Check,
    /// The end of a pause.
    Pause,
    /// What the mark says.
    Mark,
    /// The tree.
    Tree,
    Over,
}

/// What came of the last action.
pub enum Event {
    Absent,
    Present,
    Waited,
    /// What the mark says, where it could be read.
    Mark(Option<String>),
    /// The tree as text, or why it could not be read.
    Tree(Result<String, String>),
}

/// What to do next.
pub enum Action {
    Check,
    Pause,
    ReadMark,
    ReadTree,
    /// The scan is over: remove the files named, and hand on the result.
    Finish { result: Result<Node, String>, remove_tree: bool, remove_mark: bool },
}

/// Whether an event is one that is waited for.
pub open spec fn fits(phase: Phase, e: Event) -> bool {
    match phase {
        Phase::Check => e is Absent || e is Present,
        Phase::Pause => e is Waited,
        Phase::Mark => e is Mark,
        Phase::Tree => e is Tree,
        Phase::Over => false,
    }
}

/// What follows an event, where `left` more checks are to be made.
pub open spec fn next_phase(left: int, e: Event) -> Phase {
    match e {
        Event::Absent => Phase::Pause,
        Event::Present => Phase::Mark,
        Event::Waited => if left > 0 {
            Phase::Check
        } else {
            Phase::Over
        },
        Event::Mark(said) => if failed(said) {
            Phase::Over
        } else {
            Phase::Tree
        },
        Event::Tree(_) => Phase::Over,
    }
}

/// Whether the mark says that the scan failed.
pub open spec fn failed(said: Option<String>) -> bool {
    said matches Some(s) && text::holds(s@, "FAIL"@)
}

/// The result: the tree that was written, under the name of the target.
pub open spec fn is_result(target: Seq<char>, e: Event, r: Result<Node, String>) -> bool {
    match e {
        Event::Tree(Ok(txt)) => r matches Ok(n) && exists|t: Tree|
            #[trigger] tree::describes(txt@, t) && n@ == (Tree { name: target, ..t }),
        Event::Tree(Err(why)) => r matches Err(m) && m@ == "cannot read scan output: "@ + why@,
        Event::Mark(_) => r matches Err(m) && m@ == "admin scan failed (see the terminal)"@,
        _ => r matches Err(m) && m@ == "admin scan timed out"@,
    }
}

/// Waits for a scan as admin.
pub struct Wait {
    target: String,
    left: u32,
    phase: Phase,
}

impl Wait {
    /// The name of the target.
    pub closed spec fn target(&self) -> Seq<char> {
        self.target@
    }

    /// How many more checks are to be made.
    pub closed spec fn left(&self) -> int {
        self.left as int
    }

    pub closed spec fn phase(&self) -> Phase {
        self.phase
    }

    /// The first thing to do is to check.
    pub fn new(target: String) -> (r: Wait)
        ensures
            r.target() == target@,
            r.left() == MAX_CHECKS - 1,
            r.phase() == Phase::Check,
    {
        Wait { target, left: MAX_CHECKS - 1, phase: Phase::Check }
    }

    pub fn step(&mut self, e: Event) -> (r: Action)
        requires
            fits(old(self).phase(), e),
        ensures
            final(self).target() == old(self).target(),
            final(self).phase() == next_phase(old(self).left(), e),
            final(self).left() == if e is Waited && old(self).left() > 0 {
                old(self).left() - 1
            } else {
                old(self).left()
            },
            match final(self).phase() {
                Phase::Check => r is Check,
                Phase::Pause => r is Pause,
                Phase::Mark => r is ReadMark,
                Phase::Tree => r is ReadTree,
                Phase::Over => r matches Action::Finish { result, remove_tree, remove_mark } && {
                    &&& is_result(old(self).target(), e, result)
                    &&& remove_tree == (e matches Event::Tree(Ok(_)))
                    &&& remove_mark == (e is Mark || e matches Event::Tree(Ok(_)))
                },
            },
    {
        match e {
            Event::Absent => {
                self.phase = Phase::Pause;
                Action::Pause
            },
            Event::Present => {
                self.phase = Phase::Mark;
                Action::ReadMark
            },
            Event::Waited => {
                if self.left > 0 {
                    self.left = self.left - 1;
                    self.phase = Phase::Check;
                    Action::Check
                } else {
                    self.phase = Phase::Over;
                    let mut m = String::new();
                    m.append("admin scan timed out");
                    Action::Finish { result: Err(m), remove_tree: false, remove_mark: false }
                }
            },
            Event::Mark(said) => {
                let fail = match &said {
                    Some(s) => text::contains(s.as_str(), "FAIL"),
                    None => false,
                };
                if fail {
                    self.phase = Phase::Over;
                    let mut m = String::new();
                    m.append("admin scan failed (see the terminal)");
                    Action::Finish { result: Err(m), remove_tree: false, remove_mark: true }
                } else {
                    self.phase = Phase::Tree;
                    Action::ReadTree
                }
            },
            Event::Tree(Ok(txt)) => {
                self.phase = Phase::Over;
                let mut root = tree::parse_tree(txt.as_str());
                let ghost t = root@;
                root.name = self.target.clone();
                proof {
                    assert(tree::describes(txt@, t));
                    assert(root@.children =~= t.children);
                    assert(root@ == (Tree { name: self.target@, ..t }));
                }
                Action::Finish { result: Ok(root), remove_tree: true, remove_mark: true }
            },
            Event::Tree(Err(why)) => {
                self.phase = Phase::Over;
                let mut m = String::new();
                m.append("cannot read scan output: ");
                m.append(why.as_str());
                Action::Finish { result: Err(m), remove_tree: false, remove_mark: false }
            },
        }
    }
}

/// How many events may still come.
pub open spec fn events_left(phase: Phase, left: int) -> int {
    match phase {
        Phase::Check => 2 * left + 4,
        Phase::Pause => 2 * left + 3,
        Phase::Mark => 2,
        Phase::Tree => 1,
        Phase::Over => 0,
    }
}

/// Each event brings the end nearer, and only a mark that was absent at every
/// check ends in a timeout.
pub proof fn law_wait_ends(phase: Phase, left: int, e: Event)
    requires
        left >= 0,
        fits(phase, e),
    ensures
        ({
            let after = if e is Waited && left > 0 {
                left - 1
            } else {
                left
            };
            0 <= events_left(next_phase(left, e), after) < events_left(phase, left)
        }),
        next_phase(left, e) is Over && e is Waited ==> left == 0,
{
}

/// What the scan as admin found is what the viewer gets, under the name of the
/// target: where each depth is a number of the machine and no name ends in a
/// carriage return.
pub proof fn law_admin_scan(n: Node, txt: String, target: Seq<char>, r: Result<Node, String>)
    requires
        tree::height(n@) <= usize::MAX,
        forall|i: int|
            0 <= i < tree::flatten(n@, 0).len() ==> tree::carried(
                (#[trigger] tree::flatten(n@, 0)[i]).name,
            ),
        txt@ == tree::report(tree::flatten(n@, 0)),
        is_result(target, Event::Tree(Ok(txt)), r),
    ensures
        r matches Ok(m) && m@ == (Tree { name: target, ..n@ }),
{
    let t = choose|t: Tree|
        #[trigger] tree::describes(txt@, t) && r->Ok_0@ == (Tree { name: target, ..t });
    tree::law_parse_emit(n, t);
}

} // verus!
