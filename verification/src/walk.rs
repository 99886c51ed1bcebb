//! The walk over a directory tree, one listing at a time.
//!
//! A [`Walk`] says which directory to list next and takes the listing; in the
//! end it hands out the tree.

use std::collections::HashMap;
use std::collections::HashSet;

use vstd::prelude::*;
use vstd::std_specs::hash::*;

use crate::mounts;
use crate::mounts::Mount;
use crate::order;
use crate::paths;
use crate::tree;
use crate::tree::Node;
use crate::tree::Tree;

verus! {

// ------------------------------------------------------------ hard links

/// Files that were met under one of several names, by device and inode.
pub struct Seen {
    by_dev: HashMap<u64, HashSet<u64>>,
}

impl View for Seen {
    type V = Set<(u64, u64)>;

    closed spec fn view(&self) -> Set<(u64, u64)> {
        Set::new(
            |f: (u64, u64)|
                self.by_dev@.contains_key(f.0) && self.by_dev@[f.0]@.contains(f.1),
        )
    }
}

impl Seen {
    pub fn new() -> (r: Seen)
        ensures
            r@ == Set::<(u64, u64)>::empty(),
    {
        broadcast use group_hash_axioms;

        let r = Seen { by_dev: HashMap::new() };
        assert(r@ =~= Set::<(u64, u64)>::empty());
        r
    }

    /// Adds a file; says whether it is new.
    pub fn insert(&mut self, dev: u64, ino: u64) -> (fresh: bool)
        ensures
            fresh == !old(self)@.contains((dev, ino)),
            final(self)@ == old(self)@.insert((dev, ino)),
    {
        broadcast use group_hash_axioms;

        let ghost before = self@;
        let ghost map = self.by_dev@;
        let mut inos = match self.by_dev.remove(&dev) {
            Some(s) => s,
            None => HashSet::new(),
        };
        let fresh = inos.insert(ino);
        self.by_dev.insert(dev, inos);
        assert(self@ =~= before.insert((dev, ino)));
        fresh
    }
}

// ------------------------------------------------------------ what is met

/// Of a file: how many names it has, which file it is, and the 512-byte
/// blocks that it takes.
#[derive(Clone, Copy)]
pub struct Meta {
    pub nlink: u64,
    pub dev: u64,
    pub ino: u64,
    pub blocks: u64,
}

#[derive(Clone, Copy)]
pub enum Kind {
    /// The type could not be read.
    Unknown,
    Symlink,
    Dir,
    /// Anything else; `None` where its metadata could not be read.
    File(Option<Meta>),
}

/// An entry of a directory.
pub struct Entry {
    pub path: Vec<u8>,
    pub name: String,
    pub kind: Kind,
}

/// What an [`Entry`] stands for.
pub ghost struct EntryV {
    pub path: Seq<u8>,
    pub name: Seq<char>,
    pub kind: Kind,
}

impl View for Entry {
    type V = EntryV;

    open spec fn view(&self) -> EntryV {
        EntryV { path: self.path@, name: self.name@, kind: self.kind }
    }
}

pub open spec fn entry_views(s: Seq<Entry>) -> Seq<EntryV> {
    Seq::new(s.len(), |i: int| s[i]@)
}

/// A listing; one that could not be read is empty.
pub open spec fn listing_view(listing: Option<Vec<Entry>>) -> Seq<EntryV> {
    match listing {
        Some(es) => entry_views(es@),
        None => seq![],
    }
}

/// Where to walk.
pub struct WalkCfg {
    pub target: Vec<u8>,
    pub virtual_pts: Vec<Vec<u8>>,
    pub real_pts: Vec<Vec<u8>>,
    /// Descend into other real file systems: a scan of the whole disk.
    pub cross_real: bool,
}

/// What a [`WalkCfg`] stands for.
pub ghost struct CfgV {
    pub target: Seq<u8>,
    pub virtual_pts: Seq<Seq<u8>>,
    pub real_pts: Seq<Seq<u8>>,
    pub cross_real: bool,
}

impl View for WalkCfg {
    type V = CfgV;

    open spec fn view(&self) -> CfgV {
        CfgV {
            target: self.target@,
            virtual_pts: paths::views(self.virtual_pts@),
            real_pts: paths::views(self.real_pts@),
            cross_real: self.cross_real,
        }
    }
}

/// The walk of a target, among the mounted file systems.
pub fn build_cfg(target: Vec<u8>, cross_real: bool, mounts: Vec<Mount>) -> (r: WalkCfg)
    ensures
        r@ == (CfgV {
            target: target@,
            virtual_pts: mounts::points(mounts::mount_views(mounts@), false),
            real_pts: mounts::points(mounts::mount_views(mounts@), true),
            cross_real,
        }),
{
    let (virtual_pts, real_pts) = mounts::mount_sets(mounts);
    WalkCfg { target, virtual_pts, real_pts, cross_real }
}

/// Whether a directory is left out: one where a virtual or network file system
/// is mounted, or another volume, unless the walk crosses volumes.
pub open spec fn left_out(cfg: CfgV, path: Seq<u8>) -> bool {
    ||| paths::among(path, cfg.virtual_pts)
    ||| !cfg.cross_real && !paths::same_path(path, cfg.target) && paths::among(path, cfg.real_pts)
}

/// What becomes of an entry.
pub ghost enum Verdict {
    Skip,
    Descend,
    Count(int),
}

/// Symbolic links are never followed, and what has several names counts once.
pub open spec fn verdict(cfg: CfgV, e: EntryV, seen: Set<(u64, u64)>) -> Verdict {
    match e.kind {
        Kind::Unknown => Verdict::Skip,
        Kind::Symlink => Verdict::Skip,
        Kind::Dir => if left_out(cfg, e.path) {
            Verdict::Skip
        } else {
            Verdict::Descend
        },
        Kind::File(None) => Verdict::Skip,
        Kind::File(Some(m)) => if m.nlink > 1 && seen.contains((m.dev, m.ino)) {
            Verdict::Skip
        } else {
            Verdict::Count(m.blocks * 512)
        },
    }
}

/// The files of several names, once an entry was met.
pub open spec fn seen_after(e: EntryV, seen: Set<(u64, u64)>) -> Set<(u64, u64)> {
    match e.kind {
        Kind::File(Some(m)) => if m.nlink > 1 {
            seen.insert((m.dev, m.ino))
        } else {
            seen
        },
        _ => seen,
    }
}

// ------------------------------------------------------------ the machine

/// A directory that is being read.
pub ghost struct FrameV {
    pub name: Seq<char>,
    pub size: int,
    pub kids: Seq<Tree>,
    pub todo: Seq<EntryV>,
}

/// Where a walk stands: the open directories from the root down, the name of
/// the one whose listing is awaited, and the progress.
pub ghost struct State {
    pub stack: Seq<FrameV>,
    pub seen: Set<(u64, u64)>,
    pub wanted: Seq<char>,
    pub files: u64,
    pub bytes: u64,
}

pub open spec fn start(name: Seq<char>) -> State {
    State { stack: seq![], seen: Set::empty(), wanted: name, files: 0, bytes: 0 }
}

/// The awaited listing came.
pub open spec fn opened(st: State, listing: Seq<EntryV>) -> State {
    State {
        stack: st.stack.push(FrameV { name: st.wanted, size: 0, kids: seq![], todo: listing }),
        ..st
    }
}

pub open spec fn with_top(stack: Seq<FrameV>, top: FrameV) -> Seq<FrameV> {
    stack.drop_last().push(top)
}

/// A complete directory.
pub open spec fn finished(f: FrameV) -> Tree {
    Tree { name: f.name, size: f.size, is_dir: true, children: order::sorted(f.kids) }
}

pub open spec fn leaf(e: EntryV, size: int) -> Tree {
    Tree { name: e.name, size, is_dir: false, children: seq![] }
}

/// What one turn of the walk comes to.
pub ghost enum Turn {
    Go(State),
    Ask(State, Seq<u8>),
    Done(State, Tree),
    Overflow,
}

/// One turn: the next entry of the innermost directory, or its end.
pub open spec fn turn(cfg: CfgV, st: State) -> Turn {
    let top = st.stack.last();
    if top.todo.len() == 0 {
        let t = finished(top);
        let rest = st.stack.drop_last();
        if rest.len() == 0 {
            Turn::Done(State { stack: rest, ..st }, t)
        } else {
            let up = rest.last();
            if up.size + t.size > u64::MAX {
                Turn::Overflow
            } else {
                Turn::Go(
                    State {
                        stack: with_top(
                            rest,
                            FrameV { size: up.size + t.size, kids: up.kids.push(t), ..up },
                        ),
                        ..st
                    },
                )
            }
        }
    } else {
        let e = top.todo[0];
        let next = FrameV { todo: top.todo.skip(1), ..top };
        let seen = seen_after(e, st.seen);
        match verdict(cfg, e, st.seen) {
            Verdict::Skip => Turn::Go(State { stack: with_top(st.stack, next), seen, ..st }),
            Verdict::Descend => Turn::Ask(
                State { stack: with_top(st.stack, next), wanted: e.name, ..st },
                e.path,
            ),
            Verdict::Count(size) => if top.size + size > u64::MAX {
                Turn::Overflow
            } else {
                Turn::Go(
                    State {
                        stack: with_top(
                            st.stack,
                            FrameV {
                                size: top.size + size,
                                kids: top.kids.push(leaf(e, size)),
                                ..next
                            },
                        ),
                        seen,
                        files: ((st.files + 1) % 0x1_0000_0000_0000_0000) as u64,
                        bytes: ((st.bytes + size) % 0x1_0000_0000_0000_0000) as u64,
                        ..st
                    },
                )
            },
        }
    }
}

/// The turns that are left at most.
pub open spec fn work(stack: Seq<FrameV>) -> nat
    decreases stack.len(),
{
    if stack.len() == 0 {
        0
    } else {
        work(stack.drop_last()) + stack.last().todo.len() + 1
    }
}

/// Each turn leaves fewer.
pub proof fn lemma_work(cfg: CfgV, st: State)
    requires
        st.stack.len() > 0,
    ensures
        turn(cfg, st) matches Turn::Go(s) ==> s.stack.len() > 0 && work(s.stack) < work(st.stack),
{
    if let Turn::Go(s) = turn(cfg, st) {
        let rest = st.stack.drop_last();
        if st.stack.last().todo.len() == 0 {
            assert(s.stack.drop_last() == rest.drop_last());
            assert(work(rest) == work(rest.drop_last()) + rest.last().todo.len() + 1);
        } else {
            assert(s.stack.drop_last() == rest);
        }
    }
}

/// Turns until a listing is needed, or the tree is complete.
pub open spec fn run(cfg: CfgV, st: State) -> Turn
    decreases work(st.stack),
{
    if st.stack.len() == 0 {
        Turn::Overflow
    } else {
        proof {
            lemma_work(cfg, st);
        }
        match turn(cfg, st) {
            Turn::Go(s) => run(cfg, s),
            t => t,
        }
    }
}

/// A directory that is being read; its entries wait in reverse.
struct Frame {
    node: Node,
    todo: Vec<Entry>,
}

spec fn reversed(s: Seq<Entry>) -> Seq<EntryV> {
    Seq::new(s.len(), |i: int| s[s.len() - 1 - i]@)
}

impl View for Frame {
    type V = FrameV;

    closed spec fn view(&self) -> FrameV {
        FrameV {
            name: self.node.name@,
            size: self.node.size as int,
            kids: tree::trees(self.node.children@),
            todo: reversed(self.todo@),
        }
    }
}

spec fn frames(s: Seq<Frame>) -> Seq<FrameV> {
    Seq::new(s.len(), |i: int| s[i]@)
}

/// A walk over a directory tree.
pub struct Walk {
    cfg: WalkCfg,
    seen: Seen,
    stack: Vec<Frame>,
    wanted: String,
    files: u64,
    bytes: u64,
}

/// What a walk wants.
pub enum Step {
    /// The listing of this directory.
    Read(Vec<u8>),
    /// Nothing more: this is the tree.
    Done(Node),
    /// A size is past what 64 bits hold.
    Overflow,
}

impl View for Walk {
    type V = State;

    closed spec fn view(&self) -> State {
        State {
            stack: frames(self.stack@),
            seen: self.seen@,
            wanted: self.wanted@,
            files: self.files,
            bytes: self.bytes,
        }
    }
}

impl Walk {
    pub closed spec fn cfg(&self) -> CfgV {
        self.cfg@
    }

    /// Each open directory is one.
    pub closed spec fn wf(&self) -> bool {
        forall|i: int| 0 <= i < self.stack@.len() ==> (#[trigger] self.stack@[i]).node.is_dir
    }

    /// A walk that awaits the listing of its target; `name` is how its root
    /// is shown.
    pub fn new(cfg: WalkCfg, name: String) -> (r: Walk)
        ensures
            r.wf(),
            r.cfg() == cfg@,
            r@ == start(name@),
    {
        let r = Walk { cfg, seen: Seen::new(), stack: Vec::new(), wanted: name, files: 0, bytes: 0 };
        assert(frames(r.stack@) == Seq::<FrameV>::empty());
        r
    }

    /// Files counted so far.
    pub fn files(&self) -> (r: u64)
        ensures
            r == self@.files,
    {
        self.files
    }

    /// Bytes counted so far.
    pub fn bytes(&self) -> (r: u64)
        ensures
            r == self@.bytes,
    {
        self.bytes
    }

    /// Takes the awaited listing (`None` where the directory cannot be read)
    /// and goes on to the next one that is needed.
    pub fn listed(&mut self, listing: Option<Vec<Entry>>) -> (r: Step)
        requires
            old(self).wf(),
        ensures
            final(self).wf(),
            final(self).cfg() == old(self).cfg(),
            match run(old(self).cfg(), opened(old(self)@, listing_view(listing))) {
                Turn::Ask(st, path) => {
                    &&& final(self)@ == st
                    &&& r matches Step::Read(p) && p@ == path
                },
                Turn::Done(st, t) => {
                    &&& final(self)@ == st
                    &&& r matches Step::Done(n) && n@ == t
                },
                _ => r is Overflow,
            },
    {
        let ghost l = listing_view(listing);
        let ghost first = opened(self@, l);
        let ghost cfg = self.cfg@;
        let todo = match listing {
            Some(es) => backwards(es),
            None => Vec::new(),
        };
        let mut name = String::new();
        std::mem::swap(&mut name, &mut self.wanted);
        self.wanted = name.clone();
        let frame = Frame { node: Node { name, size: 0, is_dir: true, children: Vec::new() }, todo };
        proof {
            assert(frame@.kids == Seq::<Tree>::empty());
            assert(frame@.todo == l);
        }
        let ghost before = frames(self.stack@);
        self.stack.push(frame);
        proof {
            assert(frames(self.stack@) == before.push(frame@));
        }
        loop
            invariant
                self.wf(),
                self.cfg@ == cfg,
                cfg == old(self).cfg(),
                first == opened(old(self)@, listing_view(listing)),
                self.stack@.len() > 0,
                run(cfg, self@) == run(cfg, first),
            decreases work(frames(self.stack@)),
        {
            proof {
                lemma_work(cfg, self@);
            }
            match self.take_turn() {
                None => {},
                Some(step) => {
                    return step;
                },
            }
        }
    }
}

impl Walk {
    fn take_turn(&mut self) -> (r: Option<Step>)
        requires
            old(self).wf(),
            old(self)@.stack.len() > 0,
        ensures
            final(self).wf(),
            final(self).cfg() == old(self).cfg(),
            match turn(old(self).cfg(), old(self)@) {
                Turn::Go(st) => r is None && final(self)@ == st,
                Turn::Ask(st, path) => {
                    &&& final(self)@ == st
                    &&& r matches Some(Step::Read(p)) && p@ == path
                },
                Turn::Done(st, t) => {
                    &&& final(self)@ == st
                    &&& r matches Some(Step::Done(n)) && n@ == t
                },
                Turn::Overflow => r matches Some(Step::Overflow),
            },
    {
        let ghost st = self@;
        let ghost cfg = self.cfg@;
        let ghost s0 = self.stack@;
        let mut top = match self.stack.pop() {
            Some(f) => f,
            None => {
                return None;
            },
        };
        let ghost rest = frames(self.stack@);
        proof {
            assert(rest == st.stack.drop_last());
            assert(st.stack.last() == top@);
            assert(s0[s0.len() - 1].node.is_dir);
            assert forall|i: int| 0 <= i < self.stack@.len() implies (
            #[trigger] self.stack@[i]).node.is_dir by {
                assert(s0[i].node.is_dir);
            }
        }
        let ghost top0 = top@;
        match top.todo.pop() {
            None => {
                let Node { name, size, is_dir, children } = top.node;
                let node = Node { name, size, is_dir, children: order::sort_by_size(children) };
                proof {
                    tree::lemma_tree_children(node);
                    assert(node@ == finished(top0));
                }
                match self.stack.pop() {
                    None => {
                        proof {
                            assert(frames(self.stack@) == rest);
                        }
                        Some(Step::Done(node))
                    },
                    Some(mut up) => {
                        let ghost up0 = up@;
                        let ghost t = node@;
                        proof {
                            assert(rest.last() == up0);
                            assert(frames(self.stack@) == rest.drop_last());
                        }
                        match up.node.size.checked_add(node.size) {
                            None => Some(Step::Overflow),
                            Some(total) => {
                                up.node.size = total;
                                up.node.children.push(node);
                                proof {
                                    assert(up@.kids == up0.kids.push(t));
                                    assert(up@ == (FrameV {
                                        size: up0.size + t.size,
                                        kids: up0.kids.push(t),
                                        ..up0
                                    }));
                                }
                                let ghost below = frames(self.stack@);
                                self.stack.push(up);
                                proof {
                                    assert(frames(self.stack@) == below.push(up@));
                                }
                                None
                            },
                        }
                    },
                }
            },
            Some(e) => {
                let ghost ev = e@;
                let ghost next = FrameV { todo: top0.todo.skip(1), ..top0 };
                proof {
                    assert(ev == top0.todo[0]);
                    assert(top@.todo == top0.todo.skip(1));
                    assert(top@ == next);
                }
                match e.kind {
                    Kind::Dir => {
                        let skip = paths::is_among(e.path.as_slice(), &self.cfg.virtual_pts) || (
                        !self.cfg.cross_real && !paths::is_same_path(
                            e.path.as_slice(),
                            self.cfg.target.as_slice(),
                        ) && paths::is_among(e.path.as_slice(), &self.cfg.real_pts));
                        self.stack.push(top);
                        proof {
                            assert(frames(self.stack@) == rest.push(next));
                        }
                        if skip {
                            None
                        } else {
                            self.wanted = e.name;
                            Some(Step::Read(e.path))
                        }
                    },
                    Kind::File(Some(m)) => {
                        let counted = m.nlink <= 1 || self.seen.insert(m.dev, m.ino);
                        if !counted {
                            self.stack.push(top);
                            proof {
                                assert(frames(self.stack@) == rest.push(next));
                            }
                            return None;
                        }
                        let size = match m.blocks.checked_mul(512) {
                            Some(b) => b,
                            None => {
                                return Some(Step::Overflow);
                            },
                        };
                        match top.node.size.checked_add(size) {
                            None => Some(Step::Overflow),
                            Some(total) => {
                                let n = Node {
                                    name: e.name,
                                    size,
                                    is_dir: false,
                                    children: Vec::new(),
                                };
                                proof {
                                    tree::lemma_tree_children(n);
                                    assert(n@.children == Seq::<Tree>::empty());
                                    assert(n@ == leaf(ev, size as int));
                                }
                                let ghost kid = n@;
                                top.node.size = total;
                                top.node.children.push(n);
                                self.files = self.files.wrapping_add(1);
                                self.bytes = self.bytes.wrapping_add(size);
                                proof {
                                    assert(top@.kids == top0.kids.push(kid));
                                    assert(top@ == (FrameV {
                                        size: top0.size + size,
                                        kids: top0.kids.push(kid),
                                        ..next
                                    }));
                                }
                                self.stack.push(top);
                                proof {
                                    assert(frames(self.stack@) == rest.push(top@));
                                }
                                None
                            },
                        }
                    },
                    _ => {
                        self.stack.push(top);
                        proof {
                            assert(frames(self.stack@) == rest.push(next));
                        }
                        None
                    },
                }
            },
        }
    }
}

/// Puts a listing in reverse.
fn backwards(es: Vec<Entry>) -> (r: Vec<Entry>)
    ensures
        reversed(r@) == entry_views(es@),
{
    let mut es = es;
    let ghost all = es@;
    let mut r: Vec<Entry> = Vec::new();
    while es.len() > 0
        invariant
            es@.len() + r@.len() == all.len(),
            es@ == all.take(es@.len() as int),
            forall|i: int| 0 <= i < r@.len() ==> #[trigger] r@[i] == all[all.len() - 1 - i],
        decreases es@.len(),
    {
        if let Some(e) = es.pop() {
            r.push(e);
        }
    }
    proof {
        assert(reversed(r@) =~= entry_views(all));
    }
    r
}

} // verus!
