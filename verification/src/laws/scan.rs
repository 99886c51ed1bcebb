//! What a scan reads and adds up.

use vstd::prelude::*;

use crate::order;
use crate::paths;
use crate::tree::Tree;
use crate::usage;
use crate::usage::Answer;
use crate::usage::Item;
use crate::usage::Tally;
use crate::walk;
use crate::walk::CfgV;
use crate::walk::EntryV;
use crate::walk::FrameV;
use crate::walk::Kind;
use crate::walk::Meta;
use crate::walk::State;
use crate::walk::Turn;

verus! {

// ------------------------------------------------------------ step by step

/// A walk begins with nothing read and nothing counted.
pub proof fn law_walk_begins(name: Seq<char>, listing: Seq<EntryV>)
    ensures
        ({
            let st = walk::start(name);
            &&& st.stack.len() == 0
            &&& st.seen == Set::<(u64, u64)>::empty()
            &&& st.wanted == name
            &&& st.files == 0
            &&& st.bytes == 0
        }),
{
}

/// A listing that came opens the directory that it was asked for, with all its
/// entries still to be met.
pub proof fn law_walk_opens(st: State, listing: Seq<EntryV>)
    ensures
        ({
            let s = walk::opened(st, listing);
            &&& s.stack.len() == st.stack.len() + 1
            &&& s.stack.drop_last() == st.stack
            &&& s.stack.last().name == st.wanted
            &&& s.stack.last().size == 0
            &&& s.stack.last().kids.len() == 0
            &&& s.stack.last().todo == listing
            &&& s.seen == st.seen
            &&& s.files == st.files
            &&& s.bytes == st.bytes
        }),
{
    assert(walk::opened(st, listing).stack.drop_last() =~= st.stack);
}

/// Turns follow each other until a listing is needed, the tree is complete, or
/// a size is too large.
pub proof fn law_walk_goes_on(cfg: CfgV, st: State)
    requires
        st.stack.len() > 0,
    ensures
        walk::turn(cfg, st) matches Turn::Go(s) ==> walk::run(cfg, st) == walk::run(cfg, s),
        walk::turn(cfg, st) !is Go ==> walk::run(cfg, st) == walk::turn(cfg, st),
{
    walk::lemma_work(cfg, st);
}

/// Any directory is asked for next, whatever it is called, unless a virtual
/// file system is mounted there, or another volume than the target while the
/// walk does not cross volumes.
pub proof fn law_directory_is_read(cfg: CfgV, st: State)
    requires
        st.stack.len() > 0,
        st.stack.last().todo.len() > 0,
        st.stack.last().todo[0].kind is Dir,
        forall|i: int|
            0 <= i < cfg.virtual_pts.len() ==> !paths::same_path(
                st.stack.last().todo[0].path,
                #[trigger] cfg.virtual_pts[i],
            ),
        cfg.cross_real || paths::same_path(st.stack.last().todo[0].path, cfg.target) || forall|
            i: int,
        |
            0 <= i < cfg.real_pts.len() ==> !paths::same_path(
                st.stack.last().todo[0].path,
                #[trigger] cfg.real_pts[i],
            ),
    ensures
        ({
            let top = st.stack.last();
            walk::turn(cfg, st) matches Turn::Ask(s, path) && {
                &&& path == top.todo[0].path
                &&& s.wanted == top.todo[0].name
                &&& s.stack == st.stack.drop_last().push(
                    FrameV {
                        name: top.name,
                        size: top.size,
                        kids: top.kids,
                        todo: top.todo.skip(1),
                    },
                )
                &&& s.seen == st.seen
                &&& s.files == st.files
                &&& s.bytes == st.bytes
            }
        }),
{
}

/// A directory is passed over where a virtual file system is mounted, or
/// another volume than the target while the walk does not cross volumes.
pub proof fn law_mount_is_passed(cfg: CfgV, st: State, i: int)
    requires
        st.stack.len() > 0,
        st.stack.last().todo.len() > 0,
        st.stack.last().todo[0].kind is Dir,
        ({
            let path = st.stack.last().todo[0].path;
            ||| 0 <= i < cfg.virtual_pts.len() && paths::same_path(path, cfg.virtual_pts[i])
            ||| {
                &&& 0 <= i < cfg.real_pts.len()
                &&& paths::same_path(path, cfg.real_pts[i])
                &&& !cfg.cross_real
                &&& !paths::same_path(path, cfg.target)
            }
        }),
    ensures
        ({
            let top = st.stack.last();
            walk::turn(cfg, st) == Turn::Go(
                State {
                    stack: st.stack.drop_last().push(
                        FrameV {
                            name: top.name,
                            size: top.size,
                            kids: top.kids,
                            todo: top.todo.skip(1),
                        },
                    ),
                    seen: st.seen,
                    wanted: st.wanted,
                    files: st.files,
                    bytes: st.bytes,
                },
            )
        }),
{
}

/// Symbolic links, and what cannot be read, are passed over.
pub proof fn law_link_is_passed(cfg: CfgV, st: State)
    requires
        st.stack.len() > 0,
        st.stack.last().todo.len() > 0,
        st.stack.last().todo[0].kind is Symlink || st.stack.last().todo[0].kind is Unknown
            || st.stack.last().todo[0].kind == Kind::File(None),
    ensures
        ({
            let top = st.stack.last();
            walk::turn(cfg, st) == Turn::Go(
                State {
                    stack: st.stack.drop_last().push(
                        FrameV {
                            name: top.name,
                            size: top.size,
                            kids: top.kids,
                            todo: top.todo.skip(1),
                        },
                    ),
                    seen: st.seen,
                    wanted: st.wanted,
                    files: st.files,
                    bytes: st.bytes,
                },
            )
        }),
{
}

/// A file counts with the 512-byte blocks that it takes, unless it has other
/// names and was met under one of them.
pub proof fn law_file_counts(cfg: CfgV, st: State, m: Meta)
    requires
        st.stack.len() > 0,
        st.stack.last().todo.len() > 0,
        st.stack.last().todo[0].kind == Kind::File(Some(m)),
        m.nlink <= 1 || !st.seen.contains((m.dev, m.ino)),
    ensures
        ({
            let top = st.stack.last();
            let size = 512 * m.blocks;
            if top.size + size > u64::MAX {
                walk::turn(cfg, st) is Overflow
            } else {
                walk::turn(cfg, st) matches Turn::Go(s) && {
                    &&& s.stack.len() == st.stack.len()
                    &&& s.stack.drop_last() == st.stack.drop_last()
                    &&& s.stack.last().name == top.name
                    &&& s.stack.last().todo == top.todo.skip(1)
                    &&& s.stack.last().size == top.size + size
                    &&& s.stack.last().kids == top.kids.push(
                        Tree {
                            name: top.todo[0].name,
                            size: size as int,
                            is_dir: false,
                            children: seq![],
                        },
                    )
                    &&& s.seen == if m.nlink > 1 {
                        st.seen.insert((m.dev, m.ino))
                    } else {
                        st.seen
                    }
                    &&& s.wanted == st.wanted
                    &&& s.files == if st.files == u64::MAX {
                        0
                    } else {
                        st.files + 1
                    }
                    &&& st.bytes + size <= u64::MAX ==> s.bytes == st.bytes + size
                    &&& (s.bytes - st.bytes - size) % 0x1_0000_0000_0000_0000 == 0
                }
            }
        }),
{
    let top = st.stack.last();
    if let Turn::Go(s) = walk::turn(cfg, st) {
        assert(s.stack.drop_last() =~= st.stack.drop_last());
        let x = st.bytes + m.blocks * 512;
        assert((x % 0x1_0000_0000_0000_0000 - x) % 0x1_0000_0000_0000_0000 == 0);
    }
}

/// A file that was met under another name is passed over.
pub proof fn law_file_counts_once(cfg: CfgV, st: State, m: Meta)
    requires
        st.stack.len() > 0,
        st.stack.last().todo.len() > 0,
        st.stack.last().todo[0].kind == Kind::File(Some(m)),
        m.nlink > 1,
        st.seen.contains((m.dev, m.ino)),
    ensures
        ({
            let top = st.stack.last();
            walk::turn(cfg, st) == Turn::Go(
                State {
                    stack: st.stack.drop_last().push(
                        FrameV {
                            name: top.name,
                            size: top.size,
                            kids: top.kids,
                            todo: top.todo.skip(1),
                        },
                    ),
                    seen: st.seen,
                    wanted: st.wanted,
                    files: st.files,
                    bytes: st.bytes,
                },
            )
        }),
{
    assert(st.seen.insert((m.dev, m.ino)) =~= st.seen);
}

/// A directory that was read to its end is a child of the one around it, which
/// grows by its size; the outermost one is the tree.
pub proof fn law_directory_ends(cfg: CfgV, st: State)
    requires
        st.stack.len() > 0,
        st.stack.last().todo.len() == 0,
    ensures
        ({
            let top = st.stack.last();
            let node = Tree {
                name: top.name,
                size: top.size,
                is_dir: true,
                children: order::sorted(top.kids),
            };
            if st.stack.len() == 1 {
                walk::turn(cfg, st) matches Turn::Done(s, t) && {
                    &&& t == node
                    &&& s.files == st.files
                    &&& s.bytes == st.bytes
                }
            } else {
                let up = st.stack[st.stack.len() - 2];
                if up.size + top.size > u64::MAX {
                    walk::turn(cfg, st) is Overflow
                } else {
                    walk::turn(cfg, st) matches Turn::Go(s) && {
                        &&& s.stack.len() == st.stack.len() - 1
                        &&& s.stack.drop_last() == st.stack.drop_last().drop_last()
                        &&& s.stack.last().name == up.name
                        &&& s.stack.last().todo == up.todo
                        &&& s.stack.last().size == up.size + top.size
                        &&& s.stack.last().kids == up.kids.push(node)
                        &&& s.seen == st.seen
                        &&& s.files == st.files
                        &&& s.bytes == st.bytes
                    }
                }
            }
        }),
{
    if let Turn::Go(s) = walk::turn(cfg, st) {
        assert(s.stack.drop_last() =~= st.stack.drop_last().drop_last());
    }
}

// ------------------------------------------------------------ as a whole

/// The entries of a directory add up one after the other.
pub proof fn law_tally_adds(cfg: CfgV, a: Seq<Item>, b: Seq<Item>, t: Tally)
    ensures
        usage::tally(cfg, a + b, t) == usage::tally(cfg, b, usage::tally(cfg, a, t)),
        usage::tally(cfg, Seq::<Item>::empty(), t) == t,
    decreases a.len(),
{
    if a.len() == 0 {
        assert(a + b =~= b);
    } else {
        assert((a + b).skip(1) =~= a.skip(1) + b);
        law_tally_adds(cfg, a.skip(1), b, usage::met(cfg, a[0], t));
    }
}

proof fn lemma_tally_one(cfg: CfgV, it: Item, t: Tally)
    ensures
        usage::tally(cfg, seq![it], t) == usage::met(cfg, it, t),
{
    assert(seq![it].skip(1) =~= Seq::<Item>::empty());
    assert(usage::tally(cfg, seq![it].skip(1), usage::met(cfg, it, t)) == usage::met(cfg, it, t));
}

/// A directory is a child with all that is found in it, and its size is in that
/// of its parent, whatever it is called, unless a virtual file system is mounted
/// there, or another volume than the target while the walk does not cross
/// volumes.
pub proof fn law_directory_adds(cfg: CfgV, it: Item, t: Tally)
    requires
        it.entry.kind is Dir,
        forall|i: int|
            0 <= i < cfg.virtual_pts.len() ==> !paths::same_path(
                it.entry.path,
                #[trigger] cfg.virtual_pts[i],
            ),
        cfg.cross_real || paths::same_path(it.entry.path, cfg.target) || forall|i: int|
            0 <= i < cfg.real_pts.len() ==> !paths::same_path(
                it.entry.path,
                #[trigger] cfg.real_pts[i],
            ),
    ensures
        ({
            let sub = usage::tally(cfg, it.items, Tally { kids: seq![], size: 0, seen: t.seen });
            let all = usage::tally(cfg, seq![it], t);
            &&& all.kids == t.kids.push(
                Tree {
                    name: it.entry.name,
                    size: sub.size,
                    is_dir: true,
                    children: order::sorted(sub.kids),
                },
            )
            &&& all.size == t.size + sub.size
            &&& all.seen == sub.seen
            &&& usage::answers(cfg, seq![it]) == seq![
                Answer {
                    path: it.entry.path,
                    listing: Seq::new(it.items.len(), |i: int| it.items[i].entry),
                },
            ] + usage::answers(cfg, it.items)
        }),
{
    lemma_tally_one(cfg, it, t);
    lemma_answers_one(cfg, it);
    assert(usage::listing(it.items) =~= Seq::new(it.items.len(), |i: int| it.items[i].entry));
}

proof fn lemma_answers_one(cfg: CfgV, it: Item)
    ensures
        usage::answers(cfg, seq![it]) == if usage::entered(cfg, it.entry) {
            seq![Answer { path: it.entry.path, listing: usage::listing(it.items) }]
                + usage::answers(cfg, it.items)
        } else {
            seq![]
        },
{
    let none = Seq::<Answer>::empty();
    assert(seq![it].skip(1) =~= Seq::<Item>::empty());
    assert(usage::answers(cfg, seq![it].skip(1)) == none);
    let one = seq![Answer { path: it.entry.path, listing: usage::listing(it.items) }]
        + usage::answers(cfg, it.items);
    assert(one + none =~= one);
}

/// What is mounted elsewhere adds nothing, and is not asked for.
pub proof fn law_mount_adds_nothing(cfg: CfgV, it: Item, t: Tally, i: int)
    requires
        it.entry.kind is Dir,
        ({
            ||| 0 <= i < cfg.virtual_pts.len() && paths::same_path(
                it.entry.path,
                cfg.virtual_pts[i],
            )
            ||| {
                &&& 0 <= i < cfg.real_pts.len()
                &&& paths::same_path(it.entry.path, cfg.real_pts[i])
                &&& !cfg.cross_real
                &&& !paths::same_path(it.entry.path, cfg.target)
            }
        }),
    ensures
        usage::tally(cfg, seq![it], t) == t,
        usage::answers(cfg, seq![it]).len() == 0,
{
    lemma_tally_one(cfg, it, t);
    lemma_answers_one(cfg, it);
}

/// What is no directory is not asked for. A file adds itself; a symbolic link,
/// and what cannot be read, nothing.
pub proof fn law_file_adds(cfg: CfgV, it: Item, t: Tally)
    requires
        it.entry.kind !is Dir,
    ensures
        ({
            let all = usage::tally(cfg, seq![it], t);
            match it.entry.kind {
                Kind::File(Some(m)) => {
                    let fresh = m.nlink <= 1 || !t.seen.contains((m.dev, m.ino));
                    &&& all.size == t.size + if fresh {
                        512 * m.blocks
                    } else {
                        0
                    }
                    &&& all.kids == if fresh {
                        t.kids.push(
                            Tree {
                                name: it.entry.name,
                                size: 512 * m.blocks,
                                is_dir: false,
                                children: seq![],
                            },
                        )
                    } else {
                        t.kids
                    }
                    &&& all.seen == if m.nlink > 1 {
                        t.seen.insert((m.dev, m.ino))
                    } else {
                        t.seen
                    }
                },
                _ => all == t,
            }
        }),
        usage::answers(cfg, seq![it]).len() == 0,
{
    lemma_tally_one(cfg, it, t);
    lemma_answers_one(cfg, it);
}

/// What is asked for in a directory: for each entry its own, in turn.
pub proof fn law_answers_add(cfg: CfgV, a: Seq<Item>, b: Seq<Item>)
    ensures
        usage::answers(cfg, a + b) == usage::answers(cfg, a) + usage::answers(cfg, b),
        usage::answers(cfg, Seq::<Item>::empty()).len() == 0,
    decreases a.len(),
{
    let none = Seq::<Answer>::empty();
    if a.len() == 0 {
        assert(a + b =~= b);
        assert(none + usage::answers(cfg, b) =~= usage::answers(cfg, b));
    } else {
        assert((a + b).skip(1) =~= a.skip(1) + b);
        law_answers_add(cfg, a.skip(1), b);
        let it = a[0];
        let one = seq![Answer { path: it.entry.path, listing: usage::listing(it.items) }]
            + usage::answers(cfg, it.items);
        let x = usage::answers(cfg, a.skip(1));
        let y = usage::answers(cfg, b);
        assert(one + (x + y) =~= (one + x) + y);
    }
}

/// The tree of a scan: what its listing adds up to, the largest child first.
pub proof fn law_scan(cfg: CfgV, name: Seq<char>, items: Seq<Item>)
    ensures
        ({
            let t = usage::usage(cfg, name, items);
            let all = usage::tally(
                cfg,
                items,
                Tally { kids: seq![], size: 0, seen: Set::empty() },
            );
            &&& t.name == name
            &&& t.is_dir
            &&& t.size == all.size
            &&& t.children == order::sorted(all.kids)
            &&& t.children.len() == all.kids.len()
        }),
{
    order::law_sorted_same(
        usage::tally(cfg, items, Tally { kids: seq![], size: 0, seen: Set::empty() }).kids,
    );
}

/// A directory in the target is a child of the tree with its whole size, and
/// its listing is asked for, whatever it is called, unless a virtual file system
/// is mounted there, or another volume than the target while the walk does not
/// cross volumes.
pub proof fn law_directory_is_in_tree(cfg: CfgV, name: Seq<char>, items: Seq<Item>, k: int)
    requires
        0 <= k < items.len(),
        items[k].entry.kind is Dir,
        forall|i: int|
            0 <= i < cfg.virtual_pts.len() ==> !paths::same_path(
                items[k].entry.path,
                #[trigger] cfg.virtual_pts[i],
            ),
        cfg.cross_real || paths::same_path(items[k].entry.path, cfg.target) || forall|i: int|
            0 <= i < cfg.real_pts.len() ==> !paths::same_path(
                items[k].entry.path,
                #[trigger] cfg.real_pts[i],
            ),
    ensures
        ({
            let none = Tally { kids: seq![], size: 0, seen: Set::empty() };
            let before = usage::tally(cfg, items.take(k), none);
            let sub = usage::tally(
                cfg,
                items[k].items,
                Tally { kids: seq![], size: 0, seen: before.seen },
            );
            let t = usage::usage(cfg, name, items);
            &&& t.children.contains(
                Tree {
                    name: items[k].entry.name,
                    size: sub.size,
                    is_dir: true,
                    children: order::sorted(sub.kids),
                },
            )
            &&& t.size >= before.size + sub.size
            &&& usage::answers(cfg, items).contains(
                Answer {
                    path: items[k].entry.path,
                    listing: Seq::new(items[k].items.len(), |i: int| items[k].items[i].entry),
                },
            )
        }),
{
    let none = Tally { kids: seq![], size: 0, seen: Set::empty() };
    let it = items[k];
    let before = usage::tally(cfg, items.take(k), none);
    let here = usage::tally(cfg, seq![it], before);
    let rest = items.skip(k + 1);
    let kid = here.kids.last();
    assert(items =~= items.take(k) + (seq![it] + rest));
    law_tally_adds(cfg, items.take(k), seq![it] + rest, none);
    law_tally_adds(cfg, seq![it], rest, before);
    law_directory_adds(cfg, it, before);
    usage::lemma_tally_grows(cfg, rest, here);
    lemma_kids_stay(cfg, rest, here);
    let all = usage::tally(cfg, items, none);
    assert(all.kids[here.kids.len() - 1] == kid);
    order::law_sorted_same(all.kids);
    all.kids.to_multiset_ensures();
    order::sorted(all.kids).to_multiset_ensures();
    assert(all.kids.contains(kid));
    assert(all.kids.to_multiset().count(kid) > 0);
    assert(order::sorted(all.kids).contains(kid));
    law_answers_add(cfg, items.take(k), seq![it] + rest);
    law_answers_add(cfg, seq![it], rest);
    let ask = Answer {
        path: it.entry.path,
        listing: Seq::new(it.items.len(), |i: int| it.items[i].entry),
    };
    let n = usage::answers(cfg, items.take(k)).len() as int;
    assert(usage::answers(cfg, seq![it])[0] == ask);
    assert(usage::answers(cfg, items)[n] == ask);
}

/// What was found stays found.
proof fn lemma_kids_stay(cfg: CfgV, items: Seq<Item>, t: Tally)
    ensures
        usage::tally(cfg, items, t).kids.len() >= t.kids.len(),
        usage::tally(cfg, items, t).kids.take(t.kids.len() as int) == t.kids,
    decreases items.len(),
{
    if items.len() == 0 {
        assert(t.kids.take(t.kids.len() as int) =~= t.kids);
    } else {
        let t1 = usage::met(cfg, items[0], t);
        lemma_kids_stay(cfg, items.skip(1), t1);
        assert(t1.kids.take(t.kids.len() as int) =~= t.kids);
        assert(usage::tally(cfg, items, t).kids.take(t.kids.len() as int) =~= t1.kids.take(
            t.kids.len() as int,
        ));
    }
}

} // verus!
