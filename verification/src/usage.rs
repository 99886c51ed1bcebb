//! What a walk reports: the usage of a directory tree.

use vstd::prelude::*;

use crate::order;
use crate::tree;
use crate::tree::Tree;
use crate::walk;

verus! {

/// An entry, and what the directory holds where it is one.
pub ghost struct Item {
    pub entry: walk::EntryV,
    pub items: Seq<Item>,
}

/// The listing of a directory.
pub open spec fn listing(items: Seq<Item>) -> Seq<walk::EntryV> {
    Seq::new(items.len(), |i: int| items[i].entry)
}

/// What was found in a directory so far.
pub ghost struct Tally {
    pub kids: Seq<Tree>,
    pub size: int,
    pub seen: Set<(u64, u64)>,
}

pub open spec fn nothing(seen: Set<(u64, u64)>) -> Tally {
    Tally { kids: seq![], size: 0, seen }
}

pub open spec fn found(t: Tally, kid: Tree, seen: Set<(u64, u64)>) -> Tally {
    Tally { kids: t.kids.push(kid), size: t.size + kid.size, seen }
}

/// One more entry of a directory.
pub open spec fn met(cfg: walk::CfgV, it: Item, t: Tally) -> Tally
    decreases it, 0int,
{
    match walk::verdict(cfg, it.entry, t.seen) {
        walk::Verdict::Skip => Tally { seen: walk::seen_after(it.entry, t.seen), ..t },
        walk::Verdict::Count(size) => found(
            t,
            walk::leaf(it.entry, size),
            walk::seen_after(it.entry, t.seen),
        ),
        walk::Verdict::Descend => {
            let sub = tally(cfg, it.items, nothing(t.seen));
            found(
                t,
                Tree {
                    name: it.entry.name,
                    size: sub.size,
                    is_dir: true,
                    children: order::sorted(sub.kids),
                },
                sub.seen,
            )
        },
    }
}

/// The entries of a directory, one after the other.
pub open spec fn tally(cfg: walk::CfgV, items: Seq<Item>, t: Tally) -> Tally
    decreases items, items.len(),
{
    if items.len() == 0 {
        t
    } else {
        tally(cfg, items.skip(1), met(cfg, items[0], t))
    }
}

/// The usage of a directory and of all below it.
pub open spec fn usage(cfg: walk::CfgV, name: Seq<char>, items: Seq<Item>) -> Tree {
    let t = tally(cfg, items, nothing(Set::empty()));
    Tree { name, size: t.size, is_dir: true, children: order::sorted(t.kids) }
}

/// How many files a tree holds.
pub open spec fn files_in(t: Tree) -> int
    decreases t, 0int,
{
    if t.is_dir {
        files_all(t.children)
    } else {
        1
    }
}

/// How many files some trees hold.
pub open spec fn files_all(ts: Seq<Tree>) -> int
    decreases ts, ts.len(),
{
    if ts.len() == 0 {
        0
    } else {
        files_all(ts.drop_last()) + files_in(ts.last())
    }
}

/// A count as 64 bits hold it.
pub open spec fn wrapped(n: int) -> u64 {
    (n % 0x1_0000_0000_0000_0000) as u64
}

proof fn lemma_wrapped(n: int, m: int)
    ensures
        wrapped(wrapped(n) + m) == wrapped(n + m),
{
}

pub proof fn lemma_files_push(ts: Seq<Tree>, t: Tree)
    ensures
        files_all(ts.push(t)) == files_all(ts) + files_in(t),
{
    reveal_with_fuel(files_all, 2);
    assert(ts.push(t).drop_last() == ts);
}

proof fn lemma_files_remove(ts: Seq<Tree>, i: int)
    requires
        0 <= i < ts.len(),
    ensures
        files_all(ts.remove(i)) == files_all(ts) - files_in(ts[i]),
    decreases ts.len(),
{
    let init = ts.drop_last();
    lemma_files_push(init, ts.last());
    assert(init.push(ts.last()) == ts);
    if i == ts.len() - 1 {
        assert(ts.remove(i) == init);
    } else {
        lemma_files_remove(init, i);
        lemma_files_push(init.remove(i), ts.last());
        assert(ts.remove(i) == init.remove(i).push(ts.last()));
    }
}

proof fn lemma_files_permuted(a: Seq<Tree>, b: Seq<Tree>)
    requires
        a.to_multiset() == b.to_multiset(),
    ensures
        files_all(a) == files_all(b),
    decreases a.len(),
{
    broadcast use vstd::seq_lib::group_to_multiset_ensures;

    if a.len() == 0 {
        assert(b.to_multiset().len() == 0);
        assert(a == b);
    } else {
        let x = a.last();
        assert(a.to_multiset().count(x) > 0);
        assert(b.contains(x));
        let i = choose|i: int| 0 <= i < b.len() && b[i] == x;
        lemma_files_remove(b, i);
        lemma_files_remove(a, a.len() - 1);
        assert(a.remove(a.len() - 1) == a.drop_last());
        vstd::seq_lib::to_multiset_remove(a, a.len() - 1);
        vstd::seq_lib::to_multiset_remove(b, i);
        lemma_files_permuted(a.drop_last(), b.remove(i));
    }
}

/// A directory holds the files that were found in it, in whatever order.
pub proof fn lemma_files_dir(name: Seq<char>, size: int, kids: Seq<Tree>)
    ensures
        files_in(Tree { name, size, is_dir: true, children: order::sorted(kids) }) == files_all(
            kids,
        ),
{
    order::law_sorted_same(kids);
    lemma_files_permuted(order::sorted(kids), kids);
    reveal_with_fuel(files_in, 2);
}

// ------------------------------------------------------------ the walk

/// A directory that is asked for, and its listing.
pub ghost struct Answer {
    pub path: Seq<u8>,
    pub listing: Seq<walk::EntryV>,
}

/// Whether a walk lists the directory.
pub open spec fn entered(cfg: walk::CfgV, e: walk::EntryV) -> bool {
    e.kind is Dir && !walk::left_out(cfg, e.path)
}

/// The directories below one that a walk lists, in that order.
pub open spec fn answers(cfg: walk::CfgV, items: Seq<Item>) -> Seq<Answer>
    decreases items, items.len(),
{
    if items.len() == 0 {
        seq![]
    } else {
        let rest = answers(cfg, items.skip(1));
        let it = items[0];
        if entered(cfg, it.entry) {
            seq![Answer { path: it.entry.path, listing: listing(it.items) }] + answers(
                cfg,
                it.items,
            ) + rest
        } else {
            rest
        }
    }
}

/// What comes of a walk that is given these listings: the tree, and how the walk
/// stands then, where they are those that it asks for.
pub open spec fn fed(cfg: walk::CfgV, st: walk::State, given: Seq<Answer>) -> Option<
    (walk::State, Tree),
>
    decreases given.len(),
{
    match walk::run(cfg, st) {
        walk::Turn::Ask(s, path) => if given.len() > 0 && given[0].path == path {
            fed(cfg, walk::opened(s, given[0].listing), given.skip(1))
        } else {
            None
        },
        walk::Turn::Done(s, t) => if given.len() == 0 {
            Some((s, t))
        } else {
            None
        },
        _ => None,
    }
}

pub proof fn lemma_tally_grows(cfg: walk::CfgV, items: Seq<Item>, t: Tally)
    ensures
        tally(cfg, items, t).size >= t.size,
    decreases items, items.len(),
{
    if items.len() > 0 {
        lemma_met_grows(cfg, items[0], t);
        lemma_tally_grows(cfg, items.skip(1), met(cfg, items[0], t));
    }
}

proof fn lemma_met_grows(cfg: walk::CfgV, it: Item, t: Tally)
    ensures
        met(cfg, it, t).size >= t.size,
        walk::verdict(cfg, it.entry, t.seen) is Descend ==> met(cfg, it, t).size == t.size + tally(
            cfg,
            it.items,
            nothing(t.seen),
        ).size,
    decreases it, 0int,
{
    if walk::verdict(cfg, it.entry, t.seen) is Descend {
        lemma_tally_grows(cfg, it.items, nothing(t.seen));
    }
}

/// The state with the innermost directory as a tally leaves it.
spec fn advanced(
    st: walk::State,
    t: Tally,
    todo: Seq<walk::EntryV>,
    rest: (Seq<char>, u64, u64),
) -> walk::State {
    walk::State {
        stack: walk::with_top(
            st.stack,
            walk::FrameV { name: st.stack.last().name, size: t.size, kids: t.kids, todo },
        ),
        seen: t.seen,
        wanted: rest.0,
        files: rest.1,
        bytes: rest.2,
    }
}

/// The progress grew by what was found between two tallies.
spec fn progressed(
    st: walk::State,
    before: Tally,
    after: Tally,
    rest: (Seq<char>, u64, u64),
) -> bool {
    &&& rest.1 == wrapped(st.files + files_all(after.kids) - files_all(before.kids))
    &&& rest.2 == wrapped(st.bytes + after.size - before.size)
}

proof fn lemma_progressed(
    st: walk::State,
    mid: walk::State,
    a: Tally,
    b: Tally,
    c: Tally,
    rest: (Seq<char>, u64, u64),
)
    requires
        mid.files == wrapped(st.files + files_all(b.kids) - files_all(a.kids)),
        mid.bytes == wrapped(st.bytes + b.size - a.size),
        progressed(mid, b, c, rest),
    ensures
        progressed(st, a, c, rest),
{
    lemma_wrapped(
        st.files + files_all(b.kids) - files_all(a.kids),
        files_all(c.kids) - files_all(b.kids),
    );
    lemma_wrapped(st.bytes + b.size - a.size, c.size - b.size);
}

/// A directory that was listed, as progress.
proof fn lemma_dir_progress(
    cfg: walk::CfgV,
    it: Item,
    st: walk::State,
    t: Tally,
    rest: (Seq<char>, u64, u64),
)
    requires
        walk::verdict(cfg, it.entry, t.seen) is Descend,
        progressed(st, nothing(t.seen), tally(cfg, it.items, nothing(t.seen)), rest),
    ensures
        progressed(st, t, met(cfg, it, t), rest),
{
    let sub = tally(cfg, it.items, nothing(t.seen));
    let t1 = met(cfg, it, t);
    assert(t1 == found(
        t,
        Tree {
            name: it.entry.name,
            size: sub.size,
            is_dir: true,
            children: order::sorted(sub.kids),
        },
        sub.seen,
    )) by {
        reveal_with_fuel(met, 2);
    }
    lemma_files_dir(it.entry.name, sub.size, sub.kids);
    lemma_files_push(t.kids, t1.kids.last());
    assert(files_all(Seq::<Tree>::empty()) == 0);
}

/// One turn on an entry that is not listed, as progress.
proof fn lemma_turn_progress(cfg: walk::CfgV, it: Item, st: walk::State, t: Tally)
    requires
        st.stack.len() > 0,
        st.stack.last().todo.len() > 0,
        st.stack.last().todo[0] == it.entry,
        t == (Tally { kids: st.stack.last().kids, size: st.stack.last().size, seen: st.seen }),
        walk::turn(cfg, st) is Go,
    ensures
        ({
            let s1 = walk::turn(cfg, st)->Go_0;
            let t1 = met(cfg, it, t);
            &&& s1.files == wrapped(st.files + files_all(t1.kids) - files_all(t.kids))
            &&& s1.bytes == wrapped(st.bytes + t1.size - t.size)
        }),
{
    if let walk::Verdict::Count(size) = walk::verdict(cfg, it.entry, st.seen) {
        let kid = walk::leaf(it.entry, size);
        lemma_files_push(t.kids, kid);
        reveal_with_fuel(files_in, 2);
        assert(files_in(kid) == 1);
    }
}

/// A walk at a directory asks for its listing.
proof fn lemma_enter(cfg: walk::CfgV, items: Seq<Item>, st: walk::State, later: Seq<Answer>)
    requires
        items.len() > 0,
        st.stack.len() > 0,
        st.stack.last().todo.len() > 0,
        st.stack.last().todo[0] == items[0].entry,
        walk::verdict(cfg, items[0].entry, st.seen) is Descend,
    ensures
        walk::turn(cfg, st) is Ask,
        fed(cfg, st, answers(cfg, items) + later) == fed(
            cfg,
            walk::opened(walk::turn(cfg, st)->Ask_0, listing(items[0].items)),
            answers(cfg, items[0].items) + (answers(cfg, items.skip(1)) + later),
        ),
{
    let it = items[0];
    let given = answers(cfg, items) + later;
    assert(given[0] == (Answer { path: it.entry.path, listing: listing(it.items) }));
    assert(given.skip(1) =~= answers(cfg, it.items) + (answers(cfg, items.skip(1)) + later));
    walk::lemma_work(cfg, st);
}

/// A turn that asks for nothing changes nothing of what comes of the walk.
proof fn lemma_go(cfg: walk::CfgV, st: walk::State, given: Seq<Answer>)
    requires
        st.stack.len() > 0,
        walk::turn(cfg, st) is Go,
    ensures
        fed(cfg, st, given) == fed(cfg, walk::turn(cfg, st)->Go_0, given),
{
    walk::lemma_work(cfg, st);
    assert(walk::run(cfg, st) == walk::run(cfg, walk::turn(cfg, st)->Go_0));
}

proof fn lemma_fed(
    cfg: walk::CfgV,
    items: Seq<Item>,
    st: walk::State,
    todo: Seq<walk::EntryV>,
    later: Seq<Answer>,
) -> (rest: (Seq<char>, u64, u64))
    requires
        st.stack.len() > 0,
        st.stack.last().todo == listing(items) + todo,
        0 <= st.stack.last().size,
        ({
            let top = st.stack.last();
            let t = Tally { kids: top.kids, size: top.size, seen: st.seen };
            tally(cfg, items, t).size <= u64::MAX
        }),
    ensures
        ({
            let top = st.stack.last();
            let t = Tally { kids: top.kids, size: top.size, seen: st.seen };
            fed(cfg, st, answers(cfg, items) + later) == fed(
                cfg,
                advanced(st, tally(cfg, items, t), todo, rest),
                later,
            )
        }),
        ({
            let top = st.stack.last();
            let t = Tally { kids: top.kids, size: top.size, seen: st.seen };
            progressed(st, t, tally(cfg, items, t), rest)
        }),
    decreases items, items.len(),
{
    let top = st.stack.last();
    let t = Tally { kids: top.kids, size: top.size, seen: st.seen };
    if items.len() == 0 {
        let rest = (st.wanted, st.files, st.bytes);
        assert(listing(items) + todo == todo);
        assert(walk::with_top(st.stack, top) == st.stack);
        assert(answers(cfg, items) + later == later);
        assert(advanced(st, t, todo, rest) == st);
        rest
    } else {
        let it = items[0];
        let e = it.entry;
        let more = items.skip(1);
        let t1 = met(cfg, it, t);
        lemma_tally_grows(cfg, more, t1);
        lemma_met_grows(cfg, it, t);
        assert(top.todo[0] == e);
        assert(top.todo.skip(1) == listing(more) + todo);
        walk::lemma_work(cfg, st);
        if walk::verdict(cfg, e, st.seen) is Descend {
            let s1 = walk::turn(cfg, st)->Ask_0;
            let after = answers(cfg, more) + later;
            lemma_enter(cfg, items, st, later);
            let s2 = walk::opened(s1, listing(it.items));
            assert(listing(it.items) + Seq::<walk::EntryV>::empty() =~= listing(it.items));
            lemma_tally_grows(cfg, it.items, nothing(st.seen));
            let r2 = lemma_fed(cfg, it.items, s2, Seq::empty(), after);
            let sub = tally(cfg, it.items, nothing(st.seen));
            let s3 = advanced(s2, sub, Seq::empty(), r2);
            assert(s3.stack.drop_last() =~= s1.stack);
            lemma_go(cfg, s3, after);
            let s4 = walk::turn(cfg, s3)->Go_0;
            assert(s4.stack.last().kids == t1.kids);
            let rest = lemma_fed(cfg, more, s4, todo, later);
            assert(s4.stack.drop_last() == st.stack.drop_last());
            lemma_dir_progress(cfg, it, st, t, r2);
            lemma_progressed(st, s4, t, t1, tally(cfg, more, t1), rest);
            rest
        } else {
            let s1 = walk::turn(cfg, st)->Go_0;
            lemma_go(cfg, st, answers(cfg, items) + later);
            let rest = lemma_fed(cfg, more, s1, todo, later);
            assert(s1.stack.drop_last() == st.stack.drop_last());
            lemma_turn_progress(cfg, it, st, t);
            lemma_progressed(st, s1, t, t1, tally(cfg, more, t1), rest);
            rest
        }
    }
}

/// A walk that is given the listings it asks for reports the usage of the
/// directory tree, where its size fits in 64 bits. It has then counted as many
/// files as the tree holds, and as many bytes as the tree takes, as 64 bits hold
/// them.
pub proof fn law_walk(cfg: walk::CfgV, name: Seq<char>, items: Seq<Item>)
    requires
        usage(cfg, name, items).size <= u64::MAX,
    ensures
        ({
            let t = usage(cfg, name, items);
            fed(
                cfg,
                walk::opened(walk::start(name), listing(items)),
                answers(cfg, items),
            ) matches Some((st, read)) && {
                &&& read == t
                &&& st.files == wrapped(files_in(t))
                &&& st.bytes == wrapped(t.size)
                &&& st.bytes == t.size
            }
        }),
{
    let st = walk::opened(walk::start(name), listing(items));
    let none = Seq::<walk::EntryV>::empty();
    assert(listing(items) + none == listing(items));
    assert(answers(cfg, items) + Seq::<Answer>::empty() == answers(cfg, items));
    let rest = lemma_fed(cfg, items, st, none, Seq::empty());
    let t = tally(cfg, items, nothing(Set::empty()));
    let last = advanced(st, t, none, rest);
    assert(last.stack.drop_last() == Seq::<walk::FrameV>::empty());
    walk::lemma_work(cfg, last);
    lemma_tally_grows(cfg, items, nothing(Set::empty()));
    lemma_files_dir(name, t.size, t.kids);
    assert(files_all(Seq::<Tree>::empty()) == 0);
}

/// No directory is listed where a virtual file system is mounted; and but for
/// the target none where another volume is, unless the walk crosses volumes.
pub proof fn law_left_out(cfg: walk::CfgV, items: Seq<Item>)
    ensures
        forall|i: int|
            0 <= i < answers(cfg, items).len() ==> !walk::left_out(
                cfg,
                (#[trigger] answers(cfg, items)[i]).path,
            ),
    decreases items, items.len(),
{
    if items.len() > 0 {
        let it = items[0];
        let a = answers(cfg, it.items);
        let b = answers(cfg, items.skip(1));
        let all = answers(cfg, items);
        law_left_out(cfg, it.items);
        law_left_out(cfg, items.skip(1));
        assert forall|i: int| 0 <= i < all.len() implies !walk::left_out(
            cfg,
            (#[trigger] all[i]).path,
        ) by {
            if entered(cfg, it.entry) {
                if 0 < i <= a.len() {
                    assert(all[i] == a[i - 1]);
                } else if i > a.len() {
                    assert(all[i] == b[i - 1 - a.len()]);
                }
            } else {
                assert(all[i] == b[i]);
            }
        }
    }
}

proof fn lemma_seen_grows(cfg: walk::CfgV, items: Seq<Item>, t: Tally)
    ensures
        t.seen.subset_of(tally(cfg, items, t).seen),
    decreases items, items.len(),
{
    if items.len() > 0 {
        lemma_seen_met(cfg, items[0], t);
        lemma_seen_grows(cfg, items.skip(1), met(cfg, items[0], t));
    }
}

proof fn lemma_seen_met(cfg: walk::CfgV, it: Item, t: Tally)
    ensures
        t.seen.subset_of(met(cfg, it, t).seen),
    decreases it, 0int,
{
    if walk::verdict(cfg, it.entry, t.seen) is Descend {
        lemma_seen_grows(cfg, it.items, nothing(t.seen));
    }
}

/// A file of several names counts once: after one of them, and whatever is met
/// in between, another one is skipped.
pub proof fn law_links_once(
    cfg: walk::CfgV,
    one: Item,
    between: Seq<Item>,
    other: Item,
    t: Tally,
    m: walk::Meta,
    n: walk::Meta,
)
    requires
        one.entry.kind == walk::Kind::File(Some(m)),
        other.entry.kind == walk::Kind::File(Some(n)),
        m.nlink > 1,
        n.nlink > 1,
        m.dev == n.dev,
        m.ino == n.ino,
    ensures
        ({
            let t1 = tally(cfg, between, met(cfg, one, t));
            met(cfg, other, t1).kids == t1.kids && met(cfg, other, t1).size == t1.size
        }),
{
    let t0 = met(cfg, one, t);
    assert(t0.seen.contains((m.dev, m.ino)));
    lemma_seen_grows(cfg, between, t0);
}

// ------------------------------------------------------------ sums

/// Each directory has the size of what it holds, the largest first, and a file
/// holds nothing.
pub open spec fn adds_up(t: Tree) -> bool
    decreases t,
{
    &&& t.is_dir ==> t.size == tree::total(t.children) && order::descending(t.children)
    &&& !t.is_dir ==> t.children.len() == 0
    &&& forall|i: int| 0 <= i < t.children.len() ==> adds_up(#[trigger] t.children[i])
}

/// What a directory holds adds up so far.
spec fn sums(t: Tally) -> bool {
    &&& t.size == tree::total(t.kids)
    &&& forall|i: int| 0 <= i < t.kids.len() ==> adds_up(#[trigger] t.kids[i])
}

proof fn lemma_found(t: Tally, kid: Tree, seen: Set<(u64, u64)>)
    requires
        sums(t),
        adds_up(kid),
    ensures
        sums(found(t, kid, seen)),
{
    let r = found(t, kid, seen);
    assert(r.kids.drop_last() == t.kids);
    assert forall|i: int| 0 <= i < r.kids.len() implies adds_up(#[trigger] r.kids[i]) by {
        if i < t.kids.len() {
            assert(r.kids[i] == t.kids[i]);
        }
    }
}

proof fn lemma_dir_adds_up(name: Seq<char>, t: Tally)
    requires
        sums(t),
    ensures
        adds_up(Tree { name, size: t.size, is_dir: true, children: order::sorted(t.kids) }),
{
    broadcast use vstd::seq_lib::group_to_multiset_ensures;

    let kids = order::sorted(t.kids);
    order::law_sorted_same(t.kids);
    tree::lemma_total_permuted(kids, t.kids);
    assert forall|i: int| 0 <= i < kids.len() implies adds_up(#[trigger] kids[i]) by {
        assert(kids.contains(kids[i]));
        assert(kids.to_multiset().count(kids[i]) > 0);
        assert(t.kids.contains(kids[i]));
        let j = choose|j: int| 0 <= j < t.kids.len() && t.kids[j] == kids[i];
        assert(adds_up(t.kids[j]));
    }
}

proof fn lemma_tally_sums(cfg: walk::CfgV, items: Seq<Item>, t: Tally)
    requires
        sums(t),
    ensures
        sums(tally(cfg, items, t)),
    decreases items, items.len(),
{
    if items.len() > 0 {
        lemma_met_sums(cfg, items[0], t);
        lemma_tally_sums(cfg, items.skip(1), met(cfg, items[0], t));
    }
}

proof fn lemma_met_sums(cfg: walk::CfgV, it: Item, t: Tally)
    requires
        sums(t),
    ensures
        sums(met(cfg, it, t)),
    decreases it, 0int,
{
    match walk::verdict(cfg, it.entry, t.seen) {
        walk::Verdict::Skip => {},
        walk::Verdict::Count(size) => {
            let kid = walk::leaf(it.entry, size);
            assert(adds_up(kid));
            lemma_found(t, kid, walk::seen_after(it.entry, t.seen));
        },
        walk::Verdict::Descend => {
            assert(sums(nothing(t.seen)));
            lemma_tally_sums(cfg, it.items, nothing(t.seen));
            let sub = tally(cfg, it.items, nothing(t.seen));
            lemma_dir_adds_up(it.entry.name, sub);
            let kid = Tree {
                name: it.entry.name,
                size: sub.size,
                is_dir: true,
                children: order::sorted(sub.kids),
            };
            lemma_found(t, kid, sub.seen);
        },
    }
}

/// In what a walk reports, each directory has the size of what it holds, and
/// the largest comes first.
pub proof fn law_usage_adds_up(cfg: walk::CfgV, name: Seq<char>, items: Seq<Item>)
    ensures
        adds_up(usage(cfg, name, items)),
{
    assert(sums(nothing(Set::empty())));
    lemma_tally_sums(cfg, items, nothing(Set::empty()));
    lemma_dir_adds_up(name, tally(cfg, items, nothing(Set::empty())));
}

} // verus!
