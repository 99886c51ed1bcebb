//! Files of several names: each counts once, wherever its names are.

use vstd::prelude::*;

use crate::tree::Tree;
use crate::usage;
use crate::usage::Item;
use crate::usage::Tally;
use crate::walk;

verus! {

/// The file that an entry is one of several names of.
pub open spec fn link_of(e: walk::EntryV) -> Option<(u64, u64)> {
    match e.kind {
        walk::Kind::File(Some(m)) => if m.nlink > 1 {
            Some((m.dev, m.ino))
        } else {
            None
        },
        _ => None,
    }
}

/// The files of several names that a walk meets, at any depth.
pub open spec fn links(cfg: walk::CfgV, items: Seq<Item>) -> Set<(u64, u64)>
    decreases items, items.len(),
{
    if items.len() == 0 {
        Set::empty()
    } else {
        links_at(cfg, items[0]).union(links(cfg, items.skip(1)))
    }
}

/// Those that one item is a name of, or holds.
pub open spec fn links_at(cfg: walk::CfgV, it: Item) -> Set<(u64, u64)>
    decreases it, 0int,
{
    match link_of(it.entry) {
        Some(k) => Set::empty().insert(k),
        None => if usage::entered(cfg, it.entry) {
            links(cfg, it.items)
        } else {
            Set::empty()
        },
    }
}

/// How many file nodes a walk makes for a file of several names: of the entries
/// at any depth that are one of them, how many are counted.
pub open spec fn nodes_for(cfg: walk::CfgV, items: Seq<Item>, t: Tally, k: (u64, u64)) -> int
    decreases items, items.len(),
{
    if items.len() == 0 {
        0
    } else {
        nodes_at(cfg, items[0], t, k) + nodes_for(
            cfg,
            items.skip(1),
            usage::met(cfg, items[0], t),
            k,
        )
    }
}

pub open spec fn nodes_at(cfg: walk::CfgV, it: Item, t: Tally, k: (u64, u64)) -> int
    decreases it, 0int,
{
    match walk::verdict(cfg, it.entry, t.seen) {
        walk::Verdict::Skip => 0,
        walk::Verdict::Count(_) => if link_of(it.entry) == Some(k) {
            1
        } else {
            0
        },
        walk::Verdict::Descend => nodes_for(cfg, it.items, usage::nothing(t.seen), k),
    }
}

/// How many files of one name a walk meets, at any depth.
pub open spec fn plain(cfg: walk::CfgV, items: Seq<Item>) -> int
    decreases items, items.len(),
{
    if items.len() == 0 {
        0
    } else {
        plain_at(cfg, items[0]) + plain(cfg, items.skip(1))
    }
}

pub open spec fn plain_at(cfg: walk::CfgV, it: Item) -> int
    decreases it, 0int,
{
    match it.entry.kind {
        walk::Kind::File(Some(m)) => if m.nlink > 1 {
            0
        } else {
            1
        },
        _ => if usage::entered(cfg, it.entry) {
            plain(cfg, it.items)
        } else {
            0
        },
    }
}

// ------------------------------------------------------------ what was seen

/// After a walk the files of several names that it met have been seen, at
/// whatever depth, beside those seen before.
pub proof fn law_seen(cfg: walk::CfgV, items: Seq<Item>, t: Tally)
    ensures
        usage::tally(cfg, items, t).seen == t.seen.union(links(cfg, items)),
    decreases items, items.len(),
{
    if items.len() == 0 {
        assert(t.seen.union(Set::empty()) =~= t.seen);
    } else {
        let t1 = usage::met(cfg, items[0], t);
        lemma_seen_at(cfg, items[0], t);
        law_seen(cfg, items.skip(1), t1);
        assert(t.seen.union(links_at(cfg, items[0])).union(links(cfg, items.skip(1)))
            =~= t.seen.union(links_at(cfg, items[0]).union(links(cfg, items.skip(1)))));
    }
}

proof fn lemma_seen_at(cfg: walk::CfgV, it: Item, t: Tally)
    ensures
        usage::met(cfg, it, t).seen == t.seen.union(links_at(cfg, it)),
    decreases it, 0int,
{
    if walk::verdict(cfg, it.entry, t.seen) is Descend {
        law_seen(cfg, it.items, usage::nothing(t.seen));
    } else {
        assert(usage::met(cfg, it, t).seen =~= t.seen.union(links_at(cfg, it)));
    }
}

// ------------------------------------------------------------ once each

/// A file of several names that a walk meets, at whatever depths, gets exactly
/// one file node, unless it had been seen before; any other gets none.
pub proof fn law_one_node_each(cfg: walk::CfgV, items: Seq<Item>, t: Tally, k: (u64, u64))
    ensures
        nodes_for(cfg, items, t, k) == if links(cfg, items).contains(k) && !t.seen.contains(k) {
            1int
        } else {
            0
        },
    decreases items, items.len(),
{
    if items.len() > 0 {
        lemma_one_node_at(cfg, items[0], t, k);
        lemma_seen_at(cfg, items[0], t);
        law_one_node_each(cfg, items.skip(1), usage::met(cfg, items[0], t), k);
    }
}

proof fn lemma_one_node_at(cfg: walk::CfgV, it: Item, t: Tally, k: (u64, u64))
    ensures
        nodes_at(cfg, it, t, k) == if links_at(cfg, it).contains(k) && !t.seen.contains(k) {
            1int
        } else {
            0
        },
    decreases it, 0int,
{
    if walk::verdict(cfg, it.entry, t.seen) is Descend {
        law_one_node_each(cfg, it.items, usage::nothing(t.seen), k);
    }
}

/// The first name of a file that is met is counted, with the size of the file.
pub proof fn law_first_name_counts(cfg: walk::CfgV, it: Item, t: Tally, m: walk::Meta)
    requires
        it.entry.kind == walk::Kind::File(Some(m)),
        !t.seen.contains((m.dev, m.ino)),
    ensures
        ({
            let t1 = usage::met(cfg, it, t);
            let kid = Tree {
                name: it.entry.name,
                size: m.blocks * 512,
                is_dir: false,
                children: seq![],
            };
            t1.kids == t.kids.push(kid) && t1.size == t.size + m.blocks * 512
        }),
{
}

// ------------------------------------------------------------ how many

/// The files that a walk finds are those of one name, each time, and those of
/// several that it had not seen, once each.
pub proof fn law_files_found(cfg: walk::CfgV, items: Seq<Item>, t: Tally)
    ensures
        links(cfg, items).finite(),
        usage::files_all(usage::tally(cfg, items, t).kids) == usage::files_all(t.kids) + plain(
            cfg,
            items,
        ) + links(cfg, items).difference(t.seen).len(),
    decreases items, items.len(),
{
    if items.len() == 0 {
        assert(links(cfg, items).difference(t.seen) =~= Set::empty());
    } else {
        let here = links_at(cfg, items[0]);
        let rest = links(cfg, items.skip(1));
        let t1 = usage::met(cfg, items[0], t);
        lemma_files_at(cfg, items[0], t);
        lemma_seen_at(cfg, items[0], t);
        law_files_found(cfg, items.skip(1), t1);
        let a = here.difference(t.seen);
        let b = rest.difference(t1.seen);
        assert(here.union(rest).difference(t.seen) =~= a.union(b));
        vstd::set_lib::lemma_set_disjoint_lens(a, b);
    }
}

proof fn lemma_files_at(cfg: walk::CfgV, it: Item, t: Tally)
    ensures
        links_at(cfg, it).finite(),
        usage::files_all(usage::met(cfg, it, t).kids) == usage::files_all(t.kids) + plain_at(cfg, it)
            + links_at(cfg, it).difference(t.seen).len(),
    decreases it, 0int,
{
    let t1 = usage::met(cfg, it, t);
    let new = links_at(cfg, it).difference(t.seen);
    match walk::verdict(cfg, it.entry, t.seen) {
        walk::Verdict::Skip => {
            assert(new =~= Set::empty());
        },
        walk::Verdict::Count(size) => {
            let kid = walk::leaf(it.entry, size);
            usage::lemma_files_push(t.kids, kid);
            assert(usage::files_in(kid) == 1) by {
                reveal_with_fuel(usage::files_in, 2);
            }
            match link_of(it.entry) {
                Some(k) => {
                    assert(new =~= Set::empty().insert(k));
                },
                None => {
                    assert(new =~= Set::empty());
                },
            }
        },
        walk::Verdict::Descend => {
            let none = usage::nothing(t.seen);
            let sub = usage::tally(cfg, it.items, none);
            law_files_found(cfg, it.items, none);
            usage::lemma_files_dir(it.entry.name, sub.size, sub.kids);
            usage::lemma_files_push(t.kids, t1.kids.last());
            assert(usage::files_all(Seq::<Tree>::empty()) == 0);
        },
    }
}

/// The files that a tree holds are those of one name that the walk met, and
/// once each those of several.
pub proof fn law_usage_files(cfg: walk::CfgV, name: Seq<char>, items: Seq<Item>)
    ensures
        usage::files_in(usage::usage(cfg, name, items)) == plain(cfg, items) + links(
            cfg,
            items,
        ).len(),
{
    let none = usage::nothing(Set::empty());
    let t = usage::tally(cfg, items, none);
    law_files_found(cfg, items, none);
    usage::lemma_files_dir(name, t.size, t.kids);
    assert(usage::files_all(Seq::<Tree>::empty()) == 0);
    assert(links(cfg, items).difference(Set::empty()) =~= links(cfg, items));
}

} // verus!
