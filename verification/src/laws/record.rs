//! How a tree is written, and what is read of it.

use vstd::prelude::*;

use crate::text;
use crate::tree;
use crate::tree::Rec;
use crate::tree::Tree;

verus! {

// ------------------------------------------------------------ writing

/// A tree is written as a line of its own, with the level, 1 for a directory
/// and 0 for anything else, the size and the name, a tab between them; and then
/// all its children, one level deeper.
pub proof fn law_written(t: Tree, level: int)
    ensures
        tree::report(tree::flatten(t, level)) == text::decimal(level) + seq!['\t'] + (if t.is_dir {
            seq!['1']
        } else {
            seq!['0']
        }) + seq!['\t'] + text::decimal(t.size) + seq!['\t'] + text::escaped(t.name) + seq!['\n']
            + tree::report(tree::flatten_all(t.children, level + 1)),
{
    let r = Rec { level, is_dir: t.is_dir, size: t.size, name: t.name };
    let all = tree::flatten(t, level);
    let rest = tree::flatten_all(t.children, level + 1);
    assert(all == seq![r] + rest);
    assert(all[0] == r);
    assert(all.skip(1) =~= rest);
    let d = if t.is_dir {
        '1'
    } else {
        '0'
    };
    assert(seq!['\t', d, '\t'] =~= seq!['\t'] + seq![d] + seq!['\t']);
    assert(tree::report(all) =~= text::decimal(level) + seq!['\t'] + seq![d] + seq!['\t']
        + text::decimal(t.size) + seq!['\t'] + text::escaped(t.name) + seq!['\n'] + tree::report(
        rest,
    ));
}

/// Children are written one after the other, each once.
pub proof fn law_children_written(ts: Seq<Tree>, t: Tree, level: int)
    ensures
        tree::report(tree::flatten_all(ts.push(t), level)) == tree::report(
            tree::flatten_all(ts, level),
        ) + tree::report(tree::flatten(t, level)),
        tree::report(tree::flatten_all(Seq::<Tree>::empty(), level)).len() == 0,
{
    tree::lemma_flatten_push(ts, t, level);
    tree::lemma_report_add(tree::flatten_all(ts, level), tree::flatten(t, level));
}

/// A tree is one level higher than the highest of its children, and one without
/// children has no level below it.
pub proof fn law_height(t: Tree)
    ensures
        t.children.len() == 0 ==> tree::height(t) == 0,
        forall|i: int|
            0 <= i < t.children.len() ==> tree::height(t) >= 1 + tree::height(
                #[trigger] t.children[i],
            ),
        t.children.len() > 0 ==> exists|i: int|
            0 <= i < t.children.len() && tree::height(t) == 1 + tree::height(
                #[trigger] t.children[i],
            ),
{
    lemma_height_all(t.children);
}

proof fn lemma_height_all(ts: Seq<Tree>)
    ensures
        forall|i: int|
            0 <= i < ts.len() ==> tree::height_all(ts) >= tree::height(#[trigger] ts[i]),
        ts.len() > 0 ==> exists|i: int|
            0 <= i < ts.len() && tree::height_all(ts) == tree::height(#[trigger] ts[i]),
    decreases ts.len(),
{
    if ts.len() > 0 {
        let r = ts.skip(1);
        lemma_height_all(r);
        assert forall|i: int| 0 <= i < ts.len() implies tree::height_all(ts) >= tree::height(
            #[trigger] ts[i],
        ) by {
            if i > 0 {
                assert(r[i - 1] == ts[i]);
            }
        }
        if tree::height(ts[0]) > tree::height_all(r) || r.len() == 0 {
            assert(tree::height_all(ts) == tree::height(ts[0]));
        } else {
            let j = choose|j: int|
                0 <= j < r.len() && tree::height_all(r) == tree::height(#[trigger] r[j]);
            assert(ts[j + 1] == r[j]);
        }
    }
}

// ------------------------------------------------------------ reading

/// A line of four fields with tabs between them is read as it was written; a
/// level or a size that is no number is 0.
pub proof fn law_read_line(
    level: Seq<char>,
    dir: Seq<char>,
    size: Seq<char>,
    name: Seq<char>,
)
    requires
        !level.contains('\t'),
        !dir.contains('\t'),
        !size.contains('\t'),
    ensures
        tree::parse_line(
            level + seq!['\t'] + dir + seq!['\t'] + size + seq!['\t'] + name,
        ) matches Some(r) && {
            &&& text::number(level, usize::MAX as int) matches Some(n) ==> r.level == n
            &&& text::number(level, usize::MAX as int) is None ==> r.level == 0
            &&& text::number(size, u64::MAX as int) matches Some(n) ==> r.size == n
            &&& text::number(size, u64::MAX as int) is None ==> r.size == 0
            &&& r.is_dir <==> dir == seq!['1']
            &&& r.name == text::unescaped(name)
        },
{
    let l2 = size + seq!['\t'] + name;
    let l1 = dir + seq!['\t'] + l2;
    let l0 = level + seq!['\t'] + l1;
    assert(level + seq!['\t'] + dir + seq!['\t'] + size + seq!['\t'] + name =~= l0);
    tree::lemma_cut(level, l1);
    tree::lemma_cut(dir, l2);
    tree::lemma_cut(size, name);
}

/// A line of fewer fields is passed over.
pub proof fn law_short_record(level: Seq<char>, dir: Seq<char>, size: Seq<char>)
    requires
        !level.contains('\t'),
        !dir.contains('\t'),
        !size.contains('\t'),
    ensures
        tree::parse_line(level) is None,
        tree::parse_line(level + seq!['\t'] + dir) is None,
        tree::parse_line(level + seq!['\t'] + dir + seq!['\t'] + size) is None,
{
    lemma_no_tab(level);
    lemma_no_tab(dir);
    lemma_no_tab(size);
    let l1 = dir + seq!['\t'] + size;
    assert(level + seq!['\t'] + dir + seq!['\t'] + size =~= level + seq!['\t'] + l1);
    tree::lemma_cut(level, dir);
    tree::lemma_cut(level, l1);
    tree::lemma_cut(dir, size);
}

proof fn lemma_no_tab(s: Seq<char>)
    requires
        !s.contains('\t'),
    ensures
        tree::tab(s) == s.len(),
        tree::cut(s) is None,
    decreases s.len(),
{
    if s.len() > 0 {
        assert(s.contains(s[0]));
        assert forall|i: int| 0 <= i < s.len() - 1 implies s.skip(1)[i] != '\t' by {
            assert(s.contains(s[i + 1]));
        }
        lemma_no_tab(s.skip(1));
    }
}

/// Lines are read one after the other, each once.
pub proof fn law_read_lines(a: Seq<Seq<char>>, b: Seq<Seq<char>>, l: Seq<char>)
    ensures
        tree::parse_lines(a + b) == tree::parse_lines(a) + tree::parse_lines(b),
        tree::parse_lines(seq![l]) == match tree::parse_line(l) {
            Some(r) => seq![r],
            None => seq![],
        },
        tree::parse_lines(Seq::<Seq<char>>::empty()).len() == 0,
    decreases a.len(),
{
    let none = Seq::<Rec>::empty();
    assert(seq![l].skip(1) =~= Seq::<Seq<char>>::empty());
    assert(tree::parse_lines(seq![l].skip(1)) == none);
    if let Some(r) = tree::parse_line(l) {
        assert(seq![r] + none =~= seq![r]);
    }
    if a.len() == 0 {
        assert(a + b =~= b);
        assert(none + tree::parse_lines(b) =~= tree::parse_lines(b));
    } else {
        assert((a + b).skip(1) =~= a.skip(1) + b);
        law_read_lines(a.skip(1), b, l);
        if let Some(r) = tree::parse_line(a[0]) {
            let x = tree::parse_lines(a.skip(1));
            let y = tree::parse_lines(b);
            assert(seq![r] + (x + y) =~= (seq![r] + x) + y);
        }
    }
}

/// A tree that is read has one node for each record, in order: the first is its
/// root, and each other one is a level below the one before it at most, and
/// below the root.
pub proof fn law_read_tree(txt: Seq<char>, t: Tree)
    requires
        tree::describes(txt, t),
    ensures
        ({
            let rs = tree::parse_lines(text::lines(txt));
            let ns = tree::flatten(t, 0);
            &&& rs.len() == 0 ==> t == (Tree {
                name: "(empty)"@,
                size: 0,
                is_dir: true,
                children: seq![],
            })
            &&& rs.len() > 0 ==> {
                &&& ns.len() == rs.len()
                &&& ns[0].level == 0
                &&& forall|i: int|
                    0 <= i < rs.len() ==> {
                        &&& (#[trigger] ns[i]).name == rs[i].name
                        &&& ns[i].size == rs[i].size
                        &&& ns[i].is_dir == rs[i].is_dir
                    }
                &&& forall|i: int|
                    0 < i < rs.len() ==> (#[trigger] ns[i]).level == if rs[i].level < 1 {
                        1
                    } else if rs[i].level > ns[i - 1].level + 1 {
                        ns[i - 1].level + 1
                    } else {
                        rs[i].level
                    }
            }
        }),
{
    let rs = tree::parse_lines(text::lines(txt));
    lemma_leveled(rs);
}

proof fn lemma_leveled(rs: Seq<Rec>)
    ensures
        ({
            let ns = tree::leveled(rs);
            &&& ns.len() == rs.len()
            &&& rs.len() > 0 ==> ns[0].level == 0
            &&& forall|i: int|
                0 <= i < rs.len() ==> {
                    &&& (#[trigger] ns[i]).name == rs[i].name
                    &&& ns[i].size == rs[i].size
                    &&& ns[i].is_dir == rs[i].is_dir
                    &&& ns[i].level >= 0
                }
            &&& forall|i: int|
                0 < i < rs.len() ==> (#[trigger] ns[i]).level == if rs[i].level < 1 {
                    1
                } else if rs[i].level > ns[i - 1].level + 1 {
                    ns[i - 1].level + 1
                } else {
                    rs[i].level
                }
        }),
    decreases rs.len(),
{
    if rs.len() > 0 {
        let front = rs.drop_last();
        lemma_leveled(front);
        let ms = tree::leveled(front);
        let ns = tree::leveled(rs);
        let k = rs.len() - 1;
        assert forall|i: int| 0 <= i < k implies #[trigger] ns[i] == ms[i] && front[i] == rs[i] by {}
        assert forall|i: int| 0 <= i < rs.len() implies {
            &&& (#[trigger] ns[i]).name == rs[i].name
            &&& ns[i].size == rs[i].size
            &&& ns[i].is_dir == rs[i].is_dir
            &&& ns[i].level >= 0
        } by {
            if i < k {
                assert(ns[i] == ms[i]);
                assert(ms[i].name == front[i].name);
            } else if i > 0 {
                assert(ms[i - 1].level >= 0);
            }
        }
        assert forall|i: int| 0 < i < rs.len() implies (#[trigger] ns[i]).level == if rs[i].level
            < 1 {
            1
        } else if rs[i].level > ns[i - 1].level + 1 {
            ns[i - 1].level + 1
        } else {
            rs[i].level
        } by {
            if i < k {
                assert(ns[i] == ms[i] && ns[i - 1] == ms[i - 1]);
                assert(ms[i].level == if front[i].level < 1 {
                    1
                } else if front[i].level > ms[i - 1].level + 1 {
                    ms[i - 1].level + 1
                } else {
                    front[i].level
                });
            } else {
                assert(ns[i - 1] == ms[i - 1]);
                assert(ms[i - 1].level >= 0);
            }
        }
    }
}

/// The nodes of a tree: the root, and then those of its children, a level
/// deeper.
pub proof fn law_nodes(t: Tree, ts: Seq<Tree>, u: Tree, level: int)
    ensures
        ({
            let ns = tree::flatten(t, level);
            &&& ns.len() > 0
            &&& ns[0].level == level
            &&& ns[0].name == t.name
            &&& ns[0].size == t.size
            &&& ns[0].is_dir == t.is_dir
            &&& ns.skip(1) == tree::flatten_all(t.children, level + 1)
        }),
        tree::flatten_all(ts.push(u), level) == tree::flatten_all(ts, level) + tree::flatten(
            u,
            level,
        ),
        tree::flatten_all(Seq::<Tree>::empty(), level).len() == 0,
{
    let all = tree::flatten(t, level);
    let rest = tree::flatten_all(t.children, level + 1);
    let r = Rec { level, is_dir: t.is_dir, size: t.size, name: t.name };
    assert(all == seq![r] + rest);
    assert(all.skip(1) =~= rest);
    tree::lemma_flatten_push(ts, u, level);
}

} // verus!
