//! Where in the tree one is.

use vstd::prelude::*;
use vstd::slice::slice_to_vec;
use vstd::string::*;

use crate::double;
use crate::float;
use crate::float::Num;
use crate::layout;
use crate::order;
use crate::paths;
use crate::sizes;
use crate::tree;
use crate::tree::Node;
use crate::tree::Tree;

verus! {

/// The directory that the indices lead to. An index without a child leads
/// nowhere further.
pub open spec fn displayed_tree(t: Tree, nav: Seq<int>) -> Tree
    decreases nav.len(),
{
    if nav.len() == 0 {
        t
    } else if 0 <= nav[0] < t.children.len() {
        displayed_tree(t.children[nav[0]], nav.skip(1))
    } else {
        displayed_tree(t, nav.skip(1))
    }
}

pub fn displayed<'a>(root: &'a Node, nav: &[usize]) -> (r: &'a Node)
    ensures
        r@ == displayed_tree(root@, layout::indices(nav@)),
{
    let mut n = root;
    let ghost all = layout::indices(nav@);
    proof {
        assert(all.skip(0) == all);
    }
    for k in 0..nav.len()
        invariant
            all == layout::indices(nav@),
            displayed_tree(n@, all.skip(k as int)) == displayed_tree(root@, all),
    {
        proof {
            tree::lemma_tree_children(*n);
            assert(all.skip(k as int).skip(1) == all.skip(k + 1));
        }
        let i = nav[k];
        if i < n.children.len() {
            n = &n.children[i];
        }
    }
    proof {
        assert(all.skip(all.len() as int) == Seq::<int>::empty());
    }
    n
}

/// The names along the way.
pub open spec fn names(t: Tree, nav: Seq<int>) -> Seq<Seq<char>>
    decreases nav.len(),
{
    if nav.len() == 0 {
        seq![]
    } else if 0 <= nav[0] < t.children.len() {
        let c = t.children[nav[0]];
        seq![c.name] + names(c, nav.skip(1))
    } else {
        names(t, nav.skip(1))
    }
}

/// Where that directory is.
pub open spec fn displayed_place(base: Seq<u8>, t: Tree, nav: Seq<int>) -> Seq<u8>
    decreases nav.len(),
{
    if nav.len() == 0 {
        base
    } else if 0 <= nav[0] < t.children.len() {
        let c = t.children[nav[0]];
        displayed_place(
            paths::joined(base, vstd::utf8::encode_utf8(c.name)),
            c,
            nav.skip(1),
        )
    } else {
        displayed_place(base, t, nav.skip(1))
    }
}

pub fn displayed_path(scan_root: &[u8], root: &Node, nav: &[usize]) -> (r: Vec<u8>)
    ensures
        r@ == displayed_place(scan_root@, root@, layout::indices(nav@)),
{
    let mut p = slice_to_vec(scan_root);
    let mut n = root;
    let ghost all = layout::indices(nav@);
    proof {
        assert(all.skip(0) == all);
    }
    for k in 0..nav.len()
        invariant
            all == layout::indices(nav@),
            displayed_place(p@, n@, all.skip(k as int)) == displayed_place(
                scan_root@,
                root@,
                all,
            ),
    {
        proof {
            tree::lemma_tree_children(*n);
            assert(all.skip(k as int).skip(1) == all.skip(k + 1));
        }
        let i = nav[k];
        if i < n.children.len() {
            n = &n.children[i];
            p = paths::join(p.as_slice(), n.name.as_str().as_bytes_vec().as_slice());
        }
    }
    proof {
        assert(all.skip(all.len() as int) == Seq::<int>::empty());
    }
    p
}

pub open spec fn string_views(s: Seq<String>) -> Seq<Seq<char>> {
    Seq::new(s.len(), |i: int| s[i]@)
}

/// The scan root and the names along the way.
pub fn crumbs(scan_root: String, root: &Node, nav: &[usize]) -> (r: Vec<String>)
    ensures
        string_views(r@) == seq![scan_root@] + names(root@, layout::indices(nav@)),
{
    let ghost start = scan_root@;
    let ghost all = layout::indices(nav@);
    let mut out: Vec<String> = Vec::new();
    out.push(scan_root);
    let mut n = root;
    proof {
        assert(all.skip(0) == all);
        assert(string_views(out@) == seq![start]);
    }
    for k in 0..nav.len()
        invariant
            all == layout::indices(nav@),
            string_views(out@) + names(n@, all.skip(k as int)) == seq![start] + names(root@, all),
    {
        proof {
            tree::lemma_tree_children(*n);
            assert(all.skip(k as int).skip(1) == all.skip(k + 1));
        }
        let i = nav[k];
        if i < n.children.len() {
            let ghost before = out@;
            n = &n.children[i];
            out.push(n.name.clone());
            proof {
                let rest = names(n@, all.skip(k + 1));
                assert(string_views(out@) == string_views(before).push(n.name@));
                assert(string_views(before).push(n.name@) + rest == string_views(before) + (
                seq![n.name@] + rest));
            }
        }
    }
    proof {
        assert(all.skip(all.len() as int) == Seq::<int>::empty());
        assert(string_views(out@) + Seq::<Seq<char>>::empty() == string_views(out@));
    }
    out
}

// ------------------------------------------------------------ small items

/// The binary64 nearest to 0.02.
pub open spec fn small_frac() -> float::Flo {
    float::Flo { m: 5764607523034235, e: -58 }
}

/// Whether a size is under 2% of another, compared in binary64.
pub open spec fn small(size: int, of: int) -> bool {
    float::less(
        double::double_of(size),
        double::double_mul(double::double_of(sizes::at_least_one(of)), small_frac()),
    )
}

pub fn is_small(size: u64, of: u64) -> (r: bool)
    ensures
        r == small(size as int, of as int),
{
    let one_up: u64 = if of < 1 {
        1
    } else {
        of
    };
    let limit = double::product(
        double::double(one_up),
        Num { m: 5764607523034235, e: -58 },
    );
    double::under(double::double(size), limit)
}

/// The first child from `i` on that is small.
pub open spec fn first_small(ts: Seq<Tree>, of: int, i: int) -> int
    decreases ts.len() - i,
{
    if i < 0 || i >= ts.len() || small(ts[i].size, of) {
        i
    } else {
        first_small(ts, of, i + 1)
    }
}

/// The index of the first small child; their number, where none is.
pub fn cut(children: &[Node], of: u64) -> (r: usize)
    ensures
        r <= children@.len(),
        r == first_small(tree::trees(children@), of as int, 0),
{
    let mut i: usize = 0;
    while i < children.len() && !is_small(children[i].size, of)
        invariant
            i <= children@.len(),
            first_small(tree::trees(children@), of as int, 0) == first_small(
                tree::trees(children@),
                of as int,
                i as int,
            ),
        decreases children@.len() - i,
    {
        i = i + 1;
    }
    i
}

proof fn lemma_small_mono(size1: int, size2: int, of: int)
    requires
        0 <= size1 <= size2,
        small(size2, of),
    ensures
        small(size1, of),
{
    let f = float::binary64();
    let d1 = double::double_of(size1);
    let d2 = double::double_of(size2);
    let l = double::double_mul(double::double_of(sizes::at_least_one(of)), small_frac());
    float::lemma_up_values();
    float::lemma_up_unit(size1);
    float::lemma_up_unit(size2);
    float::lemma_nearest_mono(f, size1, 1, 0, size2, 1, 0);
    float::lemma_nearest_canonical(f, size1, 1, 0);
    float::lemma_nearest_canonical(f, size2, 1, 0);
    let v = double::double_of(sizes::at_least_one(of));
    float::lemma_nearest_canonical(f, sizes::at_least_one(of), 1, 0);
    vstd::arithmetic::mul::lemma_mul_nonnegative(v.m, small_frac().m);
    float::lemma_nearest_canonical(f, v.m * small_frac().m, 1, v.e + small_frac().e);
    float::lemma_less_canonical(f, d2, d1);
    float::lemma_less_canonical(f, d2, l);
    float::lemma_less_canonical(f, d1, l);
}

/// Among children sorted by size the small ones are those from the cut on.
pub proof fn law_cut(ts: Seq<Tree>, of: int, k: int)
    requires
        order::descending(ts),
        0 <= k < ts.len(),
        ts[k].size >= 0,
    ensures
        small(ts[k].size, of) <==> first_small(ts, of, 0) <= k,
{
    lemma_first_small(ts, of, 0);
    let c = first_small(ts, of, 0);
    if c <= k {
        lemma_small_mono(ts[k].size, ts[c].size, of);
    }
}

pub proof fn lemma_first_small(ts: Seq<Tree>, of: int, i: int)
    requires
        0 <= i <= ts.len(),
    ensures
        i <= first_small(ts, of, i) <= ts.len(),
        forall|k: int| i <= k < first_small(ts, of, i) ==> !small(#[trigger] ts[k].size, of),
        first_small(ts, of, i) < ts.len() ==> small(ts[first_small(ts, of, i)].size, of),
    decreases ts.len() - i,
{
    if i < ts.len() && !small(ts[i].size, of) {
        lemma_first_small(ts, of, i + 1);
    }
}

/// Each index of a way that a chart offers leads to a child: what is displayed
/// after it is what it leads to.
pub proof fn law_displayed_reached(t: Tree, path: Seq<int>)
    requires
        layout::reached(t.children, 0, path) is Some,
    ensures
        Some(displayed_tree(t, path)) == layout::reached(t.children, 0, path),
    decreases path.len(),
{
    let c = t.children[path[0]];
    if path.len() == 1 {
        assert(path.skip(1) == Seq::<int>::empty());
        assert(displayed_tree(c, path.skip(1)) == c);
    } else {
        law_displayed_reached(c, path.skip(1));
    }
}

pub proof fn lemma_located(t: Tree, path: Seq<int>, place: Seq<u8>)
    requires
        layout::reached(t.children, 0, path) is Some,
    ensures
        layout::located(t.children, 0, path, place) == displayed_place(place, t, path),
    decreases path.len(),
{
    let c = t.children[path[0]];
    let at = paths::joined(place, vstd::utf8::encode_utf8(c.name));
    if path.len() == 1 {
        assert(path.skip(1) == Seq::<int>::empty());
        assert(layout::located(c.children, 0, path.skip(1), at) == at);
        assert(displayed_place(at, c, path.skip(1)) == at);
    } else {
        lemma_located(c, path.skip(1), at);
    }
}

/// Going on from a directory is going there from the root.
pub proof fn law_displayed_on(t: Tree, nav: Seq<int>, path: Seq<int>)
    ensures
        displayed_tree(t, nav + path) == displayed_tree(displayed_tree(t, nav), path),
    decreases nav.len(),
{
    if nav.len() == 0 {
        assert(nav + path == path);
    } else {
        assert((nav + path).skip(1) == nav.skip(1) + path);
        if 0 <= nav[0] < t.children.len() {
            law_displayed_on(t.children[nav[0]], nav.skip(1), path);
        } else {
            law_displayed_on(t, nav.skip(1), path);
        }
    }
}

/// And so is its path.
pub proof fn law_place_on(base: Seq<u8>, t: Tree, nav: Seq<int>, path: Seq<int>)
    ensures
        displayed_place(base, t, nav + path) == displayed_place(
            displayed_place(base, t, nav),
            displayed_tree(t, nav),
            path,
        ),
    decreases nav.len(),
{
    if nav.len() == 0 {
        assert(nav + path == path);
    } else {
        assert((nav + path).skip(1) == nav.skip(1) + path);
        if 0 <= nav[0] < t.children.len() {
            let c = t.children[nav[0]];
            law_place_on(
                paths::joined(base, vstd::utf8::encode_utf8(c.name)),
                c,
                nav.skip(1),
                path,
            );
        } else {
            law_place_on(base, t, nav.skip(1), path);
        }
    }
}

} // verus!
