//! Sorting by size, the largest first.

use vstd::prelude::*;

use crate::tree::Node;
use crate::tree::Tree;
use crate::tree;

verus! {

/// Those of one size, in order.
pub open spec fn of_size(s: Seq<Tree>, k: int) -> Seq<Tree> {
    s.filter(|t: Tree| t.size == k)
}

pub open spec fn descending(s: Seq<Tree>) -> bool {
    forall|i: int, j: int| 0 <= i < j < s.len() ==> (#[trigger] s[i]).size >= (#[trigger] s[j]).size
}

/// The largest first, and those of one size in the order that they had.
pub open spec fn is_sorted(before: Seq<Tree>, after: Seq<Tree>) -> bool {
    &&& descending(after)
    &&& forall|k: int| #[trigger] of_size(after, k) == of_size(before, k)
}

/// The one such order.
pub open spec fn sorted(s: Seq<Tree>) -> Seq<Tree> {
    choose|t: Seq<Tree>| is_sorted(s, t)
}

proof fn lemma_of_size_add(a: Seq<Tree>, b: Seq<Tree>, k: int)
    ensures
        of_size(a + b, k) == of_size(a, k) + of_size(b, k),
    decreases b.len(),
{
    reveal(Seq::filter);
    if b.len() == 0 {
        assert(a + b == a);
    } else {
        lemma_of_size_add(a, b.drop_last(), k);
        assert((a + b).drop_last() == a + b.drop_last());
    }
}

proof fn lemma_of_size_one(t: Tree, k: int)
    ensures
        of_size(seq![t], k) == (if t.size == k {
            seq![t]
        } else {
            seq![]
        }),
{
    reveal_with_fuel(Seq::filter, 2);
    assert(seq![t].drop_last() == Seq::<Tree>::empty());
}

proof fn lemma_of_size_push(s: Seq<Tree>, t: Tree, k: int)
    ensures
        of_size(s.push(t), k) == (if t.size == k {
            of_size(s, k).push(t)
        } else {
            of_size(s, k)
        }),
{
    lemma_of_size_add(s, seq![t], k);
    lemma_of_size_one(t, k);
    assert(s + seq![t] == s.push(t));
}

/// Of two sorted orders of the same, there is one.
proof fn lemma_sorted_unique(a: Seq<Tree>, b: Seq<Tree>)
    requires
        descending(a),
        descending(b),
        forall|k: int| #[trigger] of_size(a, k) == of_size(b, k),
    ensures
        a == b,
    decreases a.len(),
{
    if a.len() == 0 {
        if b.len() > 0 {
            lemma_of_size_push(b.drop_last(), b.last(), b.last().size);
            assert(b.drop_last().push(b.last()) == b);
            assert(of_size(a, b.last().size) == of_size(b, b.last().size));
            reveal(Seq::filter);
            assert(of_size(a, b.last().size).len() == 0);
        }
        assert(a == b);
    } else {
        let x = a.last();
        assert(a.drop_last().push(x) == a);
        lemma_of_size_push(a.drop_last(), x, x.size);
        assert(of_size(a, x.size) == of_size(b, x.size));
        if b.len() == 0 {
            reveal(Seq::filter);
            assert(of_size(b, x.size).len() == 0);
            assert(false);
        }
        let y = b.last();
        assert(b.drop_last().push(y) == b);
        lemma_of_size_push(b.drop_last(), y, y.size);
        assert(of_size(a, y.size) == of_size(b, y.size));
        // x is the least of a and y the least of b, and each occurs in both
        lemma_occurs(b, x.size);
        lemma_occurs(a, y.size);
        let i = choose|i: int| 0 <= i < b.len() && (#[trigger] b[i]).size == x.size;
        let j = choose|j: int| 0 <= j < a.len() && (#[trigger] a[j]).size == y.size;
        assert(b[i].size >= b[b.len() - 1].size);
        assert(a[j].size >= a[a.len() - 1].size);
        assert(x.size == y.size);
        assert(of_size(a, x.size).last() == x);
        assert(of_size(b, x.size).last() == y);
        assert(x == y);
        assert forall|k: int| #[trigger]
            of_size(a.drop_last(), k) == of_size(b.drop_last(), k) by {
            lemma_of_size_push(a.drop_last(), x, k);
            lemma_of_size_push(b.drop_last(), y, k);
            assert(of_size(a, k) == of_size(b, k));
            if k == x.size {
                assert(of_size(a.drop_last(), k) == of_size(a, k).drop_last());
                assert(of_size(b.drop_last(), k) == of_size(b, k).drop_last());
            }
        }
        lemma_sorted_unique(a.drop_last(), b.drop_last());
    }
}

proof fn lemma_occurs(s: Seq<Tree>, k: int)
    requires
        of_size(s, k).len() > 0,
    ensures
        exists|i: int| 0 <= i < s.len() && (#[trigger] s[i]).size == k,
    decreases s.len(),
{
    reveal(Seq::filter);
    if s.len() > 0 {
        if s.last().size == k {
            assert(s[s.len() - 1].size == k);
        } else {
            lemma_occurs(s.drop_last(), k);
            let i = choose|i: int|
                0 <= i < s.drop_last().len() && (#[trigger] s.drop_last()[i]).size == k;
            assert(s[i].size == k);
        }
    }
}

/// What is sorted is `sorted`.
pub proof fn lemma_is_sorted(before: Seq<Tree>, after: Seq<Tree>)
    requires
        is_sorted(before, after),
    ensures
        after == sorted(before),
{
    let c = sorted(before);
    assert(is_sorted(before, c));
    assert forall|k: int| #[trigger] of_size(after, k) == of_size(c, k) by {
        assert(of_size(after, k) == of_size(before, k));
        assert(of_size(c, k) == of_size(before, k));
    }
    lemma_sorted_unique(after, c);
}

proof fn lemma_of_size_none(s: Seq<Tree>, k: int)
    requires
        forall|i: int| 0 <= i < s.len() ==> (#[trigger] s[i]).size != k,
    ensures
        of_size(s, k) == Seq::<Tree>::empty(),
{
    if of_size(s, k).len() > 0 {
        lemma_occurs(s, k);
    }
}

/// Everything can be sorted.
pub proof fn lemma_sorted(s: Seq<Tree>)
    ensures
        is_sorted(s, sorted(s)),
    decreases s.len(),
{
    if s.len() == 0 {
        assert(is_sorted(s, s));
    } else {
        let x = s.last();
        let front = s.drop_last();
        lemma_sorted(front);
        let r = sorted(front);
        let i = lemma_place(r, x.size);
        let a = r.take(i);
        let b = r.skip(i);
        let t = a + seq![x] + b;
        assert(a + b == r);
        assert(front.push(x) == s);
        assert forall|k: int| #[trigger] of_size(t, k) == of_size(s, k) by {
            lemma_of_size_push(front, x, k);
            lemma_of_size_add(a + seq![x], b, k);
            lemma_of_size_add(a, seq![x], k);
            lemma_of_size_add(a, b, k);
            lemma_of_size_one(x, k);
            assert(of_size(r, k) == of_size(front, k));
            if k == x.size {
                lemma_of_size_none(b, k);
            }
        }
        assert(is_sorted(s, t));
    }
}

proof fn lemma_place(r: Seq<Tree>, k: int) -> (i: int)
    requires
        descending(r),
    ensures
        0 <= i <= r.len(),
        forall|j: int| 0 <= j < i ==> (#[trigger] r[j]).size >= k,
        forall|j: int| i <= j < r.len() ==> (#[trigger] r[j]).size < k,
    decreases r.len(),
{
    if r.len() == 0 || r.last().size >= k {
        assert forall|j: int| 0 <= j < r.len() implies (#[trigger] r[j]).size >= k by {
            if j < r.len() - 1 {
                assert(r[j].size >= r[r.len() - 1].size);
            }
        }
        r.len() as int
    } else {
        let front = r.drop_last();
        let i = lemma_place(front, k);
        assert forall|j: int| 0 <= j < i implies (#[trigger] r[j]).size >= k by {
            assert(front[j] == r[j]);
        }
        assert forall|j: int| i <= j < r.len() implies (#[trigger] r[j]).size < k by {
            if j < front.len() {
                assert(front[j] == r[j]);
            }
        }
        i
    }
}

/// A law of [`sort_by_size`]: it drops nothing and adds nothing.
pub proof fn law_sorted_same(s: Seq<Tree>)
    ensures
        sorted(s).to_multiset() == s.to_multiset(),
        sorted(s).len() == s.len(),
        descending(sorted(s)),
{
    lemma_sorted(s);
    lemma_same_multiset(s, sorted(s));
    s.to_multiset_ensures();
    sorted(s).to_multiset_ensures();
}

/// A law of [`sort_by_size`]: one more goes behind all that are no smaller and
/// before all that are smaller, and nothing else moves.
pub proof fn law_sorted_one_more(s: Seq<Tree>, x: Tree)
    ensures
        sorted(Seq::<Tree>::empty()) == Seq::<Tree>::empty(),
        exists|i: int|
            {
                &&& 0 <= i <= sorted(s).len()
                &&& sorted(s.push(x)) == #[trigger] sorted(s).insert(i, x)
                &&& forall|j: int| 0 <= j < i ==> (#[trigger] sorted(s)[j]).size >= x.size
                &&& forall|j: int| i <= j < sorted(s).len() ==> (#[trigger] sorted(s)[j]).size
                    < x.size
            },
{
    let none = Seq::<Tree>::empty();
    assert(is_sorted(none, none));
    lemma_is_sorted(none, none);
    lemma_sorted(s);
    let r = sorted(s);
    let i = lemma_place(r, x.size);
    let a = r.take(i);
    let b = r.skip(i);
    let t = a + seq![x] + b;
    assert(a + b == r);
    assert(t == r.insert(i, x));
    assert forall|k: int| #[trigger] of_size(t, k) == of_size(s.push(x), k) by {
        lemma_of_size_push(s, x, k);
        lemma_of_size_add(a + seq![x], b, k);
        lemma_of_size_add(a, seq![x], k);
        lemma_of_size_add(a, b, k);
        lemma_of_size_one(x, k);
        assert(of_size(r, k) == of_size(s, k));
        if k == x.size {
            lemma_of_size_none(b, k);
        }
    }
    assert(is_sorted(s.push(x), t));
    lemma_is_sorted(s.push(x), t);
}

proof fn lemma_same_multiset(a: Seq<Tree>, b: Seq<Tree>)
    requires
        forall|k: int| #[trigger] of_size(a, k) == of_size(b, k),
    ensures
        a.to_multiset() == b.to_multiset(),
{
    a.to_multiset_ensures();
    b.to_multiset_ensures();
    assert forall|t: Tree| #[trigger] a.to_multiset().count(t) == b.to_multiset().count(t) by {
        lemma_count(a, t);
        lemma_count(b, t);
        assert(of_size(a, t.size) == of_size(b, t.size));
    }
    assert(a.to_multiset() =~= b.to_multiset());
}

proof fn lemma_count(s: Seq<Tree>, t: Tree)
    ensures
        s.to_multiset().count(t) == of_size(s, t.size).to_multiset().count(t),
    decreases s.len(),
{
    broadcast use vstd::seq_lib::group_to_multiset_ensures;

    if s.len() == 0 {
        reveal(Seq::filter);
        assert(of_size(s, t.size) =~= s);
    } else {
        lemma_count(s.drop_last(), t);
        lemma_of_size_push(s.drop_last(), s.last(), t.size);
        assert(s.drop_last().push(s.last()) =~= s);
    }
}

proof fn lemma_descending_push(s: Seq<Tree>, x: Tree)
    requires
        descending(s.push(x)),
    ensures
        descending(s),
        forall|i: int| 0 <= i < s.len() ==> (#[trigger] s[i]).size >= x.size,
{
    let t = s.push(x);
    assert forall|i: int, j: int| 0 <= i < j < s.len() implies (#[trigger] s[i]).size >= (
    #[trigger] s[j]).size by {
        assert(t[i].size >= t[j].size);
    }
    assert forall|i: int| 0 <= i < s.len() implies (#[trigger] s[i]).size >= x.size by {
        assert(t[i].size >= t[s.len() as int].size);
    }
}

/// Merges two descending lists; of those of one size, `a`'s come first.
fn merge(a: Vec<Node>, b: Vec<Node>) -> (r: Vec<Node>)
    requires
        descending(tree::trees(a@)),
        descending(tree::trees(b@)),
    ensures
        is_sorted(tree::trees(a@) + tree::trees(b@), tree::trees(r@)),
{
    let ghost a0 = tree::trees(a@);
    let ghost b0 = tree::trees(b@);
    let mut a = a;
    let mut b = b;
    let mut rev: Vec<Node> = Vec::new();
    let ghost mut out: Seq<Tree> = seq![];
    while a.len() > 0 || b.len() > 0
        invariant
            descending(tree::trees(a@)),
            descending(tree::trees(b@)),
            descending(out),
            forall|i: int, j: int|
                0 <= i < a@.len() && 0 <= j < out.len() ==> (#[trigger] tree::trees(a@)[i]).size
                    >= (#[trigger] out[j]).size,
            forall|i: int, j: int|
                0 <= i < b@.len() && 0 <= j < out.len() ==> (#[trigger] tree::trees(b@)[i]).size
                    >= (#[trigger] out[j]).size,
            forall|k: int| #[trigger]
                of_size(tree::trees(a@), k) + of_size(tree::trees(b@), k) + of_size(out, k)
                    == of_size(a0, k) + of_size(b0, k),
            rev@.len() == out.len(),
            forall|i: int| 0 <= i < out.len() ==> #[trigger] out[i] == rev@[out.len() - 1 - i]@,
        decreases a@.len() + b@.len(),
    {
        let ghost ta = tree::trees(a@);
        let ghost tb = tree::trees(b@);
        let from_b = b.len() > 0 && (a.len() == 0 || b[b.len() - 1].size <= a[a.len() - 1].size);
        let last = if from_b {
            b.pop()
        } else {
            a.pop()
        };
        if let Some(n) = last {
            let ghost x = n@;
            let ghost prev = out;
            proof {
                out = seq![x] + prev;
                let na = tree::trees(a@);
                let nb = tree::trees(b@);
                if from_b {
                    assert(tb == nb.push(x));
                    assert(na == ta);
                    lemma_descending_push(nb, x);
                    if ta.len() > 0 {
                        assert(ta.drop_last().push(ta.last()) == ta);
                        lemma_descending_push(ta.drop_last(), ta.last());
                        assert(ta[ta.len() - 1].size >= x.size);
                    }
                    assert forall|i: int| 0 <= i < na.len() implies (#[trigger] na[i]).size
                        >= x.size by {
                        if i < na.len() - 1 {
                            assert(ta.drop_last()[i] == ta[i]);
                        }
                    }
                } else {
                    assert(ta == na.push(x));
                    assert(nb == tb);
                    lemma_descending_push(na, x);
                    if tb.len() > 0 {
                        assert(tb.drop_last().push(tb.last()) == tb);
                        lemma_descending_push(tb.drop_last(), tb.last());
                        assert(tb[tb.len() - 1].size > x.size);
                    }
                    assert forall|i: int| 0 <= i < nb.len() implies (#[trigger] nb[i]).size
                        > x.size by {
                        if i < nb.len() - 1 {
                            assert(tb.drop_last()[i] == tb[i]);
                        }
                    }
                }
                assert forall|k: int| #[trigger]
                    of_size(na, k) + of_size(nb, k) + of_size(out, k) == of_size(a0, k) + of_size(
                    b0,
                    k,
                ) by {
                    assert(of_size(ta, k) + of_size(tb, k) + of_size(prev, k) == of_size(a0, k)
                        + of_size(b0, k));
                    lemma_of_size_add(seq![x], prev, k);
                    lemma_of_size_one(x, k);
                    if from_b {
                        lemma_of_size_push(nb, x, k);
                    } else {
                        lemma_of_size_push(na, x, k);
                        if k == x.size {
                            lemma_of_size_none(nb, k);
                        }
                    }
                    assert(of_size(na, k) + of_size(nb, k) + of_size(out, k) =~= of_size(ta, k)
                        + of_size(tb, k) + of_size(prev, k));
                }
                assert forall|i: int, j: int|
                    0 <= i < na.len() && 0 <= j < out.len() implies (#[trigger] na[i]).size >= (
                #[trigger] out[j]).size by {
                    if j > 0 {
                        assert(na[i] == ta[i]);
                        assert(out[j] == prev[j - 1]);
                    } else {
                        assert(out[j] == x);
                    }
                }
                assert forall|i: int, j: int|
                    0 <= i < nb.len() && 0 <= j < out.len() implies (#[trigger] nb[i]).size >= (
                #[trigger] out[j]).size by {
                    if j > 0 {
                        assert(nb[i] == tb[i]);
                        assert(out[j] == prev[j - 1]);
                    } else {
                        assert(out[j] == x);
                    }
                }
                assert forall|i: int, j: int| 0 <= i < j < out.len() implies (#[trigger] out[i]).size
                    >= (#[trigger] out[j]).size by {
                    assert(out[j] == prev[j - 1]);
                    if i > 0 {
                        assert(out[i] == prev[i - 1]);
                    } else if from_b {
                        assert(tb[tb.len() - 1].size >= prev[j - 1].size);
                    } else {
                        assert(ta[ta.len() - 1].size >= prev[j - 1].size);
                    }
                }
            }
            rev.push(n);
            proof {
                assert forall|i: int| 0 <= i < out.len() implies #[trigger] out[i] == rev@[out.len()
                    - 1 - i]@ by {
                    if i > 0 {
                        assert(out[i] == prev[i - 1]);
                    }
                }
            }
        }
    }
    proof {
        let none = Seq::<Tree>::empty();
        assert(tree::trees(a@) == none);
        assert(tree::trees(b@) == none);
        assert forall|k: int| #[trigger] of_size(out, k) == of_size(a0 + b0, k) by {
            lemma_of_size_none(none, k);
            lemma_of_size_add(a0, b0, k);
            assert(of_size(tree::trees(a@), k) + of_size(tree::trees(b@), k) + of_size(out, k)
                == of_size(a0, k) + of_size(b0, k));
            assert(none + none + of_size(out, k) == of_size(out, k));
        }
    }
    let mut r: Vec<Node> = Vec::new();
    let ghost n = out.len();
    while rev.len() > 0
        invariant
            rev@.len() + r@.len() == n,
            n == out.len(),
            forall|i: int| r@.len() <= i < n ==> #[trigger] out[i] == rev@[n - 1 - i]@,
            forall|i: int| 0 <= i < r@.len() ==> #[trigger] out[i] == r@[i]@,
        decreases rev@.len(),
    {
        let ghost m = r@.len();
        let ghost before = rev@;
        if let Some(x) = rev.pop() {
            proof {
                assert(out[m as int] == before[n - 1 - m]@);
            }
            r.push(x);
        }
    }
    proof {
        assert(tree::trees(r@) == out);
    }
    r
}

/// Sorts nodes by size, the largest first; those of one size keep their order.
pub fn sort_by_size(v: Vec<Node>) -> (r: Vec<Node>)
    ensures
        tree::trees(r@) == sorted(tree::trees(v@)),
    decreases v@.len(),
{
    let ghost t = tree::trees(v@);
    if v.len() < 2 {
        proof {
            assert(is_sorted(t, t));
            lemma_is_sorted(t, t);
        }
        return v;
    }
    let mut left = v;
    let mid = left.len() / 2;
    let right = left.split_off(mid);
    let ghost l0 = tree::trees(left@);
    let ghost r0 = tree::trees(right@);
    proof {
        assert(l0 + r0 == t);
        lemma_sorted(l0);
        lemma_sorted(r0);
    }
    let a = sort_by_size(left);
    let b = sort_by_size(right);
    let r = merge(a, b);
    proof {
        let s = tree::trees(r@);
        assert forall|k: int| #[trigger] of_size(s, k) == of_size(t, k) by {
            lemma_of_size_add(l0, r0, k);
            lemma_of_size_add(sorted(l0), sorted(r0), k);
            assert(of_size(s, k) == of_size(sorted(l0) + sorted(r0), k));
            assert(of_size(sorted(l0), k) == of_size(l0, k));
            assert(of_size(sorted(r0), k) == of_size(r0, k));
        }
        assert(is_sorted(t, s));
        lemma_is_sorted(t, s);
    }
    r
}

} // verus!
