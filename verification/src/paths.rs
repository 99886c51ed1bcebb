//! Paths of a Unix file system, as bytes.

use vstd::prelude::*;
use vstd::slice::slice_to_vec;

verus! {

/// Where the first component ends: at a slash, or with the path.
pub open spec fn part_end(p: Seq<u8>) -> int
    decreases p.len(),
{
    if p.len() == 0 || p[0] == 47 {
        0
    } else {
        1 + part_end(p.skip(1))
    }
}

/// Neither empty nor a dot.
pub open spec fn counts(part: Seq<u8>) -> bool {
    part.len() > 0 && part != seq![46u8]
}

/// What follows the first component and its slash.
pub open spec fn after_part(p: Seq<u8>) -> Seq<u8> {
    let n = part_end(p);
    if n < p.len() {
        p.skip(n + 1)
    } else {
        seq![]
    }
}

/// The components of a path: what stands between slashes, without empty ones
/// and without dots.
pub open spec fn parts(p: Seq<u8>) -> Seq<Seq<u8>>
    decreases p.len(),
{
    if p.len() == 0 {
        seq![]
    } else {
        proof {
            lemma_part_end(p);
        }
        let head = p.take(part_end(p));
        if counts(head) {
            seq![head] + parts(after_part(p))
        } else {
            parts(after_part(p))
        }
    }
}

pub open spec fn is_absolute(p: Seq<u8>) -> bool {
    p.len() > 0 && p[0] == 47
}

/// A leading dot is a component of its own.
pub open spec fn begins_with_dot(p: Seq<u8>) -> bool {
    p.len() > 0 && p[0] == 46 && (p.len() == 1 || p[1] == 47)
}

/// Whether two paths have the same components.
pub open spec fn same_path(p: Seq<u8>, q: Seq<u8>) -> bool {
    &&& is_absolute(p) == is_absolute(q)
    &&& begins_with_dot(p) == begins_with_dot(q)
    &&& parts(p) == parts(q)
}

pub proof fn lemma_part_end(p: Seq<u8>)
    ensures
        0 <= part_end(p) <= p.len(),
        part_end(p) < p.len() ==> p[part_end(p)] == 47,
    decreases p.len(),
{
    if p.len() > 0 && p[0] != 47 {
        lemma_part_end(p.skip(1));
    }
}

fn find_part_end(p: &[u8], from: usize) -> (r: usize)
    requires
        from <= p@.len(),
    ensures
        from <= r <= p@.len(),
        r == from + part_end(p@.skip(from as int)),
{
    let mut i = from;
    while i < p.len() && p[i] != 47
        invariant
            from <= i <= p@.len(),
            from + part_end(p@.skip(from as int)) == i + part_end(p@.skip(i as int)),
        decreases p@.len() - i,
    {
        proof {
            assert(p@.skip(i as int).skip(1) == p@.skip(i + 1));
        }
        i = i + 1;
    }
    i
}

/// The next component: where it begins, where it ends, and where to go on.
fn next_part(p: &[u8], from: usize) -> (r: Option<(usize, usize, usize)>)
    requires
        from <= p@.len(),
    ensures
        match r {
            None => parts(p@.skip(from as int)) == Seq::<Seq<u8>>::empty(),
            Some((s, e, n)) => {
                &&& s <= e <= p@.len()
                &&& from < n <= p@.len()
                &&& parts(p@.skip(from as int)) == seq![p@.subrange(s as int, e as int)] + parts(
                    p@.skip(n as int),
                )
            },
        },
{
    let mut i = from;
    while i < p.len()
        invariant
            from <= i <= p@.len(),
            parts(p@.skip(from as int)) == parts(p@.skip(i as int)),
        decreases p@.len() - i,
    {
        let ghost rest = p@.skip(i as int);
        let e = find_part_end(p, i);
        let n = if e < p.len() {
            e + 1
        } else {
            e
        };
        proof {
            assert(rest.take(e - i) == p@.subrange(i as int, e as int));
            if e < p@.len() {
                assert(rest.skip(e - i + 1) == p@.skip(n as int));
            } else {
                assert(p@.skip(n as int) == Seq::<u8>::empty());
            }
            assert(after_part(rest) == p@.skip(n as int));
        }
        let skip = e == i || (e == i + 1 && p[i] == 46);
        proof {
            let head = rest.take(e - i);
            if e == i + 1 {
                assert(p[i as int] == 46 ==> head == seq![46u8]);
                assert(head[0] == p[i as int]);
            }
            assert(skip == !counts(head));
        }
        if !skip {
            return Some((i, e, n));
        }
        i = n;
    }
    proof {
        assert(p@.skip(i as int) == Seq::<u8>::empty());
    }
    None
}

fn same_bytes(p: &[u8], i: usize, j: usize, q: &[u8], k: usize, l: usize) -> (r: bool)
    requires
        i <= j <= p@.len(),
        k <= l <= q@.len(),
    ensures
        r == (p@.subrange(i as int, j as int) == q@.subrange(k as int, l as int)),
{
    let ghost a = p@.subrange(i as int, j as int);
    let ghost b = q@.subrange(k as int, l as int);
    if j - i != l - k {
        assert(a.len() != b.len());
        return false;
    }
    for m in 0..(j - i)
        invariant
            i <= j <= p@.len(),
            k <= l <= q@.len(),
            j - i == l - k,
            a == p@.subrange(i as int, j as int),
            b == q@.subrange(k as int, l as int),
            forall|n: int| 0 <= n < m ==> a[n] == b[n],
    {
        if p[i + m] != q[k + m] {
            assert(a[m as int] != b[m as int]);
            return false;
        }
    }
    assert(a == b);
    true
}

pub fn is_same_path(p: &[u8], q: &[u8]) -> (r: bool)
    ensures
        r == same_path(p@, q@),
{
    let absolute = p.len() > 0 && p[0] == 47;
    if absolute != (q.len() > 0 && q[0] == 47) {
        return false;
    }
    let dot = p.len() > 0 && p[0] == 46 && (p.len() == 1 || p[1] == 47);
    if dot != (q.len() > 0 && q[0] == 46 && (q.len() == 1 || q[1] == 47)) {
        return false;
    }
    let mut i: usize = 0;
    let mut j: usize = 0;
    proof {
        assert(p@.skip(0) == p@);
        assert(q@.skip(0) == q@);
    }
    loop
        invariant
            i <= p@.len(),
            j <= q@.len(),
            is_absolute(p@) == is_absolute(q@),
            begins_with_dot(p@) == begins_with_dot(q@),
            parts(p@) == parts(q@) <==> parts(p@.skip(i as int)) == parts(q@.skip(j as int)),
        decreases p@.len() - i,
    {
        let a = next_part(p, i);
        let b = next_part(q, j);
        match (a, b) {
            (None, None) => {
                return true;
            },
            (Some((s, e, n)), Some((t, f, m))) => {
                let ghost x = p@.subrange(s as int, e as int);
                let ghost y = q@.subrange(t as int, f as int);
                let ghost xs = seq![x] + parts(p@.skip(n as int));
                let ghost ys = seq![y] + parts(q@.skip(m as int));
                proof {
                    assert(xs[0] == x && ys[0] == y);
                    assert(xs.skip(1) == parts(p@.skip(n as int)));
                    assert(ys.skip(1) == parts(q@.skip(m as int)));
                }
                if !same_bytes(p, s, e, q, t, f) {
                    return false;
                }
                i = n;
                j = m;
            },
            (Some((s, e, n)), None) => {
                proof {
                    assert(parts(p@.skip(i as int)).len() > 0);
                }
                return false;
            },
            (None, Some((t, f, m))) => {
                proof {
                    assert(parts(q@.skip(j as int)).len() > 0);
                }
                return false;
            },
        }
    }
}

/// Some paths, as bytes.
pub open spec fn views(ps: Seq<Vec<u8>>) -> Seq<Seq<u8>> {
    Seq::new(ps.len(), |i: int| ps[i]@)
}

/// Whether a path is among some.
pub open spec fn among(p: Seq<u8>, ps: Seq<Seq<u8>>) -> bool {
    exists|i: int| 0 <= i < ps.len() && same_path(p, #[trigger] ps[i])
}

pub fn is_among(p: &[u8], ps: &Vec<Vec<u8>>) -> (r: bool)
    ensures
        r == among(p@, views(ps@)),
{
    for i in 0..ps.len()
        invariant
            forall|j: int| 0 <= j < i ==> !same_path(p@, #[trigger] views(ps@)[j]),
    {
        if is_same_path(p, ps[i].as_slice()) {
            assert(same_path(p@, views(ps@)[i as int]));
            return true;
        }
    }
    false
}

/// `rel` seen from `base`: an absolute one stands for itself.
pub open spec fn joined(base: Seq<u8>, rel: Seq<u8>) -> Seq<u8> {
    if is_absolute(rel) {
        rel
    } else if base.len() == 0 || base.last() == 47 {
        base + rel
    } else {
        base.push(47) + rel
    }
}

pub fn join(base: &[u8], rel: &[u8]) -> (r: Vec<u8>)
    ensures
        r@ == joined(base@, rel@),
{
    if rel.len() > 0 && rel[0] == 47 {
        return slice_to_vec(rel);
    }
    let mut out = slice_to_vec(base);
    if base.len() > 0 && base[base.len() - 1] != 47 {
        out.push(47);
    }
    let ghost start = out@;
    for i in 0..rel.len()
        invariant
            out@ == start + rel@.take(i as int),
    {
        out.push(rel[i]);
        assert(rel@.take(i + 1) == rel@.take(i as int).push(rel@[i as int]));
    }
    assert(rel@.take(rel@.len() as int) == rel@);
    out
}

} // verus!
