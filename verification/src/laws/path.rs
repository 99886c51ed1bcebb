//! Which paths are the same, and what joining gives.

use vstd::prelude::*;

use crate::paths;

verus! {

/// What stands between slashes is one component, unless it is empty or a dot.
pub proof fn law_component(p: Seq<u8>)
    requires
        !p.contains(47u8),
    ensures
        paths::parts(p) == if p.len() == 0 || (p.len() == 1 && p[0] == 46) {
            Seq::<Seq<u8>>::empty()
        } else {
            seq![p]
        },
{
    lemma_no_slash(p);
    if p.len() > 0 {
        assert(p.take(p.len() as int) == p);
        assert(p.len() == 1 && p[0] == 46 ==> p =~= seq![46u8]);
        assert(seq![p] + Seq::<Seq<u8>>::empty() =~= seq![p]);
        assert(paths::parts(seq![]) == Seq::<Seq<u8>>::empty());
    }
}

proof fn lemma_no_slash(p: Seq<u8>)
    requires
        !p.contains(47u8),
    ensures
        paths::part_end(p) == p.len(),
    decreases p.len(),
{
    if p.len() > 0 {
        assert(p.contains(p[0]));
        assert forall|i: int| 0 <= i < p.len() - 1 implies p.skip(1)[i] != 47 by {
            assert(p.contains(p[i + 1]));
        }
        lemma_no_slash(p.skip(1));
    }
}

proof fn lemma_slash_behind(a: Seq<u8>, b: Seq<u8>)
    ensures
        paths::part_end(a.push(47) + b) == paths::part_end(a),
    decreases a.len(),
{
    let p = a.push(47) + b;
    if a.len() > 0 && a[0] != 47 {
        assert(p.skip(1) == a.skip(1).push(47) + b);
        assert(p[0] == a[0]);
        lemma_slash_behind(a.skip(1), b);
    } else if a.len() == 0 {
        assert(p[0] == 47);
    } else {
        assert(p[0] == a[0]);
    }
}

/// The components of two paths with a slash between them are those of the
/// one and then those of the other.
pub proof fn law_components_join(a: Seq<u8>, b: Seq<u8>)
    ensures
        paths::parts(a.push(47) + b) == paths::parts(a) + paths::parts(b),
    decreases a.len(),
{
    let p = a.push(47) + b;
    let n = paths::part_end(a);
    lemma_slash_behind(a, b);
    paths::lemma_part_end(a);
    assert(p.take(n) == a.take(n));
    let none = Seq::<Seq<u8>>::empty();
    if n == a.len() {
        assert(p.skip(n + 1) == b);
        assert(paths::after_part(p) == b);
        if a.len() > 0 {
            assert(paths::after_part(a) == Seq::<u8>::empty());
            assert(paths::parts(Seq::<u8>::empty()) == none);
            assert(seq![a.take(n)] + none =~= seq![a.take(n)]);
        }
        assert(none + paths::parts(b) =~= paths::parts(b));
    } else {
        assert(p.skip(n + 1) == a.skip(n + 1).push(47) + b);
        law_components_join(a.skip(n + 1), b);
        let rest = paths::parts(a.skip(n + 1));
        assert(seq![a.take(n)] + (rest + paths::parts(b)) =~= (seq![a.take(n)] + rest)
            + paths::parts(b));
    }
}

/// Paths are the same where their components are, both or neither begin at the
/// root, and both or neither begin with a dot of their own.
pub proof fn law_same_path(p: Seq<u8>, q: Seq<u8>)
    ensures
        paths::same_path(p, q) <==> {
            &&& paths::parts(p) == paths::parts(q)
            &&& (p.len() > 0 && p[0] == 47) == (q.len() > 0 && q[0] == 47)
            &&& (p == seq![46u8] || (p.len() >= 2 && p[0] == 46 && p[1] == 47)) == (q == seq![46u8]
                || (q.len() >= 2 && q[0] == 46 && q[1] == 47))
        },
        paths::same_path(p, p),
        paths::same_path(p, q) ==> paths::same_path(q, p),
{
    assert(p.len() == 1 && p[0] == 46 ==> p =~= seq![46u8]);
    assert(q.len() == 1 && q[0] == 46 ==> q =~= seq![46u8]);
}

/// A path is the same with a slash behind it.
pub proof fn law_slash_behind(p: Seq<u8>)
    requires
        p.len() > 0,
    ensures
        paths::same_path(p.push(47), p),
{
    let none = Seq::<u8>::empty();
    law_components_join(p, none);
    assert(p.push(47) + none =~= p.push(47));
    assert(paths::parts(none) == Seq::<Seq<u8>>::empty());
    assert(paths::parts(p) + Seq::<Seq<u8>>::empty() =~= paths::parts(p));
}

/// Absolute paths that differ in their last name are not the same.
pub proof fn law_names_differ(dir: Seq<u8>, a: Seq<u8>, b: Seq<u8>)
    requires
        a != b,
        !a.contains(47u8),
        !b.contains(47u8),
        a.len() > 0,
        b.len() > 0,
        a != seq![46u8],
        b != seq![46u8],
    ensures
        !paths::same_path(dir.push(47) + a, dir.push(47) + b),
{
    law_components_join(dir, a);
    law_components_join(dir, b);
    law_component(a);
    law_component(b);
    assert(a.len() == 1 && a[0] == 46 ==> a =~= seq![46u8]);
    assert(b.len() == 1 && b[0] == 46 ==> b =~= seq![46u8]);
    let x = paths::parts(dir.push(47) + a);
    let y = paths::parts(dir.push(47) + b);
    assert(x.last() == a && y.last() == b);
}

/// An absolute path replaces what it is joined to; any other follows it, with
/// exactly one slash more where there was none.
pub proof fn law_join(base: Seq<u8>, rel: Seq<u8>)
    ensures
        rel.len() > 0 && rel[0] == 47 ==> paths::joined(base, rel) == rel,
        !(rel.len() > 0 && rel[0] == 47) ==> {
            let r = paths::joined(base, rel);
            &&& base.len() > 0 && base[base.len() - 1] != 47 ==> r == base + seq![47u8] + rel
            &&& base.len() == 0 || base[base.len() - 1] == 47 ==> r == base + rel
        },
{
    assert(base.push(47) =~= base + seq![47u8]);
}

/// The components of a name joined to a path are those of the path, and the
/// name.
pub proof fn law_join_components(base: Seq<u8>, name: Seq<u8>)
    requires
        base.len() > 0,
        name.len() > 0,
        !name.contains(47u8),
        name != seq![46u8],
    ensures
        paths::parts(paths::joined(base, name)) == paths::parts(base).push(name),
        (base[0] == 47) == (paths::joined(base, name)[0] == 47),
{
    assert(name.contains(name[0]));
    law_component(name);
    assert(name.len() == 1 && name[0] == 46 ==> name =~= seq![46u8]);
    assert(paths::parts(base) + seq![name] =~= paths::parts(base).push(name));
    if base.last() == 47 {
        let b = base.drop_last();
        let none = Seq::<u8>::empty();
        assert(b.push(47) =~= base);
        assert(b.push(47) + none =~= base);
        law_components_join(b, none);
        law_components_join(b, name);
        assert(paths::parts(none) == Seq::<Seq<u8>>::empty());
        assert(paths::parts(b) + Seq::<Seq<u8>>::empty() =~= paths::parts(b));
    } else {
        law_components_join(base, name);
    }
}

} // verus!
