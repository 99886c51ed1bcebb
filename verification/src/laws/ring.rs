//! How far out each ring begins and ends.

use vstd::prelude::*;

use crate::float::Flo;
use crate::rings;
use crate::single;
use crate::single::Sgl;

verus! {

/// What the rings share is the way from hub to rim, and 1 at least.
pub proof fn law_shared(hub: Sgl, rim: Sgl)
    ensures
        ({
            let one = Sgl::Num(Flo { m: 0x80_0000, e: -23 });
            rings::available(hub, rim) == if single::less(rim, hub) {
                one
            } else {
                single::greater(single::difference(rim, hub), one)
            }
        }),
{
}

/// Each ring wants 0.68 of what the one before it does.
pub proof fn law_weights(i: int)
    requires
        0 <= i,
    ensures
        rings::weight(0) == Sgl::Num(Flo { m: 0x80_0000, e: -23 }),
        rings::weight(i + 1) == single::product(
            rings::weight(i),
            Sgl::Num(Flo { m: 11408507, e: -24 }),
        ),
{
}

/// What is held takes 3 each; what is left over is shared by the rest, by
/// weight.
pub proof fn law_shares(avail: Sgl, c: Seq<bool>, n: int, i: int)
    requires
        0 <= n < 20,
    ensures
        rings::held(c, 0) == Sgl::Num(Flo { m: 0, e: -149 }),
        rings::free(c, 0) == Sgl::Num(Flo { m: 0, e: -149 }),
        c[n] ==> rings::held(c, n + 1) == single::sum(
            rings::held(c, n),
            Sgl::Num(Flo { m: 12582912, e: -22 }),
        ),
        !c[n] ==> rings::held(c, n + 1) == rings::held(c, n),
        c[n] ==> rings::free(c, n + 1) == rings::free(c, n),
        !c[n] ==> rings::free(c, n + 1) == single::sum(rings::free(c, n), rings::weight(n)),
        rings::left(avail, c) == if single::less(avail, rings::held(c, 20)) {
            Sgl::Num(Flo { m: 0, e: -149 })
        } else {
            single::greater(
                single::difference(avail, rings::held(c, 20)),
                Sgl::Num(Flo { m: 0, e: -149 }),
            )
        },
        rings::share(avail, c, i) == single::quotient(
            single::product(rings::left(avail, c), rings::weight(i)),
            single::greater(rings::free(c, 20), Sgl::Num(Flo { m: 8796093, e: -43 })),
        ),
{
}

/// Round by round those are held whose share is less than 3, and stay so. In the
/// end each ring wants 3 or its share.
pub proof fn law_rounds(avail: Sgl, n: int, i: int)
    requires
        0 <= n,
        0 <= i < 20,
    ensures
        !rings::rounds(avail, 0)[i],
        rings::rounds(avail, n + 1)[i] <==> rings::rounds(avail, n)[i] || single::less(
            rings::share(avail, rings::rounds(avail, n), i),
            Sgl::Num(Flo { m: 12582912, e: -22 }),
        ),
        rings::wanted(avail).len() == 20,
        rings::wanted(avail)[i] == if rings::rounds(avail, 20)[i] {
            Sgl::Num(Flo { m: 12582912, e: -22 })
        } else {
            rings::share(avail, rings::rounds(avail, 20), i)
        },
{
}

/// Each ring begins where the last one ended, behind a gap of a quarter of it
/// and of 2 at most; where all together want too much, each gets as much less.
pub proof fn law_bounds(hub: Sgl, rim: Sgl, i: int)
    requires
        0 <= i < 20,
    ensures
        ({
            let avail = rings::available(hub, rim);
            let want = rings::wanted(avail);
            let all = rings::radius(Sgl::Num(Flo { m: 0, e: -149 }), want, 20);
            let t = if single::less(avail, all) {
                single::product(want[i], single::quotient(avail, all))
            } else {
                want[i]
            };
            let b = rings::bounds(hub, rim);
            let from = if i == 0 {
                hub
            } else {
                b[i - 1].1
            };
            &&& b.len() == 20
            &&& b[i].0 == single::sum(
                from,
                single::lesser(
                    single::product(t, Sgl::Num(Flo { m: 0x80_0000, e: -25 })),
                    Sgl::Num(Flo { m: 0x80_0000, e: -22 }),
                ),
            )
            &&& b[i].1 == single::sum(from, t)
        }),
{
    let t = rings::thickness(rings::available(hub, rim));
    if i > 0 {
        assert(rings::radius(hub, t, i) == single::sum(rings::radius(hub, t, i - 1), t[i - 1]));
    } else {
        assert(rings::radius(hub, t, 0) == hub);
    }
}

/// Some thicknesses together.
pub proof fn law_together(hub: Sgl, t: Seq<Sgl>, i: int)
    requires
        0 <= i < t.len(),
    ensures
        rings::radius(hub, t, 0) == hub,
        rings::radius(hub, t, i + 1) == single::sum(rings::radius(hub, t, i), t[i]),
{
}

} // verus!
