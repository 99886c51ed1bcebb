//! Where the trash is, what it takes, and what emptying removes.

use vstd::prelude::*;

use crate::mounts::MountV;
use crate::paths;
use crate::text;
use crate::trash;
use crate::walk::EntryV;
use crate::walk::Kind;

verus! {

spec fn shared(point: Seq<u8>, uid: int) -> Seq<u8> {
    paths::joined(
        point,
        vstd::utf8::encode_utf8(".Trash/"@ + text::decimal(uid) + "/files"@),
    )
}

spec fn own(point: Seq<u8>, uid: int) -> Seq<u8> {
    paths::joined(
        point,
        vstd::utf8::encode_utf8(".Trash-"@ + text::decimal(uid) + "/files"@),
    )
}

proof fn lemma_on_volumes(ms: Seq<MountV>, uid: int, i: int)
    requires
        0 <= i < ms.len(),
        ms[i].real,
    ensures
        trash::on_volumes(ms, uid).contains(shared(ms[i].point, uid)),
        trash::on_volumes(ms, uid).contains(own(ms[i].point, uid)),
    decreases ms.len(),
{
    let front = ms.drop_last();
    let before = trash::on_volumes(front, uid);
    let all = trash::on_volumes(ms, uid);
    let (x, y) = (shared(ms[i].point, uid), own(ms[i].point, uid));
    let n = before.len() as int;
    if i < ms.len() - 1 {
        assert(front[i] == ms[i]);
        lemma_on_volumes(front, uid, i);
        let j = choose|j: int| 0 <= j < before.len() && before[j] == x;
        let k = choose|k: int| 0 <= k < before.len() && before[k] == y;
        assert(all[j] == x && all[k] == y);
    } else {
        assert(all[n] == x && all[n + 1] == y);
    }
}

proof fn lemma_only_volumes(ms: Seq<MountV>, uid: int, k: int)
    requires
        0 <= k < trash::on_volumes(ms, uid).len(),
    ensures
        exists|i: int|
            0 <= i < ms.len() && (#[trigger] ms[i]).real && (trash::on_volumes(ms, uid)[k]
                == shared(ms[i].point, uid) || trash::on_volumes(ms, uid)[k] == own(
                ms[i].point,
                uid,
            )),
    decreases ms.len(),
{
    let front = ms.drop_last();
    let before = trash::on_volumes(front, uid);
    if k < before.len() {
        lemma_only_volumes(front, uid, k);
        let i = choose|i: int|
            0 <= i < front.len() && (#[trigger] front[i]).real && (before[k] == shared(
                front[i].point,
                uid,
            ) || before[k] == own(front[i].point, uid));
        assert(ms[i] == front[i]);
    } else {
        assert(ms[ms.len() - 1].real);
    }
}

/// Every volume has two places for the trash of a user, wherever it stands in
/// the mount table.
pub proof fn law_trash_on_volume(
    xdg: Option<Seq<u8>>,
    home: Option<Seq<u8>>,
    uid: int,
    ms: Seq<MountV>,
    i: int,
)
    requires
        0 <= i < ms.len(),
        ms[i].real,
    ensures
        ({
            let all = trash::places(xdg, home, Some(uid), ms);
            let shared = ".Trash/"@ + text::decimal(uid) + "/files"@;
            let own = ".Trash-"@ + text::decimal(uid) + "/files"@;
            &&& all.contains(paths::joined(ms[i].point, vstd::utf8::encode_utf8(shared)))
            &&& all.contains(paths::joined(ms[i].point, vstd::utf8::encode_utf8(own)))
        }),
{
    lemma_on_volumes(ms, uid, i);
    let rest = trash::on_volumes(ms, uid);
    let all = trash::places(xdg, home, Some(uid), ms);
    let n = all.len() - rest.len();
    let (x, y) = (shared(ms[i].point, uid), own(ms[i].point, uid));
    let j = choose|j: int| 0 <= j < rest.len() && rest[j] == x;
    let k = choose|k: int| 0 <= k < rest.len() && rest[k] == y;
    assert(all[n + j] == x && all[n + k] == y);
}

/// The trash of the home directory is the first place, where it can be told;
/// any other is one of a volume, and of a known user.
pub proof fn law_trash_nowhere_else(
    xdg: Option<Seq<u8>>,
    home: Option<Seq<u8>>,
    uid: Option<int>,
    ms: Seq<MountV>,
    k: int,
)
    requires
        0 <= k < trash::places(xdg, home, uid, ms).len(),
        k > 0 || (xdg is None && home is None),
    ensures
        uid matches Some(u) && exists|i: int|
            {
                &&& 0 <= i < ms.len()
                &&& (#[trigger] ms[i]).real
                &&& ({
                    ||| trash::places(xdg, home, uid, ms)[k] == paths::joined(
                        ms[i].point,
                        vstd::utf8::encode_utf8(".Trash/"@ + text::decimal(u) + "/files"@),
                    )
                    ||| trash::places(xdg, home, uid, ms)[k] == paths::joined(
                        ms[i].point,
                        vstd::utf8::encode_utf8(".Trash-"@ + text::decimal(u) + "/files"@),
                    )
                })
            },
{
    let all = trash::places(xdg, home, uid, ms);
    if let Some(u) = uid {
        let rest = trash::on_volumes(ms, u);
        let n = all.len() - rest.len();
        lemma_only_volumes(ms, u, k - n);
        let i = choose|i: int|
            0 <= i < ms.len() && (#[trigger] ms[i]).real && (rest[k - n] == shared(
                ms[i].point,
                u,
            ) || rest[k - n] == own(ms[i].point, u));
        assert(all[k] == rest[k - n]);
        assert(ms[i].real);
    }
}

/// The trash of the home directory: in the data directory where one is set,
/// else in `.local/share` of the home directory.
pub proof fn law_home_trash(
    xdg: Option<Seq<u8>>,
    home: Option<Seq<u8>>,
    uid: Option<int>,
    ms: Seq<MountV>,
)
    ensures
        ({
            let all = trash::places(xdg, home, uid, ms);
            let files = vstd::utf8::encode_utf8("Trash/files"@);
            &&& xdg matches Some(d) ==> all.len() > 0 && all[0] == paths::joined(d, files)
            &&& xdg is None ==> (home matches Some(h) ==> all.len() > 0 && all[0] == paths::joined(
                paths::joined(h, vstd::utf8::encode_utf8(".local/share"@)),
                files,
            ))
        }),
{
}

/// One more volume adds its two places, behind those before; any other mount
/// adds none, nor does any where the user is not known.
pub proof fn law_trash_one_more(
    xdg: Option<Seq<u8>>,
    home: Option<Seq<u8>>,
    uid: Option<int>,
    ms: Seq<MountV>,
    m: MountV,
)
    ensures
        ({
            let before = trash::places(xdg, home, uid, ms);
            let after = trash::places(xdg, home, uid, ms.push(m));
            &&& m.real && uid is Some ==> after == before.push(
                paths::joined(
                    m.point,
                    vstd::utf8::encode_utf8(".Trash/"@ + text::decimal(uid->0) + "/files"@),
                ),
            ).push(
                paths::joined(
                    m.point,
                    vstd::utf8::encode_utf8(".Trash-"@ + text::decimal(uid->0) + "/files"@),
                ),
            )
            &&& !m.real || uid is None ==> after == before
        }),
        trash::places(xdg, home, uid, Seq::<MountV>::empty()).len() == if xdg is Some || home
            is Some {
            1int
        } else {
            0
        },
{
    let before = trash::places(xdg, home, uid, ms);
    let after = trash::places(xdg, home, uid, ms.push(m));
    assert(ms.push(m).drop_last() =~= ms);
    if let Some(u) = uid {
        if m.real {
            assert(after =~= before.push(shared(m.point, u)).push(own(m.point, u)));
        } else {
            assert(after =~= before);
        }
        assert(trash::on_volumes(Seq::<MountV>::empty(), u) == Seq::<Seq<u8>>::empty());
    }
}

// ------------------------------------------------------------ measuring

/// Each file of a listing adds the 512-byte blocks that it takes; each
/// directory is to be listed too; nothing else counts.
pub proof fn law_measure(es: Seq<EntryV>, e: EntryV)
    ensures
        trash::files_size(es.push(e)) == trash::files_size(es) + match e.kind {
            Kind::File(Some(m)) => 512 * m.blocks,
            _ => 0,
        },
        trash::dirs(es.push(e)) == if e.kind is Dir {
            trash::dirs(es).push(e.path)
        } else {
            trash::dirs(es)
        },
        trash::files_size(Seq::<EntryV>::empty()) == 0,
        trash::dirs(Seq::<EntryV>::empty()).len() == 0,
{
    assert(es.push(e).drop_last() =~= es);
}

// ------------------------------------------------------------ emptying

/// Emptying removes what the trash holds, each thing once, directories with
/// all they hold; then the notes on it, and the record of sizes; and nothing
/// else.
pub proof fn law_removals(es: Seq<EntryV>, root: Option<Seq<u8>>, infos: Seq<EntryV>)
    ensures
        ({
            let rs = trash::contents(es) + trash::notes(root, infos);
            &&& rs.len() == es.len() + if root is Some {
                infos.len() + 1
            } else {
                0
            }
            &&& forall|i: int|
                0 <= i < es.len() ==> {
                    &&& (#[trigger] rs[i]).path == es[i].path
                    &&& rs[i].whole == (es[i].kind is Dir)
                    &&& rs[i].counts
                }
            &&& root matches Some(r) ==> {
                &&& forall|i: int|
                    es.len() <= i < es.len() + infos.len() ==> {
                        &&& (#[trigger] rs[i]).path == infos[i - es.len()].path
                        &&& !rs[i].whole
                        &&& rs[i].counts
                    }
                &&& rs.last().path == paths::joined(
                    r,
                    vstd::utf8::encode_utf8("directorysizes"@),
                )
                &&& !rs.last().whole
                &&& !rs.last().counts
            }
        }),
{
}

} // verus!
