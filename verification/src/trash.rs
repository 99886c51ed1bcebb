//! The trash: where it is, how much it holds, and what emptying it removes.

use vstd::prelude::*;
use vstd::slice::slice_to_vec;
use vstd::string::*;

use crate::mounts;
use crate::mounts::Mount;
use crate::mounts::MountV;
use crate::paths;
use crate::text;
use crate::usage;
use crate::usage::Item;
use crate::walk;
use crate::walk::Entry;
use crate::walk::EntryV;
use crate::walk::Kind;

verus! {

// ------------------------------------------------------------ places

pub open spec fn bytes(s: Seq<char>) -> Seq<u8> {
    vstd::utf8::encode_utf8(s)
}

/// Where data of the user goes.
pub open spec fn data_home(xdg: Option<Seq<u8>>, home: Option<Seq<u8>>) -> Option<Seq<u8>> {
    match (xdg, home) {
        (Some(d), _) => Some(d),
        (None, Some(h)) => Some(paths::joined(h, bytes(".local/share"@))),
        (None, None) => None,
    }
}

/// The two trashes of a user on a volume.
pub open spec fn on_volume(point: Seq<u8>, uid: int) -> Seq<Seq<u8>> {
    seq![
        paths::joined(point, bytes(".Trash/"@ + text::decimal(uid) + "/files"@)),
        paths::joined(point, bytes(".Trash-"@ + text::decimal(uid) + "/files"@)),
    ]
}

/// Those on all volumes that are backed by a device.
pub open spec fn on_volumes(ms: Seq<MountV>, uid: int) -> Seq<Seq<u8>>
    decreases ms.len(),
{
    if ms.len() == 0 {
        seq![]
    } else {
        on_volumes(ms.drop_last(), uid) + if ms.last().real {
            on_volume(ms.last().point, uid)
        } else {
            seq![]
        }
    }
}

/// The directories where the contents of the trash may be.
pub open spec fn places(
    xdg: Option<Seq<u8>>,
    home: Option<Seq<u8>>,
    uid: Option<int>,
    ms: Seq<MountV>,
) -> Seq<Seq<u8>> {
    (match data_home(xdg, home) {
        Some(d) => seq![paths::joined(d, bytes("Trash/files"@))],
        None => seq![],
    }) + match uid {
        Some(u) => on_volumes(ms, u),
        None => seq![],
    }
}

pub open spec fn path_view(p: Option<Vec<u8>>) -> Option<Seq<u8>> {
    match p {
        Some(v) => Some(v@),
        None => None,
    }
}

fn volume_place(point: &[u8], head: &str, uid: u32) -> (r: Vec<u8>)
    ensures
        r@ == paths::joined(point@, bytes(head@ + text::decimal(uid as int) + "/files"@)),
{
    let mut rel = String::new();
    rel.append(head);
    text::push_decimal(&mut rel, uid as u128);
    rel.append("/files");
    paths::join(point, rel.as_str().as_bytes_vec().as_slice())
}

/// Where the trash may be: those of them that are directories are.
pub fn trash_places(
    xdg: Option<Vec<u8>>,
    home: Option<Vec<u8>>,
    uid: Option<u32>,
    mounts: &Vec<Mount>,
) -> (r: Vec<Vec<u8>>)
    ensures
        paths::views(r@) == places(
            path_view(xdg),
            path_view(home),
            match uid {
                Some(u) => Some(u as int),
                None => None,
            },
            mounts::mount_views(mounts@),
        ),
{
    let data: Option<Vec<u8>> = match (xdg, home) {
        (Some(d), _) => Some(d),
        (None, Some(h)) => Some(
            paths::join(h.as_slice(), ".local/share".as_bytes_vec().as_slice()),
        ),
        (None, None) => None,
    };
    let mut out: Vec<Vec<u8>> = Vec::new();
    if let Some(d) = data {
        out.push(paths::join(d.as_slice(), "Trash/files".as_bytes_vec().as_slice()));
    }
    let ghost first = paths::views(out@);
    let ghost ms = mounts::mount_views(mounts@);
    proof {
        assert(first == match data_home(path_view(xdg), path_view(home)) {
            Some(d) => seq![paths::joined(d, bytes("Trash/files"@))],
            None => seq![],
        });
        assert(first + Seq::<Seq<u8>>::empty() == first);
        assert(ms.take(0) == Seq::<MountV>::empty());
    }
    if let Some(u) = uid {
        for i in 0..mounts.len()
            invariant
                ms == mounts::mount_views(mounts@),
                paths::views(out@) == first + on_volumes(ms.take(i as int), u as int),
        {
            let ghost before = out@;
            proof {
                assert(ms.take(i + 1).drop_last() == ms.take(i as int));
                assert(ms.take(i + 1).last() == mounts@[i as int]@);
            }
            if mounts[i].real {
                let point = mounts[i].point.as_slice();
                out.push(volume_place(point, ".Trash/", u));
                out.push(volume_place(point, ".Trash-", u));
                proof {
                    assert(paths::views(out@) == paths::views(before) + on_volume(
                        point@,
                        u as int,
                    ));
                    assert(first + on_volumes(ms.take(i as int), u as int) + on_volume(
                        point@,
                        u as int,
                    ) == first + (on_volumes(ms.take(i as int), u as int) + on_volume(
                        point@,
                        u as int,
                    )));
                }
            } else {
                assert(first + (on_volumes(ms.take(i as int), u as int) + Seq::empty()) == first
                    + on_volumes(ms.take(i as int), u as int));
            }
        }
        assert(ms.take(ms.len() as int) == ms);
    }
    out
}

// ------------------------------------------------------------ size

/// What the files of a listing take, in bytes.
pub open spec fn files_size(es: Seq<EntryV>) -> int
    decreases es.len(),
{
    if es.len() == 0 {
        0
    } else {
        files_size(es.drop_last()) + match es.last().kind {
            Kind::File(Some(m)) => m.blocks * 512,
            _ => 0,
        }
    }
}

/// The directories of a listing.
pub open spec fn dirs(es: Seq<EntryV>) -> Seq<Seq<u8>>
    decreases es.len(),
{
    if es.len() == 0 {
        seq![]
    } else if es.last().kind is Dir {
        dirs(es.drop_last()).push(es.last().path)
    } else {
        dirs(es.drop_last())
    }
}

/// Measures directories: asks for their listings, and adds up. Links are not
/// followed.
pub struct Meter {
    pending: Vec<Vec<u8>>,
    sum: u64,
}

/// What to do next.
pub enum Measure {
    /// List this directory.
    Read(Vec<u8>),
    /// All is measured.
    Done(u64),
}

impl Meter {
    /// The directories that are still to be listed.
    pub closed spec fn pending(&self) -> Seq<Seq<u8>> {
        paths::views(self.pending@)
    }

    /// What was found so far.
    pub closed spec fn sum(&self) -> int {
        self.sum as int
    }

    pub fn new(dirs: Vec<Vec<u8>>) -> (r: Meter)
        ensures
            r.pending() == paths::views(dirs@),
            r.sum() == 0,
    {
        Meter { pending: dirs, sum: 0 }
    }

    /// What to list next: the directory that was met last.
    pub fn next(&mut self) -> (r: Measure)
        ensures
            final(self).sum() == old(self).sum(),
            match r {
                Measure::Read(p) => {
                    &&& old(self).pending().len() > 0
                    &&& p@ == old(self).pending().last()
                    &&& final(self).pending() == old(self).pending().drop_last()
                },
                Measure::Done(n) => {
                    &&& old(self).pending().len() == 0
                    &&& final(self).pending() == old(self).pending()
                    &&& n == old(self).sum()
                },
            },
    {
        let ghost before = self.pending@;
        match self.pending.pop() {
            Some(p) => {
                proof {
                    assert(paths::views(self.pending@) == paths::views(before).drop_last());
                }
                Measure::Read(p)
            },
            None => Measure::Done(self.sum),
        }
    }

    /// Takes a listing; none is one that could not be read. Says whether the sum
    /// is still one of the machine; where it is not, nothing is taken.
    pub fn listed(&mut self, listing: Option<Vec<Entry>>) -> (whole: bool)
        ensures
            whole == (old(self).sum() + files_size(walk::listing_view(listing)) <= u64::MAX),
            whole ==> {
                &&& final(self).sum() == old(self).sum() + files_size(walk::listing_view(listing))
                &&& final(self).pending() == old(self).pending() + dirs(
                    walk::listing_view(listing),
                )
            },
            !whole ==> *final(self) == *old(self),
    {
        let es: Vec<Entry> = match listing {
            Some(es) => es,
            None => {
                proof {
                    assert(self.pending() + dirs(Seq::empty()) == self.pending());
                }
                return true;
            },
        };
        let sum = match add_files(self.sum, &es) {
            Some(n) => n,
            None => {
                return false;
            },
        };
        let ghost views = walk::entry_views(es@);
        let ghost pending0 = self.pending();
        proof {
            assert(views.take(0) == Seq::<EntryV>::empty());
            assert(pending0 + dirs(Seq::empty()) == pending0);
        }
        self.sum = sum;
        for i in 0..es.len()
            invariant
                views == walk::entry_views(es@),
                self.sum == sum,
                self.pending() == pending0 + dirs(views.take(i as int)),
        {
            let ghost before = self.pending@;
            proof {
                assert(views.take(i + 1).drop_last() == views.take(i as int));
                assert(views.take(i + 1).last() == es@[i as int]@);
            }
            if let Kind::Dir = es[i].kind {
                let p = slice_to_vec(es[i].path.as_slice());
                proof {
                    let d = dirs(views.take(i as int));
                    assert(paths::views(before.push(p)) == paths::views(before).push(p@));
                    assert((pending0 + d).push(p@) == pending0 + d.push(p@));
                }
                self.pending.push(p);
            }
        }
        assert(views.take(views.len() as int) == views);
        true
    }
}

fn add_files(start: u64, es: &Vec<Entry>) -> (r: Option<u64>)
    ensures
        match r {
            Some(n) => n == start + files_size(walk::entry_views(es@)),
            None => start + files_size(walk::entry_views(es@)) > u64::MAX,
        },
{
    let ghost views = walk::entry_views(es@);
    let mut sum: u64 = start;
    assert(views.take(0) == Seq::<EntryV>::empty());
    for i in 0..es.len()
        invariant
            views == walk::entry_views(es@),
            sum == start + files_size(views.take(i as int)),
    {
        proof {
            assert(views.take(i + 1).drop_last() == views.take(i as int));
            assert(views.take(i + 1).last() == es@[i as int]@);
            lemma_files_size(views, i + 1);
        }
        if let Kind::File(Some(m)) = es[i].kind {
            let n: u128 = sum as u128 + m.blocks as u128 * 512;
            if n > u64::MAX as u128 {
                return None;
            }
            sum = n as u64;
        }
    }
    assert(views.take(views.len() as int) == views);
    Some(sum)
}

/// A part of a listing takes no more than all of it.
proof fn lemma_files_size(es: Seq<EntryV>, i: int)
    requires
        0 <= i <= es.len(),
    ensures
        files_size(es.take(i)) <= files_size(es),
    decreases es.len() - i,
{
    if i == es.len() {
        assert(es.take(i) == es);
    } else {
        lemma_files_size(es, i + 1);
        assert(es.take(i + 1).drop_last() == es.take(i));
    }
}

/// What some items take: files their blocks, directories what they hold, and
/// all else nothing.
pub open spec fn taken(items: Seq<Item>) -> int
    decreases items, items.len(),
{
    if items.len() == 0 {
        0
    } else {
        taken(items.drop_last()) + taken_by(items.last())
    }
}

pub open spec fn taken_by(it: Item) -> int
    decreases it, 0int,
{
    match it.entry.kind {
        Kind::Dir => taken(it.items),
        Kind::File(Some(m)) => m.blocks * 512,
        _ => 0,
    }
}

/// A directory and what it holds.
pub ghost struct Place {
    pub path: Seq<u8>,
    pub items: Seq<Item>,
}

/// The directories among some items.
pub open spec fn subs(items: Seq<Item>) -> Seq<Place>
    decreases items.len(),
{
    if items.len() == 0 {
        seq![]
    } else if items.last().entry.kind is Dir {
        subs(items.drop_last()).push(
            Place { path: items.last().entry.path, items: items.last().items },
        )
    } else {
        subs(items.drop_last())
    }
}

pub open spec fn place_paths(ps: Seq<Place>) -> Seq<Seq<u8>> {
    Seq::new(ps.len(), |i: int| ps[i].path)
}

/// What some directories take together.
pub open spec fn taken_all(ps: Seq<Place>) -> int
    decreases ps.len(),
{
    if ps.len() == 0 {
        0
    } else {
        taken_all(ps.drop_last()) + taken(ps.last().items)
    }
}

/// How many items there are, of any depth.
pub open spec fn nodes(items: Seq<Item>) -> nat
    decreases items, items.len(),
{
    if items.len() == 0 {
        0
    } else {
        nodes(items.drop_last()) + nodes_of(items.last())
    }
}

pub open spec fn nodes_of(it: Item) -> nat
    decreases it, 0int,
{
    1 + nodes(it.items)
}

/// How many items there are, and one for each directory.
pub open spec fn work(ps: Seq<Place>) -> nat
    decreases ps.len(),
{
    if ps.len() == 0 {
        0
    } else {
        work(ps.drop_last()) + 1 + nodes(ps.last().items)
    }
}

pub proof fn lemma_work_adds(a: Seq<Place>, b: Seq<Place>)
    ensures
        work(a + b) == work(a) + work(b),
        taken_all(a + b) == taken_all(a) + taken_all(b),
    decreases b.len(),
{
    if b.len() == 0 {
        assert(a + b == a);
    } else {
        assert((a + b).drop_last() == a + b.drop_last());
        lemma_work_adds(a, b.drop_last());
    }
}

pub proof fn lemma_subs(items: Seq<Item>)
    ensures
        work(subs(items)) <= nodes(items),
        taken(items) == files_size(usage::listing(items)) + taken_all(subs(items)),
        place_paths(subs(items)) == dirs(usage::listing(items)),
    decreases items.len(),
{
    let es = usage::listing(items);
    if items.len() == 0 {
        assert(place_paths(subs(items)) == Seq::<Seq<u8>>::empty());
    } else {
        let init = items.drop_last();
        let it = items.last();
        lemma_subs(init);
        assert(es.drop_last() == usage::listing(init));
        assert(es.last() == it.entry);
        reveal_with_fuel(taken, 2);
        reveal_with_fuel(nodes, 2);
        if it.entry.kind is Dir {
            let p = Place { path: it.entry.path, items: it.items };
            let more = subs(init).push(p);
            assert(more.drop_last() == subs(init));
            assert(place_paths(more) == place_paths(subs(init)).push(p.path));
        }
    }
}

/// The directories that wait once the one met last was listed: its own come
/// behind the others.
pub open spec fn after_listing(ps: Seq<Place>) -> Seq<Place> {
    ps.drop_last() + subs(ps.last().items)
}

/// What the meter finds in some directories, to what it found before.
pub open spec fn metered(ps: Seq<Place>, sum: int) -> int
    decreases work(ps),
{
    if ps.len() == 0 {
        sum
    } else {
        proof {
            lemma_subs(ps.last().items);
            lemma_work_adds(ps.drop_last(), subs(ps.last().items));
        }
        metered(after_listing(ps), sum + files_size(usage::listing(ps.last().items)))
    }
}

/// Listing a directory leaves the meter with the paths of the directories that
/// then wait.
pub proof fn law_meter_asks(ps: Seq<Place>)
    requires
        ps.len() > 0,
    ensures
        place_paths(ps).last() == ps.last().path,
        place_paths(after_listing(ps)) == place_paths(ps).drop_last() + dirs(
            usage::listing(ps.last().items),
        ),
{
    lemma_subs(ps.last().items);
    assert(place_paths(after_listing(ps)) =~= place_paths(ps).drop_last() + place_paths(
        subs(ps.last().items),
    ));
}

/// The meter finds what the directories take: each file is counted once.
pub proof fn law_meter(ps: Seq<Place>, sum: int)
    ensures
        metered(ps, sum) == sum + taken_all(ps),
    decreases work(ps),
{
    if ps.len() > 0 {
        lemma_subs(ps.last().items);
        lemma_work_adds(ps.drop_last(), subs(ps.last().items));
        law_meter(after_listing(ps), sum + files_size(usage::listing(ps.last().items)));
    }
}

/// What two lists of directories take together is what each takes.
pub proof fn law_meter_adds(a: Seq<Place>, b: Seq<Place>)
    ensures
        metered(a + b, 0) == metered(a, 0) + metered(b, 0),
{
    law_meter(a + b, 0);
    law_meter(a, 0);
    law_meter(b, 0);
    lemma_work_adds(a, b);
}

// ------------------------------------------------------------ emptying

/// Something to remove.
pub struct Removal {
    pub path: Vec<u8>,
    /// Whether it is a directory, to be removed with all it holds.
    pub whole: bool,
    /// Whether a failure is to be told.
    pub counts: bool,
}

/// What a [`Removal`] stands for.
pub ghost struct RemovalV {
    pub path: Seq<u8>,
    pub whole: bool,
    pub counts: bool,
}

impl View for Removal {
    type V = RemovalV;

    open spec fn view(&self) -> RemovalV {
        RemovalV { path: self.path@, whole: self.whole, counts: self.counts }
    }
}

pub open spec fn removal_views(rs: Seq<Removal>) -> Seq<RemovalV> {
    Seq::new(rs.len(), |i: int| rs[i]@)
}

/// The contents of the trash: directories with all they hold.
pub open spec fn contents(es: Seq<EntryV>) -> Seq<RemovalV> {
    Seq::new(
        es.len(),
        |i: int| RemovalV { path: es[i].path, whole: es[i].kind is Dir, counts: true },
    )
}

/// The notes on where they came from, and the cache of their sizes, which may
/// not be there.
pub open spec fn notes(root: Option<Seq<u8>>, infos: Seq<EntryV>) -> Seq<RemovalV> {
    match root {
        Some(r) => Seq::new(
            infos.len(),
            |i: int| RemovalV { path: infos[i].path, whole: false, counts: true },
        ).push(
            RemovalV {
                path: paths::joined(r, bytes("directorysizes"@)),
                whole: false,
                counts: false,
            },
        ),
        None => seq![],
    }
}

fn push_removals(es: &Vec<Entry>, dirs_whole: bool, out: &mut Vec<Removal>)
    ensures
        removal_views(final(out)@) == removal_views(old(out)@) + Seq::new(
            es@.len(),
            |i: int|
                RemovalV {
                    path: es@[i].path@,
                    whole: dirs_whole && es@[i].kind is Dir,
                    counts: true,
                },
        ),
{
    let ghost before = removal_views(out@);
    let ghost all = Seq::new(
        es@.len(),
        |i: int|
            RemovalV { path: es@[i].path@, whole: dirs_whole && es@[i].kind is Dir, counts: true },
    );
    assert(before + all.take(0) == before);
    for i in 0..es.len()
        invariant
            all.len() == es@.len(),
            forall|j: int|
                0 <= j < es@.len() ==> #[trigger] all[j] == (RemovalV {
                    path: es@[j].path@,
                    whole: dirs_whole && es@[j].kind is Dir,
                    counts: true,
                }),
            removal_views(out@) == before + all.take(i as int),
    {
        let ghost prev = out@;
        let is_dir = match es[i].kind {
            Kind::Dir => true,
            _ => false,
        };
        out.push(
            Removal {
                path: slice_to_vec(es[i].path.as_slice()),
                whole: dirs_whole && is_dir,
                counts: true,
            },
        );
        proof {
            assert(out@.last()@ == all[i as int]);
            assert(removal_views(out@) == removal_views(prev).push(all[i as int]));
            assert(all.take(i + 1) == all.take(i as int).push(all[i as int]));
            assert((before + all.take(i as int)).push(all[i as int]) == before + all.take(
                i as int,
            ).push(all[i as int]));
        }
    }
    assert(all.take(all.len() as int) == all);
}

/// Where the notes are, in the directory around the contents.
pub fn info_dir(root: &[u8]) -> (r: Vec<u8>)
    ensures
        r@ == paths::joined(root@, bytes("info"@)),
{
    paths::join(root, "info".as_bytes_vec().as_slice())
}

/// What to remove of a trash: its contents and, in the directory `root` around
/// them, the notes on them.
pub fn removals(files: &Vec<Entry>, root: Option<Vec<u8>>, infos: &Vec<Entry>) -> (r: Vec<Removal>)
    ensures
        removal_views(r@) == contents(walk::entry_views(files@)) + notes(
            path_view(root),
            walk::entry_views(infos@),
        ),
{
    let mut out: Vec<Removal> = Vec::new();
    push_removals(files, true, &mut out);
    let ghost first = removal_views(out@);
    proof {
        assert(first == contents(walk::entry_views(files@)));
        assert(first + Seq::<RemovalV>::empty() == first);
    }
    if let Some(r) = root {
        push_removals(infos, false, &mut out);
        let ghost prev = out@;
        let cache = paths::join(r.as_slice(), "directorysizes".as_bytes_vec().as_slice());
        out.push(Removal { path: cache, whole: false, counts: false });
        proof {
            assert(removal_views(out@) == removal_views(prev).push(out@.last()@));
            assert(removal_views(out@) == first + notes(
                path_view(root),
                walk::entry_views(infos@),
            ));
        }
    }
    out
}

/// Whether all was removed whose failure is to be told.
pub fn all_removed(rs: &Vec<Removal>, done: &Vec<bool>) -> (r: bool)
    requires
        rs@.len() == done@.len(),
    ensures
        r == forall|i: int| 0 <= i < rs@.len() && (#[trigger] rs@[i]).counts ==> done@[i],
{
    for i in 0..rs.len()
        invariant
            rs@.len() == done@.len(),
            forall|j: int| 0 <= j < i && (#[trigger] rs@[j]).counts ==> done@[j],
    {
        if rs[i].counts && !done[i] {
            return false;
        }
    }
    true
}

/// Emptying removes each entry of the trash, a directory with all it holds.
pub proof fn law_empty(items: Seq<Item>, root: Option<Seq<u8>>, infos: Seq<EntryV>, k: int)
    requires
        0 <= k < items.len(),
    ensures
        ({
            let r = (contents(usage::listing(items)) + notes(root, infos))[k];
            &&& r.path == items[k].entry.path
            &&& r.whole == (items[k].entry.kind is Dir)
            &&& r.counts
        }),
{
}

/// In the directory around it, emptying removes each note, and the cache.
pub proof fn law_empty_notes(es: Seq<EntryV>, root: Seq<u8>, infos: Seq<EntryV>, k: int)
    requires
        0 <= k < infos.len(),
    ensures
        ({
            let rs = contents(es) + notes(Some(root), infos);
            &&& rs[es.len() + k].path == infos[k].path
            &&& !rs[es.len() + k].whole
            &&& rs[es.len() + k].counts
            &&& rs.last().path == paths::joined(root, bytes("directorysizes"@))
            &&& !rs.last().counts
        }),
{
}

/// Of trashes that hold nothing the meter finds nothing.
pub proof fn law_emptied(ps: Seq<Place>)
    requires
        forall|i: int| 0 <= i < ps.len() ==> (#[trigger] ps[i]).items.len() == 0,
    ensures
        metered(ps, 0) == 0,
{
    law_meter(ps, 0);
    lemma_nothing(ps);
}

proof fn lemma_nothing(ps: Seq<Place>)
    requires
        forall|i: int| 0 <= i < ps.len() ==> (#[trigger] ps[i]).items.len() == 0,
    ensures
        taken_all(ps) == 0,
    decreases ps.len(),
{
    if ps.len() > 0 {
        assert(ps.last().items.len() == 0);
        assert(taken(ps.last().items) == 0);
        assert forall|i: int| 0 <= i < ps.drop_last().len() implies (
        #[trigger] ps.drop_last()[i]).items.len() == 0 by {
            assert(ps.drop_last()[i] == ps[i]);
        }
        lemma_nothing(ps.drop_last());
    }
}

} // verus!
