//! The viewer: what it shows, and what each event does to that.

use vstd::prelude::*;
use vstd::slice::slice_to_vec;

use crate::cursor;
use crate::cursor::Choice;
use crate::cursor::ChoiceV;
use crate::cursor::Keys;
use crate::layout;
use crate::layout::Wedge;
use crate::layout::WedgeV;
use crate::look;
use crate::look::Look;
use crate::mounts;
use crate::mounts::Mount;
use crate::mounts::MountV;
use crate::nav;
use crate::rings;
use crate::side;
use crate::side::RowV;
use crate::side::SideRow;
use crate::single;
use crate::single::Sgl;
use crate::single::Single;
use crate::sizes;
use crate::text;
use crate::tree::Node;
use crate::tree::Tree;

verus! {

/// How a scan stands.
pub enum State {
    Scanning { admin: bool },
    Ready(Node),
    Error(String),
}

/// A slice that opens to the whole chart, or the chart that closes to one.
pub struct Anim {
    /// The angles of the slice in the outer chart.
    pub span: (Single, Single),
    /// By how many rings the chart moves.
    pub shift: usize,
    pub dir_in: bool,
    /// The chart that fades, where one is opened.
    pub old: Vec<Wedge>,
}

pub struct App {
    pub scan_root: Vec<u8>,
    pub path_input: String,
    pub state: State,
    /// The indices of the children that lead to the directory shown.
    pub nav: Vec<usize>,
    pub mounts: Vec<Mount>,
    pub wedges: Vec<Wedge>,
    pub hovered: Option<usize>,
    pub dragging: Option<usize>,
    /// What is to be moved to the trash, once confirmed.
    pub pending_trash: Option<(Vec<u8>, String)>,
    /// Whether emptying the trash is to be confirmed.
    pub pending_empty: bool,
    /// The row of the cursor.
    pub side_sel: Option<usize>,
    /// Whether a first g was pressed.
    pub pending_g: bool,
    /// The size of the trash, once measured.
    pub trash_size: Option<u64>,
    pub anim: Option<Anim>,
    /// The child that was just left.
    pub pending_up: Option<usize>,
    /// The way to the row under the pointer; none for the smaller items.
    pub side_hover: Option<Vec<usize>>,
    /// Whether only the smaller items are shown.
    pub small_focus: bool,
}

/// What a [`State`] stands for.
pub ghost enum StateV {
    Scanning { admin: bool },
    Ready(Tree),
    Error(Seq<char>),
}

/// What an [`Anim`] stands for.
pub ghost struct AnimV {
    pub span: (Sgl, Sgl),
    pub shift: int,
    pub dir_in: bool,
    pub old: Seq<WedgeV>,
}

/// What an [`App`] stands for.
pub ghost struct AppV {
    pub scan_root: Seq<u8>,
    pub path_input: Seq<char>,
    pub state: StateV,
    pub nav: Seq<int>,
    pub mounts: Seq<MountV>,
    pub wedges: Seq<WedgeV>,
    pub hovered: Option<int>,
    pub dragging: Option<int>,
    pub pending_trash: Option<(Seq<u8>, Seq<char>)>,
    pub pending_empty: bool,
    pub side_sel: Option<int>,
    pub pending_g: bool,
    pub trash_size: Option<int>,
    pub anim: Option<AnimV>,
    pub pending_up: Option<int>,
    pub side_hover: Option<Seq<int>>,
    pub small_focus: bool,
}

impl View for State {
    type V = StateV;

    open spec fn view(&self) -> StateV {
        match *self {
            State::Scanning { admin } => StateV::Scanning { admin },
            State::Ready(n) => StateV::Ready(n@),
            State::Error(e) => StateV::Error(e@),
        }
    }
}

impl View for Anim {
    type V = AnimV;

    open spec fn view(&self) -> AnimV {
        AnimV {
            span: (self.span.0@, self.span.1@),
            shift: self.shift as int,
            dir_in: self.dir_in,
            old: layout::wedge_views(self.old@),
        }
    }
}

impl View for App {
    type V = AppV;

    open spec fn view(&self) -> AppV {
        AppV {
            scan_root: self.scan_root@,
            path_input: self.path_input@,
            state: self.state@,
            nav: layout::indices(self.nav@),
            mounts: mounts::mount_views(self.mounts@),
            wedges: layout::wedge_views(self.wedges@),
            hovered: side::index_view(self.hovered),
            dragging: side::index_view(self.dragging),
            pending_trash: match self.pending_trash {
                Some((p, n)) => Some((p@, n@)),
                None => None,
            },
            pending_empty: self.pending_empty,
            side_sel: side::index_view(self.side_sel),
            pending_g: self.pending_g,
            trash_size: match self.trash_size {
                Some(n) => Some(n as int),
                None => None,
            },
            anim: match self.anim {
                Some(a) => Some(a@),
                None => None,
            },
            pending_up: side::index_view(self.pending_up),
            side_hover: match self.side_hover {
                Some(p) => Some(layout::indices(p@)),
                None => None,
            },
            small_focus: self.small_focus,
        }
    }
}

/// The chart is one that was laid out, and so is one that fades.
pub open spec fn wf(a: AppV) -> bool {
    &&& layout::well_formed(a.wedges)
    &&& a.anim matches Some(x) ==> {
        &&& single::wf(x.span.0)
        &&& single::wf(x.span.1)
        &&& layout::well_formed(x.old)
    }
}

// ------------------------------------------------------------ scans

/// A viewer whose first scan runs.
pub open spec fn fresh(path: Seq<u8>, shown: Seq<char>, mounts: Seq<MountV>) -> AppV {
    AppV {
        scan_root: path,
        path_input: shown,
        state: StateV::Scanning { admin: false },
        nav: seq![],
        mounts,
        wedges: seq![],
        hovered: None,
        dragging: None,
        pending_trash: None,
        pending_empty: false,
        side_sel: None,
        pending_g: false,
        trash_size: None,
        anim: None,
        pending_up: None,
        side_hover: None,
        small_focus: false,
    }
}

/// A new scan runs, and what the last one found is shown no more.
pub open spec fn begun(
    a: AppV,
    path: Seq<u8>,
    shown: Seq<char>,
    admin: bool,
    mounts: Seq<MountV>,
) -> AppV {
    AppV {
        mounts,
        scan_root: path,
        path_input: shown,
        nav: seq![],
        wedges: seq![],
        small_focus: false,
        state: StateV::Scanning { admin },
        ..a
    }
}

/// What a look at the channel of a running scan brings.
pub enum Poll {
    Empty,
    Done(Result<Node, String>),
    Disconnected,
}

/// A scan that runs ends with what it found, or with why it did not.
pub open spec fn collected(a: AppV, poll: Poll) -> AppV {
    if a.state is Scanning {
        match poll {
            Poll::Empty => a,
            Poll::Done(Ok(n)) => AppV { state: StateV::Ready(n@), ..a },
            Poll::Done(Err(e)) => AppV { state: StateV::Error(e@), ..a },
            Poll::Disconnected => AppV { state: StateV::Error("scan thread died"@), ..a },
        }
    } else {
        a
    }
}

proof fn lemma_no_wedges()
    ensures
        layout::wedge_views(seq![]) == Seq::<WedgeV>::empty(),
        layout::indices(seq![]) == Seq::<int>::empty(),
{
    assert(layout::wedge_views(seq![]) =~= Seq::<WedgeV>::empty());
    assert(layout::indices(seq![]) =~= Seq::<int>::empty());
}

impl App {
    /// `shown` is the path as text.
    pub fn new(path: Vec<u8>, shown: String, mounts: Vec<Mount>) -> (r: App)
        ensures
            r@ == fresh(path@, shown@, mounts::mount_views(mounts@)),
            wf(r@),
    {
        proof {
            lemma_no_wedges();
        }
        App {
            scan_root: path,
            path_input: shown,
            state: State::Scanning { admin: false },
            nav: Vec::new(),
            mounts,
            wedges: Vec::new(),
            hovered: None,
            dragging: None,
            pending_trash: None,
            pending_empty: false,
            side_sel: None,
            pending_g: false,
            trash_size: None,
            anim: None,
            pending_up: None,
            side_hover: None,
            small_focus: false,
        }
    }

    pub fn begin_scan(&mut self, path: Vec<u8>, shown: String, admin: bool, mounts: Vec<Mount>)
        requires
            wf(old(self)@),
        ensures
            final(self)@ == begun(
                old(self)@,
                path@,
                shown@,
                admin,
                mounts::mount_views(mounts@),
            ),
            wf(final(self)@),
    {
        proof {
            lemma_no_wedges();
        }
        self.mounts = mounts;
        self.scan_root = path;
        self.path_input = shown;
        self.nav = Vec::new();
        self.wedges = Vec::new();
        self.small_focus = false;
        self.state = State::Scanning { admin };
    }

    /// Says whether to look again soon.
    pub fn collect(&mut self, poll: Poll) -> (again: bool)
        requires
            wf(old(self)@),
        ensures
            final(self)@ == collected(old(self)@, poll),
            wf(final(self)@),
            again == (old(self)@.state is Scanning && poll is Empty),
    {
        match self.state {
            State::Scanning { .. } => match poll {
                Poll::Empty => true,
                Poll::Done(Ok(n)) => {
                    self.state = State::Ready(n);
                    false
                },
                Poll::Done(Err(e)) => {
                    self.state = State::Error(e);
                    false
                },
                Poll::Disconnected => {
                    let mut e = String::new();
                    e.append("scan thread died");
                    self.state = State::Error(e);
                    false
                },
            },
            _ => false,
        }
    }
}

// ------------------------------------------------------------ ways

/// Into the directory of slice `wi`; a slice of no directory leads nowhere.
pub open spec fn zoomed(a: AppV, wi: int) -> AppV {
    let w = a.wedges[wi];
    if !w.is_dir || w.path.len() == 0 {
        a
    } else {
        AppV {
            anim: Some(
                AnimV { span: (w.a0, w.a1), shift: w.ring + 1, dir_in: true, old: a.wedges },
            ),
            wedges: seq![],
            nav: a.nav + w.path,
            small_focus: false,
            ..a
        }
    }
}

/// Out of the smaller items, else out of the directory.
pub open spec fn gone_up(a: AppV) -> AppV {
    if a.small_focus {
        AppV { small_focus: false, side_sel: None, ..a }
    } else if a.nav.len() > 0 {
        AppV {
            nav: a.nav.drop_last(),
            pending_up: Some(a.nav.last()),
            side_sel: None,
            ..a
        }
    } else {
        AppV { side_sel: None, ..a }
    }
}

/// Back to a directory on the way here.
pub open spec fn back_to(a: AppV, idx: int) -> AppV {
    AppV {
        nav: if idx < a.nav.len() {
            a.nav.take(idx)
        } else {
            a.nav
        },
        small_focus: false,
        anim: None,
        ..a
    }
}

/// Into the smaller items of what is shown, or of the child that the key names.
pub open spec fn narrowed(a: AppV, key: Seq<int>) -> AppV {
    AppV {
        nav: if key.len() > 0 {
            a.nav.push(key[0])
        } else {
            a.nav
        },
        small_focus: true,
        side_sel: None,
        ..a
    }
}

/// The first slice from `i` on that the whole way leads to.
pub open spec fn wedge_on(ws: Seq<WedgeV>, path: Seq<int>, i: int) -> Option<int>
    decreases ws.len() - i,
{
    if i < 0 || i >= ws.len() {
        None
    } else if ws[i].ring + 1 == path.len() && ws[i].path == path {
        Some(i)
    } else {
        wedge_on(ws, path, i + 1)
    }
}

/// Into a directory of the side list: through its slice, where it has one.
pub open spec fn opened(a: AppV, path: Seq<int>) -> AppV {
    let b = match wedge_on(a.wedges, path, 0) {
        Some(wi) => zoomed(a, wi),
        None => AppV { nav: a.nav + path, ..a },
    };
    AppV { side_sel: None, ..b }
}

fn find_wedge(ws: &Vec<Wedge>, path: &[usize]) -> (r: Option<usize>)
    requires
        layout::well_formed(layout::wedge_views(ws@)),
    ensures
        side::index_view(r) == wedge_on(
            layout::wedge_views(ws@),
            layout::indices(path@),
            0,
        ),
        r matches Some(i) ==> i < ws@.len(),
{
    let ghost views = layout::wedge_views(ws@);
    for i in 0..ws.len()
        invariant
            views == layout::wedge_views(ws@),
            layout::well_formed(views),
            wedge_on(views, layout::indices(path@), 0) == wedge_on(
                views,
                layout::indices(path@),
                i as int,
            ),
    {
        proof {
            assert(layout::wedge_wf(views[i as int]));
        }
        if ws[i].ring + 1 == path.len() && side::same_way(ws[i].path.as_slice(), path) {
            return Some(i);
        }
    }
    None
}

fn extend(v: &mut Vec<usize>, more: &[usize])
    ensures
        layout::indices(final(v)@) == layout::indices(old(v)@) + layout::indices(more@),
{
    let ghost before = v@;
    for i in 0..more.len()
        invariant
            v@ == before + more@.take(i as int),
    {
        v.push(more[i]);
        assert(more@.take(i + 1) == more@.take(i as int).push(more@[i as int]));
    }
    assert(more@.take(more@.len() as int) == more@);
    assert(layout::indices(v@) == layout::indices(before) + layout::indices(more@));
}

impl App {
    /// Says whether an animation begins.
    pub fn zoom_into(&mut self, wi: usize) -> (begins: bool)
        requires
            wf(old(self)@),
            wi < old(self)@.wedges.len(),
        ensures
            final(self)@ == zoomed(old(self)@, wi as int),
            wf(final(self)@),
            begins == (old(self)@.wedges[wi as int].is_dir && old(self)@.wedges[wi as int].path.len()
                > 0),
    {
        proof {
            lemma_no_wedges();
            assert(layout::wedge_wf(self@.wedges[wi as int]));
        }
        let w = &self.wedges[wi];
        if !w.is_dir || w.path.len() == 0 {
            return false;
        }
        let path = slice_to_vec(w.path.as_slice());
        let span = (w.a0, w.a1);
        let shift = w.ring + 1;
        let mut outgoing: Vec<Wedge> = Vec::new();
        std::mem::swap(&mut outgoing, &mut self.wedges);
        self.anim = Some(Anim { span, shift, dir_in: true, old: outgoing });
        extend(&mut self.nav, path.as_slice());
        self.small_focus = false;
        true
    }

    pub fn go_up(&mut self)
        ensures
            final(self)@ == gone_up(old(self)@),
    {
        if self.small_focus {
            self.small_focus = false;
        } else {
            let ghost before = self.nav@;
            if let Some(pi) = self.nav.pop() {
                proof {
                    assert(layout::indices(self.nav@) == layout::indices(before).drop_last());
                }
                self.pending_up = Some(pi);
            }
        }
        self.side_sel = None;
    }

    /// The way here as text: the scan root and each directory. The last one is
    /// where one is, unless the smaller items are shown.
    pub fn crumbs(&self, scan_root: String) -> (r: Option<Vec<String>>)
        ensures
            match r {
                Some(v) => self@.state matches StateV::Ready(t) && nav::string_views(v@) == seq![
                    scan_root@,
                ] + nav::names(t, self@.nav),
                None => self@.state !is Ready,
            },
    {
        match &self.state {
            State::Ready(root) => Some(nav::crumbs(scan_root, root, self.nav.as_slice())),
            _ => None,
        }
    }

    /// The key that leads up rests while a text is typed.
    pub fn back_key(&mut self, typing: bool, pressed: bool)
        ensures
            final(self)@ == if pressed && !typing {
                gone_up(old(self)@)
            } else {
                old(self)@
            },
    {
        if pressed && !typing {
            self.go_up();
        }
    }

    /// Whether the key that closes the window does: it rests while a text is
    /// typed.
    pub fn quit_key(&self, typing: bool, pressed: bool) -> (r: bool)
        ensures
            r == (pressed && !typing),
    {
        pressed && !typing
    }

    /// Whether the crumb `idx` of `count` is where one is; any other leads back.
    pub fn is_here(&self, idx: usize, count: usize) -> (r: bool)
        requires
            idx < count,
        ensures
            r == (idx + 1 == count && !self@.small_focus),
    {
        idx + 1 == count && !self.small_focus
    }

    /// Whether there is a way up.
    pub fn can_go_up(&self) -> (r: bool)
        ensures
            r == (self@.nav.len() > 0 || self@.small_focus),
            !r ==> gone_up(self@) == (AppV { side_sel: None, ..self@ }),
    {
        self.nav.len() > 0 || self.small_focus
    }

    pub fn crumb_clicked(&mut self, idx: usize)
        ensures
            final(self)@ == back_to(old(self)@, idx as int),
    {
        let ghost before = self.nav@;
        if idx < self.nav.len() {
            self.nav.truncate(idx);
            proof {
                assert(layout::indices(self.nav@) == layout::indices(before).take(idx as int));
            }
        }
        self.small_focus = false;
        self.anim = None;
    }

    pub fn small_toggled(&mut self, key: &[usize])
        ensures
            final(self)@ == narrowed(old(self)@, layout::indices(key@)),
    {
        let ghost before = self.nav@;
        if key.len() > 0 {
            self.nav.push(key[0]);
            proof {
                assert(layout::indices(self.nav@) == layout::indices(before).push(key@[0] as int));
            }
        }
        self.small_focus = true;
        self.side_sel = None;
    }

    /// Says whether an animation begins.
    pub fn side_clicked(&mut self, path: &[usize]) -> (begins: bool)
        requires
            wf(old(self)@),
        ensures
            final(self)@ == opened(old(self)@, layout::indices(path@)),
            wf(final(self)@),
            begins == (wedge_on(old(self)@.wedges, layout::indices(path@), 0) matches Some(wi)
                && old(self)@.wedges[wi].is_dir && path@.len() > 0),
    {
        let begins = match find_wedge(&self.wedges, path) {
            Some(wi) => {
                proof {
                    lemma_wedge_on(self@.wedges, layout::indices(path@), 0);
                }
                self.zoom_into(wi)
            },
            None => {
                extend(&mut self.nav, path);
                false
            },
        };
        self.side_sel = None;
        begins
    }
}

proof fn lemma_wedge_on(ws: Seq<WedgeV>, path: Seq<int>, i: int)
    requires
        0 <= i,
    ensures
        wedge_on(ws, path, i) matches Some(n) ==> i <= n < ws.len() && ws[n].path == path
            && ws[n].ring + 1 == path.len(),
    decreases ws.len() - i,
{
    if i < ws.len() && !(ws[i].ring + 1 == path.len() && ws[i].path == path) {
        lemma_wedge_on(ws, path, i + 1);
    }
}

// ------------------------------------------------------------ frames

/// The first slice from `i` on that is that of child `child`.
pub open spec fn slice_of(ws: Seq<WedgeV>, child: int, i: int) -> Option<int>
    decreases ws.len() - i,
{
    if i < 0 || i >= ws.len() {
        None
    } else if ws[i].ring == 0 && ws[i].path == seq![child] {
        Some(i)
    } else {
        slice_of(ws, child, i + 1)
    }
}

/// The slice that the chart closes to, where a directory was just left.
pub open spec fn closing(a: AppV, ws: Seq<WedgeV>) -> Option<int> {
    match a.pending_up {
        Some(child) => slice_of(ws, child, 0),
        None => None,
    }
}

/// The chart of this frame is there: where a directory was just left, it closes
/// to that directory's slice.
pub open spec fn framed(a: AppV, ws: Seq<WedgeV>) -> AppV {
    AppV {
        wedges: ws,
        pending_up: None,
        anim: match closing(a, ws) {
            Some(i) => Some(
                AnimV {
                    span: (ws[i].a0, ws[i].a1),
                    shift: 1,
                    dir_in: false,
                    old: seq![],
                },
            ),
            None => a.anim,
        },
        ..a
    }
}

/// What one sees of what was found.
pub open spec fn seen(a: AppV) -> look::LookV
    recommends
        a.state is Ready,
{
    let t = a.state->Ready_0;
    look::look_at(
        nav::displayed_place(a.scan_root, t, a.nav),
        nav::displayed_tree(t, a.nav),
        a.small_focus,
    )
}

fn find_slice(ws: &Vec<Wedge>, child: usize) -> (r: Option<usize>)
    ensures
        side::index_view(r) == slice_of(layout::wedge_views(ws@), child as int, 0),
        r matches Some(i) ==> i < ws@.len(),
{
    let ghost views = layout::wedge_views(ws@);
    for i in 0..ws.len()
        invariant
            views == layout::wedge_views(ws@),
            slice_of(views, child as int, 0) == slice_of(views, child as int, i as int),
    {
        proof {
            let p = layout::indices(ws@[i as int].path@);
            assert(views[i as int].path == p);
            if p.len() == 1 && p[0] == child {
                assert(p == seq![child as int]);
            }
            assert(seq![child as int].len() == 1 && seq![child as int][0] == child);
        }
        if ws[i].ring == 0 && ws[i].path.len() == 1 && ws[i].path[0] == child {
            return Some(i);
        }
    }
    None
}

/// What a frame shows beside the chart.
pub struct Frame {
    pub size: u64,
    pub name: String,
    pub rows: Vec<SideRow>,
    /// Whether an animation begins.
    pub begins: bool,
}

impl App {
    /// Lays out what was found; nothing where no scan is done, or where a size
    /// is too great for the machine.
    pub fn show(&mut self) -> (r: Option<Frame>)
        requires
            wf(old(self)@),
        ensures
            wf(final(self)@),
            match r {
                Some(f) => {
                    &&& old(self)@.state is Ready
                    &&& look::fitting(seen(old(self)@))
                    &&& final(self)@ == framed(old(self)@, seen(old(self)@).wedges)
                    &&& f.size == seen(old(self)@).size
                    &&& f.size >= 1
                    &&& f.name@ == seen(old(self)@).name
                    &&& side::row_views(f.rows@) == seen(old(self)@).rows
                    &&& f.begins == (closing(old(self)@, seen(old(self)@).wedges) is Some)
                },
                None => {
                    &&& final(self)@ == old(self)@
                    &&& old(self)@.state is Ready ==> !look::fitting(seen(old(self)@))
                },
            },
    {
        let seen = match &self.state {
            State::Ready(root) => match look::look(
                self.scan_root.as_slice(),
                root,
                self.nav.as_slice(),
                self.small_focus,
            ) {
                Some(l) => l,
                None => {
                    return None;
                },
            },
            _ => {
                return None;
            },
        };
        proof {
            lemma_no_wedges();
        }
        let Look { size, name, wedges, rows } = seen;
        self.wedges = wedges;
        let mut begins = false;
        if let Some(child) = self.pending_up {
            self.pending_up = None;
            if let Some(i) = find_slice(&self.wedges, child) {
                proof {
                    assert(layout::wedge_wf(self@.wedges[i as int]));
                }
                let w = &self.wedges[i];
                let span = (w.a0, w.a1);
                self.anim = Some(Anim { span, shift: 1, dir_in: false, old: Vec::new() });
                begins = true;
            }
        }
        Some(Frame { size, name, rows, begins })
    }

    /// The row to light for the slice under the pointer.
    pub fn hover_row(&self, rows: &Vec<SideRow>) -> (r: Option<usize>)
        ensures
            cursor::is_hover_row(
                side::row_views(rows@),
                match self@.hovered {
                    Some(h) if h < self@.wedges.len() => Some(self@.wedges[h]),
                    _ => None,
                },
                side::index_view(r),
            ),
    {
        let hovered = match self.hovered {
            Some(h) => if h < self.wedges.len() {
                Some(&self.wedges[h])
            } else {
                None
            },
            None => None,
        };
        cursor::hover_row(rows, hovered)
    }

    /// The keys act while nothing is typed and nothing is to be confirmed. Says
    /// whether to scroll to the cursor, and what was chosen.
    pub fn keys(&mut self, rows: &Vec<SideRow>, typing: bool, keys: Keys) -> (r: (bool, Choice))
        requires
            !typing && !modal(old(self)@) && rows@.len() > 0 && keys.up && !keys.down ==> (
            old(self)@.side_sel matches Some(at) ==> at <= rows@.len()),
        ensures
            ({
                let a = old(self)@;
                let views = side::row_views(rows@);
                let sel = cursor::moved(views, a.side_sel, a.pending_g, keys);
                if typing || modal(a) || rows@.len() == 0 {
                    &&& final(self)@ == a
                    &&& !r.0
                    &&& r.1@ == ChoiceV::Nothing
                } else {
                    &&& final(self)@ == (AppV {
                        side_sel: sel,
                        pending_g: cursor::waiting(a.pending_g, keys),
                        ..a
                    })
                    &&& r.0 == (sel != a.side_sel && sel is Some)
                    &&& r.1@ == if keys.act {
                        cursor::chosen(views, sel)
                    } else {
                        ChoiceV::Nothing
                    }
                }
            }),
    {
        if typing || self.is_modal() || rows.len() == 0 {
            return (false, Choice::Nothing);
        }
        let before = self.side_sel;
        let (sel, waiting) = cursor::move_cursor(rows, self.side_sel, self.pending_g, keys);
        self.side_sel = sel;
        self.pending_g = waiting;
        let scroll = match (sel, before) {
            (Some(to), Some(from)) => to != from,
            (Some(_), None) => true,
            _ => false,
        };
        let choice = if keys.act {
            cursor::choose_row(rows, sel)
        } else {
            Choice::Nothing
        };
        (scroll, choice)
    }

    /// Whether something is to be confirmed.
    pub fn is_modal(&self) -> (r: bool)
        ensures
            r == modal(self@),
    {
        self.pending_trash.is_some() || self.pending_empty
    }

    /// Keeps the cursor on a row.
    pub fn park(&mut self, rows: &Vec<SideRow>)
        ensures
            final(self)@ == (AppV {
                side_sel: cursor::parked(side::row_views(rows@), old(self)@.side_sel),
                ..old(self)@
            }),
    {
        self.side_sel = cursor::park(rows, self.side_sel);
    }

    /// Whether a row is the one that is lit: the one for the slice under the
    /// pointer, else the cursor's.
    pub fn row_lit(&self, hover_row: Option<usize>, row: usize) -> (r: bool)
        ensures
            r == row_shines(self@, side::index_view(hover_row), row as int),
    {
        match hover_row {
            Some(h) => h == row,
            None => match self.side_sel {
                Some(s) => s == row,
                None => false,
            },
        }
    }
}

/// The row for the slice under the pointer is lit, else the cursor's.
pub open spec fn row_shines(a: AppV, hover_row: Option<int>, row: int) -> bool {
    match hover_row {
        Some(h) => h == row,
        None => a.side_sel == Some(row),
    }
}

/// At most one row is lit.
pub proof fn law_one_row_lit(a: AppV, hover_row: Option<int>, i: int, j: int)
    requires
        row_shines(a, hover_row, i),
        row_shines(a, hover_row, j),
    ensures
        i == j,
{
}

/// Whether something is to be confirmed.
pub open spec fn modal(a: AppV) -> bool {
    a.pending_trash is Some || a.pending_empty
}

// ------------------------------------------------------------ the pointer

/// The first ring from `i` on that reaches from no further to no nearer.
pub open spec fn ring_at(rings: Seq<(Sgl, Sgl)>, r: Sgl, i: int) -> Option<int>
    decreases rings.len() - i,
{
    if i < 0 || i >= rings.len() {
        None
    } else if single::at_most(rings[i].0, r) && single::at_most(r, rings[i].1) {
        Some(i)
    } else {
        ring_at(rings, r, i + 1)
    }
}

/// The first slice of a ring from `i` on that the angle lies in.
pub open spec fn wedge_at(ws: Seq<WedgeV>, ring: int, angle: Sgl, i: int) -> Option<int>
    decreases ws.len() - i,
{
    if i < 0 || i >= ws.len() {
        None
    } else if ws[i].ring == ring && single::at_most(ws[i].a0, angle) && single::less(
        angle,
        ws[i].a1,
    ) {
        Some(i)
    } else {
        wedge_at(ws, ring, angle, i + 1)
    }
}

/// The first lump of the innermost ring from `i` on.
pub open spec fn inner_lump(ws: Seq<WedgeV>, i: int) -> Option<int>
    decreases ws.len() - i,
{
    if i < 0 || i >= ws.len() {
        None
    } else if ws[i].lump && ws[i].ring == 0 {
        Some(i)
    } else {
        inner_lump(ws, i + 1)
    }
}

/// The slice at a distance from the centre, and at an angle.
pub open spec fn hit(ws: Seq<WedgeV>, rings: Seq<(Sgl, Sgl)>, r: Sgl, angle: Sgl) -> Option<int> {
    match ring_at(rings, r, 0) {
        Some(ring) => wedge_at(ws, ring, angle, 0),
        None => None,
    }
}

/// The slice for the row under the pointer.
pub open spec fn side_hit(a: AppV) -> Option<int> {
    match a.side_hover {
        Some(p) => if p.len() == 0 {
            inner_lump(a.wedges, 0)
        } else {
            wedge_on(a.wedges, p, 0)
        },
        None => None,
    }
}

/// Where the pointer is, if it is on the chart: a distance and an angle.
pub open spec fn pointer(at: Option<(Single, Single)>) -> Option<(Sgl, Sgl)> {
    match at {
        Some((r, angle)) => Some((r@, angle@)),
        None => None,
    }
}

/// The slice to light: that under the pointer, else that of the row under it.
/// None while an animation runs.
pub open spec fn pointed(
    a: AppV,
    at: Option<(Sgl, Sgl)>,
    hub: Sgl,
    rings: Seq<(Sgl, Sgl)>,
) -> Option<int> {
    if a.anim is Some {
        None
    } else {
        let h = match at {
            Some((r, angle)) => if single::less(r, hub) {
                None
            } else {
                hit(a.wedges, rings, r, angle)
            },
            None => None,
        };
        if h is Some {
            h
        } else {
            side_hit(a)
        }
    }
}

/// There is such a slice.
pub open spec fn aimed(a: AppV) -> bool {
    a.hovered matches Some(h) ==> 0 <= h < a.wedges.len()
}

fn find_ring(rings: &Vec<(Single, Single)>, r: Single) -> (k: Option<usize>)
    requires
        single::wf(r@),
        forall|i: int|
            0 <= i < rings@.len() ==> single::wf((#[trigger] rings@[i]).0@) && single::wf(
                rings@[i].1@,
            ),
    ensures
        side::index_view(k) == ring_at(rings::bound_views(rings@), r@, 0),
{
    let ghost views = rings::bound_views(rings@);
    for i in 0..rings.len()
        invariant
            single::wf(r@),
            views == rings::bound_views(rings@),
            forall|j: int|
                0 <= j < rings@.len() ==> single::wf((#[trigger] rings@[j]).0@) && single::wf(
                    rings@[j].1@,
                ),
            ring_at(views, r@, 0) == ring_at(views, r@, i as int),
    {
        proof {
            assert(views[i as int] == (rings@[i as int].0@, rings@[i as int].1@));
        }
        let (r0, r1) = rings[i];
        if r0.upto(r) && r.upto(r1) {
            return Some(i);
        }
    }
    None
}

fn find_wedge_at(ws: &Vec<Wedge>, ring: usize, angle: Single) -> (r: Option<usize>)
    requires
        layout::well_formed(layout::wedge_views(ws@)),
        single::wf(angle@),
    ensures
        side::index_view(r) == wedge_at(layout::wedge_views(ws@), ring as int, angle@, 0),
        r matches Some(i) ==> i < ws@.len(),
{
    let ghost views = layout::wedge_views(ws@);
    for i in 0..ws.len()
        invariant
            views == layout::wedge_views(ws@),
            layout::well_formed(views),
            single::wf(angle@),
            wedge_at(views, ring as int, angle@, 0) == wedge_at(
                views,
                ring as int,
                angle@,
                i as int,
            ),
    {
        proof {
            assert(layout::wedge_wf(views[i as int]));
        }
        if ws[i].ring == ring && ws[i].a0.upto(angle) && angle.under(ws[i].a1) {
            return Some(i);
        }
    }
    None
}

fn find_inner_lump(ws: &Vec<Wedge>) -> (r: Option<usize>)
    ensures
        side::index_view(r) == inner_lump(layout::wedge_views(ws@), 0),
        r matches Some(i) ==> i < ws@.len(),
{
    let ghost views = layout::wedge_views(ws@);
    for i in 0..ws.len()
        invariant
            views == layout::wedge_views(ws@),
            inner_lump(views, 0) == inner_lump(views, i as int),
    {
        proof {
            assert(views[i as int] == ws@[i as int]@);
        }
        if ws[i].lump && ws[i].ring == 0 {
            return Some(i);
        }
    }
    None
}

/// How the pointer looks over the chart.
#[derive(Clone, Copy, PartialEq, Eq, Structural, Debug)]
pub enum Icon {
    Plain,
    Hand,
    Grabbing,
}

/// A hand over anything that can be clicked or dragged.
pub open spec fn icon_for(a: AppV, on_chart: bool, on_hub: bool) -> Icon {
    if a.dragging is Some {
        Icon::Grabbing
    } else if on_chart && (on_hub || (a.hovered matches Some(h) && h < a.wedges.len() && (
    a.wedges[h].is_dir || a.wedges[h].lump || a.wedges[h].abs is Some))) {
        Icon::Hand
    } else {
        Icon::Plain
    }
}

/// Whether a slice is under the pointer, or dragged.
pub open spec fn touched(a: AppV, wi: int) -> bool {
    a.anim is None && (a.hovered == Some(wi) || a.dragging == Some(wi))
}

/// Whether a slice is lit: one that is touched, and all that lead to the one
/// under the pointer.
pub open spec fn lit(a: AppV, wi: int) -> bool {
    touched(a, wi) || (a.anim is None && (a.hovered matches Some(h) && a.wedges[wi].path.len() > 0
        && cursor::leads_by(a.wedges[h].path, a.wedges[wi].path)))
}

/// What was dragged is let go: over the trash it is to be confirmed.
pub open spec fn dropped(a: AppV, over_trash: bool) -> AppV {
    AppV {
        dragging: None,
        pending_trash: match a.dragging {
            Some(d) => if over_trash && 0 <= d < a.wedges.len() && a.wedges[d].abs is Some {
                Some((a.wedges[d].abs->0, a.wedges[d].name))
            } else {
                a.pending_trash
            },
            None => a.pending_trash,
        },
        ..a
    }
}

/// A click on the hub goes up, one on the innermost lump to the smaller items,
/// one on a directory into it. None counts while an animation runs.
pub open spec fn clicked_on(a: AppV, on_hub: bool) -> AppV {
    if a.anim is Some {
        a
    } else if on_hub {
        gone_up(a)
    } else {
        match a.hovered {
            Some(wi) => if a.wedges[wi].lump && a.wedges[wi].ring == 0 && !a.small_focus {
                AppV { small_focus: true, ..a }
            } else {
                zoomed(a, wi)
            },
            None => a,
        }
    }
}

impl App {
    /// The animation has ended.
    pub fn anim_done(&mut self)
        ensures
            final(self)@ == (AppV { anim: None, ..old(self)@ }),
    {
        self.anim = None;
    }

    /// Takes note of where the pointer is. Says whether it is on the hub, where
    /// that leads up.
    pub fn hover(
        &mut self,
        at: Option<(Single, Single)>,
        hub_r: Single,
        rings: &Vec<(Single, Single)>,
    ) -> (on_hub: bool)
        requires
            wf(old(self)@),
            single::wf(hub_r@),
            at matches Some((r, angle)) ==> single::wf(r@) && single::wf(angle@),
            forall|i: int|
                0 <= i < rings@.len() ==> single::wf((#[trigger] rings@[i]).0@) && single::wf(
                    rings@[i].1@,
                ),
        ensures
            final(self)@ == (AppV {
                hovered: pointed(
                    old(self)@,
                    pointer(at),
                    hub_r@,
                    rings::bound_views(rings@),
                ),
                ..old(self)@
            }),
            wf(final(self)@),
            aimed(final(self)@),
            on_hub == (old(self)@.anim is None && old(self)@.nav.len() > 0 && (pointer(
                at,
            ) matches Some((r, _)) && single::less(r, hub_r@))),
    {
        self.hovered = None;
        if self.anim.is_some() {
            return false;
        }
        let mut on_hub = false;
        if let Some((r, angle)) = at {
            if r.under(hub_r) {
                on_hub = self.nav.len() > 0;
            } else if let Some(ring) = find_ring(rings, r) {
                self.hovered = find_wedge_at(&self.wedges, ring, angle);
            }
        }
        if self.hovered.is_none() {
            if let Some(p) = &self.side_hover {
                self.hovered = if p.len() == 0 {
                    find_inner_lump(&self.wedges)
                } else {
                    find_wedge(&self.wedges, p.as_slice())
                };
            }
        }
        on_hub
    }

    pub fn drag_started(&mut self)
        ensures
            final(self)@ == (AppV { dragging: old(self)@.hovered, ..old(self)@ }),
    {
        self.dragging = self.hovered;
    }

    pub fn drag_stopped(&mut self, over_trash: bool)
        ensures
            final(self)@ == dropped(old(self)@, over_trash),
    {
        if over_trash {
            if let Some(d) = self.dragging {
                if d < self.wedges.len() {
                    let found = match &self.wedges[d].abs {
                        Some(p) => Some((slice_to_vec(p.as_slice()), self.wedges[d].name.clone())),
                        None => None,
                    };
                    if found.is_some() {
                        self.pending_trash = found;
                    }
                }
            }
        }
        self.dragging = None;
    }

    /// Says whether an animation begins.
    pub fn clicked(&mut self, on_hub: bool) -> (begins: bool)
        requires
            wf(old(self)@),
            aimed(old(self)@),
        ensures
            final(self)@ == clicked_on(old(self)@, on_hub),
            wf(final(self)@),
            begins == (final(self)@.anim != old(self)@.anim),
    {
        if self.anim.is_some() {
            return false;
        }
        if on_hub {
            self.go_up();
            return false;
        }
        match self.hovered {
            Some(wi) => {
                if self.wedges[wi].lump && self.wedges[wi].ring == 0 && !self.small_focus {
                    self.small_focus = true;
                    false
                } else {
                    self.zoom_into(wi)
                }
            },
            None => false,
        }
    }

    pub fn icon(&self, on_chart: bool, on_hub: bool) -> (r: Icon)
        ensures
            r == icon_for(self@, on_chart, on_hub),
    {
        if self.dragging.is_some() {
            return Icon::Grabbing;
        }
        if !on_chart {
            return Icon::Plain;
        }
        let on_wedge = match self.hovered {
            Some(h) => h < self.wedges.len() && (self.wedges[h].is_dir || self.wedges[h].lump
                || self.wedges[h].abs.is_some()),
            None => false,
        };
        if on_hub || on_wedge {
            Icon::Hand
        } else {
            Icon::Plain
        }
    }

    pub fn is_touched(&self, wi: usize) -> (r: bool)
        ensures
            r == touched(self@, wi as int),
    {
        self.anim.is_none() && (same_index(self.hovered, wi) || same_index(self.dragging, wi))
    }

    pub fn is_lit(&self, wi: usize) -> (r: bool)
        requires
            aimed(self@),
            wi < self@.wedges.len(),
        ensures
            r == lit(self@, wi as int),
    {
        if self.anim.is_some() {
            return false;
        }
        if self.is_touched(wi) {
            return true;
        }
        match self.hovered {
            Some(h) => self.wedges[wi].path.len() > 0 && cursor::is_start(
                self.wedges[h].path.as_slice(),
                self.wedges[wi].path.as_slice(),
            ),
            None => false,
        }
    }
}

fn same_index(a: Option<usize>, b: usize) -> (r: bool)
    ensures
        r == (side::index_view(a) == Some(b as int)),
{
    match a {
        Some(n) => n == b,
        None => false,
    }
}

// ------------------------------------------------------------ the trash

impl App {
    /// The trash was measured, and emptied before where that was asked for. Says
    /// what to tell of that.
    pub fn trash_measured(&mut self, size: u64, emptied: Option<bool>) -> (r: Option<&'static str>)
        ensures
            final(self)@ == (AppV { trash_size: Some(size as int), ..old(self)@ }),
            match emptied {
                Some(true) => r matches Some(m) && m@ == "Trash emptied"@,
                Some(false) => r matches Some(m) && m@ == "Couldn't empty some Trash items"@,
                None => r is None,
            },
    {
        self.trash_size = Some(size);
        match emptied {
            Some(true) => Some("Trash emptied"),
            Some(false) => Some("Couldn't empty some Trash items"),
            None => None,
        }
    }

    /// Something was moved to the trash, or was to be: the same root is scanned
    /// again, as admin where such a scan runs. Says whether it is.
    pub fn trashed(&mut self, shown: String, mounts: Vec<Mount>) -> (admin: bool)
        requires
            wf(old(self)@),
        ensures
            admin == (old(self)@.state == (StateV::Scanning { admin: true })),
            final(self)@ == begun(
                old(self)@,
                old(self)@.scan_root,
                shown@,
                admin,
                mounts::mount_views(mounts@),
            ),
            wf(final(self)@),
    {
        let admin = match self.state {
            State::Scanning { admin } => admin,
            _ => false,
        };
        let root = slice_to_vec(self.scan_root.as_slice());
        self.begin_scan(root, shown, admin, mounts);
        admin
    }
}

// ------------------------------------------------------------ laws

/// Going up `n` times.
pub open spec fn ups(a: AppV, n: nat) -> AppV
    decreases n,
{
    if n == 0 {
        a
    } else {
        ups(gone_up(a), (n - 1) as nat)
    }
}

proof fn lemma_ups(a: AppV, nav: Seq<int>, path: Seq<int>)
    requires
        a.nav == nav + path,
        !a.small_focus,
    ensures
        ups(a, path.len()).nav == nav,
        !ups(a, path.len()).small_focus,
        path.len() > 0 ==> ups(a, path.len()).side_sel is None,
        path.len() > 0 ==> ups(a, path.len()).pending_up == Some(path[0]),
    decreases path.len(),
{
    if path.len() == 0 {
        assert(nav + path == nav);
    } else {
        assert((nav + path).drop_last() == nav + path.drop_last());
        lemma_ups(gone_up(a), nav, path.drop_last());
        if path.len() == 1 {
            assert(ups(gone_up(a), 0) == gone_up(a));
        }
    }
}

/// Going up as often as a slice lies rings out, and once for its own, leads
/// back from where the slice led: to all items of that directory, without a
/// cursor, and out of the child that the way went through.
pub proof fn law_up_undoes_zoom(a: AppV, wi: int)
    requires
        0 <= wi < a.wedges.len(),
        a.wedges[wi].is_dir,
    ensures
        ({
            let path = a.wedges[wi].path;
            let b = ups(zoomed(a, wi), path.len());
            &&& b.nav == a.nav
            &&& path.len() > 0 ==> {
                &&& !b.small_focus
                &&& b.side_sel is None
                &&& b.pending_up == Some(path[0])
            }
        }),
{
    let w = a.wedges[wi];
    if w.path.len() > 0 {
        lemma_ups(zoomed(a, wi), a.nav, w.path);
    }
}

/// Going up leaves the smaller items first, and then the directory.
pub proof fn law_up_leaves_smaller(a: AppV, child: int)
    ensures
        gone_up(narrowed(a, seq![])).nav == a.nav,
        !gone_up(narrowed(a, seq![])).small_focus,
        gone_up(gone_up(narrowed(a, seq![child]))).nav == a.nav,
{
    assert(a.nav.push(child).drop_last() == a.nav);
}

/// The chart is that of what was found.
pub open spec fn current(a: AppV) -> bool {
    a.state is Ready && a.wedges == seen(a).wedges
}

/// The slice of a directory opens that directory: what is shown then has its
/// name and its size.
pub proof fn law_zoom_shows(a: AppV, wi: int)
    requires
        current(a),
        0 <= wi < a.wedges.len(),
        a.wedges[wi].is_dir,
    ensures
        ({
            let t = nav::displayed_tree(a.state->Ready_0, zoomed(a, wi).nav);
            t.is_dir && t.name == a.wedges[wi].name && t.size == a.wedges[wi].size
        }),
{
    let t = a.state->Ready_0;
    let place = nav::displayed_place(a.scan_root, t, a.nav);
    let shown = nav::displayed_tree(t, a.nav);
    look::law_wedge_leads(place, shown, a.small_focus, wi);
    nav::law_displayed_on(t, a.nav, a.wedges[wi].path);
}

/// A row of the side list opens what it names, whether it has a slice or not.
pub proof fn law_row_opens(a: AppV, n: int)
    requires
        current(a),
        0 <= n < seen(a).rows.len(),
        seen(a).rows[n].kind matches side::KindV::Item { is_dir, .. } && is_dir,
    ensures
        ({
            let path = seen(a).rows[n].kind->path;
            let t = nav::displayed_tree(a.state->Ready_0, opened(a, path).nav);
            t.is_dir && seen(a).rows[n].label == sizes::row_text(t, seen(a).size)
        }),
{
    let t = a.state->Ready_0;
    let place = nav::displayed_place(a.scan_root, t, a.nav);
    let shown = nav::displayed_tree(t, a.nav);
    let path = seen(a).rows[n].kind->path;
    look::law_row_leads(place, shown, a.small_focus, n);
    nav::law_displayed_on(t, a.nav, path);
    lemma_wedge_on(a.wedges, path, 0);
    if let Some(wi) = wedge_on(a.wedges, path, 0) {
        look::law_wedge_leads(place, shown, a.small_focus, wi);
    }
}

/// What is dropped on the trash is the item of the slice that was dragged: its
/// name, and its own path. A lump is none.
pub proof fn law_trash_is_dragged(a: AppV, wi: int)
    requires
        current(a),
        0 <= wi < a.wedges.len(),
        a.dragging == Some(wi),
    ensures
        dropped(a, true).pending_trash == if a.wedges[wi].lump {
            a.pending_trash
        } else {
            Some(
                (
                    nav::displayed_place(
                        a.scan_root,
                        a.state->Ready_0,
                        a.nav + a.wedges[wi].path,
                    ),
                    a.wedges[wi].name,
                ),
            )
        },
        dropped(a, false).pending_trash == a.pending_trash,
{
    let t = a.state->Ready_0;
    let place = nav::displayed_place(a.scan_root, t, a.nav);
    let shown = nav::displayed_tree(t, a.nav);
    look::law_wedge_leads(place, shown, a.small_focus, wi);
    nav::law_place_on(a.scan_root, t, a.nav, a.wedges[wi].path);
}

} // verus!
