//! The scanned tree, and the text form in which one process hands it to
//! another: a line per node, `depth`, `is_dir`, `size` and `name` between tabs.

use vstd::prelude::*;
use vstd::slice::slice_subrange;

use crate::text;

verus! {

/// A file, or a directory with what it holds.
pub struct Node {
    pub name: String,
    pub size: u64,
    pub is_dir: bool,
    pub children: Vec<Node>,
}

/// What a [`Node`] stands for.
pub ghost struct Tree {
    pub name: Seq<char>,
    pub size: int,
    pub is_dir: bool,
    pub children: Seq<Tree>,
}

impl Node {
    pub open spec fn tree(self) -> Tree
        decreases self,
    {
        Tree {
            name: self.name@,
            size: self.size as int,
            is_dir: self.is_dir,
            children: Seq::new(
                self.children@.len(),
                |i: int|
                    if 0 <= i < self.children@.len() {
                        self.children@[i].tree()
                    } else {
                        arbitrary()
                    },
            ),
        }
    }
}

impl View for Node {
    type V = Tree;

    open spec fn view(&self) -> Tree {
        self.tree()
    }
}

/// The trees of some nodes.
pub open spec fn trees(s: Seq<Node>) -> Seq<Tree> {
    Seq::new(s.len(), |i: int| s[i]@)
}

pub proof fn lemma_tree_children(n: Node)
    ensures
        n@.children == trees(n.children@),
{
    assert(n@.children =~= trees(n.children@));
}

/// One node on a line of its own, with its distance from the root.
pub ghost struct Rec {
    pub level: int,
    pub is_dir: bool,
    pub size: int,
    pub name: Seq<char>,
}

/// The nodes of a tree, each before what it holds.
pub open spec fn flatten(t: Tree, level: int) -> Seq<Rec>
    decreases t, 0int,
{
    seq![Rec { level, is_dir: t.is_dir, size: t.size, name: t.name }] + flatten_all(
        t.children,
        level + 1,
    )
}

/// The nodes of some trees that stand side by side.
pub open spec fn flatten_all(ts: Seq<Tree>, level: int) -> Seq<Rec>
    decreases ts, ts.len(),
{
    if ts.len() == 0 {
        seq![]
    } else {
        flatten(ts[0], level) + flatten_all(ts.skip(1), level)
    }
}

/// How far below its root a tree reaches.
pub open spec fn height(t: Tree) -> nat
    decreases t, 0int,
{
    if t.children.len() == 0 {
        0
    } else {
        1 + height_all(t.children)
    }
}

/// The greatest height among some trees.
pub open spec fn height_all(ts: Seq<Tree>) -> nat
    decreases ts, ts.len(),
{
    if ts.len() == 0 {
        0
    } else {
        let h = height(ts[0]);
        let r = height_all(ts.skip(1));
        if h > r {
            h
        } else {
            r
        }
    }
}

/// The size of some trees together.
pub open spec fn total(ts: Seq<Tree>) -> int
    decreases ts.len(),
{
    if ts.len() == 0 {
        0
    } else {
        total(ts.drop_last()) + ts.last().size
    }
}

proof fn lemma_total_remove(ts: Seq<Tree>, i: int)
    requires
        0 <= i < ts.len(),
    ensures
        total(ts.remove(i)) == total(ts) - ts[i].size,
    decreases ts.len(),
{
    if i == ts.len() - 1 {
        assert(ts.remove(i) == ts.drop_last());
    } else {
        lemma_total_remove(ts.drop_last(), i);
        assert(ts.remove(i).drop_last() == ts.drop_last().remove(i));
        assert(ts.remove(i).last() == ts.last());
    }
}

pub proof fn lemma_total_permuted(a: Seq<Tree>, b: Seq<Tree>)
    requires
        a.to_multiset() == b.to_multiset(),
    ensures
        total(a) == total(b),
    decreases a.len(),
{
    broadcast use vstd::seq_lib::group_to_multiset_ensures;

    if a.len() == 0 {
        assert(b.to_multiset().len() == 0);
    } else {
        let x = a.last();
        assert(a.to_multiset().count(x) > 0);
        assert(b.contains(x));
        let i = choose|i: int| 0 <= i < b.len() && b[i] == x;
        lemma_total_remove(b, i);
        assert(a.remove(a.len() - 1) == a.drop_last());
        vstd::seq_lib::to_multiset_remove(a, a.len() - 1);
        vstd::seq_lib::to_multiset_remove(b, i);
        lemma_total_permuted(a.drop_last(), b.remove(i));
    }
}

/// The sizes of the nodes from `from` on together, where that is a size.
pub fn total_from(nodes: &[Node], from: usize) -> (r: Option<u64>)
    requires
        from <= nodes@.len(),
    ensures
        match r {
            Some(n) => n == total(trees(nodes@).skip(from as int)),
            None => total(trees(nodes@).skip(from as int)) > u64::MAX,
        },
{
    let mut sum: u128 = 0;
    let ghost ts = trees(nodes@);
    proof {
        assert(ts.subrange(from as int, from as int) == Seq::<Tree>::empty());
    }
    for i in from..nodes.len()
        invariant
            ts == trees(nodes@),
            from <= i <= nodes@.len(),
            sum == total(ts.subrange(from as int, i as int)),
            sum <= (i - from) * 0xffff_ffff_ffff_ffff,
    {
        proof {
            let next = ts.subrange(from as int, i + 1);
            assert(next.drop_last() == ts.subrange(from as int, i as int));
            assert(next.last() == nodes@[i as int]@);
        }
        sum = sum + nodes[i].size as u128;
    }
    proof {
        assert(ts.subrange(from as int, ts.len() as int) == ts.skip(from as int));
    }
    if sum <= u64::MAX as u128 {
        Some(sum as u64)
    } else {
        None
    }
}

// ------------------------------------------------------------ writing

/// The line of a node.
pub open spec fn line(r: Rec) -> Seq<char> {
    text::decimal(r.level) + seq!['\t', if r.is_dir {
        '1'
    } else {
        '0'
    }, '\t'] + text::decimal(r.size) + seq!['\t'] + text::escaped(r.name)
}

/// The lines of some nodes.
pub open spec fn report(rs: Seq<Rec>) -> Seq<char>
    decreases rs.len(),
{
    if rs.len() == 0 {
        seq![]
    } else {
        line(rs[0]) + seq!['\n'] + report(rs.skip(1))
    }
}

pub proof fn lemma_report_add(a: Seq<Rec>, b: Seq<Rec>)
    ensures
        report(a + b) == report(a) + report(b),
    decreases a.len(),
{
    if a.len() == 0 {
        assert(a + b == b);
    } else {
        lemma_report_add(a.skip(1), b);
        assert((a + b).skip(1) == a.skip(1) + b);
    }
}

/// Whether a tree reaches no further than so many levels below its root.
fn within(node: &Node, levels: usize) -> (r: bool)
    ensures
        r == (height(node@) <= levels),
    decreases node,
{
    let ghost kids = node@.children;
    proof {
        lemma_tree_children(*node);
        assert(kids.skip(0) == kids);
    }
    if node.children.len() == 0 {
        return true;
    }
    if levels == 0 {
        return false;
    }
    for i in 0..node.children.len()
        invariant
            levels > 0,
            kids == node@.children,
            kids == trees(node.children@),
            height_all(kids) <= levels - 1 <==> height_all(kids.skip(i as int)) <= levels - 1,
    {
        proof {
            assert(kids.skip(i as int)[0] == kids[i as int]);
            assert(kids.skip(i as int).skip(1) == kids.skip(i + 1));
        }
        if !within(&node.children[i], levels - 1) {
            return false;
        }
    }
    proof {
        assert(kids.skip(kids.len() as int) == Seq::<Tree>::empty());
    }
    true
}

fn write_tree(node: &Node, depth: usize, w: &mut String)
    requires
        depth + height(node@) <= usize::MAX,
    ensures
        final(w)@ == old(w)@ + report(flatten(node@, depth as int)),
    decreases node,
{
    let ghost before = w@;
    let ghost kids = node@.children;
    proof {
        lemma_tree_children(*node);
    }
    text::push_decimal(w, depth as u128);
    w.push('\t');
    w.push(
        if node.is_dir {
            '1'
        } else {
            '0'
        },
    );
    w.push('\t');
    text::push_decimal(w, node.size as u128);
    w.push('\t');
    let name = text::esc(node.name.as_str());
    w.append(name.as_str());
    w.push('\n');
    let ghost root = Rec {
        level: depth as int,
        is_dir: node.is_dir,
        size: node.size as int,
        name: node.name@,
    };
    proof {
        assert(w@ == before + (line(root) + seq!['\n']));
        assert(seq![root].skip(1) == Seq::<Rec>::empty());
        assert(report(Seq::<Rec>::empty()) == Seq::<char>::empty());
        assert(report(seq![root]) == line(root) + seq!['\n']);
        lemma_report_add(seq![root], flatten_all(kids, depth + 1));
        assert(kids.skip(0) == kids);
    }
    for i in 0..node.children.len()
        invariant
            kids == node@.children,
            kids == trees(node.children@),
            kids.len() > 0 ==> depth + 1 + height_all(kids.skip(i as int)) <= usize::MAX,
            w@ + report(flatten_all(kids.skip(i as int), depth + 1)) == before + report(
                flatten(node@, depth as int),
            ),
    {
        proof {
            assert(kids.skip(i as int)[0] == kids[i as int]);
            assert(kids.skip(i as int).skip(1) == kids.skip(i + 1));
            lemma_report_add(
                flatten(kids[i as int], depth + 1),
                flatten_all(kids.skip(i + 1), depth + 1),
            );
        }
        write_tree(&node.children[i], depth + 1, w);
    }
    proof {
        assert(kids.skip(kids.len() as int) == Seq::<Tree>::empty());
    }
}

/// Writes a tree behind `w`, its root at `depth`. Says whether each depth is a
/// number of the machine; where one is not, nothing is written.
pub fn emit(node: &Node, depth: usize, w: &mut String) -> (whole: bool)
    ensures
        whole == (depth + height(node@) <= usize::MAX),
        final(w)@ == if whole {
            old(w)@ + report(flatten(node@, depth as int))
        } else {
            old(w)@
        },
{
    if !within(node, usize::MAX - depth) {
        return false;
    }
    write_tree(node, depth, w);
    true
}

// ------------------------------------------------------------ reading

/// Where the first tab stands.
pub open spec fn tab(s: Seq<char>) -> int
    decreases s.len(),
{
    if s.len() == 0 || s[0] == '\t' {
        0
    } else {
        1 + tab(s.skip(1))
    }
}

/// A field, and what follows its tab.
pub open spec fn cut(s: Seq<char>) -> Option<(Seq<char>, Seq<char>)> {
    let i = tab(s);
    if i < s.len() {
        Some((s.take(i), s.skip(i + 1)))
    } else {
        None
    }
}

/// A number that is 0 where it cannot be read.
pub open spec fn number_or_zero(s: Seq<char>, max: int) -> int {
    match text::number(s, max) {
        Some(n) => n,
        None => 0,
    }
}

/// What a line says, where it has its four fields.
pub open spec fn parse_line(l: Seq<char>) -> Option<Rec> {
    match cut(l) {
        None => None,
        Some((depth, l1)) => match cut(l1) {
            None => None,
            Some((dir, l2)) => match cut(l2) {
                None => None,
                Some((size, name)) => Some(
                    Rec {
                        level: number_or_zero(depth, usize::MAX as int),
                        is_dir: dir == seq!['1'],
                        size: number_or_zero(size, u64::MAX as int),
                        name: text::unescaped(name),
                    },
                ),
            },
        },
    }
}

/// What some lines say; those without four fields say nothing.
pub open spec fn parse_lines(ls: Seq<Seq<char>>) -> Seq<Rec>
    decreases ls.len(),
{
    if ls.len() == 0 {
        seq![]
    } else {
        match parse_line(ls[0]) {
            Some(r) => seq![r] + parse_lines(ls.skip(1)),
            None => parse_lines(ls.skip(1)),
        }
    }
}

/// The level at which a line counts: the first is the root, each other one
/// is below it and at most one below the line before.
pub open spec fn fitting_level(before: Option<int>, level: int) -> int {
    match before {
        None => 0,
        Some(b) => {
            let l = if level < 1 {
                1
            } else {
                level
            };
            if l < b + 1 {
                l
            } else {
                b + 1
            }
        },
    }
}

pub open spec fn last_level(rs: Seq<Rec>) -> Option<int> {
    if rs.len() == 0 {
        None
    } else {
        Some(rs.last().level)
    }
}

/// The records with the levels at which they count.
pub open spec fn leveled(rs: Seq<Rec>) -> Seq<Rec>
    decreases rs.len(),
{
    if rs.len() == 0 {
        seq![]
    } else {
        let front = leveled(rs.drop_last());
        front.push(Rec { level: fitting_level(last_level(front), rs.last().level), ..rs.last() })
    }
}

/// What is read from a text without any node.
pub open spec fn empty_tree() -> Tree {
    Tree { name: "(empty)"@, size: 0, is_dir: true, children: seq![] }
}

/// `t` is the tree that the text describes.
pub open spec fn describes(txt: Seq<char>, t: Tree) -> bool {
    let rs = parse_lines(text::lines(txt));
    if rs.len() == 0 {
        t == empty_tree()
    } else {
        flatten(t, 0) == leveled(rs)
    }
}

/// The nodes from the root to the one that was read last, each with those
/// children that are complete.
pub open spec fn open_nodes(stack: Seq<Node>) -> Seq<Rec>
    decreases stack.len(),
{
    if stack.len() == 0 {
        seq![]
    } else {
        open_nodes(stack.drop_last()) + flatten(stack.last()@, stack.len() - 1)
    }
}

pub proof fn lemma_flatten_push(ts: Seq<Tree>, t: Tree, level: int)
    ensures
        flatten_all(ts.push(t), level) == flatten_all(ts, level) + flatten(t, level),
    decreases ts.len(),
{
    if ts.len() == 0 {
        assert(ts.push(t).skip(1) == Seq::<Tree>::empty());
        assert(flatten_all(Seq::<Tree>::empty(), level) == Seq::<Rec>::empty());
    } else {
        lemma_flatten_push(ts.skip(1), t, level);
        assert(ts.push(t).skip(1) == ts.skip(1).push(t));
    }
}

/// Moves the last open node into the one before it.
fn close_last(stack: &mut Vec<Node>)
    requires
        old(stack)@.len() >= 2,
    ensures
        final(stack)@.len() == old(stack)@.len() - 1,
        open_nodes(final(stack)@) == open_nodes(old(stack)@),
{
    let ghost s0 = stack@;
    if let Some(child) = stack.pop() {
        if let Some(mut top) = stack.pop() {
            let ghost t0 = top;
            let ghost c = child@;
            top.children.push(child);
            proof {
                lemma_tree_children(t0);
                lemma_tree_children(top);
                assert(top@.children == t0@.children.push(c));
                lemma_flatten_push(t0@.children, c, s0.len() - 1);
                let below = s0.drop_last().drop_last();
                assert(s0.drop_last().last() == t0);
                assert(open_nodes(s0.drop_last()) == open_nodes(below) + flatten(
                    t0@,
                    s0.len() - 2,
                ));
                assert(below.push(top).drop_last() == below);
            }
            stack.push(top);
        }
    }
}

fn find_tab(s: &[char], from: usize) -> (r: usize)
    requires
        from <= s@.len(),
    ensures
        from <= r <= s@.len(),
        r == from + tab(s@.skip(from as int)),
{
    let mut i = from;
    while i < s.len() && s[i] != '\t'
        invariant
            from <= i <= s@.len(),
            from + tab(s@.skip(from as int)) == i + tab(s@.skip(i as int)),
        decreases s@.len() - i,
    {
        proof {
            assert(s@.skip(i as int).skip(1) == s@.skip(i + 1));
        }
        i = i + 1;
    }
    i
}

/// The depth and the node of a line.
fn read_line(l: &[char]) -> (r: Option<(usize, Node)>)
    ensures
        match r {
            Some((depth, node)) => {
                &&& node.children@.len() == 0
                &&& parse_line(l@) == Some(
                    Rec {
                        level: depth as int,
                        is_dir: node.is_dir,
                        size: node.size as int,
                        name: node.name@,
                    },
                )
            },
            None => parse_line(l@) is None,
        },
{
    proof {
        assert(l@.skip(0) == l@);
    }
    let i = find_tab(l, 0);
    if i == l.len() {
        return None;
    }
    let ghost l1 = l@.skip(i + 1);
    let j = find_tab(l, i + 1);
    if j == l.len() {
        return None;
    }
    let ghost l2 = l1.skip(j - (i + 1) + 1);
    proof {
        assert(l2 == l@.skip(j + 1));
    }
    let k = find_tab(l, j + 1);
    if k == l.len() {
        return None;
    }
    let d = slice_subrange(l, 0, i);
    let dir = slice_subrange(l, i + 1, j);
    let sz = slice_subrange(l, j + 1, k);
    let name = slice_subrange(l, k + 1, l.len());
    proof {
        assert(d@ == l@.take(i as int));
        assert(dir@ == l1.take(j - (i + 1)));
        assert(sz@ == l2.take(k - (j + 1)));
        assert(name@ == l2.skip(k - (j + 1) + 1));
    }
    let depth = match text::parse_number(d, usize::MAX as u64) {
        Some(n) => n as usize,
        None => 0,
    };
    let size = match text::parse_number(sz, u64::MAX) {
        Some(n) => n,
        None => 0,
    };
    let is_dir = dir.len() == 1 && dir[0] == '1';
    proof {
        if is_dir {
            assert(dir@ == seq!['1']);
        }
    }
    Some((depth, Node { name: text::unesc_chars(name), size, is_dir, children: Vec::new() }))
}

/// Adds what a line says to the open nodes.
fn absorb(stack: &mut Vec<Node>, l: &[char], Ghost(rs): Ghost<Seq<Rec>>)
    requires
        open_nodes(old(stack)@) == leveled(rs),
        old(stack)@.len() == (match last_level(leveled(rs)) {
            Some(b) => b + 1,
            None => 0,
        }),
    ensures
        ({
            let now = match parse_line(l@) {
                Some(r) => rs.push(r),
                None => rs,
            };
            &&& open_nodes(final(stack)@) == leveled(now)
            &&& final(stack)@.len() == (match last_level(leveled(now)) {
                Some(b) => b + 1,
                None => 0,
            })
        }),
{
    let (depth, node) = match read_line(l) {
        None => {
            return ;
        },
        Some(r) => r,
    };
    let ghost r = parse_line(l@)->0;
    let ghost n0 = stack@.len();
    proof {
        lemma_leveled_first(rs);
    }
    while stack.len() > depth && stack.len() > 1
        invariant
            stack@.len() <= n0,
            stack@.len() < n0 ==> stack@.len() >= depth && stack@.len() >= 1,
            open_nodes(stack@) == leveled(rs),
        decreases stack@.len(),
    {
        close_last(stack);
    }
    let ghost s1 = stack@;
    proof {
        assert(rs.push(r).drop_last() == rs);
        assert(s1.push(node).drop_last() == s1);
        lemma_tree_children(node);
        assert(node@.children == Seq::<Tree>::empty());
        assert(flatten_all(Seq::<Tree>::empty(), s1.len() as int + 1) == Seq::<Rec>::empty());
        assert(flatten(node@, s1.len() as int) == seq![Rec { level: s1.len() as int, ..r }]);
        assert(leveled(rs).push(Rec { level: s1.len() as int, ..r }) == leveled(rs) + seq![
            Rec { level: s1.len() as int, ..r },
        ]);
    }
    stack.push(node);
}

proof fn lemma_leveled_first(rs: Seq<Rec>)
    ensures
        leveled(rs).len() == rs.len(),
        rs.len() > 0 ==> leveled(rs)[0].level == 0,
        forall|i: int| 0 < i < rs.len() ==> 1 <= (#[trigger] leveled(rs)[i]).level,
    decreases rs.len(),
{
    if rs.len() > 0 {
        lemma_leveled_first(rs.drop_last());
        let front = leveled(rs.drop_last());
        assert forall|i: int| 0 < i < rs.len() implies 1 <= (#[trigger] leveled(rs)[i]).level by {
            if i < front.len() {
                assert(leveled(rs)[i] == front[i]);
            } else if front.len() > 1 {
                assert(front[front.len() - 1].level >= 1);
            }
        }
    }
}

/// Reads a tree back from its text form.
pub fn parse_tree(txt: &str) -> (r: Node)
    ensures
        describes(txt@, r@),
{
    let mut stack: Vec<Node> = Vec::new();
    let mut cur: Vec<char> = Vec::new();
    let ghost mut rs: Seq<Rec> = seq![];
    let ghost all = parse_lines(text::lines(txt@));
    proof {
        assert(txt@.skip(0) == txt@);
        assert(cur@ == Seq::<char>::empty());
        assert(rs + all == all);
    }
    for c in it: txt.chars()
        invariant
            it.seq() == txt@,
            all == parse_lines(text::lines(txt@)),
            rs + parse_lines(text::lines_from(txt@.skip(it.index() as int), cur@)) == all,
            open_nodes(stack@) == leveled(rs),
            stack@.len() == (match last_level(leveled(rs)) {
                Some(b) => b + 1,
                None => 0,
            }),
    {
        let ghost rest = txt@.skip(it.index() as int);
        proof {
            assert(rest[0] == c);
            assert(rest.skip(1) == txt@.skip(it.index() as int + 1));
        }
        if c == '\n' {
            let ghost line = text::strip_cr(cur@);
            let ghost later = text::lines_from(rest.skip(1), seq![]);
            if cur.len() > 0 && cur[cur.len() - 1] == '\r' {
                let _ = cur.pop();
            }
            proof {
                assert(cur@ == line);
                let ls = text::lines_from(rest, cur@);
                assert((seq![line] + later).skip(1) == later);
                assert((seq![line] + later)[0] == line);
            }
            absorb(&mut stack, cur.as_slice(), Ghost(rs));
            proof {
                if let Some(r) = parse_line(line) {
                    assert(rs + (seq![r] + parse_lines(later)) == rs.push(r) + parse_lines(later));
                    rs = rs.push(r);
                }
            }
            cur = Vec::new();
        } else {
            cur.push(c);
        }
    }
    proof {
        assert(txt@.skip(txt@.len() as int) == Seq::<char>::empty());
    }
    if cur.len() > 0 {
        absorb(&mut stack, cur.as_slice(), Ghost(rs));
        proof {
            assert(seq![cur@].skip(1) == Seq::<Seq<char>>::empty());
            assert(parse_lines(Seq::<Seq<char>>::empty()) == Seq::<Rec>::empty());
            if let Some(r) = parse_line(cur@) {
                assert(rs + (seq![r] + Seq::<Rec>::empty()) == rs.push(r));
                rs = rs.push(r);
            } else {
                assert(rs + Seq::<Rec>::empty() == rs);
            }
        }
    } else {
        proof {
            assert(parse_lines(Seq::<Seq<char>>::empty()) == Seq::<Rec>::empty());
            assert(rs + Seq::<Rec>::empty() == rs);
        }
    }
    proof {
        lemma_leveled_first(rs);
        assert(rs == all);
    }
    while stack.len() > 1
        invariant
            open_nodes(stack@) == leveled(rs),
            rs.len() > 0 <==> stack@.len() > 0,
        decreases stack@.len(),
    {
        close_last(&mut stack);
    }
    let ghost s1 = stack@;
    match stack.pop() {
        Some(root) => {
            proof {
                assert(s1.drop_last() == Seq::<Node>::empty());
                assert(open_nodes(Seq::<Node>::empty()) == Seq::<Rec>::empty());
                assert(flatten(root@, 0) == leveled(rs));
            }
            root
        },
        None => {
            let mut name = String::new();
            name.append("(empty)");
            let root = Node { name, size: 0, is_dir: true, children: Vec::new() };
            proof {
                lemma_tree_children(root);
                assert(root@.children == Seq::<Tree>::empty());
            }
            root
        },
    }
}

// ------------------------------------------------------------ laws

/// Behind the nodes of a subtree stands none that is deeper than its root.
spec fn shallow(rest: Seq<Rec>, level: int) -> bool {
    rest.len() > 0 ==> rest[0].level <= level
}

proof fn lemma_flatten_split(t: Tree, u: Tree, level: int, r: Seq<Rec>, q: Seq<Rec>)
    requires
        flatten(t, level) + r == flatten(u, level) + q,
        shallow(r, level),
        shallow(q, level),
    ensures
        t == u,
        r == q,
    decreases t, 0int,
{
    let a = flatten_all(t.children, level + 1);
    let b = flatten_all(u.children, level + 1);
    let x = flatten(t, level) + r;
    let y = flatten(u, level) + q;
    assert(x[0] == y[0]);
    assert(x.skip(1) == a + r);
    assert(y.skip(1) == b + q);
    lemma_flatten_all_split(t.children, u.children, level + 1, r, q);
}

proof fn lemma_flatten_head(t: Tree, level: int)
    ensures
        flatten(t, level).len() > 0,
        flatten(t, level)[0].level == level,
{
}

proof fn lemma_flatten_all_split(
    ts: Seq<Tree>,
    us: Seq<Tree>,
    level: int,
    r: Seq<Rec>,
    q: Seq<Rec>,
)
    requires
        flatten_all(ts, level) + r == flatten_all(us, level) + q,
        shallow(r, level - 1),
        shallow(q, level - 1),
    ensures
        ts == us,
        r == q,
    decreases ts, ts.len(),
{
    let x = flatten_all(ts, level) + r;
    let y = flatten_all(us, level) + q;
    if ts.len() == 0 {
        assert(x == r);
        if us.len() > 0 {
            lemma_flatten_head(us[0], level);
            assert(y[0].level == level);
        }
        assert(y == q);
        assert(ts == us);
    } else {
        lemma_flatten_head(ts[0], level);
        assert(x[0].level == level);
        if us.len() == 0 {
            assert(y == q);
            assert(false);
        }
        let r1 = flatten_all(ts.skip(1), level) + r;
        let q1 = flatten_all(us.skip(1), level) + q;
        assert(x == flatten(ts[0], level) + r1);
        assert(y == flatten(us[0], level) + q1);
        assert(shallow(r1, level)) by {
            if ts.skip(1).len() > 0 {
                lemma_flatten_head(ts.skip(1)[0], level);
                assert(r1[0] == flatten(ts.skip(1)[0], level)[0]);
            } else {
                assert(r1 == r);
            }
        }
        assert(shallow(q1, level)) by {
            if us.skip(1).len() > 0 {
                lemma_flatten_head(us.skip(1)[0], level);
                assert(q1[0] == flatten(us.skip(1)[0], level)[0]);
            } else {
                assert(q1 == q);
            }
        }
        lemma_flatten_split(ts[0], us[0], level, r1, q1);
        lemma_flatten_all_split(ts.skip(1), us.skip(1), level, r, q);
        assert(ts == seq![ts[0]] + ts.skip(1));
        assert(us == seq![us[0]] + us.skip(1));
    }
}

/// The nodes in order, with their levels, are the nodes of one tree only.
pub proof fn law_flatten_injective(t: Tree, u: Tree, level: int)
    requires
        flatten(t, level) == flatten(u, level),
    ensures
        t == u,
{
    let none = Seq::<Rec>::empty();
    assert(flatten(t, level) + none == flatten(u, level) + none);
    lemma_flatten_split(t, u, level, none, none);
}

/// A text describes one tree only.
pub proof fn law_one_tree(txt: Seq<char>, t: Tree, u: Tree)
    requires
        describes(txt, t),
        describes(txt, u),
    ensures
        t == u,
{
    if parse_lines(text::lines(txt)).len() > 0 {
        law_flatten_injective(t, u, 0);
    }
}

/// Levels begin at `level`, stay below it and grow by one at most.
spec fn steps(rs: Seq<Rec>, level: int) -> bool {
    &&& rs.len() > 0 ==> rs[0].level == level
    &&& forall|i: int| 0 <= i < rs.len() ==> level <= (#[trigger] rs[i]).level
    &&& forall|i: int|
        0 < i < rs.len() ==> (#[trigger] rs[i]).level <= rs[i - 1].level + 1
}

proof fn lemma_flatten_steps(t: Tree, level: int)
    ensures
        steps(flatten(t, level), level),
        forall|i: int|
            0 < i < flatten(t, level).len() ==> level < (#[trigger] flatten(t, level)[i]).level,
    decreases t, 0int,
{
    let a = flatten_all(t.children, level + 1);
    let rs = flatten(t, level);
    lemma_flatten_all_steps(t.children, level + 1);
    assert forall|i: int| 0 < i < rs.len() implies level < (#[trigger] rs[i]).level
        && rs[i].level <= rs[i - 1].level + 1 by {
        assert(rs[i] == a[i - 1]);
        if i > 1 {
            assert(rs[i - 1] == a[i - 2]);
        }
    }
}

proof fn lemma_flatten_all_steps(ts: Seq<Tree>, level: int)
    ensures
        steps(flatten_all(ts, level), level),
    decreases ts, ts.len(),
{
    if ts.len() > 0 {
        let a = flatten(ts[0], level);
        let b = flatten_all(ts.skip(1), level);
        let rs = flatten_all(ts, level);
        lemma_flatten_steps(ts[0], level);
        lemma_flatten_all_steps(ts.skip(1), level);
        assert forall|i: int| 0 <= i < rs.len() implies level <= (#[trigger] rs[i]).level && (i > 0
            ==> rs[i].level <= rs[i - 1].level + 1) by {
            if i < a.len() {
                assert(rs[i] == a[i]);
                if i > 0 {
                    assert(rs[i - 1] == a[i - 1]);
                }
            } else {
                assert(rs[i] == b[i - a.len()]);
                if i > a.len() {
                    assert(rs[i - 1] == b[i - 1 - a.len()]);
                } else {
                    assert(rs[i - 1] == a[i - 1]);
                    assert(a[i - 1].level >= level);
                }
            }
        }
    }
}

proof fn lemma_leveled_steps(rs: Seq<Rec>)
    requires
        steps(rs, 0),
        forall|i: int| 0 < i < rs.len() ==> 0 < (#[trigger] rs[i]).level,
    ensures
        leveled(rs) == rs,
    decreases rs.len(),
{
    if rs.len() > 0 {
        let front = rs.drop_last();
        assert forall|i: int| 0 <= i < front.len() implies 0 <= (#[trigger] front[i]).level && (i
            > 0 ==> 0 < front[i].level <= front[i - 1].level + 1) by {
            assert(front[i] == rs[i]);
            if i > 0 {
                assert(front[i - 1] == rs[i - 1]);
            }
        }
        lemma_leveled_steps(front);
        if front.len() > 0 {
            assert(front.last() == rs[rs.len() - 2]);
            assert(rs[rs.len() - 1].level >= 1);
        }
        assert(leveled(rs) == front.push(rs.last()));
        assert(front.push(rs.last()) == rs);
    }
}

pub proof fn lemma_cut(a: Seq<char>, b: Seq<char>)
    requires
        !a.contains('\t'),
    ensures
        tab(a + seq!['\t'] + b) == a.len(),
        cut(a + seq!['\t'] + b) == Some((a, b)),
    decreases a.len(),
{
    let s = a + seq!['\t'] + b;
    if a.len() > 0 {
        assert(a.contains(a[0]));
        assert(s[0] == a[0]);
        assert(!a.skip(1).contains('\t')) by {
            if a.skip(1).contains('\t') {
                let i = choose|i: int| 0 <= i < a.skip(1).len() && a.skip(1)[i] == '\t';
                assert(a[i + 1] == '\t');
            }
        }
        lemma_cut(a.skip(1), b);
        assert(s.skip(1) == a.skip(1) + seq!['\t'] + b);
    } else {
        assert(s[0] == '\t');
    }
    assert(s.take(a.len() as int) == a);
    assert(s.skip(a.len() as int + 1) == b);
}

/// Numbers that the machine can hold.
spec fn holdable(r: Rec) -> bool {
    0 <= r.level <= usize::MAX && 0 <= r.size <= u64::MAX
}

proof fn lemma_digits_only(n: int)
    requires
        0 <= n,
    ensures
        !text::decimal(n).contains('\t'),
        !text::decimal(n).contains('\n'),
        text::decimal(n).len() > 0,
{
    text::law_number_decimal(n, n);
    let s = text::decimal(n);
    assert forall|i: int| 0 <= i < s.len() implies s[i] != '\t' && s[i] != '\n' by {
        assert(text::is_digit(s[i]));
    }
}

proof fn lemma_parse_line(r: Rec)
    requires
        holdable(r),
    ensures
        parse_line(line(r)) == Some(r),
{
    let d = text::decimal(r.level);
    let z = text::decimal(r.size);
    let n = text::escaped(r.name);
    let k = seq![if r.is_dir {
        '1'
    } else {
        '0'
    }];
    let l3 = z + seq!['\t'] + n;
    let l2 = k + seq!['\t'] + l3;
    let l1 = d + seq!['\t'] + l2;
    assert(l1 == line(r));
    lemma_digits_only(r.level);
    lemma_digits_only(r.size);
    lemma_cut(d, l2);
    lemma_cut(k, l3);
    lemma_cut(z, n);
    text::law_number_decimal(r.level, usize::MAX as int);
    text::law_number_decimal(r.size, u64::MAX as int);
    text::law_unesc_esc(r.name);
    assert(k[0] == '1' <==> r.is_dir);
    if r.is_dir {
        assert(k == seq!['1']);
    } else {
        assert(k != seq!['1']) by {
            assert(seq!['1'][0] == '1');
        }
    }
}

proof fn lemma_line_ends(r: Rec)
    requires
        holdable(r),
    ensures
        !line(r).contains('\n'),
        line(r).len() > 0,
        line(r).last() == '\r' ==> r.name.len() > 0 && r.name.last() == '\r',
{
    let d = text::decimal(r.level);
    let z = text::decimal(r.size);
    let n = text::escaped(r.name);
    let l = line(r);
    lemma_digits_only(r.level);
    lemma_digits_only(r.size);
    text::law_esc_one_field(r.name);
    text::lemma_esc_last(r.name);
    assert forall|i: int| 0 <= i < l.len() implies l[i] != '\n' by {
        if i < d.len() {
            assert(d.contains(d[i]));
        } else if i < d.len() + 3 {
        } else if i < d.len() + 3 + z.len() {
            assert(z.contains(z[i - d.len() - 3]));
        } else if i > d.len() + 3 + z.len() {
            assert(n.contains(n[i - d.len() - 4 - z.len()]));
        }
    }
}

/// A name that a line can carry: a line end eats a carriage return before it.
pub open spec fn carried(name: Seq<char>) -> bool {
    name.len() > 0 ==> name.last() != '\r'
}

proof fn lemma_parse_report(rs: Seq<Rec>)
    requires
        forall|i: int|
            0 <= i < rs.len() ==> holdable(#[trigger] rs[i]) && carried(rs[i].name),
    ensures
        parse_lines(text::lines(report(rs))) == rs,
    decreases rs.len(),
{
    if rs.len() == 0 {
        assert(text::lines(report(rs)) == Seq::<Seq<char>>::empty());
        assert(parse_lines(Seq::<Seq<char>>::empty()) == Seq::<Rec>::empty());
    } else {
        let r = rs[0];
        let rest = rs.skip(1);
        assert forall|i: int| 0 <= i < rest.len() implies holdable(#[trigger] rest[i]) && carried(
            rest[i].name,
        ) by {
            assert(rest[i] == rs[i + 1]);
        }
        lemma_parse_report(rest);
        lemma_parse_line(r);
        lemma_line_ends(r);
        text::lemma_first_line(line(r), report(rest), Seq::empty());
        let empty = Seq::<char>::empty();
        assert(empty + line(r) == line(r));
        let later = text::lines(report(rest));
        assert((seq![line(r)] + later).skip(1) == later);
        assert(parse_lines(seq![line(r)] + later) == seq![r] + rest);
        assert(seq![r] + rest == rs);
    }
}

proof fn lemma_flatten_holdable(n: Node, level: int)
    requires
        0 <= level,
        level + height(n@) <= usize::MAX,
    ensures
        forall|i: int|
            0 <= i < flatten(n@, level).len() ==> holdable(#[trigger] flatten(n@, level)[i]),
    decreases n, 0int,
{
    lemma_tree_children(n);
    let a = flatten_all(n@.children, level + 1);
    if n@.children.len() > 0 {
        lemma_flatten_all_holdable(n.children@, level + 1);
    }
    let rs = flatten(n@, level);
    assert forall|i: int| 0 <= i < rs.len() implies holdable(#[trigger] rs[i]) by {
        if i > 0 {
            assert(rs[i] == a[i - 1]);
        }
    }
}

proof fn lemma_flatten_all_holdable(ns: Seq<Node>, level: int)
    requires
        0 <= level,
        level + height_all(trees(ns)) <= usize::MAX,
    ensures
        forall|i: int|
            0 <= i < flatten_all(trees(ns), level).len() ==> holdable(
                #[trigger] flatten_all(trees(ns), level)[i],
            ),
    decreases ns, ns.len(),
{
    if ns.len() > 0 {
        let ts = trees(ns);
        assert(ts.skip(1) == trees(ns.skip(1)));
        lemma_flatten_holdable(ns[0], level);
        lemma_flatten_all_holdable(ns.skip(1), level);
        let a = flatten(ts[0], level);
        let b = flatten_all(ts.skip(1), level);
        let rs = flatten_all(ts, level);
        assert forall|i: int| 0 <= i < rs.len() implies holdable(#[trigger] rs[i]) by {
            if i < a.len() {
                assert(rs[i] == a[i]);
            } else {
                assert(rs[i] == b[i - a.len()]);
            }
        }
    }
}

/// What one process writes, the other one reads: the text form of a tree
/// describes that tree and no other, where each depth is a number of the
/// machine and no name ends in a carriage return.
pub proof fn law_parse_emit(n: Node, read: Tree)
    requires
        height(n@) <= usize::MAX,
        forall|i: int|
            0 <= i < flatten(n@, 0).len() ==> carried((#[trigger] flatten(n@, 0)[i]).name),
        describes(report(flatten(n@, 0)), read),
    ensures
        read == n@,
{
    let rs = flatten(n@, 0);
    lemma_flatten_holdable(n, 0);
    lemma_parse_report(rs);
    lemma_flatten_steps(n@, 0);
    lemma_leveled_steps(rs);
    law_flatten_injective(read, n@, 0);
}

} // verus!
