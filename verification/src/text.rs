//! Characters and strings: escaping, quoting, shortening, decimal numbers.

use vstd::prelude::*;
use vstd::slice::slice_subrange;

verus! {

/// `String::push`: appends one character.
pub assume_specification[ String::push ](s: &mut String, c: char)
    ensures
        final(s)@ == old(s)@.push(c),
;

/// The characters of a string.
pub fn chars_of(s: &str) -> (r: Vec<char>)
    ensures
        r@ == s@,
{
    let mut out: Vec<char> = Vec::new();
    for c in it: s.chars()
        invariant
            it.seq() == s@,
            out@ == s@.take(it.index() as int),
    {
        out.push(c);
    }
    out
}

/// The string of some characters.
pub fn string_of(v: &[char]) -> (r: String)
    ensures
        r@ == v@,
{
    let mut out = String::new();
    for i in 0..v.len()
        invariant
            out@ == v@.take(i as int),
    {
        out.push(v[i]);
        assert(v@.take(i + 1) == v@.take(i as int).push(v@[i as int]));
    }
    assert(v@.take(v@.len() as int) == v@);
    out
}

/// Whether two texts are the same.
pub fn same(a: &[char], b: &str) -> (r: bool)
    ensures
        r == (a@ == b@),
{
    let v = chars_of(b);
    if a.len() != v.len() {
        return false;
    }
    for i in 0..v.len()
        invariant
            v@ == b@,
            a@.len() == v@.len(),
            forall|j: int| 0 <= j < i ==> a@[j] == v@[j],
    {
        if a[i] != v[i] {
            return false;
        }
    }
    assert(a@ == b@);
    true
}

pub open spec fn has_prefix(s: Seq<char>, p: Seq<char>) -> bool {
    p.len() <= s.len() && s.take(p.len() as int) == p
}

pub fn starts_with(s: &[char], p: &str) -> (r: bool)
    ensures
        r == has_prefix(s@, p@),
{
    let v = chars_of(p);
    if s.len() < v.len() {
        return false;
    }
    for i in 0..v.len()
        invariant
            v@ == p@,
            s@.len() >= v@.len(),
            forall|j: int| 0 <= j < i ==> s@[j] == v@[j],
    {
        if s[i] != v[i] {
            assert(s@.take(p@.len() as int)[i as int] != p@[i as int]);
            return false;
        }
    }
    assert(s@.take(p@.len() as int) == p@);
    true
}

pub open spec fn found_at(s: Seq<char>, p: Seq<char>, i: int) -> bool {
    0 <= i && i + p.len() <= s.len() && s.subrange(i, i + p.len()) == p
}

/// Whether `p` stands somewhere in `s`.
pub open spec fn holds(s: Seq<char>, p: Seq<char>) -> bool {
    exists|i: int| #[trigger] found_at(s, p, i)
}

pub fn contains(s: &str, p: &str) -> (r: bool)
    ensures
        r == holds(s@, p@),
{
    let v = chars_of(s);
    let n = chars_of(p).len();
    if n > v.len() {
        return false;
    }
    let mut i: usize = 0;
    while i < v.len() - n
        invariant
            v@ == s@,
            n == p@.len(),
            n <= v@.len(),
            i <= v@.len() - n,
            forall|j: int| 0 <= j < i ==> !#[trigger] found_at(s@, p@, j),
        decreases v@.len() - i,
    {
        if same(slice_subrange(v.as_slice(), i, i + n), p) {
            assert(found_at(s@, p@, i as int));
            return true;
        }
        i = i + 1;
    }
    let last = same(slice_subrange(v.as_slice(), i, v.len()), p);
    assert(last == found_at(s@, p@, i as int));
    last
}

// ------------------------------------------------------------ escaping

/// How one character of a name is written on a line of fields.
pub open spec fn esc_char(c: char) -> Seq<char> {
    if c == '\\' {
        seq!['\\', '\\']
    } else if c == '\n' {
        seq!['\\', 'n']
    } else if c == '\t' {
        seq!['\\', 't']
    } else {
        seq![c]
    }
}

/// A name as it stands on a line: without line ends and tabs.
pub open spec fn escaped(s: Seq<char>) -> Seq<char>
    decreases s.len(),
{
    if s.len() == 0 {
        seq![]
    } else {
        esc_char(s[0]) + escaped(s.skip(1))
    }
}

/// The character that a backslash and `c` stand for.
pub open spec fn unesc_char(c: char) -> char {
    if c == 'n' {
        '\n'
    } else if c == 't' {
        '\t'
    } else {
        c
    }
}

/// An escaped name read back; a lone backslash at the end is dropped.
pub open spec fn unescaped(s: Seq<char>) -> Seq<char>
    decreases s.len(),
{
    if s.len() == 0 {
        seq![]
    } else if s[0] != '\\' {
        seq![s[0]] + unescaped(s.skip(1))
    } else if s.len() == 1 {
        seq![]
    } else {
        seq![unesc_char(s[1])] + unescaped(s.skip(2))
    }
}

pub fn esc(s: &str) -> (r: String)
    ensures
        r@ == escaped(s@),
{
    let mut out = String::new();
    proof {
        assert(s@.skip(0) == s@);
    }
    for c in it: s.chars()
        invariant
            it.seq() == s@,
            out@ + escaped(s@.skip(it.index() as int)) == escaped(s@),
    {
        proof {
            let i = it.index() as int;
            assert(s@.skip(i)[0] == c);
            assert(s@.skip(i).skip(1) == s@.skip(i + 1));
        }
        if c == '\\' {
            out.push('\\');
            out.push('\\');
        } else if c == '\n' {
            out.push('\\');
            out.push('n');
        } else if c == '\t' {
            out.push('\\');
            out.push('t');
        } else {
            out.push(c);
        }
    }
    proof {
        assert(s@.skip(s@.len() as int) == Seq::<char>::empty());
    }
    out
}

pub fn unesc(s: &str) -> (r: String)
    ensures
        r@ == unescaped(s@),
{
    let v = chars_of(s);
    unesc_chars(v.as_slice())
}

/// [`unesc`] on characters.
pub fn unesc_chars(s: &[char]) -> (r: String)
    ensures
        r@ == unescaped(s@),
{
    let mut out = String::new();
    let mut i: usize = 0;
    proof {
        assert(s@.skip(0) == s@);
    }
    while i < s.len()
        invariant
            i <= s@.len(),
            out@ + unescaped(s@.skip(i as int)) == unescaped(s@),
        decreases s@.len() - i,
    {
        let c = s[i];
        proof {
            assert(s@.skip(i as int)[0] == c);
            assert(s@.skip(i as int).skip(1) == s@.skip(i + 1));
        }
        if c != '\\' {
            out.push(c);
            i = i + 1;
        } else if i + 1 == s.len() {
            proof {
                assert(s@.skip(i + 1) == Seq::<char>::empty());
            }
            i = i + 1;
        } else {
            let o = s[i + 1];
            proof {
                assert(s@.skip(i as int)[1] == o);
                assert(s@.skip(i as int).skip(2) == s@.skip(i + 2));
            }
            if o == 'n' {
                out.push('\n');
            } else if o == 't' {
                out.push('\t');
            } else {
                out.push(o);
            }
            i = i + 2;
        }
    }
    proof {
        assert(s@.skip(s@.len() as int) == Seq::<char>::empty());
    }
    out
}

proof fn lemma_unescaped_step(c: char, t: Seq<char>)
    ensures
        unescaped(esc_char(c) + t) == seq![c] + unescaped(t),
{
    let s = esc_char(c) + t;
    if c == '\\' || c == '\n' || c == '\t' {
        assert(s.skip(2) == t);
    } else {
        assert(s.skip(1) == t);
    }
}

/// Reading an escaped name gives the name back.
pub proof fn law_unesc_esc(s: Seq<char>)
    ensures
        unescaped(escaped(s)) == s,
    decreases s.len(),
{
    if s.len() > 0 {
        law_unesc_esc(s.skip(1));
        lemma_unescaped_step(s[0], escaped(s.skip(1)));
        assert(seq![s[0]] + s.skip(1) == s);
    }
}

/// Escaping goes character by character: two parts are escaped each for itself.
pub proof fn law_esc_adds(a: Seq<char>, b: Seq<char>)
    ensures
        escaped(a + b) == escaped(a) + escaped(b),
    decreases a.len(),
{
    if a.len() == 0 {
        assert(a + b == b);
        assert(escaped(a) + escaped(b) == escaped(b));
    } else {
        law_esc_adds(a.skip(1), b);
        assert((a + b).skip(1) == a.skip(1) + b);
        assert(esc_char(a[0]) + (escaped(a.skip(1)) + escaped(b)) == escaped(a) + escaped(b));
    }
}

/// Reading an escaped name gives the name back whatever stands behind it, and
/// what stands behind it is read as it would be alone.
pub proof fn law_unesc_esc_ahead(s: Seq<char>, t: Seq<char>)
    ensures
        unescaped(escaped(s) + t) == s + unescaped(t),
    decreases s.len(),
{
    if s.len() == 0 {
        assert(escaped(s) + t == t);
        assert(s + unescaped(t) == unescaped(t));
    } else {
        let rest = escaped(s.skip(1)) + t;
        law_unesc_esc_ahead(s.skip(1), t);
        lemma_unescaped_step(s[0], rest);
        assert(escaped(s) + t == esc_char(s[0]) + rest);
        assert(seq![s[0]] + (s.skip(1) + unescaped(t)) == s + unescaped(t));
    }
}

/// An escaped name holds no line end and no tab, so that it fits in a field
/// of a line.
pub proof fn law_esc_one_field(s: Seq<char>)
    ensures
        !escaped(s).contains('\n'),
        !escaped(s).contains('\t'),
    decreases s.len(),
{
    if s.len() > 0 {
        law_esc_one_field(s.skip(1));
        let t = escaped(s.skip(1));
        let u = esc_char(s[0]) + t;
        assert forall|i: int| 0 <= i < u.len() implies u[i] != '\n' && u[i] != '\t' by {
            if i >= esc_char(s[0]).len() {
                assert(t.contains(t[i - esc_char(s[0]).len()]));
            }
        }
    }
}

/// The last character of an escaped name is a carriage return only where that
/// of the name is.
pub proof fn lemma_esc_last(s: Seq<char>)
    ensures
        (escaped(s).len() == 0) == (s.len() == 0),
        s.len() > 0 ==> (escaped(s).last() == '\r') == (s.last() == '\r'),
    decreases s.len(),
{
    if s.len() > 0 {
        lemma_esc_last(s.skip(1));
        if s.len() > 1 {
            assert(s.skip(1).last() == s.last());
        }
    }
}

// ------------------------------------------------------------ lines

/// A line without the carriage return before its line feed.
pub open spec fn strip_cr(l: Seq<char>) -> Seq<char> {
    if l.len() > 0 && l.last() == '\r' {
        l.drop_last()
    } else {
        l
    }
}

/// The lines of `s`, the first of which began with `cur`. What follows the
/// last line feed is a line where it is not empty, and keeps a carriage return.
pub open spec fn lines_from(s: Seq<char>, cur: Seq<char>) -> Seq<Seq<char>>
    decreases s.len(),
{
    if s.len() == 0 {
        if cur.len() == 0 {
            seq![]
        } else {
            seq![cur]
        }
    } else if s[0] == '\n' {
        seq![strip_cr(cur)] + lines_from(s.skip(1), seq![])
    } else {
        lines_from(s.skip(1), cur.push(s[0]))
    }
}

/// The lines of a text.
pub open spec fn lines(s: Seq<char>) -> Seq<Seq<char>> {
    lines_from(s, seq![])
}

/// The first line ends at the first line feed.
pub proof fn lemma_first_line(l: Seq<char>, rest: Seq<char>, cur: Seq<char>)
    requires
        !l.contains('\n'),
    ensures
        lines_from(l + seq!['\n'] + rest, cur) == seq![strip_cr(cur + l)] + lines(rest),
    decreases l.len(),
{
    let s = l + seq!['\n'] + rest;
    if l.len() == 0 {
        assert(s.skip(1) == rest);
        assert(cur + l == cur);
    } else {
        assert(l[0] != '\n') by {
            assert(l.contains(l[0]));
        }
        assert(!l.skip(1).contains('\n')) by {
            if l.skip(1).contains('\n') {
                let i = choose|i: int| 0 <= i < l.skip(1).len() && l.skip(1)[i] == '\n';
                assert(l[i + 1] == '\n');
            }
        }
        lemma_first_line(l.skip(1), rest, cur.push(l[0]));
        assert(s.skip(1) == l.skip(1) + seq!['\n'] + rest);
        assert(cur.push(l[0]) + l.skip(1) == cur + l);
    }
}

// ------------------------------------------------------------ quoting

/// The inside of a word in single quotes: a quote ends the word, stands
/// behind a backslash, and begins the word anew.
pub open spec fn requoted(s: Seq<char>) -> Seq<char>
    decreases s.len(),
{
    if s.len() == 0 {
        seq![]
    } else if s[0] == '\'' {
        seq!['\'', '\\', '\'', '\''] + requoted(s.skip(1))
    } else {
        seq![s[0]] + requoted(s.skip(1))
    }
}

/// A text as one word of a shell command.
pub open spec fn quoted(s: Seq<char>) -> Seq<char> {
    seq!['\''] + requoted(s) + seq!['\'']
}

pub fn shell_quote(p: &str) -> (r: String)
    ensures
        r@ == quoted(p@),
{
    let mut out = String::new();
    out.push('\'');
    proof {
        assert(p@.skip(0) == p@);
    }
    for c in it: p.chars()
        invariant
            it.seq() == p@,
            out@ + requoted(p@.skip(it.index() as int)) == seq!['\''] + requoted(p@),
    {
        proof {
            let i = it.index() as int;
            assert(p@.skip(i)[0] == c);
            assert(p@.skip(i).skip(1) == p@.skip(i + 1));
        }
        if c == '\'' {
            out.push('\'');
            out.push('\\');
            out.push('\'');
            out.push('\'');
        } else {
            out.push(c);
        }
    }
    proof {
        assert(p@.skip(p@.len() as int) == Seq::<char>::empty());
    }
    out.push('\'');
    out
}

/// What a POSIX shell makes of a word in which each character stands in
/// single quotes or behind a backslash; nothing for another word.
pub open spec fn shell_word(w: Seq<char>, inside: bool) -> Option<Seq<char>>
    decreases w.len(),
{
    if w.len() == 0 {
        if inside {
            None
        } else {
            Some(seq![])
        }
    } else if w[0] == '\'' {
        shell_word(w.skip(1), !inside)
    } else if inside {
        match shell_word(w.skip(1), true) {
            Some(t) => Some(seq![w[0]] + t),
            None => None,
        }
    } else if w[0] == '\\' && w.len() > 1 && w[1] != '\n' {
        match shell_word(w.skip(2), false) {
            Some(t) => Some(seq![w[1]] + t),
            None => None,
        }
    } else {
        None
    }
}

proof fn lemma_requoted_word(s: Seq<char>)
    ensures
        shell_word(requoted(s) + seq!['\''], true) == Some(s),
    decreases s.len(),
{
    let w = requoted(s) + seq!['\''];
    if s.len() == 0 {
        assert(w.skip(1) == Seq::<char>::empty());
    } else {
        lemma_requoted_word(s.skip(1));
        let t = requoted(s.skip(1)) + seq!['\''];
        assert(seq![s[0]] + s.skip(1) == s);
        if s[0] == '\'' {
            assert(w.skip(1).skip(2).skip(1) == t);
            assert(w.skip(1).skip(2)[0] == '\'');
            assert(w.skip(1)[0] == '\\' && w.skip(1)[1] == '\'');
            assert(shell_word(w.skip(1).skip(2), false) == shell_word(t, true));
            assert(shell_word(w.skip(1), false) == Some(s));
        } else {
            assert(w.skip(1) == t);
        }
    }
}

/// The shell reads a quoted text as that text, whatever it holds.
pub proof fn law_shell_quote(s: Seq<char>)
    ensures
        shell_word(quoted(s), false) == Some(s),
{
    lemma_requoted_word(s);
    assert(quoted(s).skip(1) == requoted(s) + seq!['\'']);
}

// ------------------------------------------------------------ shortening

/// At most `n` characters of a text: a longer one ends in an ellipsis.
pub open spec fn truncated(s: Seq<char>, n: int) -> Seq<char> {
    if s.len() <= n {
        s
    } else if n <= 1 {
        seq!['\u{2026}']
    } else {
        s.take(n - 1).push('\u{2026}')
    }
}

pub fn truncate(s: &str, n: usize) -> (r: String)
    ensures
        r@ == truncated(s@, n as int),
{
    let v = chars_of(s);
    if v.len() <= n {
        return string_of(v.as_slice());
    }
    let keep = n.saturating_sub(1);
    let mut out = String::new();
    for i in 0..keep
        invariant
            keep <= v@.len(),
            out@ == v@.take(i as int),
    {
        out.push(v[i]);
        assert(v@.take(i + 1) == v@.take(i as int).push(v@[i as int]));
    }
    out.push('\u{2026}');
    out
}

/// A shortened text is no longer than asked, but for the ellipsis that even
/// an empty room gets; and shortening twice is shortening once.
pub proof fn law_truncate(s: Seq<char>, n: int)
    requires
        n >= 0,
    ensures
        truncated(s, n).len() <= n || (n == 0 && truncated(s, n).len() == 1),
        truncated(truncated(s, n), n) == truncated(s, n),
{
}

// ------------------------------------------------------------ trimming

/// The characters that Unicode calls white space.
pub open spec fn is_space(c: char) -> bool {
    let n = c as u32;
    ||| 0x9 <= n <= 0xd
    ||| n == 0x20
    ||| n == 0x85
    ||| n == 0xa0
    ||| n == 0x1680
    ||| 0x2000 <= n <= 0x200a
    ||| n == 0x2028
    ||| n == 0x2029
    ||| n == 0x202f
    ||| n == 0x205f
    ||| n == 0x3000
}

pub fn space(c: char) -> (r: bool)
    ensures
        r == is_space(c),
{
    let n = c as u32;
    (0x9 <= n && n <= 0xd) || n == 0x20 || n == 0x85 || n == 0xa0 || n == 0x1680 || (0x2000 <= n
        && n <= 0x200a) || n == 0x2028 || n == 0x2029 || n == 0x202f || n == 0x205f || n == 0x3000
}

/// How many characters at the end are spaces.
pub open spec fn spaces_behind(s: Seq<char>) -> int
    decreases s.len(),
{
    if s.len() == 0 || !is_space(s.last()) {
        0
    } else {
        1 + spaces_behind(s.drop_last())
    }
}

/// How many characters at the start are spaces.
pub open spec fn spaces_ahead(s: Seq<char>) -> int
    decreases s.len(),
{
    if s.len() == 0 || !is_space(s[0]) {
        0
    } else {
        1 + spaces_ahead(s.skip(1))
    }
}

/// A text without the spaces around it.
pub open spec fn trimmed(s: Seq<char>) -> Seq<char> {
    let t = s.take(s.len() - spaces_behind(s));
    t.skip(spaces_ahead(t))
}

pub fn trim(s: &str) -> (r: String)
    ensures
        r@ == trimmed(s@),
{
    let v = chars_of(s);
    let mut j: usize = v.len();
    proof {
        assert(v@.take(v@.len() as int) == v@);
    }
    while j > 0 && space(v[j - 1])
        invariant
            v@ == s@,
            j <= v@.len(),
            spaces_behind(v@) == v@.len() - j + spaces_behind(v@.take(j as int)),
        decreases j,
    {
        proof {
            assert(v@.take(j as int).drop_last() == v@.take(j - 1));
        }
        j = j - 1;
    }
    let ghost t = v@.take(j as int);
    let mut i: usize = 0;
    proof {
        assert(t.skip(0) == t);
        assert(spaces_behind(t) == 0);
    }
    while i < j && space(v[i])
        invariant
            j <= v@.len(),
            t == v@.take(j as int),
            i <= j,
            spaces_ahead(t) == i + spaces_ahead(t.skip(i as int)),
        decreases j - i,
    {
        proof {
            assert(t.skip(i as int).skip(1) == t.skip(i + 1));
        }
        i = i + 1;
    }
    let r = string_of(slice_subrange(v.as_slice(), i, j));
    proof {
        assert(v@.subrange(i as int, j as int) == t.skip(i as int));
    }
    r
}

/// A text without `tail` at its end, as often as it stands there.
pub open spec fn without_tail(s: Seq<char>, tail: Seq<char>) -> Seq<char>
    decreases s.len(),
{
    let n = s.len() - tail.len();
    if tail.len() == 0 || n < 0 || s.skip(n) != tail {
        s
    } else {
        without_tail(s.take(n), tail)
    }
}

pub fn trim_end_matches(s: &str, tail: &str) -> (r: String)
    ensures
        r@ == without_tail(s@, tail@),
{
    let v = chars_of(s);
    let t = chars_of(tail);
    let mut j: usize = v.len();
    proof {
        assert(v@.take(v@.len() as int) == v@);
    }
    while t.len() > 0 && j >= t.len() && same(slice_subrange(v.as_slice(), j - t.len(), j), tail)
        invariant
            v@ == s@,
            t@ == tail@,
            j <= v@.len(),
            without_tail(v@.take(j as int), t@) == without_tail(s@, tail@),
        decreases j,
    {
        proof {
            let n = j - t@.len();
            assert(v@.take(j as int).skip(n) == v@.subrange(n, j as int));
            assert(v@.take(j as int).take(n) == v@.take(n));
        }
        j = j - t.len();
    }
    proof {
        if t@.len() > 0 && j >= t@.len() {
            let n = j - t@.len();
            assert(v@.take(j as int).skip(n) == v@.subrange(n, j as int));
        }
        assert(v@.subrange(0, j as int) == v@.take(j as int));
    }
    string_of(slice_subrange(v.as_slice(), 0, j))
}

// ------------------------------------------------------------ numbers

pub open spec fn digit(d: int) -> char {
    (d + 48) as char
}

/// A number in decimal, without leading zeros.
pub open spec fn decimal(n: int) -> Seq<char>
    decreases n,
{
    if n < 10 {
        seq![digit(n)]
    } else {
        decimal(n / 10).push(digit(n % 10))
    }
}

pub fn push_decimal(out: &mut String, n: u128)
    ensures
        final(out)@ == old(out)@ + decimal(n as int),
    decreases n,
{
    if n >= 10 {
        push_decimal(out, n / 10);
    }
    let d = (n % 10) as u8;
    out.push((d + 48) as char);
}

pub open spec fn is_digit(c: char) -> bool {
    '0' <= c <= '9'
}

pub open spec fn all_digits(s: Seq<char>) -> bool {
    forall|i: int| 0 <= i < s.len() ==> is_digit(#[trigger] s[i])
}

/// What a row of digits stands for.
pub open spec fn value(s: Seq<char>) -> int
    decreases s.len(),
{
    if s.len() == 0 {
        0
    } else {
        value(s.drop_last()) * 10 + (s.last() as int - 48)
    }
}

/// The digits of a number: behind a plus sign, where there is one.
pub open spec fn unsigned(s: Seq<char>) -> Seq<char> {
    if s.len() > 0 && s[0] == '+' {
        s.skip(1)
    } else {
        s
    }
}

/// A decimal number not above `max`.
pub open spec fn number(s: Seq<char>, max: int) -> Option<int> {
    let t = unsigned(s);
    if t.len() > 0 && all_digits(t) && value(t) <= max {
        Some(value(t))
    } else {
        None
    }
}

proof fn lemma_value_prefix(s: Seq<char>, i: int)
    requires
        all_digits(s),
        0 <= i <= s.len(),
    ensures
        0 <= value(s.take(i)) <= value(s),
    decreases s.len(),
{
    if i == s.len() {
        assert(s.take(i) == s);
        if s.len() > 0 {
            lemma_value_prefix(s.drop_last(), i - 1);
            assert(s.drop_last().take(i - 1) == s.drop_last());
            assert(is_digit(s[s.len() - 1]));
        }
    } else {
        lemma_value_prefix(s.drop_last(), i);
        assert(s.drop_last().take(i) == s.take(i));
        assert(is_digit(s[s.len() - 1]));
    }
}

pub fn parse_number(s: &[char], max: u64) -> (r: Option<u64>)
    ensures
        match r {
            Some(n) => number(s@, max as int) == Some(n as int),
            None => number(s@, max as int) is None,
        },
{
    let from: usize = if s.len() > 0 && s[0] == '+' {
        1
    } else {
        0
    };
    let ghost t = unsigned(s@);
    proof {
        assert(t == s@.skip(from as int));
    }
    if from == s.len() {
        return None;
    }
    let mut n: u64 = 0;
    let mut i: usize = from;
    proof {
        assert(t.take(0) == Seq::<char>::empty());
    }
    while i < s.len()
        invariant
            from <= i <= s@.len(),
            from < s@.len(),
            t == unsigned(s@),
            t == s@.skip(from as int),
            forall|j: int| 0 <= j < i - from ==> is_digit(#[trigger] t[j]),
            n == value(t.take(i - from)),
            n <= max,
        decreases s@.len() - i,
    {
        let c = s[i];
        let ghost k = i - from;
        proof {
            assert(t[k] == c);
            assert(t.take(k + 1).drop_last() == t.take(k));
            assert(t.take(k + 1).last() == c);
        }
        if c < '0' || c > '9' {
            return None;
        }
        let d = c as u32 as u64 - 48;
        if n > max / 10 || d > max || n * 10 > max - d {
            proof {
                if all_digits(t) {
                    lemma_value_prefix(t, k + 1);
                }
            }
            return None;
        }
        n = n * 10 + d;
        i = i + 1;
    }
    proof {
        assert(t.take(t.len() as int) == t);
    }
    Some(n)
}

/// A printed number reads as itself.
pub proof fn law_number_decimal(n: int, max: int)
    requires
        0 <= n <= max,
    ensures
        number(decimal(n), max) == Some(n),
        all_digits(decimal(n)),
        decimal(n).len() > 0,
{
    lemma_decimal(n);
    assert(is_digit(decimal(n)[0]));
}

proof fn lemma_decimal(n: int)
    requires
        0 <= n,
    ensures
        value(decimal(n)) == n,
        all_digits(decimal(n)),
        decimal(n).len() > 0,
    decreases n,
{
    if n >= 10 {
        lemma_decimal(n / 10);
        assert(decimal(n).drop_last() == decimal(n / 10));
    } else {
        assert(decimal(n).drop_last() == Seq::<char>::empty());
        assert(value(Seq::<char>::empty()) == 0);
    }
}

} // verus!
