//! Lines, escapes, quotes, numbers and cuts.

use vstd::prelude::*;

use crate::text;

verus! {

// ------------------------------------------------------------ lines

/// A line ends at its line feed, which it does not hold, nor one carriage
/// return right before it.
pub proof fn law_line(l: Seq<char>, rest: Seq<char>)
    requires
        !l.contains('\n'),
    ensures
        text::lines(l.push('\n') + rest) == seq![
            if l.len() > 0 && l[l.len() - 1] == '\r' {
                l.take(l.len() - 1)
            } else {
                l
            },
        ] + text::lines(rest),
{
    text::lemma_first_line(l, rest, seq![]);
    assert(l.push('\n') + rest =~= l + seq!['\n'] + rest);
    assert(Seq::<char>::empty() + l =~= l);
    assert(l.len() > 0 ==> l.take(l.len() - 1) =~= l.drop_last());
}

/// What follows the last line feed is a line too, unless it is empty.
pub proof fn law_last_line(l: Seq<char>)
    requires
        !l.contains('\n'),
    ensures
        text::lines(l) == if l.len() == 0 {
            Seq::<Seq<char>>::empty()
        } else {
            seq![l]
        },
{
    lemma_last_line(l, seq![]);
    assert(Seq::<char>::empty() + l =~= l);
}

proof fn lemma_last_line(l: Seq<char>, cur: Seq<char>)
    requires
        !l.contains('\n'),
    ensures
        text::lines_from(l, cur) == if (cur + l).len() == 0 {
            Seq::<Seq<char>>::empty()
        } else {
            seq![cur + l]
        },
    decreases l.len(),
{
    if l.len() == 0 {
        assert(cur + l =~= cur);
    } else {
        assert(l.contains(l[0]));
        assert forall|i: int| 0 <= i < l.len() - 1 implies l.skip(1)[i] != '\n' by {
            assert(l.contains(l[i + 1]));
        }
        lemma_last_line(l.skip(1), cur.push(l[0]));
        assert(cur.push(l[0]) + l.skip(1) =~= cur + l);
    }
}

// ------------------------------------------------------------ parts of texts

/// One text begins with another where something follows that makes it whole.
pub proof fn law_begins(s: Seq<char>, p: Seq<char>)
    ensures
        text::has_prefix(s, p) <==> exists|t: Seq<char>| s == #[trigger] (p + t),
{
    if text::has_prefix(s, p) {
        assert(s =~= p + s.skip(p.len() as int));
    }
    if exists|t: Seq<char>| s == #[trigger] (p + t) {
        let t = choose|t: Seq<char>| s == #[trigger] (p + t);
        assert(s.take(p.len() as int) =~= p);
    }
}

/// One text holds another where it is made of that and what is around it.
pub proof fn law_holds(s: Seq<char>, p: Seq<char>)
    ensures
        text::holds(s, p) <==> exists|a: Seq<char>, b: Seq<char>| s == #[trigger] (a + p + b),
{
    if text::holds(s, p) {
        let i = choose|i: int| #[trigger] text::found_at(s, p, i);
        assert(s =~= s.take(i) + p + s.skip(i + p.len())) by {
            let q = s.subrange(i, i + p.len());
            assert forall|k: int| 0 <= k < p.len() implies p[k] == s[i + k] by {
                assert(q[k] == s[i + k]);
            }
        }
    }
    if exists|a: Seq<char>, b: Seq<char>| s == #[trigger] (a + p + b) {
        let (a, b) = choose|a: Seq<char>, b: Seq<char>| s == #[trigger] (a + p + b);
        assert(s.subrange(a.len() as int, (a.len() + p.len()) as int) =~= p);
        assert(text::found_at(s, p, a.len() as int));
    }
}

/// White space: tab to carriage return, space, next line, no-break space and
/// the spaces and separators beyond.
pub proof fn law_white_space(c: char)
    ensures
        text::is_space(c) <==> {
            ||| c == '\t' || c == '\n' || c == '\u{b}' || c == '\u{c}' || c == '\r' || c == ' '
            ||| c == '\u{85}' || c == '\u{a0}' || c == '\u{1680}'
            ||| '\u{2000}' <= c <= '\u{200a}'
            ||| c == '\u{2028}' || c == '\u{2029}' || c == '\u{202f}'
            ||| c == '\u{205f}' || c == '\u{3000}'
        },
{
}

// ------------------------------------------------------------ escapes

/// A backslash, a line feed and a tab are written as two characters; any other
/// character stands for itself.
pub proof fn law_escape(c: char)
    ensures
        c == '\\' ==> text::escaped(seq![c]) == seq!['\\', '\\'],
        c == '\n' ==> text::escaped(seq![c]) == seq!['\\', 'n'],
        c == '\t' ==> text::escaped(seq![c]) == seq!['\\', 't'],
        c != '\\' && c != '\n' && c != '\t' ==> text::escaped(seq![c]) == seq![c],
        text::escaped(Seq::<char>::empty()).len() == 0,
{
    assert(seq![c].skip(1) =~= Seq::<char>::empty());
    assert(text::escaped(seq![c].skip(1)) == Seq::<char>::empty());
    assert(text::esc_char(c) + Seq::<char>::empty() =~= text::esc_char(c));
}

/// A backslash and what follows it are one character; any other character
/// stands for itself.
pub proof fn law_unescape(c: char, t: Seq<char>)
    ensures
        c != '\\' ==> text::unescaped(seq![c] + t) == seq![c] + text::unescaped(t),
        text::unescaped(seq!['\\', c] + t) == seq![
            if c == 'n' {
                '\n'
            } else if c == 't' {
                '\t'
            } else {
                c
            },
        ] + text::unescaped(t),
        text::unescaped(seq!['\\']).len() == 0,
        text::unescaped(Seq::<char>::empty()).len() == 0,
{
    assert((seq![c] + t).skip(1) =~= t);
    assert((seq!['\\', c] + t).skip(2) =~= t);
}

// ------------------------------------------------------------ quotes

/// A text without a quote is put between two.
pub proof fn law_quote(s: Seq<char>)
    requires
        !s.contains('\''),
    ensures
        text::quoted(s) == seq!['\''] + s + seq!['\''],
{
    lemma_requoted_plain(s);
}

proof fn lemma_requoted_plain(s: Seq<char>)
    requires
        !s.contains('\''),
    ensures
        text::requoted(s) == s,
    decreases s.len(),
{
    if s.len() > 0 {
        assert(s.contains(s[0]));
        assert forall|i: int| 0 <= i < s.len() - 1 implies s.skip(1)[i] != '\'' by {
            assert(s.contains(s[i + 1]));
        }
        lemma_requoted_plain(s.skip(1));
        assert(seq![s[0]] + s.skip(1) =~= s);
    }
}

/// A quote in a text ends the quotes, stands alone behind a backslash, and
/// begins new ones.
pub proof fn law_quote_in_text(a: Seq<char>, b: Seq<char>)
    ensures
        ({
            let qa = text::quoted(a);
            let qb = text::quoted(b);
            text::quoted(a.push('\'') + b) == qa + seq!['\\', '\''] + qb
        }),
{
    lemma_requoted_adds(a, seq!['\''] + b);
    lemma_requoted_adds(seq!['\''], b);
    assert(a.push('\'') + b =~= a + (seq!['\''] + b));
    assert(seq!['\''].skip(1) =~= Seq::<char>::empty());
    assert(text::requoted(seq!['\''].skip(1)) == Seq::<char>::empty());
    assert(text::quoted(a.push('\'') + b) =~= text::quoted(a) + seq!['\\', '\''] + text::quoted(b));
}

proof fn lemma_requoted_adds(a: Seq<char>, b: Seq<char>)
    ensures
        text::requoted(a + b) == text::requoted(a) + text::requoted(b),
    decreases a.len(),
{
    if a.len() == 0 {
        assert(a + b =~= b);
        assert(Seq::<char>::empty() + text::requoted(b) =~= text::requoted(b));
    } else {
        lemma_requoted_adds(a.skip(1), b);
        assert((a + b).skip(1) =~= a.skip(1) + b);
        let x = text::requoted(a.skip(1));
        let y = text::requoted(b);
        let q = seq!['\'', '\\', '\'', '\''];
        assert(q + (x + y) =~= (q + x) + y);
        assert(seq![a[0]] + (x + y) =~= (seq![a[0]] + x) + y);
    }
}

// ------------------------------------------------------------ cuts

/// A text that is short enough stays as it is; a longer one keeps its beginning,
/// with one character less than it may have and three dots for the rest.
pub proof fn law_cut_text(s: Seq<char>, n: int)
    requires
        n >= 0,
    ensures
        s.len() <= n ==> text::truncated(s, n) == s,
        s.len() > n && n >= 1 ==> {
            let t = text::truncated(s, n);
            &&& t.len() == n
            &&& t[n - 1] == '\u{2026}'
            &&& forall|i: int| 0 <= i < n - 1 ==> t[i] == s[i]
        },
        s.len() > 0 && n == 0 ==> text::truncated(s, n) == seq!['\u{2026}'],
{
}

/// Trimming takes white space off both ends, all of it, and nothing else.
pub proof fn law_trim(s: Seq<char>)
    ensures
        exists|i: int, j: int|
            {
                &&& 0 <= i <= j <= s.len()
                &&& text::trimmed(s) == #[trigger] s.subrange(i, j)
                &&& forall|k: int| 0 <= k < i ==> text::is_space(#[trigger] s[k])
                &&& forall|k: int| j <= k < s.len() ==> text::is_space(#[trigger] s[k])
                &&& i < j ==> !text::is_space(s[i]) && !text::is_space(s[j - 1])
            },
{
    let b = text::spaces_behind(s);
    lemma_spaces_behind(s);
    let t = s.take(s.len() - b);
    let a = text::spaces_ahead(t);
    lemma_spaces_ahead(t);
    let j = s.len() - b;
    assert(t.skip(a) =~= s.subrange(a, j));
    assert forall|k: int| 0 <= k < a implies text::is_space(#[trigger] s[k]) by {
        assert(t[k] == s[k]);
    }
    if a < j {
        assert(t[a] == s[a]);
    }
    assert(text::trimmed(s) == s.subrange(a, j));
}

proof fn lemma_spaces_behind(s: Seq<char>)
    ensures
        0 <= text::spaces_behind(s) <= s.len(),
        forall|k: int|
            s.len() - text::spaces_behind(s) <= k < s.len() ==> text::is_space(#[trigger] s[k]),
        text::spaces_behind(s) < s.len() ==> !text::is_space(
            s[s.len() - text::spaces_behind(s) - 1],
        ),
    decreases s.len(),
{
    if s.len() > 0 && text::is_space(s.last()) {
        let f = s.drop_last();
        lemma_spaces_behind(f);
        assert forall|k: int|
            s.len() - text::spaces_behind(s) <= k < s.len() implies text::is_space(
            #[trigger] s[k],
        ) by {
            if k < f.len() {
                assert(f[k] == s[k]);
            }
        }
    }
}

proof fn lemma_spaces_ahead(s: Seq<char>)
    ensures
        0 <= text::spaces_ahead(s) <= s.len(),
        forall|k: int| 0 <= k < text::spaces_ahead(s) ==> text::is_space(#[trigger] s[k]),
        text::spaces_ahead(s) < s.len() ==> !text::is_space(s[text::spaces_ahead(s)]),
    decreases s.len(),
{
    if s.len() > 0 && text::is_space(s[0]) {
        let r = s.skip(1);
        lemma_spaces_ahead(r);
        assert forall|k: int| 0 <= k < text::spaces_ahead(s) implies text::is_space(
            #[trigger] s[k],
        ) by {
            if k > 0 {
                assert(r[k - 1] == s[k]);
            }
        }
        if text::spaces_ahead(s) < s.len() {
            assert(r[text::spaces_ahead(r)] == s[text::spaces_ahead(s)]);
        }
    }
}

/// A tail is taken off as often as it stands there, and what does not end with
/// it stays.
pub proof fn law_tail(s: Seq<char>, tail: Seq<char>)
    requires
        tail.len() > 0,
    ensures
        text::without_tail(s + tail, tail) == text::without_tail(s, tail),
        !(exists|t: Seq<char>| s == #[trigger] (t + tail)) ==> text::without_tail(s, tail) == s,
{
    let w = s + tail;
    let n = w.len() - tail.len();
    assert(w.skip(n) =~= tail);
    assert(w.take(n) =~= s);
    let m = s.len() - tail.len();
    if m >= 0 && s.skip(m) == tail {
        assert(s =~= s.take(m) + tail);
    }
}

// ------------------------------------------------------------ numbers

/// A number is written with the digits of its tenth part and its last one.
pub proof fn law_decimal(n: int, d: int)
    requires
        n >= 0,
        0 <= d < 10,
    ensures
        text::decimal(d) == seq![(48 + d) as char],
        n > 0 ==> text::decimal(10 * n + d) == text::decimal(n).push((48 + d) as char),
{
    if n > 0 {
        assert((10 * n + d) / 10 == n);
        assert((10 * n + d) % 10 == d);
    }
}

/// Digits are read as the number that they write, where it is not too large.
pub proof fn law_number(s: Seq<char>, max: int)
    requires
        s.len() > 0,
        forall|i: int| 0 <= i < s.len() ==> '0' <= #[trigger] s[i] <= '9',
    ensures
        text::number(s, max) == if text::value(s) <= max {
            Some(text::value(s))
        } else {
            None
        },
        text::number(seq!['+'] + s, max) == text::number(s, max),
        text::value(s) == 10 * text::value(s.take(s.len() - 1)) + (s[s.len() - 1] as int - 48),
        text::value(Seq::<char>::empty()) == 0,
{
    assert(s[0] != '+');
    assert(text::all_digits(s)) by {
        assert forall|i: int| 0 <= i < s.len() implies text::is_digit(#[trigger] s[i]) by {}
    }
    assert((seq!['+'] + s).skip(1) =~= s);
    assert(s.take(s.len() - 1) =~= s.drop_last());
}

/// What holds anything else is no number, but for one plus ahead.
pub proof fn law_no_number(s: Seq<char>, i: int, max: int)
    requires
        0 <= i < s.len(),
        !('0' <= s[i] <= '9'),
        i > 0 || s[i] != '+',
    ensures
        text::number(s, max) is None,
        text::number(Seq::<char>::empty(), max) is None,
        text::number(seq!['+'], max) is None,
{
    let t = text::unsigned(s);
    if s[0] == '+' {
        assert(t[i - 1] == s[i]);
        assert(!text::is_digit(t[i - 1]));
    } else {
        assert(!text::is_digit(t[i]));
    }
}

} // verus!
