//! Character-level text model: whitespace, trimming, substring search and
//! the line structure of a text file.
use vstd::prelude::*;

verus! {

/// Collects the characters of `s` in order.
pub fn chars_of(s: &str) -> (r: Vec<char>)
    ensures
        r@ == s@,
{
    let mut r: Vec<char> = Vec::new();
    for c in it: s.chars()
        invariant
            r@ == it.seq().take(it.index() as int),
            it.seq() == s@,
    {
        r.push(c);
    }
    r
}

} // verus!

verus! {

/// Unicode `White_Space`, the set that `char::is_whitespace` and
/// `str::trim` go by.
pub open spec fn is_ws(c: char) -> bool {
    let n = c as u32;
    (9 <= n && n <= 13) || n == 32 || n == 0x85 || n == 0xa0 || n == 0x1680 || (0x2000 <= n
        && n <= 0x200a) || n == 0x2028 || n == 0x2029 || n == 0x202f || n == 0x205f || n == 0x3000
}

pub fn is_whitespace(c: char) -> (r: bool)
    ensures
        r == is_ws(c),
{
    let n = c as u32;
    (9 <= n && n <= 13) || n == 32 || n == 0x85 || n == 0xa0 || n == 0x1680 || (0x2000 <= n
        && n <= 0x200a) || n == 0x2028 || n == 0x2029 || n == 0x202f || n == 0x205f || n == 0x3000
}

pub open spec fn trim_start(s: Seq<char>) -> Seq<char>
    decreases s.len(),
{
    if s.len() > 0 && is_ws(s[0]) {
        trim_start(s.drop_first())
    } else {
        s
    }
}

pub open spec fn trim_end(s: Seq<char>) -> Seq<char>
    decreases s.len(),
{
    if s.len() > 0 && is_ws(s.last()) {
        trim_end(s.drop_last())
    } else {
        s
    }
}

/// The text without leading and trailing whitespace, as `str::trim` gives it.
pub open spec fn trim(s: Seq<char>) -> Seq<char> {
    trim_end(trim_start(s))
}

/// Bounds of the trimmed part of `v[lo..hi]`.
pub fn trim_bounds(v: &Vec<char>, lo: usize, hi: usize) -> (r: (usize, usize))
    requires
        lo <= hi <= v.len(),
    ensures
        lo <= r.0 <= r.1 <= hi,
        v@.subrange(r.0 as int, r.1 as int) == trim(v@.subrange(lo as int, hi as int)),
{
    let mut a: usize = lo;
    while a < hi && is_whitespace(v[a])
        invariant
            lo <= a <= hi <= v.len(),
            trim_start(v@.subrange(a as int, hi as int)) == trim_start(
                v@.subrange(lo as int, hi as int),
            ),
        decreases hi - a,
    {
        proof {
            let t = v@.subrange(a as int, hi as int);
            assert(t.drop_first() =~= v@.subrange(a + 1, hi as int));
        }
        a = a + 1;
    }
    let mut b: usize = hi;
    while b > a && is_whitespace(v[b - 1])
        invariant
            lo <= a <= b <= hi <= v.len(),
            trim_start(v@.subrange(lo as int, hi as int)) == v@.subrange(a as int, hi as int),
            trim_end(v@.subrange(a as int, b as int)) == trim_end(
                v@.subrange(a as int, hi as int),
            ),
        decreases b - a,
    {
        proof {
            let t = v@.subrange(a as int, b as int);
            assert(t.drop_last() =~= v@.subrange(a as int, b - 1));
        }
        b = b - 1;
    }
    (a, b)
}

/// `p` stands in `s` at position `i`.
pub open spec fn occurs_at(s: Seq<char>, p: Seq<char>, i: int) -> bool {
    0 <= i && i + p.len() <= s.len() && s.subrange(i, i + p.len()) == p
}

pub open spec fn contains(s: Seq<char>, p: Seq<char>) -> bool {
    exists|i: int| occurs_at(s, p, i)
}

pub open spec fn starts_with(s: Seq<char>, p: Seq<char>) -> bool {
    occurs_at(s, p, 0)
}

/// Whether `p` stands in `v` at position `i`.
pub fn matches_at(v: &Vec<char>, i: usize, p: &Vec<char>) -> (r: bool)
    ensures
        r == occurs_at(v@, p@, i as int),
{
    if i > v.len() || p.len() > v.len() - i {
        return false;
    }
    let mut k: usize = 0;
    while k < p.len()
        invariant
            k <= p.len(),
            i + p.len() <= v.len(),
            forall|m: int| 0 <= m < k ==> v@[i + m] == p@[m],
        decreases p.len() - k,
    {
        if v[i + k] != p[k] {
            assert(v@.subrange(i as int, i + p.len())[k as int] != p@[k as int]);
            return false;
        }
        k = k + 1;
    }
    assert(v@.subrange(i as int, i + p.len()) =~= p@);
    true
}

/// Whether `p` stands anywhere in `v`.
pub fn contains_chars(v: &Vec<char>, p: &Vec<char>) -> (r: bool)
    ensures
        r == contains(v@, p@),
{
    if p.len() == 0 {
        assert(v@.subrange(0, 0) =~= p@);
        assert(occurs_at(v@, p@, 0));
        return true;
    }
    let mut i: usize = 0;
    while i < v.len() && p.len() <= v.len() - i
        invariant
            i <= v.len(),
            p.len() > 0,
            forall|j: int| 0 <= j < i ==> !occurs_at(v@, p@, j),
        decreases v.len() - i,
    {
        if matches_at(v, i, p) {
            return true;
        }
        i = i + 1;
    }
    false
}

/// Whether `pat` stands anywhere in `s`.
pub fn str_contains(s: &str, pat: &str) -> (r: bool)
    ensures
        r == contains(s@, pat@),
{
    let v = chars_of(s);
    let p = chars_of(pat);
    contains_chars(&v, &p)
}

} // verus!

verus! {

/// Index of the first line feed in `s`, or its length when it has none.
pub open spec fn newline_index(s: Seq<char>) -> nat
    decreases s.len(),
{
    if s.len() == 0 {
        0
    } else if s[0] == '\n' {
        0
    } else {
        1 + newline_index(s.drop_first())
    }
}

/// A line that a line feed ended loses one carriage return before it.
pub open spec fn strip_cr(l: Seq<char>) -> Seq<char> {
    if l.len() > 0 && l.last() == '\r' {
        l.drop_last()
    } else {
        l
    }
}

/// The lines of a text, as `str::lines` yields them: split at each line
/// feed, with a "\r\n" ending counted as one line ending and no empty line
/// after a final line feed.
pub open spec fn lines(s: Seq<char>) -> Seq<Seq<char>>
    decreases s.len(),
{
    if s.len() == 0 {
        seq![]
    } else {
        let j = newline_index(s);
        if j >= s.len() {
            seq![s]
        } else {
            seq![strip_cr(s.subrange(0, j as int))] + lines(s.subrange(j as int + 1, s.len() as int))
        }
    }
}

/// Each line followed by a line feed.
pub open spec fn render(ls: Seq<Seq<char>>) -> Seq<char>
    decreases ls.len(),
{
    if ls.len() == 0 {
        seq![]
    } else {
        ls[0] + seq!['\n'] + render(ls.drop_first())
    }
}

pub proof fn lemma_newline_index(s: Seq<char>, k: int)
    requires
        0 <= k <= s.len(),
        forall|m: int| 0 <= m < k ==> s[m] != '\n',
        k == s.len() || s[k] == '\n',
    ensures
        newline_index(s) == k,
    decreases k,
{
    if k > 0 {
        lemma_newline_index(s.drop_first(), k - 1);
    }
}

/// One step of `lines`: the line that starts at `p` ends at `e`.
pub proof fn lemma_lines_step(s: Seq<char>, p: int, e: int)
    requires
        0 <= p <= e <= s.len(),
        p < s.len(),
        forall|m: int| p <= m < e ==> s[m] != '\n',
        e == s.len() || s[e] == '\n',
    ensures
        e == s.len() ==> lines(s.subrange(p, s.len() as int)) == seq![
            s.subrange(p, s.len() as int),
        ],
        e < s.len() ==> lines(s.subrange(p, s.len() as int)) == seq![
            strip_cr(s.subrange(p, e)),
        ] + lines(s.subrange(e + 1, s.len() as int)),
{
    let t = s.subrange(p, s.len() as int);
    lemma_newline_index(t, e - p);
    if e < s.len() {
        assert(t.subrange(0, e - p) =~= s.subrange(p, e));
        assert(t.subrange(e - p + 1, t.len() as int) =~= s.subrange(e + 1, s.len() as int));
    }
}

/// End of the line that starts at `start`: the next line feed, or the end.
pub fn line_end(v: &Vec<char>, start: usize) -> (e: usize)
    requires
        start <= v.len(),
    ensures
        start <= e <= v.len(),
        forall|m: int| start <= m < e ==> v@[m] != '\n',
        e == v.len() || v@[e as int] == '\n',
{
    let mut e: usize = start;
    while e < v.len() && v[e] != '\n'
        invariant
            start <= e <= v.len(),
            forall|m: int| start <= m < e ==> v@[m] != '\n',
        decreases v.len() - e,
    {
        e = e + 1;
    }
    e
}

} // verus!

verus! {

pub proof fn lemma_render_push(ls: Seq<Seq<char>>, l: Seq<char>)
    ensures
        render(ls.push(l)) == render(ls) + l + seq!['\n'],
    decreases ls.len(),
{
    if ls.len() == 0 {
        assert(ls.push(l).drop_first() =~= ls);
        assert(render(ls.push(l)) =~= render(ls) + l + seq!['\n']);
    } else {
        assert(ls.push(l).drop_first() =~= ls.drop_first().push(l));
        lemma_render_push(ls.drop_first(), l);
        assert(render(ls.push(l)) =~= render(ls) + l + seq!['\n']);
    }
}

/// `s` quoted for a POSIX shell inside single quotes: each quote becomes
/// `'\''`.
pub open spec fn sh_escaped(s: Seq<char>) -> Seq<char>
    decreases s.len(),
{
    if s.len() == 0 {
        seq![]
    } else if s.last() == '\'' {
        sh_escaped(s.drop_last()) + seq!['\'', '\\', '\'', '\'']
    } else {
        sh_escaped(s.drop_last()).push(s.last())
    }
}

/// `s` as one single-quoted shell word.
pub open spec fn sh_quoted(s: Seq<char>) -> Seq<char> {
    seq!['\''] + sh_escaped(s) + seq!['\'']
}

/// `s` as one single-quoted shell word.
pub fn shell_quote(s: &str) -> (r: String)
    ensures
        r@ == sh_quoted(s@),
{
    let v = chars_of(s);
    let mut out = String::from_str("'");
    proof {
        reveal_strlit("'");
        assert(v@.subrange(0, 0) =~= seq![]);
    }
    let mut i: usize = 0;
    while i < v.len()
        invariant
            i <= v.len(),
            v@ == s@,
            out@ == seq!['\''] + sh_escaped(v@.subrange(0, i as int)),
        decreases v.len() - i,
    {
        proof {
            assert(v@.subrange(0, i + 1).drop_last() =~= v@.subrange(0, i as int));
        }
        if v[i] == '\'' {
            out.append("'\\''");
            proof {
                reveal_strlit("'\\''");
                assert(out@ =~= seq!['\''] + sh_escaped(v@.subrange(0, i + 1)));
            }
        } else {
            let one = s.substring_char(i, i + 1);
            out.append(one);
            proof {
                assert(one@ =~= seq![v@[i as int]]);
                assert(out@ =~= seq!['\''] + sh_escaped(v@.subrange(0, i + 1)));
            }
        }
        i = i + 1;
    }
    out.append("'");
    proof {
        reveal_strlit("'");
        assert(v@.subrange(0, v@.len() as int) =~= v@);
        assert(out@ =~= sh_quoted(s@));
    }
    out
}

} // verus!

verus! {

pub proof fn lemma_newline_index_props(s: Seq<char>)
    ensures
        newline_index(s) <= s.len(),
        forall|m: int| 0 <= m < newline_index(s) ==> s[m] != '\n',
        newline_index(s) < s.len() ==> s[newline_index(s) as int] == '\n',
    decreases s.len(),
{
    if s.len() > 0 && s[0] != '\n' {
        lemma_newline_index_props(s.drop_first());
        assert forall|m: int| 0 <= m < newline_index(s) implies s[m] != '\n' by {
            if m > 0 {
                assert(s.drop_first()[m - 1] == s[m]);
            }
        }
    }
}

proof fn lemma_trim_start_push(y: Seq<char>, ch: char)
    ensures
        trim_start(y.push(ch)) == if trim_start(y).len() == 0 {
            trim_start(seq![ch])
        } else {
            trim_start(y).push(ch)
        },
    decreases y.len(),
{
    if y.len() == 0 {
        assert(y.push(ch) =~= seq![ch]);
    } else if is_ws(y[0]) {
        assert(y.push(ch).drop_first() =~= y.drop_first().push(ch));
        lemma_trim_start_push(y.drop_first(), ch);
    }
}

/// Trimming does not see the carriage return that `lines` may strip.
pub proof fn lemma_trim_strip_cr(x: Seq<char>)
    ensures
        trim(strip_cr(x)) == trim(x),
{
    if x.len() > 0 && x.last() == '\r' {
        let y = x.drop_last();
        assert(x =~= y.push('\r'));
        lemma_trim_start_push(y, '\r');
        if trim_start(y).len() == 0 {
            assert(seq!['\r'].drop_first() =~= Seq::<char>::empty());
            assert(trim_start(seq!['\r']) == trim_start(Seq::<char>::empty()));
        } else {
            assert(trim_start(y).push('\r').drop_last() =~= trim_start(y));
        }
    }
}

/// A text that ends a line splits into the lines of each part.
pub proof fn lemma_lines_concat(a: Seq<char>, b: Seq<char>)
    requires
        a.len() == 0 || a.last() == '\n',
    ensures
        lines(a + b) == lines(a) + lines(b),
    decreases a.len(),
{
    if a.len() == 0 {
        assert(a + b =~= b);
        assert(lines(a) + lines(b) =~= lines(b));
    } else {
        lemma_newline_index_props(a);
        let j = newline_index(a) as int;
        assert(j < a.len());
        lemma_newline_index(a + b, j);
        let r = a.subrange(j + 1, a.len() as int);
        assert((a + b).subrange(0, j) =~= a.subrange(0, j));
        assert((a + b).subrange(j + 1, (a + b).len() as int) =~= r + b);
        if r.len() > 0 {
            assert(r.last() == a.last());
        }
        lemma_lines_concat(r, b);
        assert(lines(a + b) =~= lines(a) + lines(b));
    }
}

/// A line feed after an unterminated last line ends it.
pub proof fn lemma_lines_newline(c: Seq<char>)
    requires
        c.len() > 0,
        c.last() != '\n',
    ensures
        lines(c).len() > 0,
        lines(c + seq!['\n']) == lines(c).drop_last().push(strip_cr(lines(c).last())),
    decreases c.len(),
{
    lemma_newline_index_props(c);
    let j = newline_index(c) as int;
    let c2 = c + seq!['\n'];
    if j >= c.len() {
        lemma_newline_index(c2, c.len() as int);
        assert(c2.subrange(0, c.len() as int) =~= c);
        assert(c2.subrange(c.len() as int + 1, c2.len() as int) =~= Seq::<char>::empty());
        assert(lines(c) == seq![c]);
        assert(lines(Seq::<char>::empty()) == Seq::<Seq<char>>::empty());
        assert(lines(c2) == seq![strip_cr(c)] + lines(Seq::<char>::empty()));
        assert(lines(c2) =~= lines(c).drop_last().push(strip_cr(lines(c).last())));
    } else {
        lemma_newline_index(c2, j);
        let r = c.subrange(j + 1, c.len() as int);
        assert(j != c.len() - 1);
        assert(r.last() == c.last());
        assert(c2.subrange(0, j) =~= c.subrange(0, j));
        assert(c2.subrange(j + 1, c2.len() as int) =~= r + seq!['\n']);
        lemma_lines_newline(r);
        assert(lines(c2) =~= lines(c).drop_last().push(strip_cr(lines(c).last())));
    }
}

/// Rendering lines without line feeds or a final carriage return gives a
/// text whose lines are those lines.
pub proof fn lemma_lines_render(ls: Seq<Seq<char>>)
    requires
        forall|k: int, m: int| 0 <= k < ls.len() && 0 <= m < ls[k].len() ==> #[trigger] ls[k][m] != '\n',
        forall|k: int| 0 <= k < ls.len() && #[trigger] ls[k].len() > 0 ==> ls[k].last() != '\r',
    ensures
        lines(render(ls)) == ls,
    decreases ls.len(),
{
    if ls.len() > 0 {
        let l = ls[0];
        let rest = ls.drop_first();
        let s = render(ls);
        assert(s == l + seq!['\n'] + render(rest));
        assert forall|m: int| 0 <= m < l.len() implies s[m] != '\n' by {
            assert(s[m] == l[m]);
            assert(ls[0][m] != '\n');
        }
        lemma_newline_index(s, l.len() as int);
        assert(s.subrange(0, l.len() as int) =~= l);
        assert(s.subrange(l.len() as int + 1, s.len() as int) =~= render(rest));
        assert forall|k: int, m: int| 0 <= k < rest.len() && 0 <= m < rest[k].len() implies #[trigger] rest[k][m] != '\n' by {
            assert(rest[k] == ls[k + 1]);
        }
        assert forall|k: int| 0 <= k < rest.len() && #[trigger] rest[k].len() > 0 implies rest[k].last() != '\r' by {
            assert(rest[k] == ls[k + 1]);
        }
        lemma_lines_render(rest);
        assert(lines(s) =~= ls);
    }
}

} // verus!

verus! {

/// The line of `v` that starts at `p`: where it ends, without its line
/// ending, and where the next line starts.
pub fn next_line(v: &Vec<char>, p: usize) -> (r: (usize, usize))
    requires
        p < v.len(),
    ensures
        p <= r.0 <= r.1 <= v.len(),
        p < r.1,
        lines(v@.subrange(p as int, v@.len() as int)) == seq![v@.subrange(p as int, r.0 as int)]
            + lines(v@.subrange(r.1 as int, v@.len() as int)),
{
    let e = line_end(v, p);
    proof {
        lemma_lines_step(v@, p as int, e as int);
    }
    if e < v.len() {
        let e2: usize = if e > p && v[e - 1] == '\r' {
            e - 1
        } else {
            e
        };
        proof {
            if e > p && v@[e - 1] == '\r' {
                assert(v@.subrange(p as int, e as int).drop_last() =~= v@.subrange(
                    p as int,
                    e2 as int,
                ));
            }
        }
        (e2, e + 1)
    } else {
        proof {
            assert(v@.subrange(e as int, v@.len() as int) =~= Seq::<char>::empty());
            assert(lines(Seq::<char>::empty()) == Seq::<Seq<char>>::empty());
            assert(seq![v@.subrange(p as int, e as int)] + Seq::<Seq<char>>::empty() =~= seq![
                v@.subrange(p as int, e as int),
            ]);
        }
        (e, e)
    }
}

/// Index of the first `ch` in `s`, or its length when it has none.
pub open spec fn index_of(s: Seq<char>, ch: char) -> nat
    decreases s.len(),
{
    if s.len() == 0 {
        0
    } else if s[0] == ch {
        0
    } else {
        1 + index_of(s.drop_first(), ch)
    }
}

pub proof fn lemma_index_of(s: Seq<char>, ch: char, k: int)
    requires
        0 <= k <= s.len(),
        forall|m: int| 0 <= m < k ==> s[m] != ch,
        k == s.len() || s[k] == ch,
    ensures
        index_of(s, ch) == k,
    decreases k,
{
    if k > 0 {
        lemma_index_of(s.drop_first(), ch, k - 1);
    }
}

/// Whether `a` and `b` hold the same text.
pub fn str_eq(a: &str, b: &str) -> (r: bool)
    ensures
        r == (a@ == b@),
{
    let x = chars_of(a);
    let y = chars_of(b);
    if x.len() != y.len() {
        return false;
    }
    let r = matches_at(&x, 0, &y);
    assert(x@.subrange(0, y@.len() as int) =~= x@);
    r
}

} // verus!
