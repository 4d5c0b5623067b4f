//! The hosts file: which names already point at the loopback address, the
//! block of entries to append, and the removal of entries from the block
//! that this tool owns.
use vstd::prelude::*;
use crate::text::{
    chars_of, is_whitespace, is_ws, lemma_lines_concat, lemma_lines_newline, lemma_lines_render,
    lemma_render_push, lemma_trim_strip_cr, lines, matches_at, next_line,
    occurs_at, render, sh_quoted, shell_quote, starts_with, trim, trim_bounds,
    trim_end, trim_start,
};

verus! {

/// The comment line that opens the block of entries this tool owns.
pub open spec fn sentinel() -> Seq<char> {
    seq!['#', ' ', 'D', 'e', 'v', 'R', 'e', 'l', 'a', 'y', ' ', 'e', 'n', 't', 'r', 'i', 'e', 's']
}

pub open spec fn loopback() -> Seq<char> {
    seq!['1', '2', '7', '.', '0', '.', '0', '.', '1']
}

/// A name that can stand as one word of an entry line.
pub open spec fn is_word(d: Seq<char>) -> bool {
    d.len() > 0 && forall|m: int| 0 <= m < d.len() ==> !is_ws(#[trigger] d[m])
}

/// `d` is one of the whitespace-separated words of the trimmed line `t`,
/// other than its first.
pub open spec fn names_after_first(t: Seq<char>, d: Seq<char>) -> bool {
    is_word(d) && exists|k: int|
        #![trigger occurs_at(t, d, k)]
        0 < k && occurs_at(t, d, k) && is_ws(t[k - 1]) && (k + d.len() == t.len() || is_ws(
            t[k + d.len()],
        ))
}

/// The trimmed line `t` maps the loopback address to `d`.
pub open spec fn is_entry_for(t: Seq<char>, d: Seq<char>) -> bool {
    starts_with(t, loopback()) && names_after_first(t, d)
}

/// Some line of the hosts text `c` maps the loopback address to `d`.
pub open spec fn lists_domain(c: Seq<char>, d: Seq<char>) -> bool {
    exists|k: int| 0 <= k < lines(c).len() && is_entry_for(trim(#[trigger] lines(c)[k]), d)
}

pub open spec fn views(v: Seq<String>) -> Seq<Seq<char>> {
    v.map_values(|s: String| s@)
}

pub proof fn lemma_views_push(prev: Seq<String>, s: String)
    ensures
        views(prev.push(s)) == views(prev).push(s@),
{
    assert(views(prev.push(s)) =~= views(prev).push(s@));
}

pub open spec fn char_views(v: Seq<Vec<char>>) -> Seq<Seq<char>> {
    v.map_values(|d: Vec<char>| d@)
}

/// The names of `ds` that `c` does not list yet, in their order.
pub open spec fn missing(c: Seq<char>, ds: Seq<Seq<char>>) -> Seq<Seq<char>>
    decreases ds.len(),
{
    if ds.len() == 0 {
        seq![]
    } else if lists_domain(c, ds.last()) {
        missing(c, ds.drop_last())
    } else {
        missing(c, ds.drop_last()).push(ds.last())
    }
}

/// The entry line that maps the loopback address to `d`.
pub open spec fn entry_line(d: Seq<char>) -> Seq<char> {
    loopback() + seq![' '] + d
}

/// The sentinel line followed by one entry line for each name of `ms`.
pub open spec fn block_lines(ms: Seq<Seq<char>>) -> Seq<Seq<char>> {
    seq![sentinel()] + ms.map_values(|d: Seq<char>| entry_line(d))
}

/// A line feed that ends an unterminated last line of `c`.
pub open spec fn separator(c: Seq<char>) -> Seq<char> {
    if c.len() > 0 && c.last() != '\n' {
        seq!['\n']
    } else {
        seq![]
    }
}

/// What is appended to the hosts text `c` so that it lists every name of
/// `ds`: nothing when it lists them all already, else the sentinel line and
/// one entry line for each missing name, in the order of `ds`.
pub open spec fn hosts_addition(c: Seq<char>, ds: Seq<Seq<char>>) -> Seq<char> {
    let m = missing(c, ds);
    if m.len() == 0 {
        seq![]
    } else {
        separator(c) + render(block_lines(m))
    }
}

/// The shell command that appends `a` to the hosts file.
pub open spec fn append_command_text(a: Seq<char>) -> Seq<char> {
    "printf '%s' "@ + sh_quoted(a) + " >> /etc/hosts"@
}

/// Where the scan of the hosts file stands: outside the block this tool
/// owns, or inside it.
#[derive(PartialEq, Eq, Structural, Clone, Copy, Debug)]
pub enum BlockState {
    Outside,
    InBlock,
}

/// The trimmed line `t` maps the loopback address to one of the names `ds`.
pub open spec fn is_entry_for_any(t: Seq<char>, ds: Seq<Seq<char>>) -> bool {
    exists|j: int| 0 <= j < ds.len() && #[trigger] is_entry_for(t, ds[j])
}

/// One transition of the block scan on the trimmed line `t`: the next state,
/// and whether the line is kept. The sentinel opens the block and is dropped;
/// inside the block an entry for one of `ds` is dropped, a blank line is
/// dropped, and any other line ends the block and is kept. Outside the block
/// every line is kept.
pub open spec fn block_step(st: BlockState, t: Seq<char>, ds: Seq<Seq<char>>) -> (BlockState, bool) {
    if t == sentinel() {
        (BlockState::InBlock, false)
    } else if st == BlockState::Outside {
        (BlockState::Outside, true)
    } else if is_entry_for_any(t, ds) {
        (BlockState::InBlock, false)
    } else if t.len() > 0 {
        (BlockState::Outside, true)
    } else {
        (BlockState::InBlock, false)
    }
}

/// The state of the scan before line `k` of `ls`.
pub open spec fn state_before(ls: Seq<Seq<char>>, k: int, ds: Seq<Seq<char>>) -> BlockState
    decreases k,
{
    if k <= 0 {
        BlockState::Outside
    } else {
        block_step(state_before(ls, k - 1, ds), trim(ls[k - 1]), ds).0
    }
}

/// Line `k` of `ls` is kept.
pub open spec fn keeps(ls: Seq<Seq<char>>, k: int, ds: Seq<Seq<char>>) -> bool {
    block_step(state_before(ls, k, ds), trim(ls[k]), ds).1
}

/// Line `k` of `ls` is an entry for one of `ds` that the scan removes.
pub open spec fn removes_entry(ls: Seq<Seq<char>>, k: int, ds: Seq<Seq<char>>) -> bool {
    state_before(ls, k, ds) == BlockState::InBlock && trim(ls[k]) != sentinel()
        && is_entry_for_any(trim(ls[k]), ds)
}

/// The lines among the first `n` of `ls` that the scan keeps, in order.
pub open spec fn kept(ls: Seq<Seq<char>>, n: int, ds: Seq<Seq<char>>) -> Seq<Seq<char>>
    decreases n,
{
    if n <= 0 {
        seq![]
    } else if keeps(ls, n - 1, ds) {
        kept(ls, n - 1, ds).push(ls[n - 1])
    } else {
        kept(ls, n - 1, ds)
    }
}

/// The hosts text once the entries for `ds` inside the block are removed;
/// `None` when the scan removes no entry. The kept lines are joined by line
/// feeds and end with one.
pub open spec fn hosts_after_removal(c: Seq<char>, ds: Seq<Seq<char>>) -> Option<Seq<char>> {
    let ls = lines(c);
    if !(exists|k: int| 0 <= k < ls.len() && #[trigger] removes_entry(ls, k, ds)) {
        None
    } else if kept(ls, ls.len() as int, ds).len() == 0 {
        Some(seq!['\n'])
    } else {
        Some(render(kept(ls, ls.len() as int, ds)))
    }
}

/// The shell command that replaces the hosts file with `content`.
pub open spec fn rewrite_command_text(content: Seq<char>) -> Seq<char> {
    "printf '%s' "@ + sh_quoted(content) + " | tee /etc/hosts > /dev/null"@
}

fn sentinel_chars() -> (r: Vec<char>)
    ensures
        r@ == sentinel(),
{
    let r = chars_of("# DevRelay entries");
    proof {
        reveal_strlit("# DevRelay entries");
        assert(r@ =~= sentinel());
    }
    r
}

fn loopback_chars() -> (r: Vec<char>)
    ensures
        r@ == loopback(),
{
    let r = chars_of("127.0.0.1");
    proof {
        reveal_strlit("127.0.0.1");
        assert(r@ =~= loopback());
    }
    r
}

fn slice_chars(v: &Vec<char>, a: usize, b: usize) -> (r: Vec<char>)
    requires
        a <= b <= v.len(),
    ensures
        r@ == v@.subrange(a as int, b as int),
{
    let mut r: Vec<char> = Vec::new();
    let mut i: usize = a;
    while i < b
        invariant
            a <= i <= b <= v.len(),
            r@ == v@.subrange(a as int, i as int),
        decreases b - i,
    {
        r.push(v[i]);
        proof {
            assert(r@ =~= v@.subrange(a as int, i + 1));
        }
        i = i + 1;
    }
    r
}

fn word_check(d: &Vec<char>) -> (r: bool)
    ensures
        r == is_word(d@),
{
    if d.len() == 0 {
        return false;
    }
    let mut i: usize = 0;
    while i < d.len()
        invariant
            i <= d.len(),
            forall|m: int| 0 <= m < i ==> !is_ws(#[trigger] d@[m]),
        decreases d.len() - i,
    {
        if is_whitespace(d[i]) {
            return false;
        }
        i = i + 1;
    }
    true
}

fn names_after_first_check(t: &Vec<char>, d: &Vec<char>) -> (r: bool)
    ensures
        r == names_after_first(t@, d@),
{
    if !word_check(d) {
        return false;
    }
    let mut k: usize = 1;
    while k < t.len() && d.len() <= t.len() - k
        invariant
            1 <= k <= t.len() + 1,
            d.len() > 0,
            is_word(d@),
            forall|j: int|
                #![trigger occurs_at(t@, d@, j)]
                0 < j < k ==> !(occurs_at(t@, d@, j) && is_ws(t@[j - 1]) && (j + d.len()
                    == t.len() || is_ws(t@[j + d.len()]))),
        decreases t.len() + 1 - k,
    {
        if is_whitespace(t[k - 1]) && matches_at(t, k, d) {
            if k + d.len() == t.len() || is_whitespace(t[k + d.len()]) {
                assert(occurs_at(t@, d@, k as int));
                return true;
            }
        }
        k = k + 1;
    }
    assert forall|j: int| 0 < j && occurs_at(t@, d@, j) implies j < k by {}
    false
}

fn entry_check(t: &Vec<char>, d: &Vec<char>, lb: &Vec<char>) -> (r: bool)
    requires
        lb@ == loopback(),
    ensures
        r == is_entry_for(t@, d@),
{
    matches_at(t, 0, lb) && names_after_first_check(t, d)
}

pub struct Installer;

impl Installer {
    /// Whether some line of `hosts_content` maps 127.0.0.1 to `domain`, with
    /// `domain` as a whole word after the address.
    pub fn is_domain_in_hosts(hosts_content: &str, domain: &str) -> (r: bool)
        ensures
            r == lists_domain(hosts_content@, domain@),
    {
        let v = chars_of(hosts_content);
        let d = chars_of(domain);
        Self::lists_domain_chars(&v, &d)
    }

    /// The names of `domains` that `hosts_content` does not list yet, in
    /// their order.
    pub fn missing_domains(hosts_content: &str, domains: &Vec<String>) -> (r: Vec<String>)
        ensures
            views(r@) == missing(hosts_content@, views(domains@)),
    {
        let v = chars_of(hosts_content);
        let mut r: Vec<String> = Vec::new();
        let mut i: usize = 0;
        proof {
            assert(views(domains@).take(0) =~= seq![]);
            assert(views(r@) =~= seq![]);
        }
        while i < domains.len()
            invariant
                i <= domains.len(),
                v@ == hosts_content@,
                views(r@) == missing(hosts_content@, views(domains@).take(i as int)),
            decreases domains.len() - i,
        {
            let d = chars_of(domains[i].as_str());
            let listed = Self::lists_domain_chars(&v, &d);
            proof {
                let ds = views(domains@);
                assert(ds.take(i + 1).drop_last() =~= ds.take(i as int));
                assert(ds.take(i + 1).last() == domains@[i as int]@);
            }
            if !listed {
                r.push(domains[i].clone());
                proof {
                    assert(views(r@) =~= missing(hosts_content@, views(domains@).take(i + 1)));
                }
            }
            i = i + 1;
        }
        proof {
            assert(views(domains@).take(domains.len() as int) =~= views(domains@));
        }
        r
    }

    /// The text to append to the hosts file so that it lists every name of
    /// `domains`; `None` when it lists them all already.
    pub fn hosts_addition(hosts_content: &str, domains: &Vec<String>) -> (r: Option<String>)
        ensures
            r is None <==> missing(hosts_content@, views(domains@)).len() == 0,
            r is Some ==> r->0@ == hosts_addition(hosts_content@, views(domains@)),
    {
        let m = Self::missing_domains(hosts_content, domains);
        if m.len() == 0 {
            return None;
        }
        let ghost ms = views(m@);
        let ghost bl = block_lines(ms);
        let v = chars_of(hosts_content);
        let mut out = String::new();
        if v.len() > 0 && v[v.len() - 1] != '\n' {
            out.append("\n");
            proof {
                reveal_strlit("\n");
            }
        }
        let ghost sep = out@;
        proof {
            assert(sep =~= separator(hosts_content@));
        }
        out.append("# DevRelay entries");
        out.append("\n");
        proof {
            reveal_strlit("# DevRelay entries");
            reveal_strlit("\n");
            assert(bl.take(1) =~= seq![].push(sentinel()));
            lemma_render_push(seq![], sentinel());
            assert(out@ =~= sep + render(bl.take(1)));
        }
        let mut i: usize = 0;
        while i < m.len()
            invariant
                i <= m.len(),
                ms == views(m@),
                bl == block_lines(ms),
                out@ == sep + render(bl.take(i + 1)),
            decreases m.len() - i,
        {
            out.append("127.0.0.1 ");
            out.append(m[i].as_str());
            out.append("\n");
            proof {
                reveal_strlit("127.0.0.1 ");
                reveal_strlit("\n");
                assert(bl.take(i + 2) =~= bl.take(i + 1).push(entry_line(ms[i as int])));
                lemma_render_push(bl.take(i + 1), entry_line(ms[i as int]));
                assert(out@ =~= sep + render(bl.take(i + 2)));
            }
            i = i + 1;
        }
        proof {
            assert(bl.take(m.len() + 1) =~= bl);
        }
        Some(out)
    }

    fn entry_for_any_check(t: &Vec<char>, ds: &Vec<Vec<char>>, lb: &Vec<char>) -> (r: bool)
        requires
            lb@ == loopback(),
        ensures
            r == is_entry_for_any(t@, char_views(ds@)),
    {
        let ghost dv = char_views(ds@);
        let mut j: usize = 0;
        while j < ds.len()
            invariant
                j <= ds.len(),
                lb@ == loopback(),
                dv == char_views(ds@),
                forall|m: int| 0 <= m < j ==> !is_entry_for(t@, #[trigger] dv[m]),
            decreases ds.len() - j,
        {
            if entry_check(t, &ds[j], lb) {
                assert(is_entry_for(t@, dv[j as int]));
                return true;
            }
            j = j + 1;
        }
        false
    }

    /// The hosts text with the entries for `domains` removed from the block
    /// that the sentinel line opens; `None` when there is no such entry.
    pub fn hosts_after_removal(hosts_content: &str, domains: &Vec<String>) -> (r: Option<String>)
        ensures
            r is None <==> hosts_after_removal(hosts_content@, views(domains@)) is None,
            r is Some ==> hosts_after_removal(hosts_content@, views(domains@)) == Some(r->0@),
    {
        let v = chars_of(hosts_content);
        let lb = loopback_chars();
        let sen = sentinel_chars();
        let mut dvs: Vec<Vec<char>> = Vec::new();
        let mut q: usize = 0;
        while q < domains.len()
            invariant
                q <= domains.len(),
                char_views(dvs@) == views(domains@).take(q as int),
            decreases domains.len() - q,
        {
            let dq = chars_of(domains[q].as_str());
            assert(dq@ == views(domains@)[q as int]);
            let ghost prev = dvs@;
            dvs.push(dq);
            proof {
                assert(dvs@ == prev.push(dq));
                assert(char_views(prev).len() == q);
                assert(char_views(dvs@).len() == q + 1);
                assert(char_views(dvs@)[q as int] == dq@);
                assert forall|m: int| 0 <= m < q + 1 implies #[trigger] char_views(dvs@)[m] == views(domains@).take(q + 1)[m] by {
                    if m < q {
                        assert(char_views(dvs@)[m] == dvs@[m]@);
                        assert(char_views(prev)[m] == prev[m]@);
                        assert(char_views(prev)[m] == views(domains@).take(
                            q as int,
                        )[m]);
                    }
                }
                assert(char_views(dvs@) =~= views(domains@).take(q + 1));
            }
            q = q + 1;
        }
        let ghost ds = views(domains@);
        proof {
            assert(ds.take(domains.len() as int) =~= ds);
        }
        let ghost ls = lines(v@);
        let mut out = String::new();
        let mut n_kept: usize = 0;
        let mut st = BlockState::Outside;
        let mut found = false;
        let mut p: usize = 0;
        let ghost mut i: int = 0;
        proof {
            assert(v@.subrange(0, v@.len() as int) =~= v@);
        }
        while p < v.len()
            invariant
                p <= v.len(),
                0 <= i <= ls.len(),
                v@ == hosts_content@,
                ls == lines(v@),
                lb@ == loopback(),
                sen@ == sentinel(),
                char_views(dvs@) == ds,
                ds == views(domains@),
                lines(v@.subrange(p as int, v@.len() as int)) == ls.subrange(i, ls.len() as int),
                st == state_before(ls, i, ds),
                out@ == render(kept(ls, i, ds)),
                n_kept == kept(ls, i, ds).len(),
                n_kept <= i,
                i <= p,
                found == exists|k: int| 0 <= k < i && #[trigger] removes_entry(ls, k, ds),
            decreases v.len() - p,
        {
            let (e2, next) = next_line(&v, p);
            let ghost line = v@.subrange(p as int, e2 as int);
            proof {
                assert(ls.subrange(i, ls.len() as int).len() >= 1);
                assert(ls.subrange(i, ls.len() as int)[0] == ls[i]);
                assert(ls[i] == line);
                assert(ls.subrange(i + 1, ls.len() as int) =~= ls.subrange(
                    i,
                    ls.len() as int,
                ).drop_first());
            }
            let (a, b) = trim_bounds(&v, p, e2);
            let t = slice_chars(&v, a, b);
            let is_sentinel = t.len() == sen.len() && matches_at(&t, 0, &sen);
            proof {
                if is_sentinel {
                    assert(t@.subrange(0, sen@.len() as int) =~= t@);
                }
                if t@ == sentinel() {
                    assert(t@.subrange(0, sen@.len() as int) =~= t@);
                }
            }
            let keep: bool;
            if is_sentinel {
                st = BlockState::InBlock;
                keep = false;
            } else if st == BlockState::Outside {
                keep = true;
            } else if Self::entry_for_any_check(&t, &dvs, &lb) {
                found = true;
                keep = false;
            } else if t.len() > 0 {
                st = BlockState::Outside;
                keep = true;
            } else {
                keep = false;
            }
            if keep {
                let l = hosts_content.substring_char(p, e2);
                out.append(l);
                out.append("\n");
                n_kept = n_kept + 1;
                proof {
                    reveal_strlit("\n");
                    lemma_render_push(kept(ls, i, ds), line);
                }
            }
            proof {
                assert(kept(ls, i + 1, ds) == if keep {
                    kept(ls, i, ds).push(ls[i])
                } else {
                    kept(ls, i, ds)
                });
                if found {
                    if !(exists|k: int| 0 <= k < i && #[trigger] removes_entry(ls, k, ds)) {
                        assert(removes_entry(ls, i, ds));
                    }
                }
                if exists|k: int| 0 <= k < i + 1 && #[trigger] removes_entry(ls, k, ds) {
                    if !found {
                        let k = choose|k: int| 0 <= k < i + 1 && #[trigger] removes_entry(ls, k, ds);
                        assert(k != i);
                    }
                }
                i = i + 1;
            }
            p = next;
        }
        proof {
            assert(v@.subrange(p as int, v@.len() as int) =~= Seq::<char>::empty());
            assert(lines(Seq::<char>::empty()).len() == 0);
        }
        if !found {
            return None;
        }
        if n_kept == 0 {
            let s = String::from_str("\n");
            proof {
                reveal_strlit("\n");
            }
            return Some(s);
        }
        Some(out)
    }

    /// The shell command that replaces the hosts file with `content`.
    pub fn rewrite_command(content: &str) -> (r: String)
        ensures
            r@ == rewrite_command_text(content@),
    {
        let mut c = String::from_str("printf '%s' ");
        let q = shell_quote(content);
        c.append(q.as_str());
        c.append(" | tee /etc/hosts > /dev/null");
        c
    }

    /// The shell command that appends `addition` to the hosts file.
    pub fn append_command(addition: &str) -> (r: String)
        ensures
            r@ == append_command_text(addition@),
    {
        let mut c = String::from_str("printf '%s' ");
        let q = shell_quote(addition);
        c.append(q.as_str());
        c.append(" >> /etc/hosts");
        c
    }

    fn lists_domain_chars(v: &Vec<char>, d: &Vec<char>) -> (r: bool)
        ensures
            r == lists_domain(v@, d@),
    {
        let lb = loopback_chars();
        let ghost ls = lines(v@);
        let mut p: usize = 0;
        let ghost mut i: int = 0;
        proof {
            assert(v@.subrange(0, v@.len() as int) =~= v@);
        }
        while p < v.len()
            invariant
                p <= v.len(),
                0 <= i <= ls.len(),
                ls == lines(v@),
                lb@ == loopback(),
                lines(v@.subrange(p as int, v@.len() as int)) == ls.subrange(i, ls.len() as int),
                forall|k: int| 0 <= k < i ==> !is_entry_for(trim(#[trigger] ls[k]), d@),
            decreases v.len() - p,
        {
            let (e2, next) = next_line(v, p);
            let ghost line = v@.subrange(p as int, e2 as int);
            proof {
                assert(ls.subrange(i, ls.len() as int).len() >= 1);
                assert(ls.subrange(i, ls.len() as int)[0] == ls[i]);
                assert(ls[i] == line);
                assert(ls.subrange(i + 1, ls.len() as int) =~= ls.subrange(
                    i,
                    ls.len() as int,
                ).drop_first());
            }
            let (a, b) = trim_bounds(v, p, e2);
            let t = slice_chars(v, a, b);
            if entry_check(&t, d, &lb) {
                return true;
            }
            proof {
                i = i + 1;
            }
            p = next;
        }
        proof {
            assert(v@.subrange(p as int, v@.len() as int) =~= Seq::<char>::empty());
            assert(lines(Seq::<char>::empty()).len() == 0);
        }
        false
    }
}

} // verus!

verus! {

proof fn lemma_missing_empty(c: Seq<char>, ds: Seq<Seq<char>>)
    ensures
        missing(c, ds).len() == 0 <==> forall|i: int| 0 <= i < ds.len() ==> lists_domain(c, #[trigger] ds[i]),
    decreases ds.len(),
{
    if ds.len() > 0 {
        let init = ds.drop_last();
        lemma_missing_empty(c, init);
        if missing(c, ds).len() == 0 {
            assert forall|i: int| 0 <= i < ds.len() implies lists_domain(c, #[trigger] ds[i]) by {
                if i < ds.len() - 1 {
                    assert(init[i] == ds[i]);
                }
            }
        }
        if forall|i: int| 0 <= i < ds.len() ==> lists_domain(c, #[trigger] ds[i]) {
            assert(lists_domain(c, ds[ds.len() - 1]));
            assert forall|i: int| 0 <= i < init.len() implies lists_domain(c, #[trigger] init[i]) by {
                assert(init[i] == ds[i]);
            }
        }
    }
}

proof fn lemma_missing_has(c: Seq<char>, ds: Seq<Seq<char>>, i: int)
    requires
        0 <= i < ds.len(),
        !lists_domain(c, ds[i]),
    ensures
        exists|j: int| 0 <= j < missing(c, ds).len() && #[trigger] missing(c, ds)[j] == ds[i],
    decreases ds.len(),
{
    let init = ds.drop_last();
    if i < ds.len() - 1 {
        assert(init[i] == ds[i]);
        lemma_missing_has(c, init, i);
        let j = choose|j: int| 0 <= j < missing(c, init).len() && #[trigger] missing(c, init)[j] == init[i];
        if !lists_domain(c, ds.last()) {
            assert(missing(c, ds) == missing(c, init).push(ds.last()));
            assert(missing(c, ds)[j] == missing(c, init)[j]);
        } else {
            assert(missing(c, ds) == missing(c, init));
        }
        assert(missing(c, ds)[j] == ds[i]);
    } else {
        let m = missing(c, ds);
        assert(ds.last() == ds[i]);
        assert(m == missing(c, init).push(ds.last()));
        assert(m[m.len() - 1] == ds[i]);
    }
}

proof fn lemma_entry_line(d: Seq<char>)
    requires
        is_word(d),
    ensures
        trim(entry_line(d)) == entry_line(d),
        is_entry_for(entry_line(d), d),
        forall|m: int| 0 <= m < entry_line(d).len() ==> #[trigger] entry_line(d)[m] != '\n',
        entry_line(d).last() != '\r',
{
    let t = entry_line(d);
    assert(t[0] == '1');
    assert(!is_ws(t[0]));
    assert(trim_start(t) == t);
    assert(t.last() == d[d.len() - 1]);
    assert(!is_ws(t.last()));
    assert(trim_end(t) == t);
    assert(t.subrange(0, 9) =~= loopback());
    assert(t.subrange(10, 10 + d.len() as int) =~= d);
    assert(occurs_at(t, d, 10));
    assert(is_ws(t[9]));
    assert forall|m: int| 0 <= m < t.len() implies #[trigger] t[m] != '\n' by {
        if m >= 10 {
            assert(t[m] == d[m - 10]);
            assert(!is_ws(d[m - 10]));
        }
    }
}

/// Appending the addition makes the hosts text list every name, so a
/// second run adds nothing.
pub proof fn lemma_addition_idempotent(c: Seq<char>, ds: Seq<Seq<char>>)
    requires
        forall|i: int| 0 <= i < ds.len() ==> is_word(#[trigger] ds[i]),
    ensures
        missing(c + hosts_addition(c, ds), ds).len() == 0,
        hosts_addition(c + hosts_addition(c, ds), ds).len() == 0,
{
    let m = missing(c, ds);
    let c2 = c + hosts_addition(c, ds);
    if m.len() == 0 {
        assert(c2 =~= c);
    } else {
        let a = c + separator(c);
        let bl = block_lines(m);
        assert(c2 =~= a + render(bl));
        assert forall|j: int| 0 <= j < m.len() implies is_word(#[trigger] m[j]) by {
            lemma_missing_members(c, ds, j);
        }
        assert forall|k: int, q: int| 0 <= k < bl.len() && 0 <= q < bl[k].len() implies #[trigger] bl[k][q] != '\n' by {
            if k > 0 {
                lemma_entry_line(m[k - 1]);
                assert(bl[k] == entry_line(m[k - 1]));
            }
        }
        assert forall|k: int| 0 <= k < bl.len() && #[trigger] bl[k].len() > 0 implies bl[k].last() != '\r' by {
            if k > 0 {
                lemma_entry_line(m[k - 1]);
                assert(bl[k] == entry_line(m[k - 1]));
            }
        }
        lemma_lines_render(bl);
        lemma_lines_concat(a, render(bl));
        assert(lines(c2) == lines(a) + bl);
        assert forall|i: int| 0 <= i < ds.len() implies lists_domain(c2, #[trigger] ds[i]) by {
            if lists_domain(c, ds[i]) {
                let k = choose|k: int| 0 <= k < lines(c).len() && is_entry_for(trim(#[trigger] lines(c)[k]), ds[i]);
                if separator(c).len() == 0 {
                    assert(a =~= c);
                    assert(lines(c2)[k] == lines(c)[k]);
                } else {
                    lemma_lines_newline(c);
                    lemma_trim_strip_cr(lines(c)[k]);
                    assert(trim(lines(c2)[k]) == trim(lines(c)[k]));
                }
                assert(is_entry_for(trim(lines(c2)[k]), ds[i]));
            } else {
                lemma_missing_has(c, ds, i);
                let j = choose|j: int| 0 <= j < m.len() && #[trigger] m[j] == ds[i];
                let k = lines(a).len() + 1 + j;
                assert(lines(c2)[k] == bl[1 + j]);
                assert(bl[1 + j] == entry_line(ds[i]));
                lemma_entry_line(ds[i]);
                assert(is_entry_for(trim(lines(c2)[k]), ds[i]));
            }
        }
        lemma_missing_empty(c2, ds);
    }
}

proof fn lemma_missing_members(c: Seq<char>, ds: Seq<Seq<char>>, j: int)
    requires
        forall|i: int| 0 <= i < ds.len() ==> is_word(#[trigger] ds[i]),
        0 <= j < missing(c, ds).len(),
    ensures
        is_word(missing(c, ds)[j]),
    decreases ds.len(),
{
    let init = ds.drop_last();
    assert forall|i: int| 0 <= i < init.len() implies is_word(#[trigger] init[i]) by {
        assert(init[i] == ds[i]);
    }
    if j < missing(c, init).len() {
        lemma_missing_members(c, init, j);
    } else {
        assert(is_word(ds[ds.len() - 1]));
    }
}

proof fn lemma_kept_has(ls: Seq<Seq<char>>, n: int, ds: Seq<Seq<char>>, k: int)
    requires
        0 <= k < n <= ls.len(),
        keeps(ls, k, ds),
    ensures
        exists|j: int| 0 <= j < kept(ls, n, ds).len() && #[trigger] kept(ls, n, ds)[j] == ls[k],
    decreases n,
{
    if k == n - 1 {
        assert(kept(ls, n, ds)[kept(ls, n, ds).len() - 1] == ls[k]);
    } else {
        lemma_kept_has(ls, n - 1, ds, k);
        let j = choose|j: int| 0 <= j < kept(ls, n - 1, ds).len() && #[trigger] kept(ls, n - 1, ds)[j] == ls[k];
        assert(kept(ls, n, ds)[j] == ls[k]);
    }
}

/// A line outside the block that the sentinel opens, other than the
/// sentinel itself, is never removed: the scan keeps it, whatever names
/// are removed.
pub proof fn lemma_outside_lines_kept(c: Seq<char>, ds: Seq<Seq<char>>, k: int)
    requires
        0 <= k < lines(c).len(),
        state_before(lines(c), k, ds) == BlockState::Outside,
        trim(lines(c)[k]) != sentinel(),
    ensures
        keeps(lines(c), k, ds),
        !removes_entry(lines(c), k, ds),
        exists|j: int|
            0 <= j < kept(lines(c), lines(c).len() as int, ds).len() && #[trigger] kept(
                lines(c),
                lines(c).len() as int,
                ds,
            )[j] == lines(c)[k],
{
    lemma_kept_has(lines(c), lines(c).len() as int, ds, k);
}

} // verus!
