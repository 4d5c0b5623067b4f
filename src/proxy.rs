//! What the proxy engine is fed: the route for a request's Host header, and
//! the addresses to listen on, each with TLS or not.
use vstd::prelude::*;
use std::collections::HashMap;
use std::sync::Arc;
use crate::config::{host_key, route_for, Config, Route};
use crate::text::chars_of;

verus! {

/// The proxy's view of the configuration.
pub struct DevRelayProxy {
    config: Arc<Config>,
}

impl DevRelayProxy {
    pub closed spec fn routes(&self) -> Seq<Route> {
        self.config.routes@
    }

    pub fn new(config: Arc<Config>) -> (r: DevRelayProxy)
        ensures
            r.routes() == config.routes@,
    {
        DevRelayProxy { config }
    }

    /// The route for a Host header, with or without a port.
    pub fn get_backend_for_host(&self, host: &str) -> (r: Option<&Route>)
        ensures
            match r {
                Some(x) => route_for(self.routes(), host_key(host@)) == Some(*x),
                None => route_for(self.routes(), host_key(host@)) is None,
            },
    {
        self.config.get_route_by_host(host)
    }
}

/// The status sent when a request cannot be proxied: 502 when the backend
/// could not be reached, 500 otherwise.
pub fn failure_status(connect_failed: bool) -> (r: u16)
    ensures
        r == if connect_failed {
            502u16
        } else {
            500u16
        },
{
    if connect_failed {
        502
    } else {
        500
    }
}

/// An address to listen on, and whether it serves TLS.
pub struct ListenAddr {
    pub addr: String,
    pub tls: bool,
}

pub open spec fn digit_char(d: int) -> char {
    if d == 0 {
        '0'
    } else if d == 1 {
        '1'
    } else if d == 2 {
        '2'
    } else if d == 3 {
        '3'
    } else if d == 4 {
        '4'
    } else if d == 5 {
        '5'
    } else if d == 6 {
        '6'
    } else if d == 7 {
        '7'
    } else if d == 8 {
        '8'
    } else {
        '9'
    }
}

/// The decimal digits of `n`.
pub open spec fn dec(n: nat) -> Seq<char>
    decreases n,
{
    if n < 10 {
        seq![digit_char(n as int)]
    } else {
        dec(n / 10).push(digit_char((n % 10) as int))
    }
}

/// The listening address of a port on every interface.
pub open spec fn addr_of(port: u16) -> Seq<char> {
    seq!['0', '.', '0', '.', '0', '.', '0', ':'] + dec(port as nat)
}

/// Some route on `port` asks for TLS.
pub open spec fn port_tls(rs: Seq<Route>, port: u16) -> bool {
    exists|j: int| 0 <= j < rs.len() && #[trigger] rs[j].port == port && rs[j].listen_tls
}

/// Lexicographic order of texts by character, as `String`'s `Ord` orders
/// them.
pub open spec fn lex_lt(a: Seq<char>, b: Seq<char>) -> bool
    decreases a.len(),
{
    if a.len() == 0 {
        b.len() > 0
    } else if b.len() == 0 {
        false
    } else if a[0] != b[0] {
        a[0] < b[0]
    } else {
        lex_lt(a.drop_first(), b.drop_first())
    }
}

proof fn lemma_dec_len(n: nat)
    ensures
        dec(n).len() >= 1,
        n >= 10 ==> dec(n).len() >= 2,
    decreases n,
{
    if n >= 10 {
        lemma_dec_len(n / 10);
    }
}

proof fn lemma_digit_injective(a: int, b: int)
    requires
        0 <= a < 10,
        0 <= b < 10,
        digit_char(a) == digit_char(b),
    ensures
        a == b,
{
}

proof fn lemma_dec_injective(n: nat, m: nat)
    requires
        dec(n) == dec(m),
    ensures
        n == m,
    decreases n,
{
    lemma_dec_len(n);
    lemma_dec_len(m);
    if n < 10 && m < 10 {
        assert(dec(n)[0] == digit_char(n as int));
        assert(dec(m)[0] == digit_char(m as int));
        assert(dec(n)[0] == dec(m)[0]);
        lemma_digit_injective(n as int, m as int);
    } else if n >= 10 && m >= 10 {
        assert(dec(n) == dec(n / 10).push(digit_char((n % 10) as int)));
        assert(dec(m) == dec(m / 10).push(digit_char((m % 10) as int)));
        assert(dec(n).last() == digit_char((n % 10) as int));
        assert(dec(m).last() == digit_char((m % 10) as int));
        assert(dec(n).last() == dec(m).last());
        lemma_digit_injective((n % 10) as int, (m % 10) as int);
        assert(dec(n).drop_last() =~= dec(n / 10));
        assert(dec(m).drop_last() =~= dec(m / 10));
        lemma_dec_injective(n / 10, m / 10);
        assert(n == 10 * (n / 10) + n % 10);
        assert(m == 10 * (m / 10) + m % 10);
    }
}

proof fn lemma_addr_injective(p: u16, q: u16)
    requires
        addr_of(p) == addr_of(q),
    ensures
        p == q,
{
    assert(addr_of(p).subrange(8, addr_of(p).len() as int) =~= dec(p as nat));
    assert(addr_of(q).subrange(8, addr_of(q).len() as int) =~= dec(q as nat));
    lemma_dec_injective(p as nat, q as nat);
}

proof fn lemma_lex_irreflexive(a: Seq<char>)
    ensures
        !lex_lt(a, a),
    decreases a.len(),
{
    if a.len() > 0 {
        lemma_lex_irreflexive(a.drop_first());
    }
}

proof fn lemma_lex_total(a: Seq<char>, b: Seq<char>)
    requires
        a != b,
    ensures
        lex_lt(a, b) || lex_lt(b, a),
    decreases a.len(),
{
    if a.len() > 0 && b.len() > 0 && a[0] == b[0] {
        if a.drop_first() =~= b.drop_first() {
            assert(a =~= seq![a[0]] + a.drop_first());
            assert(b =~= seq![b[0]] + b.drop_first());
            assert(false);
        }
        lemma_lex_total(a.drop_first(), b.drop_first());
    } else if a.len() == 0 && b.len() == 0 {
        assert(a =~= b);
    } else if a.len() > 0 && b.len() > 0 {
    }
}

proof fn lemma_lex_transitive(a: Seq<char>, b: Seq<char>, c: Seq<char>)
    requires
        lex_lt(a, b),
        lex_lt(b, c),
    ensures
        lex_lt(a, c),
    decreases a.len(),
{
    if a.len() > 0 && b.len() > 0 && c.len() > 0 && a[0] == b[0] && b[0] == c[0] {
        lemma_lex_transitive(a.drop_first(), b.drop_first(), c.drop_first());
    }
}

proof fn lemma_lex_asymmetric(a: Seq<char>, b: Seq<char>)
    requires
        lex_lt(a, b),
    ensures
        !lex_lt(b, a),
    decreases a.len(),
{
    if a.len() > 0 && b.len() > 0 && a[0] == b[0] {
        lemma_lex_asymmetric(a.drop_first(), b.drop_first());
    }
}

fn lex_less(a: &Vec<char>, b: &Vec<char>) -> (r: bool)
    ensures
        r == lex_lt(a@, b@),
{
    let mut i: usize = 0;
    proof {
        assert(a@.subrange(0, a@.len() as int) =~= a@);
        assert(b@.subrange(0, b@.len() as int) =~= b@);
    }
    while i < a.len() && i < b.len() && a[i] == b[i]
        invariant
            i <= a.len(),
            i <= b.len(),
            lex_lt(a@, b@) == lex_lt(
                a@.subrange(i as int, a@.len() as int),
                b@.subrange(i as int, b@.len() as int),
            ),
        decreases a.len() - i,
    {
        proof {
            assert(a@.subrange(i as int, a@.len() as int).drop_first() =~= a@.subrange(
                i + 1,
                a@.len() as int,
            ));
            assert(b@.subrange(i as int, b@.len() as int).drop_first() =~= b@.subrange(
                i + 1,
                b@.len() as int,
            ));
        }
        i = i + 1;
    }
    if i == a.len() {
        i < b.len()
    } else if i == b.len() {
        false
    } else {
        a[i] < b[i]
    }
}

fn digit_str(d: u16) -> (r: &'static str)
    requires
        d < 10,
    ensures
        r@ == seq![digit_char(d as int)],
{
    proof {
        reveal_strlit("0");
        reveal_strlit("1");
        reveal_strlit("2");
        reveal_strlit("3");
        reveal_strlit("4");
        reveal_strlit("5");
        reveal_strlit("6");
        reveal_strlit("7");
        reveal_strlit("8");
        reveal_strlit("9");
    }
    if d == 0 {
        "0"
    } else if d == 1 {
        "1"
    } else if d == 2 {
        "2"
    } else if d == 3 {
        "3"
    } else if d == 4 {
        "4"
    } else if d == 5 {
        "5"
    } else if d == 6 {
        "6"
    } else if d == 7 {
        "7"
    } else if d == 8 {
        "8"
    } else {
        "9"
    }
}

fn push_decimal(out: &mut String, n: u16)
    ensures
        final(out)@ == old(out)@ + dec(n as nat),
    decreases n,
{
    if n >= 10 {
        push_decimal(out, n / 10);
    }
    out.append(digit_str(n % 10));
    proof {
        if n < 10 {
            assert(n % 10 == n);
        }
    }
}

/// The listening address of `port` on every interface.
pub fn addr_string(port: u16) -> (r: String)
    ensures
        r@ == addr_of(port),
{
    let mut s = String::from_str("0.0.0.0:");
    proof {
        reveal_strlit("0.0.0.0:");
        assert(s@ =~= seq!['0', '.', '0', '.', '0', '.', '0', ':']);
    }
    push_decimal(&mut s, port);
    s
}

fn addr_chars(port: u16) -> (r: Vec<char>)
    ensures
        r@ == addr_of(port),
{
    let s = addr_string(port);
    chars_of(s.as_str())
}


/// Ports whose listening addresses are in strictly increasing order.
pub open spec fn addrs_sorted(s: Seq<u16>) -> bool {
    forall|a: int, b: int| 0 <= a < b < s.len() ==> lex_lt(addr_of(#[trigger] s[a]), addr_of(#[trigger] s[b]))
}

/// Some route among the first `n` of `rs` is on `port`.
pub open spec fn port_among(rs: Seq<Route>, n: int, port: u16) -> bool {
    exists|j: int| 0 <= j < n && #[trigger] rs[j].port == port
}

pub open spec fn holds_port(s: Seq<u16>, port: u16) -> bool {
    exists|k: int| 0 <= k < s.len() && #[trigger] s[k] == port
}

proof fn lemma_insert_sorted(s: Seq<u16>, pos: int, p: u16)
    requires
        0 <= pos <= s.len(),
        addrs_sorted(s),
        forall|q: int| 0 <= q < pos ==> lex_lt(addr_of(#[trigger] s[q]), addr_of(p)),
        forall|q: int| pos <= q < s.len() ==> lex_lt(addr_of(p), addr_of(#[trigger] s[q])),
    ensures
        addrs_sorted(s.insert(pos, p)),
{
    let t = s.insert(pos, p);
    assert forall|a: int, b: int| 0 <= a < b < t.len() implies lex_lt(
        addr_of(#[trigger] t[a]),
        addr_of(#[trigger] t[b]),
    ) by {
        if a < pos {
            assert(t[a] == s[a]);
            if b < pos {
                assert(t[b] == s[b]);
            } else if b == pos {
                assert(t[b] == p);
            } else {
                assert(t[b] == s[b - 1]);
            }
        } else if a == pos {
            assert(t[a] == p);
            assert(t[b] == s[b - 1]);
        } else {
            assert(t[a] == s[a - 1]);
            assert(t[b] == s[b - 1]);
        }
    }
}

/// Where `p` belongs among the sorted ports `s`, and whether it is there
/// already.
fn find_slot(s: &Vec<u16>, p: u16) -> (r: (usize, bool))
    requires
        addrs_sorted(s@),
    ensures
        r.0 <= s.len(),
        r.1 == holds_port(s@, p),
        !r.1 ==> forall|q: int| 0 <= q < r.0 ==> lex_lt(addr_of(#[trigger] s@[q]), addr_of(p)),
        !r.1 ==> forall|q: int| r.0 <= q < s.len() ==> lex_lt(addr_of(p), addr_of(#[trigger] s@[q])),
{
    let key = addr_chars(p);
    let mut pos: usize = 0;
    while pos < s.len() && lex_less(&addr_chars(s[pos]), &key)
        invariant
            pos <= s.len(),
            key@ == addr_of(p),
            forall|q: int| 0 <= q < pos ==> lex_lt(addr_of(#[trigger] s@[q]), addr_of(p)),
        decreases s.len() - pos,
    {
        pos = pos + 1;
    }
    if pos < s.len() && s[pos] == p {
        assert(holds_port(s@, p));
        return (pos, true);
    }
    proof {
        if pos < s.len() {
            assert(!lex_lt(addr_of(s@[pos as int]), addr_of(p)));
            if addr_of(s@[pos as int]) == addr_of(p) {
                lemma_addr_injective(s@[pos as int], p);
            }
            lemma_lex_total(addr_of(s@[pos as int]), addr_of(p));
            assert(lex_lt(addr_of(p), addr_of(s@[pos as int])));
        }
        assert forall|q: int| pos <= q < s.len() implies lex_lt(addr_of(p), addr_of(#[trigger] s@[q])) by {
            if q > pos {
                assert(lex_lt(addr_of(s@[pos as int]), addr_of(s@[q])));
                lemma_lex_transitive(addr_of(p), addr_of(s@[pos as int]), addr_of(s@[q]));
            }
        }
        if holds_port(s@, p) {
            let k = choose|k: int| 0 <= k < s.len() && #[trigger] s@[k] == p;
            lemma_lex_irreflexive(addr_of(p));
        }
    }
    (pos, false)
}

/// The ports of `routes`, each once, ordered by their listening addresses.
fn sorted_ports(routes: &Vec<Route>) -> (r: Vec<u16>)
    ensures
        addrs_sorted(r@),
        forall|p: u16| holds_port(r@, p) <==> port_among(routes@, routes.len() as int, p),
{
    let ghost rs = routes@;
    let mut r: Vec<u16> = Vec::new();
    let mut i: usize = 0;
    while i < routes.len()
        invariant
            i <= routes.len(),
            rs == routes@,
            addrs_sorted(r@),
            forall|p: u16| holds_port(r@, p) <==> port_among(rs, i as int, p),
        decreases routes.len() - i,
    {
        let p = routes[i].port;
        let (pos, present) = find_slot(&r, p);
        let ghost old_r = r@;
        if !present {
            r.insert(pos, p);
            proof {
                lemma_insert_sorted(old_r, pos as int, p);
            }
        }
        proof {
            assert forall|x: u16| holds_port(r@, x) <==> port_among(rs, i + 1, x) by {
                if holds_port(r@, x) {
                    let k = choose|k: int| 0 <= k < r@.len() && #[trigger] r@[k] == x;
                    if x == p {
                        assert(rs[i as int].port == x);
                    } else if !present {
                        if k < pos {
                            assert(old_r[k] == x);
                        } else {
                            assert(old_r[k - 1] == x);
                        }
                        assert(holds_port(old_r, x));
                    } else {
                        assert(holds_port(old_r, x));
                    }
                }
                if port_among(rs, i + 1, x) {
                    let j = choose|j: int| 0 <= j < i + 1 && #[trigger] rs[j].port == x;
                    if j == i {
                        if !present {
                            assert(r@[pos as int] == x);
                        }
                    } else {
                        assert(port_among(rs, i as int, x));
                        let k = choose|k: int| 0 <= k < old_r.len() && #[trigger] old_r[k] == x;
                        if !present {
                            if k < pos {
                                assert(r@[k] == x);
                            } else {
                                assert(r@[k + 1] == x);
                            }
                        }
                    }
                }
            }
        }
        i = i + 1;
    }
    r
}

/// For each port of `routes`, whether some route on it asks for TLS.
fn tls_by_port(routes: &Vec<Route>) -> (m: HashMap<u16, bool>)
    ensures
        forall|p: u16| #[trigger] m@.contains_key(p) <==> port_among(routes@, routes.len() as int, p),
        forall|p: u16| #[trigger] m@.contains_key(p) ==> m@[p] == port_tls(routes@, p),
{
    broadcast use vstd::std_specs::hash::group_hash_axioms;

    let ghost rs = routes@;
    let mut m: HashMap<u16, bool> = HashMap::new();
    let mut i: usize = 0;
    while i < routes.len()
        invariant
            i <= routes.len(),
            rs == routes@,
            forall|p: u16| #[trigger] m@.contains_key(p) <==> port_among(rs, i as int, p),
            forall|p: u16| #[trigger] m@.contains_key(p) ==> m@[p] == tls_among(rs, i as int, p),
        decreases routes.len() - i,
    {
        let port = routes[i].port;
        let seen = match m.get(&port) {
            Some(b) => *b,
            None => false,
        };
        let ghost old_m = m@;
        m.insert(port, seen || routes[i].listen_tls);
        proof {
            assert forall|p: u16| #[trigger] m@.contains_key(p) <==> port_among(rs, i + 1, p) by {
                if port_among(rs, i + 1, p) && p != port {
                    let j = choose|j: int| 0 <= j < i + 1 && #[trigger] rs[j].port == p;
                    assert(port_among(rs, i as int, p));
                }
                if p == port {
                    assert(rs[i as int].port == p);
                }
            }
            assert forall|p: u16| #[trigger] m@.contains_key(p) implies m@[p] == tls_among(rs, i + 1, p) by {
                if p == port {
                    if tls_among(rs, i + 1, p) && !routes@[i as int].listen_tls {
                        let j = choose|j: int| 0 <= j < i + 1 && #[trigger] rs[j].port == p && rs[j].listen_tls;
                        assert(j != i);
                        assert(tls_among(rs, i as int, p));
                        assert(port_among(rs, i as int, p));
                    }
                    if routes@[i as int].listen_tls {
                        assert(rs[i as int].port == p);
                    }
                    if tls_among(rs, i as int, p) {
                        let j = choose|j: int| 0 <= j < i && #[trigger] rs[j].port == p && rs[j].listen_tls;
                        assert(port_among(rs, i as int, p));
                    }
                } else {
                    if tls_among(rs, i + 1, p) {
                        let j = choose|j: int| 0 <= j < i + 1 && #[trigger] rs[j].port == p && rs[j].listen_tls;
                        assert(j != i);
                    }
                }
            }
        }
        i = i + 1;
    }
    proof {
        assert forall|p: u16| #[trigger] m@.contains_key(p) implies m@[p] == port_tls(routes@, p) by {
            if port_tls(routes@, p) {
                let j = choose|j: int| 0 <= j < rs.len() && #[trigger] rs[j].port == p && rs[j].listen_tls;
                assert(tls_among(rs, i as int, p));
            }
        }
    }
    m
}

/// Some route among the first `n` of `rs` on `port` asks for TLS.
pub open spec fn tls_among(rs: Seq<Route>, n: int, port: u16) -> bool {
    exists|j: int| 0 <= j < n && #[trigger] rs[j].port == port && rs[j].listen_tls
}

/// Some route's port listens on the address `a`.
pub open spec fn addr_used(rs: Seq<Route>, a: Seq<char>) -> bool {
    exists|j: int| 0 <= j < rs.len() && a == addr_of(#[trigger] rs[j].port)
}

/// Some entry of `r` has the address `a`.
pub open spec fn addr_listed(r: Seq<ListenAddr>, a: Seq<char>) -> bool {
    exists|m: int| 0 <= m < r.len() && #[trigger] r[m].addr@ == a
}

/// One address per port that the routes use, ordered by address text; a
/// port serves TLS when any route on it asks for TLS.
pub fn get_listen_addresses(config: &Config) -> (r: Vec<ListenAddr>)
    ensures
        forall|m: int| 0 <= m < r.len() ==> addr_used(config.routes@, #[trigger] r@[m].addr@),
        forall|j: int|
            0 <= j < config.routes.len() ==> addr_listed(r@, addr_of(#[trigger] config.routes@[j].port)),
        forall|a: int, b: int| 0 <= a < b < r.len() ==> lex_lt(#[trigger] r@[a].addr@, #[trigger] r@[b].addr@),
        forall|m: int, j: int|
            0 <= m < r.len() && 0 <= j < config.routes.len() && #[trigger] r@[m].addr@ == addr_of(
                #[trigger] config.routes@[j].port,
            ) ==> r@[m].tls == port_tls(config.routes@, config.routes@[j].port),
{
    let ghost rs = config.routes@;
    let ports = sorted_ports(&config.routes);
    let tls = tls_by_port(&config.routes);
    let mut r: Vec<ListenAddr> = Vec::new();
    let mut i: usize = 0;
    while i < ports.len()
        invariant
            i <= ports.len(),
            r.len() == i,
            rs == config.routes@,
            forall|p: u16| #[trigger] tls@.contains_key(p) <==> port_among(rs, rs.len() as int, p),
            forall|p: u16| #[trigger] tls@.contains_key(p) ==> tls@[p] == port_tls(rs, p),
            addrs_sorted(ports@),
            forall|p: u16| holds_port(ports@, p) <==> port_among(rs, rs.len() as int, p),
            forall|m: int|
                0 <= m < i ==> (#[trigger] r@[m]).addr@ == addr_of(ports@[m]) && r@[m].tls
                    == port_tls(rs, ports@[m]),
        decreases ports.len() - i,
    {
        let p = ports[i];
        proof {
            assert(holds_port(ports@, p));
        }
        let t = match tls.get(&p) {
            Some(b) => *b,
            None => false,
        };
        r.push(ListenAddr { addr: addr_string(p), tls: t });
        i = i + 1;
    }
    proof {
        assert forall|m: int| 0 <= m < r.len() implies addr_used(rs, #[trigger] r@[m].addr@) by {
            assert(holds_port(ports@, ports@[m]));
            let j = choose|j: int| 0 <= j < rs.len() && #[trigger] rs[j].port == ports@[m];
            assert(r@[m].addr@ == addr_of(rs[j].port));
        }
        assert forall|j: int| 0 <= j < rs.len() implies addr_listed(r@, addr_of(#[trigger] rs[j].port)) by {
            assert(port_among(rs, rs.len() as int, rs[j].port));
            assert(holds_port(ports@, rs[j].port));
            let m = choose|m: int| 0 <= m < ports.len() && #[trigger] ports@[m] == rs[j].port;
            assert(r@[m].addr@ == addr_of(rs[j].port));
        }
        assert forall|a: int, b: int| 0 <= a < b < r.len() implies lex_lt(
            #[trigger] r@[a].addr@,
            #[trigger] r@[b].addr@,
        ) by {
            assert(lex_lt(addr_of(ports@[a]), addr_of(ports@[b])));
        }
        assert forall|m: int, j: int|
            0 <= m < r.len() && 0 <= j < rs.len() && #[trigger] r@[m].addr@ == addr_of(
                #[trigger] rs[j].port,
            ) implies r@[m].tls == port_tls(rs, rs[j].port) by {
            lemma_addr_injective(ports@[m], rs[j].port);
        }
    }
    r
}

} // verus!
