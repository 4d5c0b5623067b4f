//! The proxy's configuration: its routes and its TLS settings, and the
//! lookup of a route by the Host header.
use vstd::prelude::*;
use crate::hosts::{lemma_views_push, views};
use crate::text::chars_of;

verus! {

/// One virtual host: the name and port it listens on, and the backend it
/// forwards to.
#[derive(Clone, Debug)]
pub struct Route {
    pub host: String,
    pub port: u16,
    pub listen_tls: bool,
    pub backend: String,
    pub backend_port: u16,
    pub backend_tls: bool,
}

#[derive(Clone, Debug)]
pub struct TlsConfig {
    pub enabled: bool,
    pub cert_dir: String,
    pub ca_name: String,
}

#[derive(Clone, Debug)]
pub struct Config {
    pub routes: Vec<Route>,
    pub tls: TlsConfig,
}

pub open spec fn is_digit(c: char) -> bool {
    '0' <= c && c <= '9'
}

/// How many decimal digits end `h`.
pub open spec fn trailing_digits(h: Seq<char>) -> nat
    decreases h.len(),
{
    if h.len() > 0 && is_digit(h.last()) {
        1 + trailing_digits(h.drop_last())
    } else {
        0
    }
}

/// A Host header without a trailing `:port`, a colon followed by one or
/// more digits at its end; unchanged when it has none.
pub open spec fn host_key(h: Seq<char>) -> Seq<char> {
    let n = trailing_digits(h);
    if n > 0 && n < h.len() && h[h.len() - n - 1] == ':' {
        h.subrange(0, h.len() - n - 1)
    } else {
        h
    }
}

proof fn lemma_trailing_digits(h: Seq<char>, k: int)
    requires
        0 <= k <= h.len(),
        forall|m: int| k <= m < h.len() ==> is_digit(#[trigger] h[m]),
        k == 0 || !is_digit(h[k - 1]),
    ensures
        trailing_digits(h) == h.len() - k,
    decreases h.len() - k,
{
    if k < h.len() {
        assert forall|m: int| k <= m < h.drop_last().len() implies is_digit(#[trigger] h.drop_last()[m]) by {
            assert(h.drop_last()[m] == h[m]);
        }
        lemma_trailing_digits(h.drop_last(), k);
    }
}

/// The first route of `routes` whose host is `key`.
pub open spec fn route_for(routes: Seq<Route>, key: Seq<char>) -> Option<Route>
    decreases routes.len(),
{
    if routes.len() == 0 {
        None
    } else if routes[0].host@ == key {
        Some(routes[0])
    } else {
        route_for(routes.drop_first(), key)
    }
}

pub open spec fn route_hosts(routes: Seq<Route>) -> Seq<Seq<char>> {
    routes.map_values(|r: Route| r.host@)
}

/// The hosts of the routes that listen with TLS, in order.
pub open spec fn tls_route_hosts(routes: Seq<Route>) -> Seq<Seq<char>>
    decreases routes.len(),
{
    if routes.len() == 0 {
        seq![]
    } else if routes.last().listen_tls {
        tls_route_hosts(routes.drop_last()).push(routes.last().host@)
    } else {
        tls_route_hosts(routes.drop_last())
    }
}

impl Config {
    /// The first route whose host equals `host` once a trailing `:port` is
    /// stripped.
    pub fn get_route_by_host(&self, host: &str) -> (r: Option<&Route>)
        ensures
            match r {
                Some(x) => route_for(self.routes@, host_key(host@)) == Some(*x),
                None => route_for(self.routes@, host_key(host@)) is None,
            },
    {
        let h = chars_of(host);
        let mut k: usize = h.len();
        while k > 0 && '0' <= h[k - 1] && h[k - 1] <= '9'
            invariant
                k <= h.len(),
                h@ == host@,
                forall|m: int| k <= m < h.len() ==> is_digit(#[trigger] h@[m]),
            decreases k,
        {
            k = k - 1;
        }
        proof {
            lemma_trailing_digits(host@, k as int);
        }
        let cut: usize = if k < h.len() && k > 0 && h[k - 1] == ':' {
            k - 1
        } else {
            h.len()
        };
        proof {
            assert(host@.subrange(0, host@.len() as int) =~= host@);
        }
        let key = String::from_str(host.substring_char(0, cut));
        let ghost rs = self.routes@;
        let mut i: usize = 0;
        proof {
            assert(rs.subrange(0, rs.len() as int) =~= rs);
        }
        while i < self.routes.len()
            invariant
                i <= self.routes.len(),
                rs == self.routes@,
                key@ == host_key(host@),
                route_for(rs.subrange(i as int, rs.len() as int), key@) == route_for(rs, key@),
            decreases self.routes.len() - i,
        {
            let ghost tail = rs.subrange(i as int, rs.len() as int);
            proof {
                assert(tail[0] == rs[i as int]);
                assert(tail.drop_first() =~= rs.subrange(i + 1, rs.len() as int));
            }
            if self.routes[i].host == key {
                return Some(&self.routes[i]);
            }
            i = i + 1;
        }
        proof {
            assert(rs.subrange(i as int, rs.len() as int).len() == 0);
        }
        None
    }

    /// The hosts of all routes, in order.
    pub fn hosts(&self) -> (r: Vec<String>)
        ensures
            views(r@) == route_hosts(self.routes@),
    {
        let mut r: Vec<String> = Vec::new();
        let mut i: usize = 0;
        while i < self.routes.len()
            invariant
                i <= self.routes.len(),
                views(r@) == route_hosts(self.routes@).take(i as int),
            decreases self.routes.len() - i,
        {
            let s = self.routes[i].host.clone();
            let ghost prev = r@;
            r.push(s);
            proof {
                lemma_views_push(prev, s);
                assert(route_hosts(self.routes@).take(i + 1) =~= route_hosts(self.routes@).take(
                    i as int,
                ).push(self.routes@[i as int].host@));
            }
            i = i + 1;
        }
        proof {
            assert(route_hosts(self.routes@).take(i as int) =~= route_hosts(self.routes@));
        }
        r
    }

    /// The hosts of the routes that listen with TLS, in order: the names the
    /// combined certificate covers.
    pub fn tls_hosts(&self) -> (r: Vec<String>)
        ensures
            views(r@) == tls_route_hosts(self.routes@),
    {
        let mut r: Vec<String> = Vec::new();
        let mut i: usize = 0;
        proof {
            assert(self.routes@.take(0) =~= seq![]);
        }
        while i < self.routes.len()
            invariant
                i <= self.routes.len(),
                views(r@) == tls_route_hosts(self.routes@.take(i as int)),
            decreases self.routes.len() - i,
        {
            proof {
                assert(self.routes@.take(i + 1).drop_last() =~= self.routes@.take(i as int));
            }
            if self.routes[i].listen_tls {
                let s = self.routes[i].host.clone();
                let ghost prev = r@;
                r.push(s);
                proof {
                    lemma_views_push(prev, s);
                }
            }
            i = i + 1;
        }
        proof {
            assert(self.routes@.take(i as int) =~= self.routes@);
        }
        r
    }
}

} // verus!
