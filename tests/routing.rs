use devrelay::config::{Config, Route, TlsConfig};
use devrelay::proxy::{failure_status, get_listen_addresses, DevRelayProxy};
use std::sync::Arc;

fn route(host: &str, port: u16, tls: bool) -> Route {
    Route {
        host: host.to_string(),
        port,
        listen_tls: tls,
        backend: "localhost".to_string(),
        backend_port: 3000,
        backend_tls: false,
    }
}

fn config(routes: Vec<Route>) -> Config {
    Config {
        routes,
        tls: TlsConfig { enabled: true, cert_dir: "certs".to_string(), ca_name: "DevRelay CA".to_string() },
    }
}

#[test]
fn route_lookup_strips_port() {
    let mut second = route("app.test", 80, false);
    second.backend_port = 4000;
    let c = config(vec![route("api.test", 443, true), route("app.test", 443, true), second]);
    assert_eq!(c.get_route_by_host("app.test:8443").unwrap().backend_port, 3000);
    assert_eq!(c.get_route_by_host("api.test").unwrap().host, "api.test");
    assert!(c.get_route_by_host("other.test").is_none());
    assert!(c.get_route_by_host("app").is_none());
    assert!(c.get_route_by_host("app.test:").is_none());
    assert!(c.get_route_by_host("app.test:x1").is_none());
    let p = DevRelayProxy::new(Arc::new(c));
    assert_eq!(p.get_backend_for_host("api.test:443").unwrap().port, 443);
    assert!(p.get_backend_for_host("").is_none());
}

#[test]
fn route_host_lists() {
    let c = config(vec![route("a.test", 443, true), route("b.test", 80, false), route("c.test", 443, true)]);
    assert_eq!(c.hosts(), vec!["a.test".to_string(), "b.test".to_string(), "c.test".to_string()]);
    assert_eq!(c.tls_hosts(), vec!["a.test".to_string(), "c.test".to_string()]);
}

#[test]
fn one_listener_per_port_tls_if_any() {
    let c = config(vec![route("a.test", 443, true), route("b.test", 443, false)]);
    let l = get_listen_addresses(&c);
    assert_eq!(l.len(), 1);
    assert_eq!(l[0].addr, "0.0.0.0:443");
    assert!(l[0].tls);
}

#[test]
fn listeners_ordered_by_address_text() {
    let c = config(vec![
        route("a.test", 80, false),
        route("b.test", 8080, false),
        route("c.test", 443, false),
        route("d.test", 80, true),
        route("e.test", 9, false),
    ]);
    let l = get_listen_addresses(&c);
    let addrs: Vec<&str> = l.iter().map(|a| a.addr.as_str()).collect();
    assert_eq!(addrs, vec!["0.0.0.0:443", "0.0.0.0:80", "0.0.0.0:8080", "0.0.0.0:9"]);
    let tls: Vec<bool> = l.iter().map(|a| a.tls).collect();
    assert_eq!(tls, vec![false, true, false, false]);
    assert!(get_listen_addresses(&config(Vec::new())).is_empty());
}

#[test]
fn listener_for_port_zero_and_max() {
    let l = get_listen_addresses(&config(vec![route("a", 0, false), route("b", 65535, true)]));
    let addrs: Vec<&str> = l.iter().map(|a| a.addr.as_str()).collect();
    assert_eq!(addrs, vec!["0.0.0.0:0", "0.0.0.0:65535"]);
}

#[test]
fn failure_status_codes() {
    assert_eq!(failure_status(true), 502);
    assert_eq!(failure_status(false), 500);
}

#[test]
fn route_lookup_keeps_ipv6_host() {
    let c = config(vec![route("[::1]", 80, false), route("::1", 81, false)]);
    assert_eq!(c.get_route_by_host("[::1]:8080").unwrap().port, 80);
    assert_eq!(c.get_route_by_host("[::1]").unwrap().port, 80);
    // Unbracketed, the last `:1` reads as a port.
    assert!(c.get_route_by_host("::1").is_none());
    assert_eq!(c.get_route_by_host("::1:443").unwrap().port, 81);
}
