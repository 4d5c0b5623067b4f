//! Local certificate authority, hosts-file reconciliation and trust-store
//! decisions for a development reverse proxy.
pub mod certs;
pub mod config;
pub mod fingerprint;
pub mod hosts;
pub mod proxy;
pub mod text;
pub mod trust;
