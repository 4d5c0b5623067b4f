//! The local certificate authority and the server certificates it signs:
//! where their files live, what each certificate states, and the calls into
//! rcgen that generate keys and sign.
use vstd::prelude::*;
use crate::hosts::{lemma_views_push, views};
use rcgen::{
    BasicConstraints, Certificate, CertificateParams, DnType, Ia5String, IsCa, KeyPair, SanType,
};
use time::OffsetDateTime;

verus! {

#[verifier::external_type_specification]
#[verifier::external_body]
pub struct ExKeyPair(KeyPair);

#[verifier::external_type_specification]
#[verifier::external_body]
pub struct ExCertificate(Certificate);

#[verifier::external_type_specification]
#[verifier::external_body]
pub struct ExRcgenError(rcgen::Error);

/// Validity of the CA certificate: ten years of 365 days, in seconds.
pub const CA_VALIDITY_SECS: i64 = 3650 * 86400;

/// Validity of a server certificate: 365 days, in seconds.
pub const LEAF_VALIDITY_SECS: i64 = 365 * 86400;

/// Relies on `time::OffsetDateTime::now_utc` and `unix_timestamp`: the
/// current time as a Unix timestamp.
#[verifier::external_body]
fn unix_now() -> (r: i64) {
    time::OffsetDateTime::now_utc().unix_timestamp()
}

/// Relies on `KeyPair::generate`: a fresh random key pair.
#[verifier::external_body]
fn new_key_pair() -> (r: Result<KeyPair, rcgen::Error>) {
    KeyPair::generate()
}

/// Relies on `KeyPair::from_pem`: the key pair that a PEM text holds.
#[verifier::external_body]
fn key_pair_from_pem(pem: &str) -> (r: Result<KeyPair, rcgen::Error>) {
    KeyPair::from_pem(pem)
}

/// Relies on `KeyPair::serialize_pem`: the key pair as PEM text.
#[verifier::external_body]
fn key_pair_pem(k: &KeyPair) -> (r: String) {
    k.serialize_pem()
}

/// Relies on `rcgen::Certificate::pem`: the certificate as PEM text.
#[verifier::external_body]
fn certificate_pem(c: &Certificate) -> (r: String) {
    c.pem()
}

/// Every character of `s` is ASCII, the charset of a DNS name in a
/// certificate.
pub open spec fn is_ascii_text(s: Seq<char>) -> bool {
    vstd::utf8::is_ascii_chars(s)
}

/// First second of year 0, the earliest validity date that rcgen can write.
pub const FIRST_SIGNABLE_SECS: i64 = -62167219200;

/// Last second of year 9999, the latest validity date that rcgen can write.
pub const LAST_SIGNABLE_SECS: i64 = 253402300799;

/// A Unix timestamp that can stand as a validity date of a certificate.
pub open spec fn signable(ts: int) -> bool {
    FIRST_SIGNABLE_SECS <= ts <= LAST_SIGNABLE_SECS
}

/// Relies on `rcgen::CertificateParams::self_signed`: the certificate with
/// the common name, organization and validity given, signed with its own
/// `key`; with `is_ca`, a CA without a path-length limit. The validity goes
/// through `time::OffsetDateTime::from_unix_timestamp`, which accepts every
/// signable second, and rcgen writes the years 0 to 9999 without panicking.
#[verifier::external_body]
fn sign_self(
    common_name: &str,
    organization: &str,
    is_ca: bool,
    not_before: i64,
    not_after: i64,
    key: &KeyPair,
) -> (r: Result<Certificate, rcgen::Error>)
    requires
        signable(not_before as int),
        signable(not_after as int),
{
    let mut p = CertificateParams::default();
    p.is_ca = match is_ca {
        true => IsCa::Ca(BasicConstraints::Unconstrained),
        false => IsCa::NoCa,
    };
    p.distinguished_name.push(DnType::CommonName, common_name);
    p.distinguished_name.push(DnType::OrganizationName, organization);
    p.not_before = OffsetDateTime::from_unix_timestamp(not_before).map_err(|_| rcgen::Error::Time)?;
    p.not_after = OffsetDateTime::from_unix_timestamp(not_after).map_err(|_| rcgen::Error::Time)?;
    p.self_signed(key)
}

/// Relies on `rcgen::CertificateParams::signed_by`: the certificate for
/// `key` with the common name, DNS names (in order) and validity given,
/// issued by `issuer` and signed with `issuer_key`. `rcgen::Ia5String`
/// accepts every ASCII name; the validity is converted as in `sign_self`.
#[verifier::external_body]
fn sign_leaf(
    common_name: &str,
    dns_names: &Vec<String>,
    not_before: i64,
    not_after: i64,
    key: &KeyPair,
    issuer: &Certificate,
    issuer_key: &KeyPair,
) -> (r: Result<Certificate, rcgen::Error>)
    requires
        signable(not_before as int),
        signable(not_after as int),
        forall|i: int| 0 <= i < dns_names.len() ==> is_ascii_text(#[trigger] dns_names@[i]@),
{
    let mut p = CertificateParams::default();
    p.subject_alt_names = dns_names
        .iter()
        .map(|n| Ia5String::try_from(n.clone()).map(SanType::DnsName))
        .collect::<Result<Vec<_>, _>>()?;
    p.distinguished_name.push(DnType::CommonName, common_name);
    p.not_before = OffsetDateTime::from_unix_timestamp(not_before).map_err(|_| rcgen::Error::Time)?;
    p.not_after = OffsetDateTime::from_unix_timestamp(not_after).map_err(|_| rcgen::Error::Time)?;
    p.signed_by(key, issuer, issuer_key)
}

/// Why a certificate could not be generated.
#[derive(PartialEq, Eq, Clone, Debug)]
pub enum CertError {
    /// A domain that cannot stand as a DNS name in a certificate.
    InvalidDomain(String),
    /// The CA key file does not hold a key.
    KeyParse,
    /// No key pair could be generated.
    KeyGeneration,
    /// The certificate could not be signed.
    Signing,
    /// The validity window falls outside the representable dates.
    ClockOutOfRange,
}

/// The content of a certificate: subject, whether it may sign others, DNS
/// names, and validity as Unix timestamps.
pub struct CertRequest {
    pub common_name: String,
    pub organization: Option<String>,
    pub is_ca: bool,
    pub dns_names: Vec<String>,
    pub not_before: i64,
    pub not_after: i64,
}

pub struct RequestModel {
    pub common_name: Seq<char>,
    pub organization: Option<Seq<char>>,
    pub is_ca: bool,
    pub dns_names: Seq<Seq<char>>,
    pub not_before: int,
    pub not_after: int,
}

impl View for CertRequest {
    type V = RequestModel;

    open spec fn view(&self) -> RequestModel {
        RequestModel {
            common_name: self.common_name@,
            organization: match self.organization {
                Some(o) => Some(o@),
                None => None,
            },
            is_ca: self.is_ca,
            dns_names: views(self.dns_names@),
            not_before: self.not_before as int,
            not_after: self.not_after as int,
        }
    }
}

/// The CA certificate: the CA name as common name, the tool's organization,
/// unconstrained signing, valid for ten years from `now`.
pub open spec fn ca_request_model(ca_name: Seq<char>, now: int) -> RequestModel {
    RequestModel {
        common_name: ca_name,
        organization: Some("DevRelay"@),
        is_ca: true,
        dns_names: seq![],
        not_before: now,
        not_after: now + CA_VALIDITY_SECS,
    }
}

/// A server certificate for the names `ds`, with the common name given,
/// valid for one year from `now`.
pub open spec fn leaf_request_model(common_name: Seq<char>, ds: Seq<Seq<char>>, now: int) -> RequestModel {
    RequestModel {
        common_name: common_name,
        organization: None,
        is_ca: false,
        dns_names: ds,
        not_before: now,
        not_after: now + LEAF_VALIDITY_SECS,
    }
}

/// The first name of `ds` that is not ASCII, if any.
pub open spec fn first_invalid(ds: Seq<Seq<char>>) -> Option<Seq<char>>
    decreases ds.len(),
{
    if ds.len() == 0 {
        None
    } else if !is_ascii_text(ds[0]) {
        Some(ds[0])
    } else {
        first_invalid(ds.drop_first())
    }
}

/// Where a file named `name` lies in the directory `dir`, as
/// `Path::join` puts it on Unix.
pub open spec fn join_path(dir: Seq<char>, name: Seq<char>) -> Seq<char> {
    if name.len() > 0 && name[0] == '/' {
        name
    } else if dir.len() == 0 || dir.last() == '/' {
        dir + name
    } else {
        dir + seq!['/'] + name
    }
}

fn join(dir: &str, name: &str) -> (r: String)
    ensures
        r@ == join_path(dir@, name@),
{
    let n = crate::text::chars_of(name);
    if n.len() > 0 && n[0] == '/' {
        return String::from_str(name);
    }
    let d = crate::text::chars_of(dir);
    let mut r = String::from_str(dir);
    if d.len() > 0 && d[d.len() - 1] != '/' {
        r.append("/");
        proof {
            reveal_strlit("/");
        }
    }
    r.append(name);
    r
}

fn with_suffix(domain: &str, suffix: &str) -> (r: String)
    ensures
        r@ == domain@ + suffix@,
{
    let mut r = String::from_str(domain);
    r.append(suffix);
    r
}

/// A certificate and its private key, as PEM text.
pub struct PemPair {
    pub cert_pem: String,
    pub key_pem: String,
}

/// The certificate directory and the name of its CA.
pub struct CertManager {
    cert_dir: String,
    ca_name: String,
}

impl CertManager {
    pub closed spec fn dir(&self) -> Seq<char> {
        self.cert_dir@
    }

    pub closed spec fn name(&self) -> Seq<char> {
        self.ca_name@
    }

    pub fn new(cert_dir: String, ca_name: String) -> (r: CertManager)
        ensures
            r.dir() == cert_dir@,
            r.name() == ca_name@,
    {
        CertManager { cert_dir, ca_name }
    }

    pub fn combined_cert_path(&self) -> (r: String)
        ensures
            r@ == join_path(self.dir(), "server.crt"@),
    {
        join(self.cert_dir.as_str(), "server.crt")
    }

    pub fn combined_key_path(&self) -> (r: String)
        ensures
            r@ == join_path(self.dir(), "server.key"@),
    {
        join(self.cert_dir.as_str(), "server.key")
    }

    pub fn ca_cert_path(&self) -> (r: String)
        ensures
            r@ == join_path(self.dir(), "ca.crt"@),
    {
        join(self.cert_dir.as_str(), "ca.crt")
    }

    pub fn ca_key_path(&self) -> (r: String)
        ensures
            r@ == join_path(self.dir(), "ca.key"@),
    {
        join(self.cert_dir.as_str(), "ca.key")
    }

    pub fn server_cert_path(&self, domain: &str) -> (r: String)
        ensures
            r@ == join_path(self.dir(), domain@ + ".crt"@),
    {
        let name = with_suffix(domain, ".crt");
        join(self.cert_dir.as_str(), name.as_str())
    }

    pub fn server_key_path(&self, domain: &str) -> (r: String)
        ensures
            r@ == join_path(self.dir(), domain@ + ".key"@),
    {
        let name = with_suffix(domain, ".key");
        join(self.cert_dir.as_str(), name.as_str())
    }

    /// What the CA certificate states when it is generated at `now`; an
    /// error when its validity would not fit between the first and the last
    /// signable second.
    pub fn ca_request(&self, now: i64) -> (r: Result<CertRequest, CertError>)
        ensures
            (FIRST_SIGNABLE_SECS <= now && now + CA_VALIDITY_SECS <= LAST_SIGNABLE_SECS) <==> r is Ok,
            r is Ok ==> r->Ok_0@ == ca_request_model(self.name(), now as int),
            r is Err ==> r->Err_0 == CertError::ClockOutOfRange,
    {
        if now < FIRST_SIGNABLE_SECS || now > LAST_SIGNABLE_SECS - CA_VALIDITY_SECS {
            return Err(CertError::ClockOutOfRange);
        }
        let org = String::from_str("DevRelay");
        let q = CertRequest {
            common_name: self.ca_name.clone(),
            organization: Some(org),
            is_ca: true,
            dns_names: Vec::new(),
            not_before: now,
            not_after: now + CA_VALIDITY_SECS,
        };
        proof {
            assert(views(q.dns_names@) =~= seq![]);
        }
        Ok(q)
    }

    /// What the certificate of one domain states when it is generated at
    /// `now`: the domain as common name and as its one DNS name.
    pub fn server_request(domain: &str, now: i64) -> (r: Result<CertRequest, CertError>)
        ensures
            (FIRST_SIGNABLE_SECS <= now && now + LEAF_VALIDITY_SECS <= LAST_SIGNABLE_SECS) <==> r is Ok,
            r is Ok ==> r->Ok_0@ == leaf_request_model(domain@, seq![domain@], now as int),
            r is Err ==> r->Err_0 == CertError::ClockOutOfRange,
    {
        if now < FIRST_SIGNABLE_SECS || now > LAST_SIGNABLE_SECS - LEAF_VALIDITY_SECS {
            return Err(CertError::ClockOutOfRange);
        }
        let mut names: Vec<String> = Vec::new();
        names.push(String::from_str(domain));
        let q = CertRequest {
            common_name: String::from_str(domain),
            organization: None,
            is_ca: false,
            dns_names: names,
            not_before: now,
            not_after: now + LEAF_VALIDITY_SECS,
        };
        proof {
            assert(views(q.dns_names@) =~= seq![domain@]);
        }
        Ok(q)
    }

    /// What the combined certificate states when it is generated at `now`:
    /// the fixed server label as common name and `domains` as its DNS names,
    /// in order.
    pub fn combined_request(domains: &Vec<String>, now: i64) -> (r: Result<CertRequest, CertError>)
        ensures
            (FIRST_SIGNABLE_SECS <= now && now + LEAF_VALIDITY_SECS <= LAST_SIGNABLE_SECS) <==> r is Ok,
            r is Ok ==> r->Ok_0@ == leaf_request_model(
                "DevRelay Server"@,
                views(domains@),
                now as int,
            ),
            r is Err ==> r->Err_0 == CertError::ClockOutOfRange,
    {
        if now < FIRST_SIGNABLE_SECS || now > LAST_SIGNABLE_SECS - LEAF_VALIDITY_SECS {
            return Err(CertError::ClockOutOfRange);
        }
        let q = CertRequest {
            common_name: String::from_str("DevRelay Server"),
            organization: None,
            is_ca: false,
            dns_names: copy_strings(domains),
            not_before: now,
            not_after: now + LEAF_VALIDITY_SECS,
        };
        Ok(q)
    }

    /// The CA certificate and its key, newly generated: a fresh key pair and
    /// a self-signed certificate of `ca_request` at the current time.
    pub fn generate_ca(&self) -> (r: Result<PemPair, CertError>)
        ensures
            rejected_name(r) is None,
            r is Err ==> r->Err_0 != CertError::KeyParse,
    {
        let now = unix_now();
        let req = match self.ca_request(now) {
            Ok(q) => q,
            Err(e) => {
                return Err(e);
            },
        };
        let key = match new_key_pair() {
            Ok(k) => k,
            Err(_) => {
                return Err(CertError::KeyGeneration);
            },
        };
        let cert = match sign_ca(&req, &key) {
            Ok(c) => c,
            Err(e) => {
                return Err(e);
            },
        };
        Ok(PemPair { cert_pem: certificate_pem(&cert), key_pem: key_pair_pem(&key) })
    }

    /// The CA as a signer: its key read from `ca_key_pem`, and its
    /// certificate rebuilt with the distinguished name it was created with.
    fn ca_issuer(&self, ca_key_pem: &str, now: i64) -> (r: Result<(Certificate, KeyPair), CertError>)
        ensures
            rejected_name(r) is None,
    {
        let key = match key_pair_from_pem(ca_key_pem) {
            Ok(k) => k,
            Err(_) => {
                return Err(CertError::KeyParse);
            },
        };
        let req = match self.ca_request(now) {
            Ok(q) => q,
            Err(e) => {
                return Err(e);
            },
        };
        match sign_ca(&req, &key) {
            Ok(c) => Ok((c, key)),
            Err(e) => Err(e),
        }
    }

    /// Signs a server certificate of `req` with the CA whose key is
    /// `ca_key_pem`.
    fn issue_leaf(&self, ca_key_pem: &str, req: &CertRequest) -> (r: Result<PemPair, CertError>)
        requires
            signable(req.not_before as int),
            signable(req.not_after as int),
            forall|i: int| 0 <= i < req.dns_names.len() ==> is_ascii_text(#[trigger] req.dns_names@[i]@),
        ensures
            rejected_name(r) is None,
    {
        let (issuer, issuer_key) = match self.ca_issuer(ca_key_pem, req.not_before) {
            Ok(pair) => pair,
            Err(e) => {
                return Err(e);
            },
        };
        let key = match new_key_pair() {
            Ok(k) => k,
            Err(_) => {
                return Err(CertError::KeyGeneration);
            },
        };
        match sign_leaf(
            req.common_name.as_str(),
            &req.dns_names,
            req.not_before,
            req.not_after,
            &key,
            &issuer,
            &issuer_key,
        ) {
            Ok(cert) => Ok(PemPair { cert_pem: certificate_pem(&cert), key_pem: key_pair_pem(&key) }),
            Err(_) => Err(CertError::Signing),
        }
    }

    /// A certificate for `domain` signed by the CA whose key is
    /// `ca_key_pem`, and its new key. A domain that is not ASCII is
    /// rejected before anything is read or generated.
    pub fn generate_server_cert(&self, ca_key_pem: &str, domain: &str) -> (r: Result<
        PemPair,
        CertError,
    >)
        ensures
            rejected_name(r) == if is_ascii_text(domain@) {
                None
            } else {
                Some(domain@)
            },
    {
        if !domain.is_ascii() {
            return Err(CertError::InvalidDomain(String::from_str(domain)));
        }
        let now = unix_now();
        let req = match Self::server_request(domain, now) {
            Ok(q) => q,
            Err(e) => {
                return Err(e);
            },
        };
        proof {
            assert(req@.dns_names == seq![domain@]);
            assert(views(req.dns_names@) == seq![domain@]);
            assert forall|i: int| 0 <= i < req.dns_names.len() implies is_ascii_text(
                #[trigger] req.dns_names@[i]@,
            ) by {
                assert(views(req.dns_names@).len() == 1);
                assert(views(req.dns_names@)[i] == req.dns_names@[i]@);
            }
        }
        self.issue_leaf(ca_key_pem, &req)
    }

    /// One certificate for all of `domains`, in order, signed by the CA
    /// whose key is `ca_key_pem`, and its new key. Generated anew on every
    /// call. The first domain that is not ASCII rejects the whole
    /// certificate.
    pub fn generate_combined_server_cert(&self, ca_key_pem: &str, domains: &Vec<String>) -> (r:
        Result<PemPair, CertError>)
        ensures
            rejected_name(r) == first_invalid(views(domains@)),
    {
        match check_dns_names(domains) {
            Ok(()) => {},
            Err(e) => {
                return Err(e);
            },
        }
        let now = unix_now();
        let req = match Self::combined_request(domains, now) {
            Ok(q) => q,
            Err(e) => {
                return Err(e);
            },
        };
        proof {
            assert forall|i: int| 0 <= i < req.dns_names.len() implies is_ascii_text(
                #[trigger] req.dns_names@[i]@,
            ) by {
                assert(views(req.dns_names@)[i] == views(domains@)[i]);
            }
        }
        self.issue_leaf(ca_key_pem, &req)
    }
}

/// The domain that a generation rejected, if it rejected one.
pub open spec fn rejected_name<T>(r: Result<T, CertError>) -> Option<Seq<char>> {
    match r {
        Err(CertError::InvalidDomain(n)) => Some(n@),
        _ => None,
    }
}

fn copy_strings(v: &Vec<String>) -> (r: Vec<String>)
    ensures
        views(r@) == views(v@),
{
    let mut r: Vec<String> = Vec::new();
    let mut i: usize = 0;
    while i < v.len()
        invariant
            i <= v.len(),
            views(r@) == views(v@).take(i as int),
        decreases v.len() - i,
    {
        let s = v[i].clone();
        let ghost prev = r@;
        r.push(s);
        proof {
            assert(r@ == prev.push(s));
            lemma_views_push(prev, s);
            assert(views(v@).take(i + 1) =~= views(v@).take(i as int).push(v@[i as int]@));
        }
        i = i + 1;
    }
    proof {
        assert(views(v@).take(v.len() as int) =~= views(v@));
    }
    r
}

/// The first domain of `domains` that is not ASCII, as an error.
fn check_dns_names(domains: &Vec<String>) -> (r: Result<(), CertError>)
    ensures
        rejected_name(r) == first_invalid(views(domains@)),
        r is Ok ==> forall|i: int| 0 <= i < domains.len() ==> is_ascii_text(#[trigger] views(domains@)[i]),
{
    let ghost ds = views(domains@);
    let mut i: usize = 0;
    proof {
        assert(ds.subrange(0, ds.len() as int) =~= ds);
    }
    while i < domains.len()
        invariant
            i <= domains.len(),
            ds == views(domains@),
            first_invalid(ds.subrange(i as int, ds.len() as int)) == first_invalid(ds),
            forall|k: int| 0 <= k < i ==> is_ascii_text(#[trigger] ds[k]),
        decreases domains.len() - i,
    {
        let ghost tail = ds.subrange(i as int, ds.len() as int);
        proof {
            assert(tail[0] == domains@[i as int]@);
            assert(tail.drop_first() =~= ds.subrange(i + 1, ds.len() as int));
        }
        if !domains[i].as_str().is_ascii() {
            return Err(CertError::InvalidDomain(domains[i].clone()));
        }
        i = i + 1;
    }
    proof {
        assert(ds.subrange(i as int, ds.len() as int) =~= Seq::<Seq<char>>::empty());
    }
    Ok(())
}

/// The CA certificate of `req`, self-signed with `key`.
fn sign_ca(req: &CertRequest, key: &KeyPair) -> (r: Result<Certificate, CertError>)
    ensures
        rejected_name(r) is None,
        r is Err ==> r->Err_0 == CertError::ClockOutOfRange || r->Err_0 == CertError::Signing,
{
    if req.not_before < FIRST_SIGNABLE_SECS || req.not_before > LAST_SIGNABLE_SECS
        || req.not_after < FIRST_SIGNABLE_SECS || req.not_after > LAST_SIGNABLE_SECS {
        return Err(CertError::ClockOutOfRange);
    }
    let org: &str = match &req.organization {
        Some(o) => o.as_str(),
        None => "",
    };
    match sign_self(req.common_name.as_str(), org, req.is_ca, req.not_before, req.not_after, key) {
        Ok(c) => Ok(c),
        Err(_) => Err(CertError::Signing),
    }
}

/// A certificate file and its key file: the bytes of each, or `None` where
/// the file is absent.
pub struct FilePair {
    pub cert: Option<Seq<u8>>,
    pub key: Option<Seq<u8>>,
}

pub open spec fn both_present(f: FilePair) -> bool {
    f.cert is Some && f.key is Some
}

/// What a run does with a certificate's two files.
#[derive(PartialEq, Eq, Structural, Clone, Copy, Debug)]
pub enum FileAction {
    /// Leave both files as they are.
    Keep,
    /// Generate a new certificate and key and write both files.
    Write,
}

pub open spec fn ensure_action_spec(cert_exists: bool, key_exists: bool) -> FileAction {
    if cert_exists && key_exists {
        FileAction::Keep
    } else {
        FileAction::Write
    }
}

/// The action for the CA and for each domain's certificate: keep the files
/// when both exist, else generate and write them.
#[verifier::when_used_as_spec(ensure_action_spec)]
pub fn ensure_action(cert_exists: bool, key_exists: bool) -> (r: FileAction)
    ensures
        r == ensure_action_spec(cert_exists, key_exists),
{
    if cert_exists && key_exists {
        FileAction::Keep
    } else {
        FileAction::Write
    }
}

pub open spec fn regenerate_action_spec(cert_exists: bool, key_exists: bool) -> FileAction {
    FileAction::Write
}

/// The action for the combined certificate: always generate and write, so
/// that it follows the current configuration.
#[verifier::when_used_as_spec(regenerate_action_spec)]
pub fn regenerate_action(cert_exists: bool, key_exists: bool) -> (r: FileAction)
    ensures
        r == regenerate_action_spec(cert_exists, key_exists),
{
    FileAction::Write
}

/// The files after a run that takes `action` and, when it writes, writes
/// `fresh`.
pub open spec fn apply_action(f: FilePair, action: FileAction, fresh: FilePair) -> FilePair {
    match action {
        FileAction::Keep => f,
        FileAction::Write => fresh,
    }
}

/// The files after an ensuring run that would write `fresh`.
pub open spec fn after_ensure(f: FilePair, fresh: FilePair) -> FilePair {
    apply_action(f, ensure_action(f.cert is Some, f.key is Some), fresh)
}

/// The files after a regenerating run that writes `fresh`.
pub open spec fn after_regenerate(f: FilePair, fresh: FilePair) -> FilePair {
    apply_action(f, regenerate_action(f.cert is Some, f.key is Some), fresh)
}

/// Ensuring twice leaves the files exactly as the first run wrote or found
/// them: the second run generates nothing.
pub proof fn lemma_ensure_idempotent(f: FilePair, first: FilePair, second: FilePair)
    requires
        both_present(first),
    ensures
        ensure_action(after_ensure(f, first).cert is Some, after_ensure(f, first).key is Some)
            == FileAction::Keep,
        after_ensure(after_ensure(f, first), second) == after_ensure(f, first),
{
}

/// An ensuring run rewrites the files if and only if one of them is
/// missing, and leaves them untouched when both exist.
pub proof fn lemma_ensure_regenerates_iff_missing(f: FilePair, fresh: FilePair)
    ensures
        (ensure_action(f.cert is Some, f.key is Some) == FileAction::Write) <==> !both_present(f),
        both_present(f) ==> after_ensure(f, fresh) == f,
        !both_present(f) ==> after_ensure(f, fresh) == fresh,
{
}

/// The combined certificate is rewritten on every run, also when a second
/// run follows with the same domains and both files exist: the files end as
/// the last run wrote them.
pub proof fn lemma_combined_overwrites(f: FilePair, first: FilePair, second: FilePair)
    ensures
        regenerate_action(f.cert is Some, f.key is Some) == FileAction::Write,
        after_regenerate(after_regenerate(f, first), second) == second,
{
}

} // verus!
