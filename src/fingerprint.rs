//! Certificate identity: the SHA-256 digest of the DER encoding of a
//! certificate found in PEM text.
use vstd::prelude::*;
use vstd::slice::slice_to_vec;

verus! {

/// What `sha2::Sha256::digest` returns for `data`.
pub uninterp spec fn sha256_of(data: Seq<u8>) -> Seq<u8>;

/// What `rustls_pemfile::read_one_from_slice` finds at the start of `input`:
/// `None` when no further section can be read (the end of the input, or a
/// malformed section); else the DER bytes when the section is a certificate,
/// and the input after the section.
pub uninterp spec fn pem_next(input: Seq<u8>) -> Option<(Option<Seq<u8>>, Seq<u8>)>;

pub open spec fn opt_bytes(o: Option<Vec<u8>>) -> Option<Seq<u8>> {
    match o {
        Some(v) => Some(v@),
        None => None,
    }
}

/// One recognised PEM section and the input after it.
pub struct PemSection {
    pub certificate: Option<Vec<u8>>,
    pub rest: Vec<u8>,
}

/// Relies on `sha2::Sha256::digest`: the SHA-256 digest of `data`.
#[verifier::external_body]
fn sha256(data: &[u8]) -> (r: [u8; 32])
    ensures
        r@ == sha256_of(data@),
{
    <sha2::Sha256 as sha2::Digest>::digest(data).into()
}

/// Relies on `rustls_pemfile::read_one_from_slice`: the next recognised
/// section of `input`, with its DER bytes when it is a certificate, and the
/// remainder that follows it, which is shorter than `input`. Malformed input
/// ends the reading as the end of the input does.
#[verifier::external_body]
fn read_pem_section(input: &[u8]) -> (r: Option<PemSection>)
    ensures
        match r {
            None => pem_next(input@) is None,
            Some(s) => pem_next(input@) == Some((opt_bytes(s.certificate), s.rest@))
                && s.rest@.len() < input@.len(),
        },
{
    match rustls_pemfile::read_one_from_slice(input) {
        Ok(Some((rustls_pemfile::Item::X509Certificate(der), rest))) => Some(
            PemSection { certificate: Some(der.to_vec()), rest: rest.to_vec() },
        ),
        Ok(Some((_, rest))) => Some(PemSection { certificate: None, rest: rest.to_vec() }),
        Ok(None) => None,
        Err(_) => None,
    }
}

/// The DER bytes of the first certificate among the PEM sections of `pem`.
pub open spec fn first_certificate(pem: Seq<u8>) -> Option<Seq<u8>>
    decreases pem.len(),
{
    match pem_next(pem) {
        None => None,
        Some((cert, rest)) => if rest.len() >= pem.len() {
            None
        } else {
            match cert {
                Some(d) => Some(d),
                None => first_certificate(rest),
            }
        },
    }
}

/// The DER bytes of every certificate among the PEM sections of `pem`, in
/// order, up to the end or the first malformed section.
pub open spec fn certificates(pem: Seq<u8>) -> Seq<Seq<u8>>
    decreases pem.len(),
{
    match pem_next(pem) {
        None => seq![],
        Some((cert, rest)) => if rest.len() >= pem.len() {
            seq![]
        } else {
            match cert {
                Some(d) => seq![d] + certificates(rest),
                None => certificates(rest),
            }
        },
    }
}

/// The fingerprint of the first certificate of `pem`.
pub open spec fn fingerprint_of(pem: Seq<u8>) -> Option<Seq<u8>> {
    match first_certificate(pem) {
        Some(d) => Some(sha256_of(d)),
        None => None,
    }
}

/// The fingerprint depends on the DER bytes of the first certificate alone:
/// two PEM texts whose first certificates are the same bytes, or one text
/// read twice, have the same fingerprint.
pub proof fn lemma_fingerprint_of_der(p: Seq<u8>, q: Seq<u8>)
    requires
        first_certificate(p) == first_certificate(q),
    ensures
        fingerprint_of(p) == fingerprint_of(q),
        fingerprint_of(p) is Some ==> fingerprint_of(p) == Some(sha256_of(first_certificate(p)->0)),
{
}

pub open spec fn opt_fingerprint(o: Option<[u8; 32]>) -> Option<Seq<u8>> {
    match o {
        Some(a) => Some(a@),
        None => None,
    }
}

/// The SHA-256 fingerprint of the DER bytes of the first certificate in
/// `pem`; `None` when it holds no certificate before its end or a malformed
/// section.
pub fn cert_fingerprint_sha256_from_pem(pem: &[u8]) -> (r: Option<[u8; 32]>)
    ensures
        opt_fingerprint(r) == fingerprint_of(pem@),
{
    let mut cur: Vec<u8> = slice_to_vec(pem);
    loop
        invariant
            first_certificate(cur@) == first_certificate(pem@),
        decreases cur@.len(),
    {
        match read_pem_section(cur.as_slice()) {
            None => {
                return None;
            },
            Some(section) => {
                match section.certificate {
                    Some(der) => {
                        return Some(sha256(der.as_slice()));
                    },
                    None => {
                        cur = section.rest;
                    },
                }
            },
        }
    }
}

/// Whether two fingerprints are equal.
pub fn same_fingerprint(a: &[u8; 32], b: &[u8; 32]) -> (r: bool)
    ensures
        r == (a@ == b@),
{
    let mut i: usize = 0;
    while i < 32
        invariant
            i <= 32,
            a@.len() == 32,
            b@.len() == 32,
            forall|k: int| 0 <= k < i ==> a@[k] == b@[k],
        decreases 32 - i,
    {
        if a[i] != b[i] {
            return false;
        }
        i = i + 1;
    }
    assert(a@ =~= b@);
    true
}

/// Whether some certificate of `pem` has the fingerprint `fp`.
pub open spec fn has_fingerprint(pem: Seq<u8>, fp: Seq<u8>) -> bool {
    exists|i: int| 0 <= i < certificates(pem).len() && sha256_of(#[trigger] certificates(pem)[i]) == fp
}

/// Whether some certificate among the PEM sections of `pem` has the
/// fingerprint `fp`.
pub fn contains_fingerprint(pem: &[u8], fp: &[u8; 32]) -> (r: bool)
    ensures
        r == has_fingerprint(pem@, fp@),
{
    let mut cur: Vec<u8> = slice_to_vec(pem);
    let ghost mut seen: Seq<Seq<u8>> = seq![];
    loop
        invariant
            certificates(pem@) == seen + certificates(cur@),
            forall|i: int| 0 <= i < seen.len() ==> sha256_of(#[trigger] seen[i]) != fp@,
        decreases cur@.len(),
    {
        match read_pem_section(cur.as_slice()) {
            None => {
                assert(certificates(pem@) =~= seen);
                return false;
            },
            Some(section) => {
                let ghost rest = section.rest@;
                match section.certificate {
                    Some(der) => {
                        let d = sha256(der.as_slice());
                        assert(certificates(cur@) == seq![der@] + certificates(rest));
                        if same_fingerprint(&d, fp) {
                            assert(certificates(pem@)[seen.len() as int] == der@);
                            return true;
                        }
                        proof {
                            assert(seen.push(der@) + certificates(rest) =~= seen + certificates(
                                cur@,
                            ));
                            seen = seen.push(der@);
                        }
                    },
                    None => {},
                }
                cur = section.rest;
            },
        }
    }
}

} // verus!
