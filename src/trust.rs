//! The operating system's trust store: which backend applies, the commands
//! that install and remove the CA certificate, how their results are read,
//! and whether our certificate is already trusted, judged by fingerprint.
use vstd::prelude::*;
use crate::fingerprint::{
    cert_fingerprint_sha256_from_pem, contains_fingerprint, fingerprint_of, has_fingerprint,
    opt_bytes, same_fingerprint,
};
use crate::hosts::Installer;
use crate::text::{
    chars_of, contains, index_of, lemma_index_of, lines, matches_at, next_line,
    sh_quoted, shell_quote, starts_with, str_contains, str_eq, trim, trim_bounds,
};

verus! {

/// The trust-store backend of the operating system.
#[derive(PartialEq, Eq, Structural, Clone, Copy, Debug)]
pub enum TrustStoreBackend {
    MacKeychain,
    LinuxAnchor,
    Unsupported,
}

/// The backend for the operating system named as `std::env::consts::OS`
/// names it.
pub open spec fn backend_for(os: Seq<char>) -> TrustStoreBackend {
    if os == "macos"@ {
        TrustStoreBackend::MacKeychain
    } else if os == "linux"@ {
        TrustStoreBackend::LinuxAnchor
    } else {
        TrustStoreBackend::Unsupported
    }
}

impl TrustStoreBackend {
    pub fn for_os(os: &str) -> (r: TrustStoreBackend)
        ensures
            r == backend_for(os@),
    {
        if str_eq(os, "macos") {
            TrustStoreBackend::MacKeychain
        } else if str_eq(os, "linux") {
            TrustStoreBackend::LinuxAnchor
        } else {
            TrustStoreBackend::Unsupported
        }
    }
}

/// How one step ended: done, skipped because the user cancelled the
/// privilege prompt, failed, or not possible because this system has no
/// trust store that the tool knows.
#[derive(PartialEq, Eq, Structural, Clone, Copy, Debug)]
pub enum StepOutcome {
    Done,
    Skipped,
    Failed,
    Unsupported,
}

/// The outcome of a privileged command from whether it succeeded and its
/// error text: a cancelled prompt is told apart from a failure.
pub fn privileged_outcome(succeeded: bool, message: &str) -> (r: StepOutcome)
    ensures
        r == if succeeded {
            StepOutcome::Done
        } else if contains(message@, "user cancelled"@) {
            StepOutcome::Skipped
        } else {
            StepOutcome::Failed
        },
{
    if succeeded {
        StepOutcome::Done
    } else if str_contains(message, "user cancelled") {
        StepOutcome::Skipped
    } else {
        StepOutcome::Failed
    }
}

/// The outcome of adding the certificate to the keychain: a keychain that
/// already holds it counts as done.
pub fn keychain_add_outcome(succeeded: bool, message: &str) -> (r: StepOutcome)
    ensures
        r == if succeeded || contains(
            message@,
            "The specified item already exists in the keychain"@,
        ) {
            StepOutcome::Done
        } else if contains(message@, "user cancelled"@) {
            StepOutcome::Skipped
        } else {
            StepOutcome::Failed
        },
{
    if succeeded || str_contains(message, "The specified item already exists in the keychain") {
        StepOutcome::Done
    } else {
        privileged_outcome(false, message)
    }
}

/// After one keychain entry was removed with `outcome`: whether to go on
/// with the next entry, and whether every removal so far succeeded. A
/// failure does not stop the others; a cancelled prompt does.
pub fn after_removal(success: bool, outcome: StepOutcome) -> (r: (bool, bool))
    ensures
        r.0 == (outcome != StepOutcome::Skipped),
        r.1 == (success && outcome == StepOutcome::Done),
{
    (outcome != StepOutcome::Skipped, success && outcome == StepOutcome::Done)
}

/// What the installation does with the CA certificate.
#[derive(PartialEq, Eq, Structural, Clone, Copy, Debug)]
pub struct InstallPlan {
    /// Remove same-named keychain entries before adding ours.
    pub purge_first: bool,
    /// Add our certificate to the store.
    pub install: bool,
}

/// The certificate is added when the store does not hold it yet; on the
/// keychain, same-named stale entries are removed first.
pub fn install_plan(backend: TrustStoreBackend, installed: bool) -> (r: InstallPlan)
    ensures
        r.install == !installed,
        r.purge_first == (!installed && backend == TrustStoreBackend::MacKeychain),
{
    InstallPlan {
        purge_first: !installed && backend == TrustStoreBackend::MacKeychain,
        install: !installed,
    }
}

/// A run succeeds when both of its steps are done.
pub fn overall_success(ca_step: StepOutcome, hosts_step: StepOutcome) -> (r: bool)
    ensures
        r == (ca_step == StepOutcome::Done && hosts_step == StepOutcome::Done),
{
    ca_step == StepOutcome::Done && hosts_step == StepOutcome::Done
}

/// The two anchor-directory conventions of Linux distributions.
#[derive(PartialEq, Eq, Structural, Clone, Copy, Debug)]
pub enum LinuxStore {
    Debian,
    Rhel,
}

impl LinuxStore {
    /// The store whose anchor directory exists, Debian's before RHEL's.
    pub fn pick(debian_dir_exists: bool, rhel_dir_exists: bool) -> (r: Option<LinuxStore>)
        ensures
            r == if debian_dir_exists {
                Some(LinuxStore::Debian)
            } else if rhel_dir_exists {
                Some(LinuxStore::Rhel)
            } else {
                None
            },
    {
        if debian_dir_exists {
            Some(LinuxStore::Debian)
        } else if rhel_dir_exists {
            Some(LinuxStore::Rhel)
        } else {
            None
        }
    }

    pub open spec fn dir_spec(self) -> Seq<char> {
        match self {
            LinuxStore::Debian => "/usr/local/share/ca-certificates"@,
            LinuxStore::Rhel => "/etc/pki/ca-trust/source/anchors"@,
        }
    }

    /// The anchor directory of the store.
    pub fn anchor_dir(&self) -> (r: String)
        ensures
            r@ == self.dir_spec(),
    {
        match self {
            LinuxStore::Debian => String::from_str("/usr/local/share/ca-certificates"),
            LinuxStore::Rhel => String::from_str("/etc/pki/ca-trust/source/anchors"),
        }
    }

    /// Where our certificate is placed in the store.
    pub fn anchor_file(&self) -> (r: String)
        ensures
            r@ == self.dir_spec() + "/devrelay-ca.crt"@,
    {
        let mut p = self.anchor_dir();
        p.append("/devrelay-ca.crt");
        p
    }

    /// The command that rebuilds the system bundle from the anchors.
    pub fn refresh_command(&self) -> (r: String)
        ensures
            r@ == match self {
                LinuxStore::Debian => "update-ca-certificates"@,
                LinuxStore::Rhel => "update-ca-trust"@,
            },
    {
        match self {
            LinuxStore::Debian => String::from_str("update-ca-certificates"),
            LinuxStore::Rhel => String::from_str("update-ca-trust"),
        }
    }
}

/// The command that adds the certificate at `cert_path` to the system
/// keychain as a trusted root.
pub fn keychain_add_command(cert_path: &str) -> (r: String)
    ensures
        r@ == "security add-trusted-cert -d -r trustRoot -k /Library/Keychains/System.keychain "@
            + sh_quoted(cert_path@),
{
    let mut c = String::from_str(
        "security add-trusted-cert -d -r trustRoot -k /Library/Keychains/System.keychain ",
    );
    let q = shell_quote(cert_path);
    c.append(q.as_str());
    c
}

/// The command that deletes the keychain entry with the SHA-1 hash `hash`.
pub fn keychain_delete_command(hash: &str) -> (r: String)
    ensures
        r@ == "security delete-certificate -Z "@ + hash@ + " /Library/Keychains/System.keychain"@,
{
    let mut c = String::from_str("security delete-certificate -Z ");
    c.append(hash);
    c.append(" /Library/Keychains/System.keychain");
    c
}

/// The command that copies `from` to `to`.
pub fn copy_command(from: &str, to: &str) -> (r: String)
    ensures
        r@ == "cp "@ + sh_quoted(from@) + " "@ + sh_quoted(to@),
{
    let mut c = String::from_str("cp ");
    let a = shell_quote(from);
    c.append(a.as_str());
    c.append(" ");
    let b = shell_quote(to);
    c.append(b.as_str());
    c
}

/// The command that removes the file at `path`.
pub fn remove_file_command(path: &str) -> (r: String)
    ensures
        r@ == "rm -f "@ + sh_quoted(path@),
{
    let mut c = String::from_str("rm -f ");
    let a = shell_quote(path);
    c.append(a.as_str());
    c
}

pub open spec fn hash_prefix() -> Seq<char> {
    seq!['S', 'H', 'A', '-', '1', ' ', 'h', 'a', 's', 'h', ':']
}

/// The hash on a line of `security find-certificate -Z` output: the text
/// after the label up to the next colon, trimmed.
pub open spec fn hash_of_line(l: Seq<char>) -> Seq<char> {
    let r = l.subrange(11, l.len() as int);
    trim(r.subrange(0, index_of(r, ':') as int))
}

/// The hashes of the lines of `ls` that carry the SHA-1 label, in order.
pub open spec fn hashes_in(ls: Seq<Seq<char>>) -> Seq<Seq<char>>
    decreases ls.len(),
{
    if ls.len() == 0 {
        seq![]
    } else if starts_with(ls.last(), hash_prefix()) {
        hashes_in(ls.drop_last()).push(hash_of_line(ls.last()))
    } else {
        hashes_in(ls.drop_last())
    }
}

pub open spec fn string_views(v: Seq<String>) -> Seq<Seq<char>> {
    v.map_values(|s: String| s@)
}

/// The SHA-1 hashes that `security find-certificate -a -Z` lists, in order.
pub fn keychain_hashes(find_output: &str) -> (r: Vec<String>)
    ensures
        string_views(r@) == hashes_in(lines(find_output@)),
{
    let v = chars_of(find_output);
    let prefix = chars_of("SHA-1 hash:");
    proof {
        reveal_strlit("SHA-1 hash:");
        assert(prefix@ =~= hash_prefix());
    }
    let ghost ls = lines(v@);
    let mut r: Vec<String> = Vec::new();
    let mut p: usize = 0;
    let ghost mut i: int = 0;
    proof {
        assert(v@.subrange(0, v@.len() as int) =~= v@);
        assert(ls.take(0) =~= seq![]);
    }
    while p < v.len()
        invariant
            p <= v.len(),
            0 <= i <= ls.len(),
            v@ == find_output@,
            ls == lines(v@),
            prefix@ == hash_prefix(),
            lines(v@.subrange(p as int, v@.len() as int)) == ls.subrange(i, ls.len() as int),
            string_views(r@) == hashes_in(ls.take(i)),
        decreases v.len() - p,
    {
        let (e, next) = next_line(&v, p);
        let ghost line = v@.subrange(p as int, e as int);
        proof {
            assert(ls.subrange(i, ls.len() as int).len() >= 1);
            assert(ls[i] == ls.subrange(i, ls.len() as int)[0]);
            assert(ls[i] == line);
            assert(ls.subrange(i + 1, ls.len() as int) =~= ls.subrange(
                i,
                ls.len() as int,
            ).drop_first());
            assert(ls.take(i + 1).drop_last() =~= ls.take(i));
            assert(ls.take(i + 1).last() == line);
        }
        let labelled = e - p >= 11 && matches_at(&v, p, &prefix);
        proof {
            if labelled {
                assert(line.subrange(0, 11) =~= v@.subrange(p as int, p + 11));
            }
            if starts_with(line, hash_prefix()) {
                assert(line.subrange(0, 11) =~= v@.subrange(p as int, p + 11));
            }
        }
        if labelled {
            let mut q: usize = p + 11;
            while q < e && v[q] != ':'
                invariant
                    p + 11 <= q <= e <= v.len(),
                    forall|m: int| p + 11 <= m < q ==> v@[m] != ':',
                decreases e - q,
            {
                q = q + 1;
            }
            let (a, b) = trim_bounds(&v, p + 11, q);
            let h = find_output.substring_char(a, b);
            let hs = String::from_str(h);
            let ghost prev = r@;
            r.push(hs);
            proof {
                let rest = line.subrange(11, line.len() as int);
                assert(rest =~= v@.subrange(p + 11, e as int));
                assert forall|m: int| 0 <= m < q - (p + 11) implies rest[m] != ':' by {
                    assert(rest[m] == v@[p + 11 + m]);
                }
                lemma_index_of(rest, ':', q - (p + 11));
                assert(rest.subrange(0, q - (p + 11)) =~= v@.subrange(p + 11, q as int));
                assert(hs@ == hash_of_line(line));
                assert(r@ == prev.push(hs));
                assert(string_views(r@) =~= string_views(prev).push(hs@));
            }
        }
        proof {
            i = i + 1;
        }
        p = next;
    }
    proof {
        assert(v@.subrange(p as int, v@.len() as int) =~= Seq::<char>::empty());
        assert(lines(Seq::<char>::empty()).len() == 0);
        assert(i == ls.len());
        assert(ls.take(i) =~= ls);
    }
    r
}

pub open spec fn opt_bytes_seq(v: Seq<Option<Vec<u8>>>) -> Seq<Option<Seq<u8>>> {
    v.map_values(|o: Option<Vec<u8>>| opt_bytes(o))
}

/// Whether the anchor files (`None` for one that is absent), taken in
/// order, hold our certificate: the first present file that holds a
/// certificate decides by its fingerprint.
pub open spec fn anchors_hold(files: Seq<Option<Seq<u8>>>, ours: Seq<u8>) -> bool
    decreases files.len(),
{
    if files.len() == 0 {
        false
    } else {
        match files[0] {
            Some(pem) => match fingerprint_of(pem) {
                Some(fp) => fp == ours,
                None => anchors_hold(files.drop_first(), ours),
            },
            None => anchors_hold(files.drop_first(), ours),
        }
    }
}

impl Installer {
    /// Whether any certificate that the keychain lists under our name has our
    /// fingerprint; a same-named entry with another fingerprint does not
    /// count.
    pub fn is_ca_installed_macos(keychain_pem: &[u8], our_fingerprint: &[u8; 32]) -> (r: bool)
        ensures
            r == has_fingerprint(keychain_pem@, our_fingerprint@),
    {
        contains_fingerprint(keychain_pem, our_fingerprint)
    }

    /// Whether the Linux anchor files, in the order of the stores, hold our
    /// certificate.
    pub fn is_ca_installed_linux(
        anchor_files: &Vec<Option<Vec<u8>>>,
        our_fingerprint: &[u8; 32],
    ) -> (r: bool)
        ensures
            r == anchors_hold(opt_bytes_seq(anchor_files@), our_fingerprint@),
    {
        let ghost fs = opt_bytes_seq(anchor_files@);
        let mut i: usize = 0;
        proof {
            assert(fs.subrange(0, fs.len() as int) =~= fs);
        }
        while i < anchor_files.len()
            invariant
                i <= anchor_files.len(),
                fs == opt_bytes_seq(anchor_files@),
                anchors_hold(fs.subrange(i as int, fs.len() as int), our_fingerprint@)
                    == anchors_hold(fs, our_fingerprint@),
            decreases anchor_files.len() - i,
        {
            let ghost tail = fs.subrange(i as int, fs.len() as int);
            proof {
                assert(tail.drop_first() =~= fs.subrange(i + 1, fs.len() as int));
                assert(tail[0] == opt_bytes(anchor_files@[i as int]));
            }
            match &anchor_files[i] {
                Some(pem) => {
                    match cert_fingerprint_sha256_from_pem(pem.as_slice()) {
                        Some(fp) => {
                            return same_fingerprint(&fp, our_fingerprint);
                        },
                        None => {},
                    }
                },
                None => {},
            }
            i = i + 1;
        }
        proof {
            assert(fs.subrange(i as int, fs.len() as int).len() == 0);
        }
        false
    }
}

} // verus!
