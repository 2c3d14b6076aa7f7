//! What master and nodes share: certificate file layout, version text, the
//! wall clock and certificate expiry.
use vstd::prelude::*;
use crate::clock::unix_now_ms;
use crate::text::{chars_of, is_lit, push_all, string_of, trim, trim_chars};
use vstd::utf8::encode_utf8;

verus! {

/// Workspace version.
pub const PKG_VERSION: &'static str = "0.1.0";

/// Short hash of the sources the node was built from; `unknown` outside a
/// git checkout.
pub const GIT_HASH: &'static str = "unknown";

/// `PKG_VERSION-GIT_HASH`, as reported by nodes and shown in the UI.
pub fn version_string() -> (r: String)
    ensures
        r@ == PKG_VERSION@ + seq!['-'] + GIT_HASH@,
{
    let mut v = chars_of(PKG_VERSION);
    v.push('-');
    let g = chars_of(GIT_HASH);
    push_all(&mut v, g.as_slice());
    string_of(v.as_slice())
}

/// The certificate files of a directory.
pub struct CertPaths {
    pub ca: String,
    pub ca_key: String,
    pub server: String,
    pub server_key: String,
    pub client: String,
    pub client_key: String,
}

/// `dir/file`.
pub open spec fn joined(dir: Seq<char>, file: Seq<char>) -> Seq<char> {
    dir + seq!['/'] + file
}

fn join(dir: &str, file: &str) -> (r: String)
    ensures
        r@ == joined(dir@, file@),
{
    let mut v = chars_of(dir);
    v.push('/');
    let f = chars_of(file);
    push_all(&mut v, f.as_slice());
    string_of(v.as_slice())
}

/// Whether a file exists at `path` (`Path::exists`). It reads the file
/// system, so nothing is promised of the answer.
#[verifier::external_body]
fn file_exists(path: &str) -> (r: bool) {
    std::path::Path::new(path).exists()
}

impl CertPaths {
    /// The files `ca.pem`, `ca-key.pem`, `server.pem`, `server-key.pem`,
    /// `client.pem` and `client-key.pem` under `dir`.
    pub fn under(dir: &str) -> (p: Self)
        ensures
            p.ca@ == joined(dir@, "ca.pem"@),
            p.ca_key@ == joined(dir@, "ca-key.pem"@),
            p.server@ == joined(dir@, "server.pem"@),
            p.server_key@ == joined(dir@, "server-key.pem"@),
            p.client@ == joined(dir@, "client.pem"@),
            p.client_key@ == joined(dir@, "client-key.pem"@),
    {
        CertPaths {
            ca: join(dir, "ca.pem"),
            ca_key: join(dir, "ca-key.pem"),
            server: join(dir, "server.pem"),
            server_key: join(dir, "server-key.pem"),
            client: join(dir, "client.pem"),
            client_key: join(dir, "client-key.pem"),
        }
    }

    /// The files the control plane needs (all but the CA key, which only
    /// the master holds).
    pub fn ctrl_files(&self) -> (r: Vec<String>)
        ensures
            r.deep_view() == seq![self.ca@, self.server@, self.server_key@, self.client@, self.client_key@],
    {
        let mut r: Vec<String> = Vec::new();
        r.push(self.ca.clone());
        r.push(self.server.clone());
        r.push(self.server_key.clone());
        r.push(self.client.clone());
        r.push(self.client_key.clone());
        assert(r.deep_view() =~= seq![self.ca@, self.server@, self.server_key@, self.client@, self.client_key@]);
        r
    }

    /// Whether every control-plane file (`ctrl_files`) exists. Each answer
    /// comes from the file system, so nothing is promised of the result.
    pub fn ctrl_exists(&self) -> (r: bool) {
        let files = self.ctrl_files();
        let mut flags: Vec<bool> = Vec::new();
        let mut i: usize = 0;
        while i < files.len()
            invariant
                i <= files.len(),
            decreases files.len() - i,
        {
            flags.push(file_exists(files[i].as_str()));
            i += 1;
        }
        all_present(&flags)
    }
}

/// Whether every flag is set.
pub fn all_present(flags: &Vec<bool>) -> (r: bool)
    ensures
        r == (forall|i: int| 0 <= i < flags@.len() ==> flags@[i]),
{
    let mut i: usize = 0;
    while i < flags.len()
        invariant
            i <= flags.len(),
            forall|k: int| 0 <= k < i ==> flags@[k],
        decreases flags.len() - i,
    {
        if !flags[i] {
            return false;
        }
        i += 1;
    }
    true
}

/// Milliseconds since the Unix epoch; 0 if the clock is before it.
pub fn now_ms() -> (r: i64)
    ensures
        r >= 0,
{
    match unix_now_ms() {
        Some(t) => if t < 0 {
            0
        } else {
            t
        },
        None => 0,
    }
}

/// The NotAfter time (Unix seconds) of the first certificate in a PEM text,
/// as x509-parser reads it; `None` when the text or certificate does not parse.
pub uninterp spec fn x509_not_after(pem: Seq<u8>) -> Option<i64>;

/// `parse_x509_pem`, then `Pem::parse_x509`, then the validity's
/// `not_after.timestamp()`. The error text is the parser's and is not stated.
#[verifier::external_body]
fn not_after_secs(pem: &[u8]) -> (r: Result<i64, String>)
    ensures
        r is Ok <==> x509_not_after(pem@) is Some,
        r matches Ok(s) ==> x509_not_after(pem@) == Some(s),
{
    let (_, p) = match x509_parser::pem::parse_x509_pem(pem) {
        Ok(v) => v,
        Err(e) => return Err(format!("parse pem: {e}")),
    };
    match p.parse_x509() {
        Ok(cert) => Ok(cert.validity().not_after.timestamp()),
        Err(_) => Err(String::from("parse x509")),
    }
}

/// `x * 1000`, saturating at the bounds of `i64`.
pub open spec fn sat_ms(x: i64) -> i64 {
    if x * 1000 > i64::MAX {
        i64::MAX
    } else if x * 1000 < i64::MIN {
        i64::MIN
    } else {
        (x * 1000) as i64
    }
}

/// The NotAfter time of a PEM certificate in Unix milliseconds.
pub fn cert_not_after_ms(pem: &[u8]) -> (r: Result<i64, String>)
    ensures
        r is Ok <==> x509_not_after(pem@) is Some,
        r matches Ok(ms) ==> ms == sat_ms(x509_not_after(pem@)->0),
{
    match not_after_secs(pem) {
        Ok(s) => {
            let ms = if s > i64::MAX / 1000 {
                i64::MAX
            } else if s < i64::MIN / 1000 {
                i64::MIN
            } else {
                s * 1000
            };
            Ok(ms)
        },
        Err(e) => Err(e),
    }
}


// ───────────────────────── development certificates ─────────────────────────

/// The version of the server certificate's names; a server certificate
/// written under another version (or none) is issued again.
pub const SERVER_CERT_VERSION: &'static str = "v2-mtls-sni";

/// Which certificates the master makes at start.
pub struct CertPlan {
    /// Make a new CA (else load the one on disk).
    pub new_ca: bool,
    /// Issue the server pair again.
    pub new_server: bool,
    /// Issue the shared client pair.
    pub new_client: bool,
}

/// What to make, from which files exist and the recorded server
/// certificate version (`None` when it cannot be read): a CA unless both
/// its files exist; the server pair when one of its files is missing or its
/// version is not the current one; the client pair when one of its files
/// is missing.
pub fn cert_plan(
    ca: bool,
    ca_key: bool,
    server: bool,
    server_key: bool,
    server_version: Option<&str>,
    client: bool,
    client_key: bool,
) -> (r: CertPlan)
    ensures
        r.new_ca == !(ca && ca_key),
        r.new_server == (!server || !server_key || !(server_version matches Some(v) && trim(v@)
            == SERVER_CERT_VERSION@)),
        r.new_client == (!client || !client_key),
{
    let current = match server_version {
        Some(v) => {
            let t = trim_chars(chars_of(v).as_slice());
            is_lit(t.as_slice(), SERVER_CERT_VERSION)
        },
        None => false,
    };
    CertPlan { new_ca: !(ca && ca_key), new_server: !server || !server_key || !current, new_client: !client || !client_key }
}

/// How long a node certificate is valid.
pub const NODE_CERT_VALIDITY_DAYS: i64 = 365;

/// The earliest validity time a certificate can carry: 0000-01-01T00:00:00Z.
pub const EARLIEST_CERT_SECS: i64 = -62167219200;

/// The latest validity time a certificate can carry: 9999-12-31T23:59:59Z.
pub const LATEST_CERT_SECS: i64 = 253402300799;

#[verifier::external_type_specification]
#[verifier::external_body]
pub struct ExCertificate(rcgen::Certificate);

#[verifier::external_type_specification]
#[verifier::external_body]
pub struct ExKeyPair(rcgen::KeyPair);

/// Loads the CA: `KeyPair::from_pem` of its key, then
/// `CertificateParams::from_ca_cert_pem` of its certificate signed again with
/// that key, which gives rcgen a handle to issue with. Nothing is stated of
/// the handle; the error text is rcgen's.
#[verifier::external_body]
fn load_ca(ca_cert_pem: &str, ca_key_pem: &str) -> (r: Result<(rcgen::Certificate, rcgen::KeyPair), String>) {
    let key = match rcgen::KeyPair::from_pem(ca_key_pem) {
        Ok(k) => k,
        Err(e) => return Err(format!("parse ca key: {e}")),
    };
    let params = match rcgen::CertificateParams::from_ca_cert_pem(ca_cert_pem) {
        Ok(p) => p,
        Err(e) => return Err(format!("parse ca cert params: {e}")),
    };
    match params.self_signed(&key) {
        Ok(cert) => Ok((cert, key)),
        Err(e) => Err(format!("rebuild ca cert: {e}")),
    }
}

/// The NotBefore time (Unix seconds) of the first certificate in a PEM text,
/// as x509-parser reads it (`parse_x509_pem`, `Pem::parse_x509`, the
/// validity's `not_before.timestamp()`); `None` when it does not parse.
pub uninterp spec fn x509_not_before(pem: Seq<u8>) -> Option<i64>;

/// The common names of the subject of the first certificate in a PEM text, as
/// x509-parser reads them (`parse_x509_pem`, `Pem::parse_x509`, the subject's
/// `iter_common_name`, each through `as_str`, `None` where that fails), in
/// order; `None` when the text or certificate does not parse.
pub uninterp spec fn x509_pem_common_names(pem: Seq<u8>) -> Option<Seq<Option<Seq<char>>>>;

/// The DNS names among the subject alternative names of the first
/// certificate in a PEM text, as x509-parser reads them, in order; `None`
/// when the text, the certificate or the extension does not parse.
pub uninterp spec fn x509_pem_dns_names(pem: Seq<u8>) -> Option<Seq<Seq<char>>>;

/// A character that appears in the text of some IP address.
pub open spec fn ip_text_char(c: char) -> bool {
    ('0' <= c && c <= '9') || ('a' <= c && c <= 'f') || ('A' <= c && c <= 'F') || c == '.' || c == ':'
}

/// A name that cannot be read as an IP address: it has a character that no
/// IP address text has. rcgen writes such an alternative name as a DNS name.
pub open spec fn never_ip(s: Seq<char>) -> bool {
    exists|i: int| 0 <= i < s.len() && !ip_text_char(#[trigger] s[i])
}

/// Issues a leaf with rcgen: a fresh `KeyPair::generate`, `CertificateParams::new`
/// of the alternative names, the common name `cn`, validity from
/// `not_before_secs` to `not_after_secs` (Unix seconds, through
/// `OffsetDateTime::from_unix_timestamp`), `signed_by` the CA; it gives the
/// certificate's and the key's PEM text. Claimed, of what x509-parser reads
/// back from the certificate text: both validity times exactly (rcgen writes
/// whole seconds as UTCTime or GeneralizedTime); `cn` as the one common name
/// (rcgen writes it as a UTF8String); and the alternative names as the DNS
/// names, in order, when none of them can be read as an IP address (rcgen
/// writes a name that parses as an IP address as one). Not stated: the key
/// (random) and the error text, which is rcgen's or time's.
#[verifier::external_body]
fn sign_leaf(
    ca: &rcgen::Certificate,
    ca_key: &rcgen::KeyPair,
    cn: &str,
    sans: &Vec<String>,
    not_before_secs: i64,
    not_after_secs: i64,
) -> (r: Result<(String, String), String>)
    requires
        EARLIEST_CERT_SECS <= not_before_secs <= LATEST_CERT_SECS,
        EARLIEST_CERT_SECS <= not_after_secs <= LATEST_CERT_SECS,
    ensures
        r matches Ok((cert, _)) ==> {
            &&& x509_not_after(encode_utf8(cert@)) == Some(not_after_secs)
            &&& x509_not_before(encode_utf8(cert@)) == Some(not_before_secs)
            &&& x509_pem_common_names(encode_utf8(cert@)) == Some(seq![Some(cn@)])
            &&& (forall|i: int| 0 <= i < sans@.len() ==> never_ip(#[trigger] sans@[i]@))
                ==> x509_pem_dns_names(encode_utf8(cert@)) == Some(sans.deep_view())
        },
{
    let key = rcgen::KeyPair::generate().map_err(|e| format!("gen node key: {e}"))?;
    let mut params = rcgen::CertificateParams::new(sans.clone()).map_err(|e| format!("{e}"))?;
    params.distinguished_name.push(rcgen::DnType::CommonName, cn);
    params.not_before = time::OffsetDateTime::from_unix_timestamp(not_before_secs).map_err(|e| format!("{e}"))?;
    params.not_after = time::OffsetDateTime::from_unix_timestamp(not_after_secs).map_err(|e| format!("{e}"))?;
    let cert = params.signed_by(&key, ca, ca_key).map_err(|e| format!("sign node leaf: {e}"))?;
    Ok((cert.pem(), key.serialize_pem()))
}

/// A key usage of a CA certificate.
pub enum CaUsage {
    CertSign,
    CrlSign,
}

/// A new self-signed CA with rcgen: `KeyPair::generate`, the common name
/// `cn`, CA basic constraints with the path length `path_len` (unconstrained
/// when `None`), the key usages `usages`, `self_signed`; it gives the
/// certificate's and the key's PEM text. Claimed: x509-parser reads `cn` back
/// as the one common name. Not stated: the key (random), the other fields,
/// and the error text, which is rcgen's.
#[verifier::external_body]
fn new_ca_pem(cn: &str, path_len: Option<u8>, usages: &Vec<CaUsage>) -> (r: Result<(String, String), String>)
    ensures
        r matches Ok((cert, _)) ==> x509_pem_common_names(encode_utf8(cert@)) == Some(seq![Some(cn@)]),
{
    let key = rcgen::KeyPair::generate().map_err(|e| format!("gen ca key: {e}"))?;
    let mut params = rcgen::CertificateParams::new(Vec::<String>::new()).map_err(|e| format!("{e}"))?;
    params.is_ca = rcgen::IsCa::Ca(match path_len {
        None => rcgen::BasicConstraints::Unconstrained,
        Some(n) => rcgen::BasicConstraints::Constrained(n),
    });
    params.distinguished_name.push(rcgen::DnType::CommonName, cn);
    for u in usages {
        params.key_usages.push(match u {
            CaUsage::CertSign => rcgen::KeyUsagePurpose::KeyCertSign,
            CaUsage::CrlSign => rcgen::KeyUsagePurpose::CrlSign,
        });
    }
    let cert = params.self_signed(&key).map_err(|e| format!("self-sign ca: {e}"))?;
    Ok((cert.pem(), key.serialize_pem()))
}

/// Issues a leaf with rcgen's default validity: a fresh `KeyPair::generate`,
/// `CertificateParams::new` of the alternative names, the common name `cn`,
/// `signed_by` the CA; it gives the certificate's and the key's PEM text.
/// Claimed, as for `sign_leaf`: `cn` as the one common name, and the
/// alternative names as the DNS names when none can be read as an IP
/// address. Not stated: the key (random), the validity (rcgen's default) and
/// the error text, which is rcgen's.
#[verifier::external_body]
fn issue_leaf(ca: &rcgen::Certificate, ca_key: &rcgen::KeyPair, cn: &str, sans: &Vec<String>) -> (r: Result<
    (String, String),
    String,
>)
    ensures
        r matches Ok((cert, _)) ==> {
            &&& x509_pem_common_names(encode_utf8(cert@)) == Some(seq![Some(cn@)])
            &&& (forall|i: int| 0 <= i < sans@.len() ==> never_ip(#[trigger] sans@[i]@))
                ==> x509_pem_dns_names(encode_utf8(cert@)) == Some(sans.deep_view())
        },
{
    let key = rcgen::KeyPair::generate().map_err(|e| format!("gen leaf key: {e}"))?;
    let mut params = rcgen::CertificateParams::new(sans.clone()).map_err(|e| format!("{e}"))?;
    params.distinguished_name.push(rcgen::DnType::CommonName, cn);
    let cert = params.signed_by(&key, ca, ca_key).map_err(|e| format!("sign leaf: {e}"))?;
    Ok((cert.pem(), key.serialize_pem()))
}

/// The names of the master's server certificate: `localhost`, `127.0.0.1`
/// and `iris-master` (the name nodes dial it by), common name `iris-master`.
pub fn server_cert_names() -> (r: (Vec<String>, String))
    ensures
        r.0.deep_view() == seq!["localhost"@, "127.0.0.1"@, "iris-master"@],
        r.1@ == "iris-master"@,
{
    let mut san: Vec<String> = Vec::new();
    san.push(String::from_str("localhost"));
    san.push(String::from_str("127.0.0.1"));
    san.push(String::from_str("iris-master"));
    assert(san.deep_view() =~= seq!["localhost"@, "127.0.0.1"@, "iris-master"@]);
    (san, String::from_str("iris-master"))
}

/// The names of the client certificate the master shares with its probes:
/// `localhost` and `127.0.0.1`, common name `iris-node`.
pub fn client_cert_names() -> (r: (Vec<String>, String))
    ensures
        r.0.deep_view() == seq!["localhost"@, "127.0.0.1"@],
        r.1@ == "iris-node"@,
{
    let mut san: Vec<String> = Vec::new();
    san.push(String::from_str("localhost"));
    san.push(String::from_str("127.0.0.1"));
    assert(san.deep_view() =~= seq!["localhost"@, "127.0.0.1"@]);
    (san, String::from_str("iris-node"))
}

/// The certificate texts (certificate, key) that the master writes at
/// start: a new CA, the server pair and the client pair, each when made.
pub struct DevCerts {
    pub ca: Option<(String, String)>,
    pub server: Option<(String, String)>,
    pub client: Option<(String, String)>,
}

/// Why the master's certificates could not be made.
#[derive(Debug)]
pub enum CertError {
    /// The CA on disk is needed (no new one is planned) and was not given.
    CaMissing,
    /// rcgen failed, with its error text.
    Rcgen(String),
}

impl CertError {
    /// The error as text.
    pub fn text(&self) -> (r: String)
        ensures
            self is CaMissing ==> r@ == "the CA is missing"@,
            self matches CertError::Rcgen(e) ==> r@ == e@,
    {
        match self {
            CertError::CaMissing => String::from_str("the CA is missing"),
            CertError::Rcgen(e) => e.clone(),
        }
    }
}

/// The common name of the master's CA.
pub const CA_COMMON_NAME: &'static str = "iris-ca";

/// The one common name `cn` of a PEM certificate text, as x509-parser reads it.
pub open spec fn names_cn(pem: Seq<char>, cn: Seq<char>) -> bool {
    x509_pem_common_names(encode_utf8(pem)) == Some(seq![Some(cn)])
}

/// Makes what `plan` asks for: a new CA when it asks for one (common name
/// `iris-ca`, unconstrained, for signing certificates and CRLs), else the CA
/// on disk (`ca_on_disk`, certificate and key text) issues the leaves; the
/// server pair and the client pair, named by `server_cert_names` and
/// `client_cert_names`. The CA missing when it is needed is refused with
/// `CaMissing`; rcgen's failures come as `Rcgen`.
pub fn issue_dev_certs(plan: &CertPlan, ca_on_disk: Option<(String, String)>) -> (r: Result<DevCerts, CertError>)
    ensures
        (r matches Err(CertError::CaMissing)) <==> (!plan.new_ca && ca_on_disk is None),
        r matches Ok(d) ==> {
            &&& (d.ca is Some <==> plan.new_ca)
            &&& (d.server is Some <==> plan.new_server)
            &&& (d.client is Some <==> plan.new_client)
            &&& d.ca matches Some((c, _)) ==> names_cn(c@, CA_COMMON_NAME@)
            &&& d.server matches Some((c, _)) ==> names_cn(c@, "iris-master"@)
            &&& d.client matches Some((c, _)) ==> names_cn(c@, "iris-node"@)
        },
{
    let (ca_cert_pem, ca_key_pem) = if plan.new_ca {
        let mut usages: Vec<CaUsage> = Vec::new();
        usages.push(CaUsage::CertSign);
        usages.push(CaUsage::CrlSign);
        match new_ca_pem(CA_COMMON_NAME, None, &usages) {
            Ok(p) => p,
            Err(e) => return Err(CertError::Rcgen(e)),
        }
    } else {
        match ca_on_disk {
            Some(p) => p,
            None => return Err(CertError::CaMissing),
        }
    };
    let (ca, ca_key) = match load_ca(ca_cert_pem.as_str(), ca_key_pem.as_str()) {
        Ok(p) => p,
        Err(e) => return Err(CertError::Rcgen(e)),
    };
    let server = if plan.new_server {
        let (sans, cn) = server_cert_names();
        match issue_leaf(&ca, &ca_key, cn.as_str(), &sans) {
            Ok(p) => Some(p),
            Err(e) => return Err(CertError::Rcgen(e)),
        }
    } else {
        None
    };
    let client = if plan.new_client {
        let (sans, cn) = client_cert_names();
        match issue_leaf(&ca, &ca_key, cn.as_str(), &sans) {
            Ok(p) => Some(p),
            Err(e) => return Err(CertError::Rcgen(e)),
        }
    } else {
        None
    };
    let ca_out = if plan.new_ca {
        Some((ca_cert_pem, ca_key_pem))
    } else {
        None
    };
    Ok(DevCerts { ca: ca_out, server, client })
}

/// Issues the mTLS certificate of node `node_id` with the CA (its
/// certificate and key as PEM text), valid from `now_secs` for
/// `NODE_CERT_VALIDITY_DAYS` days, named by `node_cert_names`. Gives the
/// certificate, its key and the CA certificate, all as PEM text. Whether
/// rcgen issues it is rcgen's answer.
pub fn sign_node_cert(ca_cert_pem: &str, ca_key_pem: &str, node_id: &str, now_secs: i64) -> (r: Result<
    (String, String, String),
    String,
>)
    requires
        EARLIEST_CERT_SECS <= now_secs <= LATEST_CERT_SECS - NODE_CERT_VALIDITY_DAYS * 86400,
    ensures
        r matches Ok((cert, _, ca)) ==> {
            &&& ca@ == ca_cert_pem@
            &&& x509_not_after(encode_utf8(cert@)) == Some(
                (now_secs + NODE_CERT_VALIDITY_DAYS * 86400) as i64,
            )
            &&& x509_not_before(encode_utf8(cert@)) == Some(now_secs)
            &&& names_cn(cert@, "iris-node-"@ + node_id@)
            &&& never_ip(node_id@) ==> x509_pem_dns_names(encode_utf8(cert@)) == Some(
                seq!["localhost"@, node_id@],
            )
        },
{
    let (ca, ca_key) = match load_ca(ca_cert_pem, ca_key_pem) {
        Ok(p) => p,
        Err(e) => return Err(e),
    };
    let (sans, cn) = node_cert_names(node_id);
    let not_after = now_secs + NODE_CERT_VALIDITY_DAYS * 86400;
    proof {
        reveal_strlit("localhost");
        assert(!ip_text_char("localhost"@[0]));
        assert(never_ip("localhost"@));
    }
    match sign_leaf(&ca, &ca_key, cn.as_str(), &sans, now_secs, not_after) {
        Ok((cert, key)) => Ok((cert, key, String::from_str(ca_cert_pem))),
        Err(e) => Err(e),
    }
}

/// The names a node certificate carries: `localhost` and the node id as
/// alternative names, `iris-node-<id>` as common name.
pub fn node_cert_names(node_id: &str) -> (r: (Vec<String>, String))
    ensures
        r.0.deep_view() == seq!["localhost"@, node_id@],
        r.0@.len() == 2 && r.0@[0]@ == "localhost"@ && r.0@[1]@ == node_id@,
        r.1@ == "iris-node-"@ + node_id@,
{
    let mut san: Vec<String> = Vec::new();
    san.push(String::from_str("localhost"));
    san.push(String::from_str(node_id));
    assert(san.deep_view() =~= seq!["localhost"@, node_id@]);
    let mut cn = chars_of("iris-node-");
    let id = chars_of(node_id);
    push_all(&mut cn, id.as_slice());
    (san, string_of(cn.as_slice()))
}

} // verus!
