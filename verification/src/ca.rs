//! Certificate authority state: root material and the leaf cache.
//!
//! The root certificate and key are minted or loaded at the boundary and
//! held here as PEM text, read-only for the process lifetime. Leaf material
//! is minted on demand, per host name, and cached for the process lifetime;
//! a cached host is never minted again.

use vstd::prelude::*;

verus! {

/// Leaf material for one host: the DER chain and the DER private key.
pub struct LeafMaterial {
    pub chain_der: Vec<Vec<u8>>,
    pub key_der: Vec<u8>,
}

/// The certificate authority: root PEM material and the leaf cache.
pub struct CertificateManager {
    pub root_cert_pem: String,
    pub root_key_pem: String,
    pub cache: Vec<(String, LeafMaterial)>,
}

/// Whether the cache holds an entry for a host name.
pub open spec fn cache_has(cache: Seq<(String, LeafMaterial)>, host: Seq<char>) -> bool {
    exists|k: int| 0 <= k < cache.len() && (#[trigger] cache[k]).0@ == host
}

/// Every cached entry carries minted material: a chain of exactly one
/// nonempty DER certificate, and a nonempty DER key.
pub open spec fn cache_wf(cache: Seq<(String, LeafMaterial)>) -> bool {
    forall|k: int|
        0 <= k < cache.len() ==> (#[trigger] cache[k]).1.chain_der@.len() == 1 && cache[
            k
        ].1.chain_der@[0]@.len() > 0 && cache[k].1.key_der@.len() > 0
}

/// The error type rcgen's operations return, carried through to callers.
#[verifier::external_type_specification]
#[verifier::external_body]
pub struct ExRcgenError(rcgen::Error);

/// Relies on rcgen's `Error` `Display` form: its text rendering.
#[verifier::external_body]
fn rcgen_error_string(e: &rcgen::Error) -> (r: String)
    ensures
        true,
{
    e.to_string()
}

/// Relies on rcgen's `KeyPair::generate`, `CertificateParams::self_signed`
/// and the PEM serializers: a fresh self-signed root with the given
/// distinguished name, marked as an unconstrained certificate authority
/// with certificate- and list-signing key usage. A success carries two
/// PEM-armored texts, each beginning with its `-----BEGIN ` line. The key
/// is fresh randomness, so nothing more is promised.
#[verifier::external_body]
fn generate_root_with(cn: &str, org: &str, country: &str) -> (r: Result<
    (String, String),
    rcgen::Error,
>)
    ensures
        r matches Ok(p) ==> p.0@.len() > 11 && p.0@.subrange(0, 11) == "-----BEGIN "@
            && p.1@.len() > 11 && p.1@.subrange(0, 11) == "-----BEGIN "@,
{
    let mut params = rcgen::CertificateParams::default();
    let mut dn = rcgen::DistinguishedName::new();
    dn.push(rcgen::DnType::CommonName, cn);
    dn.push(rcgen::DnType::OrganizationName, org);
    dn.push(rcgen::DnType::CountryName, country);
    params.distinguished_name = dn;
    params.is_ca = rcgen::IsCa::Ca(rcgen::BasicConstraints::Unconstrained);
    params.key_usages = vec![
        rcgen::KeyUsagePurpose::KeyCertSign,
        rcgen::KeyUsagePurpose::CrlSign,
    ];
    let keypair = rcgen::KeyPair::generate()?;
    let cert = params.self_signed(&keypair)?;
    Ok((cert.pem(), keypair.serialize_pem()))
}

/// A fresh self-signed root: common name `Local Logger CA`, organization
/// `Local Logger`, country `US`. A success carries the certificate and the
/// key as nonempty PEM-armored texts, each beginning with its
/// `-----BEGIN ` line.
pub fn generate_root_ca() -> (r: Result<(String, String), String>)
    ensures
        r matches Ok(p) ==> p.0@.len() > 11 && p.0@.subrange(0, 11) == "-----BEGIN "@
            && p.1@.len() > 11 && p.1@.subrange(0, 11) == "-----BEGIN "@,
{
    match generate_root_with("Local Logger CA", "Local Logger", "US") {
        Ok(material) => Ok(material),
        Err(e) => Err(rcgen_error_string(&e)),
    }
}

/// Relies on rcgen's `Issuer::from_ca_cert_pem`, `KeyPair::from_pem`,
/// `CertificateParams::new`, `signed_by` and the DER serializers: a leaf
/// for the host, with the host as common name and as its DNS subject
/// alternative name, a fresh key pair, signed by the root that the PEM
/// material names. A success carries a chain of exactly the one signed
/// certificate in its nonempty DER form, and the nonempty DER private key.
/// The leaf key is fresh randomness, so nothing more is promised.
#[verifier::external_body]
fn mint_leaf_raw(
    root_cert_pem: &String,
    root_key_pem: &String,
    hostname: &String,
) -> (r: Result<LeafMaterial, rcgen::Error>)
    ensures
        r matches Ok(m) ==> m.chain_der@.len() == 1 && m.chain_der@[0]@.len() > 0
            && m.key_der@.len() > 0,
{
    let root_key = rcgen::KeyPair::from_pem(root_key_pem.as_str())?;
    let issuer = rcgen::Issuer::from_ca_cert_pem(root_cert_pem.as_str(), root_key)?;
    let mut params = rcgen::CertificateParams::new(vec![hostname.clone()])?;
    let mut dn = rcgen::DistinguishedName::new();
    dn.push(rcgen::DnType::CommonName, hostname.as_str());
    params.distinguished_name = dn;
    let keypair = rcgen::KeyPair::generate()?;
    let cert = params.signed_by(&keypair, &issuer)?;
    Ok(LeafMaterial { chain_der: vec![cert.der().to_vec()], key_der: keypair.serialize_der() })
}

/// Mint a leaf for a host, signed by the given root material: a chain of
/// exactly one nonempty DER certificate, and a nonempty DER key.
pub fn mint_leaf(
    root_cert_pem: &String,
    root_key_pem: &String,
    hostname: &String,
) -> (r: Result<LeafMaterial, String>)
    ensures
        r matches Ok(m) ==> m.chain_der@.len() == 1 && m.chain_der@[0]@.len() > 0
            && m.key_der@.len() > 0,
{
    match mint_leaf_raw(root_cert_pem, root_key_pem, hostname) {
        Ok(material) => Ok(material),
        Err(e) => Err(rcgen_error_string(&e)),
    }
}

impl CertificateManager {
    /// An authority over loaded or freshly minted root material.
    pub fn from_material(root_cert_pem: String, root_key_pem: String) -> (r: CertificateManager)
        ensures
            r.root_cert_pem@ == root_cert_pem@,
            r.root_key_pem@ == root_key_pem@,
            r.cache@.len() == 0,
            cache_wf(r.cache@),
    {
        CertificateManager { root_cert_pem, root_key_pem, cache: Vec::new() }
    }

    /// The cached entry for a host name, when one was minted before.
    pub fn find_cached(&self, hostname: &String) -> (r: Option<usize>)
        ensures
            (match r {
                Some(idx) => idx < self.cache@.len() && self.cache@[idx as int].0@ == hostname@,
                None => !cache_has(self.cache@, hostname@),
            }),
    {
        let mut k: usize = 0;
        while k < self.cache.len()
            invariant
                k <= self.cache@.len(),
                forall|q: int| 0 <= q < k ==> (#[trigger] self.cache@[q]).0@ != hostname@,
            decreases self.cache@.len() - k,
        {
            if crate::codec::str_eq(self.cache[k].0.as_str(), hostname.as_str()) {
                return Some(k);
            }
            k = k + 1;
        }
        None
    }

    /// Leaf material for a host: the cached material when the host was
    /// minted before — the root stays stable and the cache only grows —
    /// else freshly minted material, cached under the host before return.
    #[verifier::loop_isolation(false)]
    pub fn get_certificate(&mut self, hostname: &String) -> (r: Result<usize, String>)
        requires
            cache_wf(old(self).cache@),
        ensures
            final(self).root_cert_pem@ == old(self).root_cert_pem@,
            final(self).root_key_pem@ == old(self).root_key_pem@,
            cache_wf(final(self).cache@),
            r matches Ok(idx) ==> ({
                let c = final(self).cache@;
                &&& idx < c.len()
                &&& c[idx as int].0@ == hostname@
                &&& c[idx as int].1.chain_der@.len() == 1
                &&& c[idx as int].1.chain_der@[0]@.len() > 0
                &&& c[idx as int].1.key_der@.len() > 0
            }),
            cache_has(old(self).cache@, hostname@) ==> final(self).cache@ == old(self).cache@
                && r is Ok,
            !cache_has(old(self).cache@, hostname@) && r is Ok ==> final(self).cache@.len() == old(
                self,
            ).cache@.len() + 1 && final(self).cache@.take(old(self).cache@.len() as int) == old(
                self,
            ).cache@,
            !cache_has(old(self).cache@, hostname@) && r is Err ==> final(self).cache@ == old(
                self,
            ).cache@,
    {
        let mut k: usize = 0;
        while k < self.cache.len()
            invariant
                k <= self.cache@.len(),
                forall|q: int| 0 <= q < k ==> (#[trigger] self.cache@[q]).0@ != hostname@,
                *self == *old(self),
            decreases self.cache@.len() - k,
        {
            if crate::codec::str_eq(self.cache[k].0.as_str(), hostname.as_str()) {
                return Ok(k);
            }
            k = k + 1;
        }
        proof {
            assert(!cache_has(self.cache@, hostname@));
        }
        match mint_leaf(&self.root_cert_pem, &self.root_key_pem, hostname) {
            Ok(material) => {
                let ghost cache0 = self.cache@;
                let idx = self.cache.len();
                self.cache.push((hostname.clone(), material));
                proof {
                    assert(self.cache@.take(cache0.len() as int) =~= cache0);
                }
                Ok(idx)
            },
            Err(e) => Err(e),
        }
    }
}

} // verus!
