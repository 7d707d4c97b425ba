//! Certificates and private keys.

use vstd::prelude::*;
use vstd::string::*;
use rustls::RootCertStore as TrustedRoots;
use rustls_pemfile::Item;
use crate::error::{CertError, LoadCertError};

verus! {

/// What a section of a PEM file is.
#[derive(Clone, Copy, Debug, PartialEq, Eq, Structural)]
pub enum PemKind {
    X509Certificate,
    Pkcs1Key,
    Pkcs8Key,
    Sec1Key,
    Other,
}

/// A section of a PEM file. Of a section that is neither a certificate nor a
/// key the data is left out.
#[derive(Debug)]
pub struct PemItem {
    pub kind: PemKind,
    pub der: Vec<u8>,
}

/// The first section of a PEM file: its kind and its data, nothing if there is
/// none, or why it cannot be read.
pub uninterp spec fn pem_first_item(pem: Seq<u8>) -> Result<Option<(PemKind, Seq<u8>)>, Seq<char>>;

/// `rustls_pemfile::read_one` on bytes in memory: what it finds is a function of
/// the bytes.
#[verifier::external_body]
fn read_one(pem: &[u8]) -> (r: Result<Option<PemItem>, String>)
    ensures
        match r {
            Ok(Some(item)) => pem_first_item(pem@) == Ok::<_, Seq<char>>(
                Some((item.kind, item.der@)),
            ),
            Ok(None) => pem_first_item(pem@) == Ok::<_, Seq<char>>(None::<(PemKind, Seq<u8>)>),
            Err(text) => pem_first_item(pem@) == Err::<Option<(PemKind, Seq<u8>)>, _>(text@),
        },
{
    let mut rd = pem;
    let item = rustls_pemfile::read_one(&mut rd).map_err(|err| err.to_string())?;
    let (kind, der) = match item {
        None => return Ok(None),
        Some(Item::X509Certificate(der)) => (PemKind::X509Certificate, der.to_vec()),
        Some(Item::Pkcs1Key(der)) => (PemKind::Pkcs1Key, der.secret_pkcs1_der().to_vec()),
        Some(Item::Pkcs8Key(der)) => (PemKind::Pkcs8Key, der.secret_pkcs8_der().to_vec()),
        Some(Item::Sec1Key(der)) => (PemKind::Sec1Key, der.secret_sec1_der().to_vec()),
        Some(_) => (PemKind::Other, Vec::new()),
    };
    Ok(Some(PemItem { kind, der }))
}

/// A certificate.
#[derive(Debug)]
pub struct Certificate {
    pub der: Vec<u8>,
}

/// A private key, by the format it is in.
#[derive(Debug)]
pub struct PrivateKey {
    pub kind: PemKind,
    pub der: Vec<u8>,
}

pub open spec fn is_key(kind: PemKind) -> bool {
    kind == PemKind::Pkcs1Key || kind == PemKind::Pkcs8Key || kind == PemKind::Sec1Key
}

impl Certificate {
    /// The certificate that a PEM section is, if it is one.
    pub fn from_item(item: Option<PemItem>) -> (r: Result<Self, LoadCertError>)
        ensures
            match r {
                Ok(certificate) => item matches Some(item) && item.kind
                    == PemKind::X509Certificate && certificate.der@ == item.der@,
                Err(error) => {
                    &&& !(item matches Some(item) && item.kind == PemKind::X509Certificate)
                    &&& error matches LoadCertError::Cert(error) && error.0@
                        == "Invalid certificate"@
                },
            },
    {
        match item {
            Some(item) if item.kind == PemKind::X509Certificate => Ok(
                Certificate { der: item.der },
            ),
            _ => Err(LoadCertError::Cert(CertError("Invalid certificate".to_owned()))),
        }
    }

    /// The certificate that a PEM file starts with.
    pub fn load_pem(pem: &[u8]) -> (r: Result<Self, LoadCertError>)
        ensures
            match r {
                Ok(certificate) => pem_first_item(pem@) == Ok::<_, Seq<char>>(
                    Some((PemKind::X509Certificate, certificate.der@)),
                ),
                Err(LoadCertError::Io(text)) => pem_first_item(pem@) == Err::<
                    Option<(PemKind, Seq<u8>)>,
                    _,
                >(text@),
                Err(LoadCertError::Cert(error)) => {
                    &&& pem_first_item(pem@) is Ok
                    &&& !(pem_first_item(pem@)->Ok_0 matches Some((kind, _)) && kind
                        == PemKind::X509Certificate)
                    &&& error.0@ == "Invalid certificate"@
                },
            },
    {
        match read_one(pem) {
            Err(text) => Err(LoadCertError::Io(text)),
            Ok(item) => Self::from_item(item),
        }
    }

    pub fn to_vec(&self) -> (r: Vec<u8>)
        ensures
            r@ == self.der@,
    {
        let mut r: Vec<u8> = Vec::new();
        r.extend_from_slice(self.der.as_slice());
        assert(r@ =~= self.der@);
        r
    }
}

impl PrivateKey {
    /// The private key that a PEM section is, if it is one.
    pub fn from_item(item: Option<PemItem>) -> (r: Result<Self, LoadCertError>)
        ensures
            match r {
                Ok(key) => item matches Some(item) && is_key(item.kind) && key.kind == item.kind
                    && key.der@ == item.der@,
                Err(error) => {
                    &&& !(item matches Some(item) && is_key(item.kind))
                    &&& error matches LoadCertError::Cert(error) && error.0@ == "Invalid key"@
                },
            },
    {
        if let Some(item) = item {
            match item.kind {
                PemKind::Pkcs1Key | PemKind::Pkcs8Key | PemKind::Sec1Key => {
                    return Ok(PrivateKey { kind: item.kind, der: item.der });
                },
                _ => {},
            }
        }
        Err(LoadCertError::Cert(CertError("Invalid key".to_owned())))
    }

    /// The private key that a PEM file starts with.
    pub fn load_pem(pem: &[u8]) -> (r: Result<Self, LoadCertError>)
        ensures
            match r {
                Ok(key) => is_key(key.kind) && pem_first_item(pem@) == Ok::<_, Seq<char>>(
                    Some((key.kind, key.der@)),
                ),
                Err(LoadCertError::Io(text)) => pem_first_item(pem@) == Err::<
                    Option<(PemKind, Seq<u8>)>,
                    _,
                >(text@),
                Err(LoadCertError::Cert(error)) => {
                    &&& pem_first_item(pem@) is Ok
                    &&& !(pem_first_item(pem@)->Ok_0 matches Some((kind, _)) && is_key(kind))
                    &&& error.0@ == "Invalid key"@
                },
            },
    {
        match read_one(pem) {
            Err(text) => Err(LoadCertError::Io(text)),
            Ok(item) => Self::from_item(item),
        }
    }
}

/// `rustls::RootCertStore`, a set of trusted certificates.
#[verifier::external_type_specification]
#[verifier::external_body]
pub struct ExTrustedRoots(TrustedRoots);

/// The certificates that a `rustls::RootCertStore` was given, in order.
pub uninterp spec fn store_certs(store: TrustedRoots) -> Seq<Seq<u8>>;

/// Whether a certificate can be a trusted one, or why not.
pub uninterp spec fn trust_anchor(der: Seq<u8>) -> Result<(), Seq<char>>;

/// `rustls::RootCertStore::empty`.
#[verifier::external_body]
fn empty_store() -> (store: TrustedRoots)
    ensures
        store_certs(store) == Seq::<Seq<u8>>::empty(),
{
    TrustedRoots::empty()
}

/// `rustls::RootCertStore::len`: one root per certificate.
#[verifier::external_body]
fn store_len(store: &TrustedRoots) -> (n: usize)
    ensures
        n == store_certs(*store).len(),
{
    store.len()
}

/// `rustls::RootCertStore::add`: a certificate that can be trusted is added;
/// another one leaves the store as it was. Which it is, and the text of the
/// error, is a function of the certificate.
#[verifier::external_body]
fn store_add(store: &mut TrustedRoots, der: &[u8]) -> (r: Result<(), String>)
    ensures
        match r {
            Ok(_) => trust_anchor(der@) is Ok && store_certs(*final(store)) == store_certs(
                *old(store),
            ).push(der@),
            Err(text) => trust_anchor(der@) == Err::<(), _>(text@) && store_certs(*final(store))
                == store_certs(*old(store)),
        },
{
    store.add(der.into()).map_err(|err| err.to_string())
}

/// The certificates that a client trusts.
#[derive(Debug)]
pub struct RootCertStore {
    pub store: TrustedRoots,
}

impl View for RootCertStore {
    type V = Seq<Seq<u8>>;

    open spec fn view(&self) -> Seq<Seq<u8>> {
        store_certs(self.store)
    }
}

impl RootCertStore {
    pub fn empty() -> (r: Self)
        ensures
            r@ == Seq::<Seq<u8>>::empty(),
    {
        RootCertStore { store: empty_store() }
    }

    pub fn with_single_cert(certificate: &Certificate) -> (r: Result<Self, CertError>)
        ensures
            match r {
                Ok(certs) => trust_anchor(certificate.der@) is Ok && certs@ == seq![
                    certificate.der@,
                ],
                Err(error) => trust_anchor(certificate.der@) == Err::<(), _>(error.0@),
            },
    {
        let mut certs = Self::empty();
        match certs.add(certificate) {
            Err(error) => Err(error),
            Ok(_) => {
                assert(certs@ =~= seq![certificate.der@]);
                Ok(certs)
            },
        }
    }

    pub fn is_empty(&self) -> (r: bool)
        ensures
            r == (self@.len() == 0),
    {
        self.len() == 0
    }

    pub fn len(&self) -> (r: usize)
        ensures
            r == self@.len(),
    {
        store_len(&self.store)
    }

    pub fn add(&mut self, certificate: &Certificate) -> (r: Result<(), CertError>)
        ensures
            match r {
                Ok(_) => trust_anchor(certificate.der@) is Ok && final(self)@ == old(self)@.push(
                    certificate.der@,
                ),
                Err(error) => trust_anchor(certificate.der@) == Err::<(), _>(error.0@)
                    && final(self)@ == old(self)@,
            },
    {
        match store_add(&mut self.store, certificate.der.as_slice()) {
            Ok(_) => Ok(()),
            Err(text) => Err(CertError(text)),
        }
    }
}

/// The sections that are keys: all but certificates and those of other kinds.
pub proof fn lemma_which_sections_are_keys(kind: PemKind)
    ensures
        is_key(kind) <==> !(kind is X509Certificate) && !(kind is Other),
{
}

} // verus!
