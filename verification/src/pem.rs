//! Certificates and keys in PEM files.
use vstd::prelude::*;

verus! {

/// The certificates in the bytes of a PEM file, or nothing if it is damaged.
pub uninterp spec fn certs_in(pem: Seq<u8>) -> Option<Seq<Seq<u8>>>;

/// The PKCS #8 keys in the bytes of a PEM file, or nothing if it is damaged.
pub uninterp spec fn pkcs8_keys_in(pem: Seq<u8>) -> Option<Seq<Seq<u8>>>;

/// The RSA keys in the bytes of a PEM file, or nothing if it is damaged.
pub uninterp spec fn rsa_keys_in(pem: Seq<u8>) -> Option<Seq<Seq<u8>>>;

/// `rustls_pemfile::certs` gives the certificates of a PEM file in order, and
/// an error if a section of the file cannot be read.
#[verifier::external_body]
pub(crate) fn certs(pem: &[u8]) -> (r: Option<Vec<Vec<u8>>>)
    ensures
        r.deep_view() == certs_in(pem@),
{
    rustls_pemfile::certs(&mut &*pem).ok()
}

/// `rustls_pemfile::pkcs8_private_keys` gives the PKCS #8 keys of a PEM file
/// in order, and an error if a section of the file cannot be read.
#[verifier::external_body]
pub(crate) fn pkcs8_keys(pem: &[u8]) -> (r: Option<Vec<Vec<u8>>>)
    ensures
        r.deep_view() == pkcs8_keys_in(pem@),
{
    rustls_pemfile::pkcs8_private_keys(&mut &*pem).ok()
}

/// `rustls_pemfile::rsa_private_keys` gives the RSA keys of a PEM file in
/// order, and an error if a section of the file cannot be read.
#[verifier::external_body]
pub(crate) fn rsa_keys(pem: &[u8]) -> (r: Option<Vec<Vec<u8>>>)
    ensures
        r.deep_view() == rsa_keys_in(pem@),
{
    rustls_pemfile::rsa_private_keys(&mut &*pem).ok()
}

} // verus!
