//! What a TLS listener needs: certificates, a key and the protocols that it
//! offers.
use super::types::TlsListenConfig;
use crate::buffer::{copy_bytes, same_bytes};
use crate::encoding::bytes_of;
use crate::pem::{self, certs, pkcs8_keys, rsa_keys};
use crate::text::is_empty;
use vstd::prelude::*;
use vstd::utf8::*;

verus! {

/// Why a TLS listener cannot be set up.
#[derive(Clone, Copy, Debug, PartialEq, Eq, Structural)]
pub enum TlsError {
    /// A PEM file is damaged.
    Damaged,
    /// There is no certificate.
    NoCertificates,
    /// There is no private key.
    NoPrivateKey,
}

/// Whether a TLS listener has all that it needs: the paths of the certificates
/// and of the key, and a server.
pub fn tls_listener_ready(tls_cfg: &TlsListenConfig) -> (r: bool)
    ensures
        r == (tls_cfg.tls.cert_path@.len() > 0 && tls_cfg.tls.key_path@.len() > 0
            && tls_cfg.servers@.len() > 0),
{
    if is_empty(tls_cfg.tls.cert_path.as_str()) || is_empty(tls_cfg.tls.key_path.as_str()) {
        return false;
    }
    tls_cfg.servers.len() > 0
}

/// The protocols that a TLS listener offers, the preferred one first.
pub open spec fn offered(http2: bool) -> Seq<Seq<u8>> {
    if http2 {
        seq![encode_utf8("h2"@), encode_utf8("http/1.1"@)]
    } else {
        seq![encode_utf8("http/1.1"@)]
    }
}

/// The protocols that a TLS listener offers, the preferred one first.
pub fn alpn_protocols(http2: bool) -> (r: Vec<Vec<u8>>)
    ensures
        r.deep_view() == offered(http2),
{
    let mut out: Vec<Vec<u8>> = Vec::new();
    if http2 {
        out.push(bytes_of("h2"));
    }
    out.push(bytes_of("http/1.1"));
    assert forall|i: int| 0 <= i < out@.len() implies #[trigger] out.deep_view()[i] == offered(
        http2,
    )[i] by {
        assert(out@[i].deep_view() =~= out@[i]@);
    }
    assert(out.deep_view() =~= offered(http2));
    out
}

/// Whether the client chose HTTP/2.
pub fn chose_http2(alpn: Option<&[u8]>) -> (r: bool)
    ensures
        r == (alpn matches Some(p) && p@ == encode_utf8("h2"@)),
{
    match alpn {
        Some(p) => same_bytes(p, "h2".as_bytes()),
        None => false,
    }
}

/// The certificates that are used, out of what a PEM file was read as.
pub open spec fn used_certs(found: Option<Seq<Seq<u8>>>) -> Result<Seq<Seq<u8>>, TlsError> {
    match found {
        Some(cs) => if cs.len() == 0 {
            Err(TlsError::NoCertificates)
        } else {
            Ok(cs)
        },
        None => Err(TlsError::Damaged),
    }
}

/// The key that is used, out of what a PEM file was read as: the first PKCS #8
/// key, or else the first RSA key.
pub open spec fn used_key(pkcs8: Option<Seq<Seq<u8>>>, rsa: Option<Seq<Seq<u8>>>) -> Result<
    Seq<u8>,
    TlsError,
> {
    match pkcs8 {
        Some(ks) => if ks.len() > 0 {
            Ok(ks[0])
        } else {
            match rsa {
                Some(rs) => if rs.len() > 0 {
                    Ok(rs[0])
                } else {
                    Err(TlsError::NoPrivateKey)
                },
                None => Err(TlsError::Damaged),
            }
        },
        None => Err(TlsError::Damaged),
    }
}

/// A result over views.
pub open spec fn key_view(r: Result<Vec<u8>, TlsError>) -> Result<Seq<u8>, TlsError> {
    match r {
        Ok(k) => Ok(k@),
        Err(e) => Err(e),
    }
}

/// A result over views.
pub open spec fn certs_view(r: Result<Vec<Vec<u8>>, TlsError>) -> Result<Seq<Seq<u8>>, TlsError> {
    match r {
        Ok(k) => Ok(k.deep_view()),
        Err(e) => Err(e),
    }
}

/// Chooses the certificates, out of what a PEM file was read as.
pub fn choose_certs(found: Option<Vec<Vec<u8>>>) -> (r: Result<Vec<Vec<u8>>, TlsError>)
    ensures
        certs_view(r) == used_certs(found.deep_view()),
{
    match found {
        Some(cs) => if cs.len() == 0 {
            Err(TlsError::NoCertificates)
        } else {
            Ok(cs)
        },
        None => Err(TlsError::Damaged),
    }
}

/// The first of some keys.
fn first_key(keys: &Vec<Vec<u8>>) -> (r: Option<Vec<u8>>)
    ensures
        match r {
            Some(k) => keys.deep_view().len() > 0 && k@ == keys.deep_view()[0],
            None => keys.deep_view().len() == 0,
        },
{
    if keys.len() > 0 {
        assert(keys.deep_view()[0] == keys@[0].deep_view());
        assert(keys@[0].deep_view() =~= keys@[0]@);
        Some(copy_bytes(keys[0].as_slice()))
    } else {
        None
    }
}

/// Chooses the key, out of what a PEM file was read as.
pub fn choose_key(pkcs8: &Option<Vec<Vec<u8>>>, rsa: &Option<Vec<Vec<u8>>>) -> (r: Result<
    Vec<u8>,
    TlsError,
>)
    ensures
        key_view(r) == used_key(pkcs8.deep_view(), rsa.deep_view()),
{
    match pkcs8 {
        Some(ks) => match first_key(ks) {
            Some(k) => Ok(k),
            None => match rsa {
                Some(rs) => match first_key(rs) {
                    Some(k) => Ok(k),
                    None => Err(TlsError::NoPrivateKey),
                },
                None => Err(TlsError::Damaged),
            },
        },
        None => Err(TlsError::Damaged),
    }
}

/// The certificates in the bytes of a PEM file.
pub fn load_certs(pem: &[u8]) -> (r: Result<Vec<Vec<u8>>, TlsError>)
    ensures
        certs_view(r) == used_certs(pem::certs_in(pem@)),
{
    choose_certs(certs(pem))
}

/// The private key in the bytes of a PEM file.
pub fn load_private_key(pem: &[u8]) -> (r: Result<Vec<u8>, TlsError>)
    ensures
        key_view(r) == used_key(pem::pkcs8_keys_in(pem@), pem::rsa_keys_in(pem@)),
{
    choose_key(&pkcs8_keys(pem), &rsa_keys(pem))
}

/// HTTP/2 is offered, and preferred, only where it is switched on; HTTP/1.1 always
/// is.
pub proof fn http2_is_offered_where_wanted()
    ensures
        offered(true) == seq![seq![104u8, 50u8]] + offered(false),
        offered(false) == seq![seq![104u8, 116u8, 116u8, 112u8, 47u8, 49u8, 46u8, 49u8]],
{
    reveal_strlit("h2");
    reveal_strlit("http/1.1");
    is_ascii_chars_encode_utf8("h2"@);
    is_ascii_chars_encode_utf8("http/1.1"@);
    assert(encode_utf8("h2"@) =~= seq![104u8, 50u8]);
    assert(encode_utf8("http/1.1"@) =~= seq![104u8, 116u8, 116u8, 112u8, 47u8, 49u8, 46u8, 49u8]);
    assert(offered(true) =~= seq![seq![104u8, 50u8]] + offered(false));
}

/// All certificates of a file are used, in order, and its first key: one of the
/// general form before one for RSA. A file without them, or one that is damaged, is
/// refused.
pub proof fn first_key_is_used(
    certs: Seq<Seq<u8>>,
    key: Seq<u8>,
    more: Seq<Seq<u8>>,
    rsa: Option<Seq<Seq<u8>>>,
)
    ensures
        certs.len() > 0 ==> used_certs(Some(certs)) == Ok::<Seq<Seq<u8>>, TlsError>(certs),
        used_certs(Some(seq![])) == Err::<Seq<Seq<u8>>, TlsError>(TlsError::NoCertificates),
        used_certs(None) == Err::<Seq<Seq<u8>>, TlsError>(TlsError::Damaged),
        used_key(Some(seq![key] + more), rsa) == Ok::<Seq<u8>, TlsError>(key),
        used_key(Some(seq![]), Some(seq![key] + more)) == Ok::<Seq<u8>, TlsError>(key),
        used_key(Some(seq![]), Some(seq![])) == Err::<Seq<u8>, TlsError>(TlsError::NoPrivateKey),
        used_key(Some(seq![]), None) == Err::<Seq<u8>, TlsError>(TlsError::Damaged),
        used_key(None, rsa) == Err::<Seq<u8>, TlsError>(TlsError::Damaged),
{
}

} // verus!
