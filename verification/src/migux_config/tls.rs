//! TLS settings of a server.
use vstd::prelude::*;

verus! {

/// TLS listener configuration of a server.
#[derive(Debug)]
pub struct TlsConfig {
    /// Listen address (host:port).
    pub listen: String,
    /// Path to the PEM-encoded certificate chain.
    pub cert_path: String,
    /// Path to the PEM-encoded private key.
    pub key_path: String,
    /// Redirect HTTP to HTTPS for this server.
    pub redirect_http: bool,
    /// Offer HTTP/2 on this listener.
    pub http2: bool,
    /// Seconds for which clients remember to use HTTPS.
    pub hsts_max_age_secs: Option<u64>,
    /// Whether that holds of subdomains too.
    pub hsts_include_subdomains: Option<bool>,
}

/// The same, as texts and numbers.
#[verifier::ext_equal]
pub struct TlsView {
    pub listen: Seq<char>,
    pub cert_path: Seq<char>,
    pub key_path: Seq<char>,
    pub redirect_http: bool,
    pub http2: bool,
    pub hsts_max_age_secs: Option<u64>,
    pub hsts_include_subdomains: Option<bool>,
}

impl DeepView for TlsConfig {
    type V = TlsView;

    open spec fn deep_view(&self) -> TlsView {
        TlsView {
            listen: self.listen@,
            cert_path: self.cert_path@,
            key_path: self.key_path@,
            redirect_http: self.redirect_http,
            http2: self.http2,
            hsts_max_age_secs: self.hsts_max_age_secs,
            hsts_include_subdomains: self.hsts_include_subdomains,
        }
    }
}

impl Clone for TlsConfig {
    fn clone(&self) -> (r: Self)
        ensures
            r == *self,
    {
        TlsConfig {
            listen: self.listen.clone(),
            cert_path: self.cert_path.clone(),
            key_path: self.key_path.clone(),
            redirect_http: self.redirect_http,
            http2: self.http2,
            hsts_max_age_secs: self.hsts_max_age_secs,
            hsts_include_subdomains: self.hsts_include_subdomains,
        }
    }
}

impl TlsConfig {
    /// The listen address.
    pub fn listen(&self) -> (r: &str)
        ensures
            r@ == self.listen@,
    {
        self.listen.as_str()
    }

    /// The path of the certificate chain.
    pub fn cert_path(&self) -> (r: &str)
        ensures
            r@ == self.cert_path@,
    {
        self.cert_path.as_str()
    }

    /// The path of the private key.
    pub fn key_path(&self) -> (r: &str)
        ensures
            r@ == self.key_path@,
    {
        self.key_path.as_str()
    }

    /// Whether HTTP is redirected to HTTPS.
    pub fn redirect_http(&self) -> (r: bool)
        ensures
            r == self.redirect_http,
    {
        self.redirect_http
    }

    /// Whether HTTP/2 is offered.
    pub fn http2(&self) -> (r: bool)
        ensures
            r == self.http2,
    {
        self.http2
    }
}

} // verus!
