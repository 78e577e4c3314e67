//! Settings of the HTTP side.
use super::global;
use crate::text::{copy_str, is_empty};
use vstd::prelude::*;

verus! {

/// Settings of the HTTP side: timeouts, limits and the cache.
#[derive(Debug)]
pub struct HttpConfig {
    pub sendfile: bool,
    pub keepalive_timeout_secs: u64,
    pub access_log: String,
    pub client_read_timeout_secs: u64,
    pub proxy_connect_timeout_secs: u64,
    pub proxy_read_timeout_secs: u64,
    pub proxy_write_timeout_secs: u64,
    pub proxy_pool_max_per_addr: usize,
    pub proxy_pool_idle_timeout_secs: u64,
    pub max_request_headers_bytes: u64,
    pub max_request_body_bytes: u64,
    pub max_upstream_response_headers_bytes: u64,
    pub max_upstream_response_body_bytes: u64,
    /// Directory used for the disk-backed static cache.
    pub cache_dir: Option<String>,
    /// Default time to live, in seconds, of cached static objects.
    pub cache_default_ttl_secs: Option<u32>,
    /// Maximum size in bytes of a cached static object.
    pub cache_max_object_bytes: Option<u64>,
    /// Maximum size in bytes of the whole disk cache.
    pub cache_max_total_bytes: Option<u64>,
    /// Maximum number of objects in the disk cache.
    pub cache_max_entries: Option<usize>,
    /// Seconds after which an unused object leaves the disk cache.
    pub cache_inactive_secs: Option<u64>,
}

/// The same, as texts and numbers.
#[verifier::ext_equal]
pub struct HttpView {
    pub sendfile: bool,
    pub keepalive_timeout_secs: u64,
    pub access_log: Seq<char>,
    pub client_read_timeout_secs: u64,
    pub proxy_connect_timeout_secs: u64,
    pub proxy_read_timeout_secs: u64,
    pub proxy_write_timeout_secs: u64,
    pub proxy_pool_max_per_addr: usize,
    pub proxy_pool_idle_timeout_secs: u64,
    pub max_request_headers_bytes: u64,
    pub max_request_body_bytes: u64,
    pub max_upstream_response_headers_bytes: u64,
    pub max_upstream_response_body_bytes: u64,
    pub cache_dir: Option<Seq<char>>,
    pub cache_default_ttl_secs: Option<u32>,
    pub cache_max_object_bytes: Option<u64>,
    pub cache_max_total_bytes: Option<u64>,
    pub cache_max_entries: Option<usize>,
    pub cache_inactive_secs: Option<u64>,
}

impl DeepView for HttpConfig {
    type V = HttpView;

    open spec fn deep_view(&self) -> HttpView {
        HttpView {
            sendfile: self.sendfile,
            keepalive_timeout_secs: self.keepalive_timeout_secs,
            access_log: self.access_log@,
            client_read_timeout_secs: self.client_read_timeout_secs,
            proxy_connect_timeout_secs: self.proxy_connect_timeout_secs,
            proxy_read_timeout_secs: self.proxy_read_timeout_secs,
            proxy_write_timeout_secs: self.proxy_write_timeout_secs,
            proxy_pool_max_per_addr: self.proxy_pool_max_per_addr,
            proxy_pool_idle_timeout_secs: self.proxy_pool_idle_timeout_secs,
            max_request_headers_bytes: self.max_request_headers_bytes,
            max_request_body_bytes: self.max_request_body_bytes,
            max_upstream_response_headers_bytes: self.max_upstream_response_headers_bytes,
            max_upstream_response_body_bytes: self.max_upstream_response_body_bytes,
            cache_dir: self.cache_dir.deep_view(),
            cache_default_ttl_secs: self.cache_default_ttl_secs,
            cache_max_object_bytes: self.cache_max_object_bytes,
            cache_max_total_bytes: self.cache_max_total_bytes,
            cache_max_entries: self.cache_max_entries,
            cache_inactive_secs: self.cache_inactive_secs,
        }
    }
}

/// The default HTTP settings.
pub open spec fn default_http() -> HttpView {
    HttpView {
        sendfile: true,
        keepalive_timeout_secs: 65,
        access_log: "/var/log/migux/access.log"@,
        client_read_timeout_secs: 15,
        proxy_connect_timeout_secs: 5,
        proxy_read_timeout_secs: 30,
        proxy_write_timeout_secs: 30,
        proxy_pool_max_per_addr: 32,
        proxy_pool_idle_timeout_secs: 60,
        max_request_headers_bytes: 65536,
        max_request_body_bytes: 10485760,
        max_upstream_response_headers_bytes: 65536,
        max_upstream_response_body_bytes: 10485760,
        cache_dir: None,
        cache_default_ttl_secs: None,
        cache_max_object_bytes: None,
        cache_max_total_bytes: None,
        cache_max_entries: None,
        cache_inactive_secs: None,
    }
}

/// HTTP settings with what is missing taken from others.
pub open spec fn http_with_defaults(v: HttpView, d: HttpView) -> HttpView {
    HttpView {
        keepalive_timeout_secs: if v.keepalive_timeout_secs == 0 {
            d.keepalive_timeout_secs
        } else {
            v.keepalive_timeout_secs
        },
        access_log: global::or_text(v.access_log, d.access_log),
        client_read_timeout_secs: if v.client_read_timeout_secs == 0 {
            d.client_read_timeout_secs
        } else {
            v.client_read_timeout_secs
        },
        proxy_connect_timeout_secs: if v.proxy_connect_timeout_secs == 0 {
            d.proxy_connect_timeout_secs
        } else {
            v.proxy_connect_timeout_secs
        },
        proxy_read_timeout_secs: if v.proxy_read_timeout_secs == 0 {
            d.proxy_read_timeout_secs
        } else {
            v.proxy_read_timeout_secs
        },
        proxy_write_timeout_secs: if v.proxy_write_timeout_secs == 0 {
            d.proxy_write_timeout_secs
        } else {
            v.proxy_write_timeout_secs
        },
        proxy_pool_max_per_addr: if v.proxy_pool_max_per_addr == 0 {
            d.proxy_pool_max_per_addr
        } else {
            v.proxy_pool_max_per_addr
        },
        proxy_pool_idle_timeout_secs: if v.proxy_pool_idle_timeout_secs == 0 {
            d.proxy_pool_idle_timeout_secs
        } else {
            v.proxy_pool_idle_timeout_secs
        },
        max_request_headers_bytes: if v.max_request_headers_bytes == 0 {
            d.max_request_headers_bytes
        } else {
            v.max_request_headers_bytes
        },
        max_request_body_bytes: if v.max_request_body_bytes == 0 {
            d.max_request_body_bytes
        } else {
            v.max_request_body_bytes
        },
        max_upstream_response_headers_bytes: if v.max_upstream_response_headers_bytes == 0 {
            d.max_upstream_response_headers_bytes
        } else {
            v.max_upstream_response_headers_bytes
        },
        max_upstream_response_body_bytes: if v.max_upstream_response_body_bytes == 0 {
            d.max_upstream_response_body_bytes
        } else {
            v.max_upstream_response_body_bytes
        },
        ..v
    }
}

/// HTTP settings in which a cache directory brings the settings that go with
/// it.
pub open spec fn http_with_cache_defaults(v: HttpView) -> HttpView {
    HttpView {
        cache_default_ttl_secs: if v.cache_dir is Some && v.cache_default_ttl_secs is None {
            Some(30)
        } else {
            v.cache_default_ttl_secs
        },
        cache_max_object_bytes: if v.cache_dir is Some && v.cache_max_object_bytes is None {
            Some(1_048_576)
        } else {
            v.cache_max_object_bytes
        },
        ..v
    }
}

impl Default for HttpConfig {
    fn default() -> (r: Self)
        ensures
            r.deep_view() == default_http(),
    {
        HttpConfig {
            sendfile: true,
            keepalive_timeout_secs: 65,
            access_log: copy_str("/var/log/migux/access.log"),
            client_read_timeout_secs: 15,
            proxy_connect_timeout_secs: 5,
            proxy_read_timeout_secs: 30,
            proxy_write_timeout_secs: 30,
            proxy_pool_max_per_addr: 32,
            proxy_pool_idle_timeout_secs: 60,
            max_request_headers_bytes: 65536,
            max_request_body_bytes: 10485760,
            max_upstream_response_headers_bytes: 65536,
            max_upstream_response_body_bytes: 10485760,
            cache_dir: None,
            cache_default_ttl_secs: None,
            cache_max_object_bytes: None,
            cache_max_total_bytes: None,
            cache_max_entries: None,
            cache_inactive_secs: None,
        }
    }
}

impl HttpConfig {
    /// Whether files are sent by the kernel.
    pub fn sendfile(&self) -> (r: bool)
        ensures
            r == self.sendfile,
    {
        self.sendfile
    }

    /// How long a connection may be idle between requests.
    pub fn keepalive_timeout_secs(&self) -> (r: u64)
        ensures
            r == self.keepalive_timeout_secs,
    {
        self.keepalive_timeout_secs
    }

    /// The path of the access log.
    pub fn access_log(&self) -> (r: &str)
        ensures
            r@ == self.access_log@,
    {
        self.access_log.as_str()
    }

    /// How long to wait for bytes of a client.
    pub fn client_read_timeout_secs(&self) -> (r: u64)
        ensures
            r == self.client_read_timeout_secs,
    {
        self.client_read_timeout_secs
    }

    /// How long to wait for a connection to an upstream.
    pub fn proxy_connect_timeout_secs(&self) -> (r: u64)
        ensures
            r == self.proxy_connect_timeout_secs,
    {
        self.proxy_connect_timeout_secs
    }

    /// How long to wait for bytes of an upstream.
    pub fn proxy_read_timeout_secs(&self) -> (r: u64)
        ensures
            r == self.proxy_read_timeout_secs,
    {
        self.proxy_read_timeout_secs
    }

    /// How long to wait for an upstream to take bytes.
    pub fn proxy_write_timeout_secs(&self) -> (r: u64)
        ensures
            r == self.proxy_write_timeout_secs,
    {
        self.proxy_write_timeout_secs
    }

    /// How many idle connections are kept for one upstream address.
    pub fn proxy_pool_max_per_addr(&self) -> (r: usize)
        ensures
            r == self.proxy_pool_max_per_addr,
    {
        self.proxy_pool_max_per_addr
    }

    /// How long an idle upstream connection is kept.
    pub fn proxy_pool_idle_timeout_secs(&self) -> (r: u64)
        ensures
            r == self.proxy_pool_idle_timeout_secs,
    {
        self.proxy_pool_idle_timeout_secs
    }

    /// The limit on the head of a request.
    pub fn max_request_headers_bytes(&self) -> (r: u64)
        ensures
            r == self.max_request_headers_bytes,
    {
        self.max_request_headers_bytes
    }

    /// The limit on the body of a request.
    pub fn max_request_body_bytes(&self) -> (r: u64)
        ensures
            r == self.max_request_body_bytes,
    {
        self.max_request_body_bytes
    }

    /// The limit on the head of an upstream response.
    pub fn max_upstream_response_headers_bytes(&self) -> (r: u64)
        ensures
            r == self.max_upstream_response_headers_bytes,
    {
        self.max_upstream_response_headers_bytes
    }

    /// The limit on the body of an upstream response.
    pub fn max_upstream_response_body_bytes(&self) -> (r: u64)
        ensures
            r == self.max_upstream_response_body_bytes,
    {
        self.max_upstream_response_body_bytes
    }

    /// The directory of the disk cache.
    pub fn cache_dir(&self) -> (r: Option<&str>)
        ensures
            r.deep_view() == self.cache_dir.deep_view(),
    {
        match &self.cache_dir {
            Some(s) => Some(s.as_str()),
            None => None,
        }
    }

    /// The time to live of cached objects.
    pub fn cache_default_ttl_secs(&self) -> (r: Option<u32>)
        ensures
            r == self.cache_default_ttl_secs,
    {
        self.cache_default_ttl_secs
    }

    /// The limit on a cached object.
    pub fn cache_max_object_bytes(&self) -> (r: Option<u64>)
        ensures
            r == self.cache_max_object_bytes,
    {
        self.cache_max_object_bytes
    }

    /// The limit on the whole disk cache.
    pub fn cache_max_total_bytes(&self) -> (r: Option<u64>)
        ensures
            r == self.cache_max_total_bytes,
    {
        self.cache_max_total_bytes
    }

    /// The limit on the number of cached objects.
    pub fn cache_max_entries(&self) -> (r: Option<usize>)
        ensures
            r == self.cache_max_entries,
    {
        self.cache_max_entries
    }

    /// After how long an unused object leaves the disk cache.
    pub fn cache_inactive_secs(&self) -> (r: Option<u64>)
        ensures
            r == self.cache_inactive_secs,
    {
        self.cache_inactive_secs
    }

    /// Fills in the cache settings that a cache directory brings with it.
    pub fn apply_cache_defaults(&mut self)
        ensures
            final(self).deep_view() == http_with_cache_defaults(old(self).deep_view()),
    {
        if self.cache_dir.is_some() {
            if self.cache_default_ttl_secs.is_none() {
                self.cache_default_ttl_secs = Some(30);
            }
            if self.cache_max_object_bytes.is_none() {
                self.cache_max_object_bytes = Some(1_048_576);
            }
        }
    }

    /// Takes what is missing from other settings.
    pub fn apply_defaults_from(&mut self, defaults: &HttpConfig)
        ensures
            final(self).deep_view() == http_with_defaults(
                old(self).deep_view(),
                defaults.deep_view(),
            ),
    {
        if is_empty(self.access_log.as_str()) {
            self.access_log = defaults.access_log.clone();
        }
        if self.keepalive_timeout_secs == 0 {
            self.keepalive_timeout_secs = defaults.keepalive_timeout_secs;
        }
        if self.client_read_timeout_secs == 0 {
            self.client_read_timeout_secs = defaults.client_read_timeout_secs;
        }
        if self.proxy_connect_timeout_secs == 0 {
            self.proxy_connect_timeout_secs = defaults.proxy_connect_timeout_secs;
        }
        if self.proxy_read_timeout_secs == 0 {
            self.proxy_read_timeout_secs = defaults.proxy_read_timeout_secs;
        }
        if self.proxy_write_timeout_secs == 0 {
            self.proxy_write_timeout_secs = defaults.proxy_write_timeout_secs;
        }
        if self.proxy_pool_max_per_addr == 0 {
            self.proxy_pool_max_per_addr = defaults.proxy_pool_max_per_addr;
        }
        if self.proxy_pool_idle_timeout_secs == 0 {
            self.proxy_pool_idle_timeout_secs = defaults.proxy_pool_idle_timeout_secs;
        }
        if self.max_request_headers_bytes == 0 {
            self.max_request_headers_bytes = defaults.max_request_headers_bytes;
        }
        if self.max_request_body_bytes == 0 {
            self.max_request_body_bytes = defaults.max_request_body_bytes;
        }
        if self.max_upstream_response_headers_bytes == 0 {
            self.max_upstream_response_headers_bytes = defaults.max_upstream_response_headers_bytes;
        }
        if self.max_upstream_response_body_bytes == 0 {
            self.max_upstream_response_body_bytes = defaults.max_upstream_response_body_bytes;
        }
    }
}

} // verus!
