//! Settings of one upstream.
use super::location::copy_option;
use crate::text::copy_str;
use vstd::prelude::*;

verus! {

/// The servers of an upstream, as they are written down.
#[derive(Debug)]
pub enum UpstreamServers {
    One(String),
    Many(Vec<String>),
}

/// The same, as texts.
#[verifier::ext_equal]
pub enum ServersView {
    One(Seq<char>),
    Many(Seq<Seq<char>>),
}

impl DeepView for UpstreamServers {
    type V = ServersView;

    open spec fn deep_view(&self) -> ServersView {
        match self {
            UpstreamServers::One(s) => ServersView::One(s@),
            UpstreamServers::Many(l) => ServersView::Many(l.deep_view()),
        }
    }
}

/// A copy of a list of strings.
pub fn copy_strings(l: &Vec<String>) -> (r: Vec<String>)
    ensures
        r.deep_view() == l.deep_view(),
        r@ == l@,
{
    let mut out: Vec<String> = Vec::new();
    for i in 0..l.len()
        invariant
            out@ == l@.take(i as int),
    {
        out.push(l[i].clone());
    }
    assert(out@ =~= l@);
    out
}

impl Clone for UpstreamServers {
    fn clone(&self) -> (r: Self)
        ensures
            r.deep_view() == self.deep_view(),
    {
        match self {
            UpstreamServers::One(s) => UpstreamServers::One(s.clone()),
            UpstreamServers::Many(l) => UpstreamServers::Many(copy_strings(l)),
        }
    }
}

/// When an upstream address counts as down, and how it is checked.
#[derive(Clone, Copy, Debug, PartialEq, Eq, Structural)]
pub struct UpstreamHealthConfig {
    /// Failures before an address is marked down.
    pub fail_threshold: u32,
    /// Seconds before a down address is tried again.
    pub cooldown_secs: u64,
    /// Whether addresses are checked by connecting to them.
    pub active: bool,
    /// Seconds between such checks.
    pub interval_secs: u64,
    /// Seconds after which such a check has failed.
    pub timeout_secs: u64,
}

impl Default for UpstreamHealthConfig {
    fn default() -> (r: Self)
        ensures
            r == (UpstreamHealthConfig {
                fail_threshold: 1,
                cooldown_secs: 10,
                active: false,
                interval_secs: 10,
                timeout_secs: 1,
            }),
    {
        UpstreamHealthConfig {
            fail_threshold: 1,
            cooldown_secs: 10,
            active: false,
            interval_secs: 10,
            timeout_secs: 1,
        }
    }
}

impl UpstreamHealthConfig {
    /// Failures before an address is marked down.
    pub fn fail_threshold(&self) -> (r: u32)
        ensures
            r == self.fail_threshold,
    {
        self.fail_threshold
    }

    /// Seconds before a down address is tried again.
    pub fn cooldown_secs(&self) -> (r: u64)
        ensures
            r == self.cooldown_secs,
    {
        self.cooldown_secs
    }

    /// Whether addresses are checked by connecting to them.
    pub fn active(&self) -> (r: bool)
        ensures
            r == self.active,
    {
        self.active
    }

    /// Seconds between such checks.
    pub fn interval_secs(&self) -> (r: u64)
        ensures
            r == self.interval_secs,
    {
        self.interval_secs
    }

    /// Seconds after which such a check has failed.
    pub fn timeout_secs(&self) -> (r: u64)
        ensures
            r == self.timeout_secs,
    {
        self.timeout_secs
    }
}

/// Settings of one upstream.
#[derive(Debug)]
pub struct UpstreamConfig {
    pub server: UpstreamServers,
    pub strategy: Option<String>,
    pub health: UpstreamHealthConfig,
}

/// The same, as texts and numbers.
#[verifier::ext_equal]
pub struct UpstreamView {
    pub server: ServersView,
    pub strategy: Option<Seq<char>>,
    pub health: UpstreamHealthConfig,
}

impl DeepView for UpstreamConfig {
    type V = UpstreamView;

    open spec fn deep_view(&self) -> UpstreamView {
        UpstreamView {
            server: self.server.deep_view(),
            strategy: self.strategy.deep_view(),
            health: self.health,
        }
    }
}

impl Default for UpstreamConfig {
    fn default() -> (r: Self)
        ensures
            r.deep_view() == (UpstreamView {
                server: ServersView::One(Seq::empty()),
                strategy: Some("round_robin"@),
                health: UpstreamHealthConfig {
                    fail_threshold: 1,
                    cooldown_secs: 10,
                    active: false,
                    interval_secs: 10,
                    timeout_secs: 1,
                },
            }),
    {
        let r = UpstreamConfig {
            server: UpstreamServers::One(String::new()),
            strategy: Some(copy_str("round_robin")),
            health: UpstreamHealthConfig::default(),
        };
        assert(r.server.deep_view()->One_0 =~= Seq::<char>::empty());
        r
    }
}

impl Clone for UpstreamConfig {
    fn clone(&self) -> (r: Self)
        ensures
            r.deep_view() == self.deep_view(),
    {
        UpstreamConfig {
            server: self.server.clone(),
            strategy: copy_option(&self.strategy),
            health: self.health,
        }
    }
}

impl UpstreamConfig {
    /// The servers of the upstream.
    pub fn server(&self) -> (r: &UpstreamServers)
        ensures
            *r == self.server,
    {
        &self.server
    }

    /// How a server is chosen.
    pub fn strategy(&self) -> (r: Option<&str>)
        ensures
            r.deep_view() == self.strategy.deep_view(),
    {
        match &self.strategy {
            Some(s) => Some(s.as_str()),
            None => None,
        }
    }

    /// When an address counts as down.
    pub fn health(&self) -> (r: &UpstreamHealthConfig)
        ensures
            *r == self.health,
    {
        &self.health
    }
}

} // verus!
