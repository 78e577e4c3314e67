//! Serving a request by an upstream: what is sent, to whom, and what is tried
//! next when something fails.
use super::headers::{self, rewrite_proxy_headers};
use super::path::{self, strip_prefix_path};
use super::upstream::{self, choose_upstream_addr, choose_upstream_addrs_rr_order};
use super::Proxy;
use crate::buffer::push_bytes;
use crate::encoding::bytes_of;
use crate::headers::{self as head_fields, head_lines, word_string};
use crate::migux_config::location::{LocationConfig, LocationView};
use crate::migux_config::migux::{ConfigView, MiguxConfig};
use crate::migux_http::responses::Refusal;
use crate::named;
use crate::shared_map;
use crate::text::{self, chars_of, copy_str, push_chars, same_str, split_words};
use crate::written;
use vstd::prelude::*;
use vstd::utf8::*;

verus! {

// ---------------------------------------------------------------------------
// The plan
// ---------------------------------------------------------------------------

/// Why a location cannot be served by an upstream.
#[derive(Debug)]
pub enum ProxyError {
    /// The location names no upstream.
    MissingUpstream,
    /// There is no upstream of that name.
    UnknownUpstream(String),
    /// The upstream has no servers.
    NoServers,
}

/// How a request is served.
#[derive(Debug)]
pub enum ServePlan {
    /// Send the bytes to the first of the addresses that takes them and
    /// answers.
    Forward { addrs: Vec<String>, request: Vec<u8>, method: String },
    /// Answer with the refusal.
    Refuse(Refusal),
}

/// A plan, or why there is none, as texts and bytes.
#[verifier::ext_equal]
pub enum PlanView {
    Forward { addrs: Seq<Seq<char>>, request: Seq<u8>, method: Seq<char> },
    Refuse(Refusal),
    MissingUpstream,
    UnknownUpstream(Seq<char>),
    NoServers,
}

/// What a planning function returned.
pub open spec fn plan_view(r: Result<ServePlan, ProxyError>) -> PlanView {
    match r {
        Ok(ServePlan::Forward { addrs, request, method }) => PlanView::Forward {
            addrs: addrs.deep_view(),
            request: request@,
            method: method@,
        },
        Ok(ServePlan::Refuse(k)) => PlanView::Refuse(k),
        Err(ProxyError::MissingUpstream) => PlanView::MissingUpstream,
        Err(ProxyError::UnknownUpstream(n)) => PlanView::UnknownUpstream(n@),
        Err(ProxyError::NoServers) => PlanView::NoServers,
    }
}

/// The `i`-th word of the request line, or what stands for it.
pub open spec fn request_word(head: Seq<char>, i: int, default: Seq<char>) -> Seq<char> {
    head_fields::word_or(head_fields::start_line(head), i, default)
}

/// The request line that an upstream gets.
pub open spec fn upstream_line(head: Seq<char>, path: Seq<char>, location: Seq<char>) -> Seq<char> {
    request_word(head, 0, "GET"@) + " "@ + path::stripped(path, location) + " "@ + request_word(
        head,
        2,
        "HTTP/1.1"@,
    ) + "\r\n"@
}

/// Whether the upstream is asked to keep the connection open.
pub open spec fn asks_keep_alive(head: Seq<char>, pooled: bool) -> bool {
    pooled && request_word(head, 2, "HTTP/1.1"@) != "HTTP/1.0"@
}

/// The bytes that an upstream gets.
pub open spec fn upstream_request(
    head: Seq<char>,
    path: Seq<char>,
    location: Seq<char>,
    ip: Seq<char>,
    body: Seq<u8>,
    pooled: bool,
) -> Seq<u8> {
    encode_utf8(
        upstream_line(head, path, location) + written::field_lines(
            headers::upstream_fields(head, ip, asks_keep_alive(head, pooled)),
        ) + "\r\n"@,
    ) + body
}

/// The plan for a request. Where connections are pooled, the upstream is asked
/// to keep them open.
pub open spec fn plan_of(
    l: LocationView,
    c: ConfigView,
    turns: Map<Seq<char>, usize>,
    path: Seq<char>,
    head: Seq<char>,
    body: Seq<u8>,
    ip: Seq<char>,
    pooled: bool,
) -> PlanView {
    match l.upstream {
        None => PlanView::MissingUpstream,
        Some(name) => match named::find(c.upstream, name) {
            None => PlanView::UnknownUpstream(name),
            Some(u) => if upstream::servers_of(u).len() == 0 {
                PlanView::NoServers
            } else if text::lines(head).len() == 0 {
                PlanView::Refuse(Refusal::NotFound)
            } else {
                PlanView::Forward {
                    addrs: upstream::order_of(u, upstream::turn_of(turns, name)),
                    request: upstream_request(head, path, l.path, ip, body, pooled),
                    method: request_word(head, 0, "GET"@),
                }
            },
        },
    }
}

/// The turns after a request of the location has been planned.
pub open spec fn turns_after(
    l: LocationView,
    c: ConfigView,
    turns: Map<Seq<char>, usize>,
) -> Map<Seq<char>, usize> {
    match l.upstream {
        None => turns,
        Some(name) => match named::find(c.upstream, name) {
            None => turns,
            Some(u) => upstream::counts_after(turns, name, u),
        },
    }
}

/// The words of the request line of a head.
fn request_words<'a>(head: &'a [char]) -> (r: Vec<&'a [char]>)
    ensures
        text::views(r@) == text::words(head_fields::start_line(head@)),
{
    let ls = head_lines(head);
    assert(text::views(ls@).len() == ls@.len());
    if ls.len() == 0 {
        let none: Vec<&'a [char]> = Vec::new();
        assert(text::views(none@) =~= text::words(Seq::<char>::empty()));
        none
    } else {
        assert(text::views(ls@)[0] == ls@[0]@);
        split_words(ls[0])
    }
}

/// Builds the request line that an upstream gets, without its end.
fn build_line(method: &str, path: &str, version: &str) -> (r: String)
    ensures
        r@ == method@ + " "@ + path@ + " "@ + version@,
{
    text::concat5(method, " ", path, " ", version)
}

impl Proxy {
    /// Plans how a request is served: at which addresses, in which order, and
    /// with what bytes.
    pub fn plan(
        &mut self,
        location: &LocationConfig,
        req_path: &str,
        req_headers: &str,
        req_body: &[u8],
        cfg: &MiguxConfig,
        client_ip: &str,
        pooled: bool,
    ) -> (r: Result<ServePlan, ProxyError>)
        ensures
            plan_view(r) == plan_of(
                location.deep_view(),
                cfg.deep_view(),
                shared_map::counts_of(old(self).rr_counters),
                req_path@,
                req_headers@,
                req_body@,
                client_ip@,
                pooled,
            ),
            shared_map::counts_of(final(self).rr_counters) == turns_after(
                location.deep_view(),
                cfg.deep_view(),
                shared_map::counts_of(old(self).rr_counters),
            ),
            final(self).pools == old(self).pools,
            final(self).health == old(self).health,
    {
        let name = match &location.upstream {
            Some(n) => n.as_str(),
            None => {
                return Err(ProxyError::MissingUpstream);
            },
        };
        let upstream_cfg = match cfg.upstream.get(name) {
            Some(u) => u,
            None => {
                return Err(ProxyError::UnknownUpstream(copy_str(name)));
            },
        };
        let addrs = match choose_upstream_addrs_rr_order(&mut self.rr_counters, name, upstream_cfg) {
            Ok(l) => l,
            Err(_) => {
                return Err(ProxyError::NoServers);
            },
        };
        let upstream_path = strip_prefix_path(req_path, location.path.as_str());
        let hc = chars_of(req_headers);
        let ls = head_lines(hc.as_slice());
        assert(text::views(ls@).len() == ls@.len());
        if ls.len() == 0 {
            return Ok(ServePlan::Refuse(Refusal::NotFound));
        }
        let words = request_words(hc.as_slice());
        assert(forall|i: int| 0 <= i < words@.len() ==> text::views(words@)[i] == words@[i]@);
        let method = word_string(&words, 0, "GET");
        let version = word_string(&words, 2, "HTTP/1.1");
        let keep_alive = pooled && !same_str(version.as_str(), "HTTP/1.0");
        let fields = rewrite_proxy_headers(req_headers, client_ip, keep_alive);
        let mut out = build_line(method.as_str(), upstream_path.as_str(), version.as_str());
        out.append("\r\n");
        out.append(fields.as_str());
        out.append("\r\n");
        let mut request = bytes_of(out.as_str());
        push_bytes(&mut request, req_body);
        Ok(ServePlan::Forward { addrs, request, method })
    }
}

// ---------------------------------------------------------------------------
// Trying the addresses
// ---------------------------------------------------------------------------

/// What became of the last thing that was tried.
#[derive(Clone, Copy, Debug, PartialEq, Eq, Structural)]
pub enum Outcome {
    /// It failed.
    Failed,
    /// It worked. Of a response that has been passed on: the connection cannot
    /// be used again.
    Worked,
    /// A response has been passed on and the connection can be used again.
    WorkedReusable,
}

/// What is tried at present; the number is the position of the address.
#[derive(Clone, Copy, Debug, PartialEq, Eq, Structural)]
pub enum ForwardState {
    /// Take an idle connection or make one.
    Checkout(usize),
    /// Write the request.
    Write(usize),
    /// The connection was dead: make a new one.
    Reconnect(usize),
    /// Write the request to the new connection.
    Rewrite(usize),
    /// Pass the response on.
    Stream(usize),
    /// The client has been served; whether the connection goes back to the
    /// pool.
    Served(usize, bool),
    /// No address is left: answer that the gateway is bad.
    GaveUp,
}

/// What to begin with.
pub open spec fn first_state(count: nat) -> ForwardState {
    if count == 0 {
        ForwardState::GaveUp
    } else {
        ForwardState::Checkout(0)
    }
}

/// What to do when an address has failed.
pub open spec fn next_address(i: usize, count: nat) -> ForwardState {
    if i + 1 < count {
        ForwardState::Checkout((i + 1) as usize)
    } else {
        ForwardState::GaveUp
    }
}

/// What to do next.
pub open spec fn next_state(s: ForwardState, count: nat, o: Outcome) -> ForwardState {
    match s {
        ForwardState::Checkout(i) => if o == Outcome::Failed {
            next_address(i, count)
        } else {
            ForwardState::Write(i)
        },
        ForwardState::Write(i) => if o == Outcome::Failed {
            ForwardState::Reconnect(i)
        } else {
            ForwardState::Stream(i)
        },
        ForwardState::Reconnect(i) => if o == Outcome::Failed {
            next_address(i, count)
        } else {
            ForwardState::Rewrite(i)
        },
        ForwardState::Rewrite(i) => if o == Outcome::Failed {
            next_address(i, count)
        } else {
            ForwardState::Stream(i)
        },
        ForwardState::Stream(i) => if o == Outcome::Failed {
            next_address(i, count)
        } else {
            ForwardState::Served(i, o == Outcome::WorkedReusable)
        },
        ForwardState::Served(i, reuse) => s,
        ForwardState::GaveUp => s,
    }
}

impl ForwardState {
    /// What to begin with, given the number of addresses.
    pub fn start(count: usize) -> (r: Self)
        ensures
            r == first_state(count as nat),
    {
        if count == 0 {
            ForwardState::GaveUp
        } else {
            ForwardState::Checkout(0)
        }
    }

    /// What to do when an address has failed.
    fn skip_address(i: usize, count: usize) -> (r: Self)
        ensures
            r == next_address(i, count as nat),
    {
        if count > 0 && i < count - 1 {
            ForwardState::Checkout(i + 1)
        } else {
            ForwardState::GaveUp
        }
    }

    /// What to do next, given what became of the last thing tried.
    pub fn advance(self, count: usize, outcome: Outcome) -> (r: Self)
        ensures
            r == next_state(self, count as nat, outcome),
    {
        let failed = match outcome {
            Outcome::Failed => true,
            _ => false,
        };
        let reuse = match outcome {
            Outcome::WorkedReusable => true,
            _ => false,
        };
        match self {
            ForwardState::Checkout(i) => if failed {
                Self::skip_address(i, count)
            } else {
                ForwardState::Write(i)
            },
            ForwardState::Write(i) => if failed {
                ForwardState::Reconnect(i)
            } else {
                ForwardState::Stream(i)
            },
            ForwardState::Reconnect(i) => if failed {
                Self::skip_address(i, count)
            } else {
                ForwardState::Rewrite(i)
            },
            ForwardState::Rewrite(i) => if failed {
                Self::skip_address(i, count)
            } else {
                ForwardState::Stream(i)
            },
            ForwardState::Stream(i) => if failed {
                Self::skip_address(i, count)
            } else {
                ForwardState::Served(i, reuse)
            },
            ForwardState::Served(i, reuse) => ForwardState::Served(i, reuse),
            ForwardState::GaveUp => ForwardState::GaveUp,
        }
    }
}

/// The address that a state is about; the number of addresses at the end.
pub open spec fn address_of(s: ForwardState, count: nat) -> int {
    match s {
        ForwardState::Checkout(i) => i as int,
        ForwardState::Write(i) => i as int,
        ForwardState::Reconnect(i) => i as int,
        ForwardState::Rewrite(i) => i as int,
        ForwardState::Stream(i) => i as int,
        ForwardState::Served(i, _) => i as int,
        ForwardState::GaveUp => count as int,
    }
}

/// Whether it is over.
pub open spec fn is_over(s: ForwardState) -> bool {
    s is Served || s is GaveUp
}

/// How many things can still be tried at most.
pub open spec fn tries_left(s: ForwardState, count: nat) -> int {
    match s {
        ForwardState::Checkout(i) => 5 * (count - i),
        ForwardState::Write(i) => 5 * (count - i) - 1,
        ForwardState::Reconnect(i) => 5 * (count - i) - 2,
        ForwardState::Rewrite(i) => 5 * (count - i) - 3,
        ForwardState::Stream(i) => 5 * (count - i) - 4,
        ForwardState::Served(_, _) => 0,
        ForwardState::GaveUp => 0,
    }
}

/// A request comes to an end: whatever becomes of what is tried, at most five
/// things are tried for an address.
pub proof fn forwarding_ends(s: ForwardState, count: nat, o: Outcome)
    requires
        !is_over(s),
        address_of(s, count) < count <= usize::MAX,
    ensures
        0 <= tries_left(next_state(s, count, o), count) < tries_left(s, count),
        tries_left(s, count) <= 5 * count,
        !is_over(next_state(s, count, o)) ==> address_of(next_state(s, count, o), count) < count,
{
}

/// The addresses are tried in order and none is passed over: the next one is
/// taken only when something about the one before has failed, and the request
/// is given up only behind the last.
pub proof fn addresses_are_tried_in_order(s: ForwardState, count: nat, o: Outcome)
    requires
        !is_over(s),
        address_of(s, count) < count <= usize::MAX,
    ensures
        ({
            let t = next_state(s, count, o);
            &&& address_of(t, count) == address_of(s, count) || (o == Outcome::Failed
                && address_of(t, count) == address_of(s, count) + 1)
            &&& t is GaveUp ==> o == Outcome::Failed && address_of(s, count) == count - 1
            &&& t is Served ==> s is Stream && o != Outcome::Failed
        }),
{
}

// ---------------------------------------------------------------------------
// Forwarding without changes
// ---------------------------------------------------------------------------

/// Lines, each with its end.
pub open spec fn lines_text(ls: Seq<Seq<char>>) -> Seq<char>
    decreases ls.len(),
{
    if ls.len() == 0 {
        seq![]
    } else {
        lines_text(ls.drop_last()) + ls.last() + "\r\n"@
    }
}

/// The bytes that an upstream gets where the header lines are left alone.
pub open spec fn tunnel_request(
    head: Seq<char>,
    path: Seq<char>,
    location: Seq<char>,
    body: Seq<u8>,
) -> Seq<u8> {
    encode_utf8(
        upstream_line(head, path, location) + lines_text(head_fields::header_lines(head))
            + "\r\n"@,
    ) + body
}

/// The plan for a request whose header lines are left alone: one address, no
/// fallback.
pub open spec fn tunnel_plan_of(
    l: LocationView,
    c: ConfigView,
    turns: Map<Seq<char>, usize>,
    path: Seq<char>,
    head: Seq<char>,
    body: Seq<u8>,
) -> PlanView {
    match l.upstream {
        None => PlanView::MissingUpstream,
        Some(name) => match named::find(c.upstream, name) {
            None => PlanView::UnknownUpstream(name),
            Some(u) => if upstream::servers_of(u).len() == 0 {
                PlanView::NoServers
            } else if text::lines(head).len() == 0 {
                PlanView::Refuse(Refusal::NotFound)
            } else {
                PlanView::Forward {
                    addrs: seq![upstream::order_of(u, upstream::turn_of(turns, name))[0]],
                    request: tunnel_request(head, path, l.path, body),
                    method: request_word(head, 0, "GET"@),
                }
            },
        },
    }
}

/// Appends the lines behind the first, each with its end.
fn push_header_lines(out: &mut String, ls: &Vec<&[char]>)
    requires
        ls@.len() > 0,
    ensures
        final(out)@ == old(out)@ + lines_text(text::views(ls@).skip(1)),
{
    let ghost start = out@;
    let ghost all = text::views(ls@).skip(1);
    assert(all.take(0) =~= seq![]);
    assert(start + Seq::<char>::empty() =~= start);
    let mut i: usize = 1;
    while i < ls.len()
        invariant
            1 <= i <= ls@.len(),
            all == text::views(ls@).skip(1),
            out@ == start + lines_text(all.take(i - 1)),
        decreases ls@.len() - i,
    {
        assert(all.take(i as int).drop_last() =~= all.take(i - 1));
        assert(all.take(i as int).last() == ls@[i as int]@);
        push_chars(out, ls[i]);
        out.append("\r\n");
        assert(out@ =~= start + lines_text(all.take(i as int)));
        i = i + 1;
    }
    assert(all.take(i - 1) =~= all);
}

impl Proxy {
    /// Plans how a request is served where its header lines are left alone.
    pub fn plan_tunnel(
        &mut self,
        location: &LocationConfig,
        req_path: &str,
        req_headers: &str,
        req_body: &[u8],
        cfg: &MiguxConfig,
    ) -> (r: Result<ServePlan, ProxyError>)
        ensures
            plan_view(r) == tunnel_plan_of(
                location.deep_view(),
                cfg.deep_view(),
                shared_map::counts_of(old(self).rr_counters),
                req_path@,
                req_headers@,
                req_body@,
            ),
            shared_map::counts_of(final(self).rr_counters) == turns_after(
                location.deep_view(),
                cfg.deep_view(),
                shared_map::counts_of(old(self).rr_counters),
            ),
            final(self).pools == old(self).pools,
            final(self).health == old(self).health,
    {
        let name = match &location.upstream {
            Some(n) => n.as_str(),
            None => {
                return Err(ProxyError::MissingUpstream);
            },
        };
        let upstream_cfg = match cfg.upstream.get(name) {
            Some(u) => u,
            None => {
                return Err(ProxyError::UnknownUpstream(copy_str(name)));
            },
        };
        let addr = match choose_upstream_addr(&mut self.rr_counters, name, upstream_cfg) {
            Ok(a) => a,
            Err(_) => {
                return Err(ProxyError::NoServers);
            },
        };
        let upstream_path = strip_prefix_path(req_path, location.path.as_str());
        let hc = chars_of(req_headers);
        let ls = head_lines(hc.as_slice());
        assert(text::views(ls@).len() == ls@.len());
        if ls.len() == 0 {
            return Ok(ServePlan::Refuse(Refusal::NotFound));
        }
        let words = request_words(hc.as_slice());
        assert(forall|i: int| 0 <= i < words@.len() ==> text::views(words@)[i] == words@[i]@);
        let method = word_string(&words, 0, "GET");
        let version = word_string(&words, 2, "HTTP/1.1");
        let mut out = build_line(method.as_str(), upstream_path.as_str(), version.as_str());
        out.append("\r\n");
        push_header_lines(&mut out, &ls);
        out.append("\r\n");
        let mut request = bytes_of(out.as_str());
        push_bytes(&mut request, req_body);
        let mut addrs: Vec<String> = Vec::new();
        addrs.push(addr);
        assert(addrs.deep_view() =~= seq![addr@]);
        Ok(ServePlan::Forward { addrs, request, method })
    }
}

// ---------------------------------------------------------------------------
// What is sent
// ---------------------------------------------------------------------------

/// Whether a text is a word: not empty, and without white space.
pub open spec fn is_word(s: Seq<char>) -> bool {
    s.len() > 0 && forall|i: int| 0 <= i < s.len() ==> !text::is_white(#[trigger] s[i])
}

proof fn lemma_three_words(a: Seq<char>, b: Seq<char>, c: Seq<char>)
    requires
        is_word(a),
        is_word(b),
        is_word(c),
    ensures
        text::words(a + " "@ + b + " "@ + c) == seq![a, b, c],
        !(a + " "@ + b + " "@ + c).contains('\n'),
{
    reveal_strlit(" ");
    let none = Seq::<char>::empty();
    text::lemma_word(c, none);
    assert(c + none =~= c);
    text::lemma_leading_white(' ', c);
    let s2 = seq![' '] + c;
    text::lemma_word(b, s2);
    text::lemma_leading_white(' ', b + s2);
    let s1 = seq![' '] + (b + s2);
    text::lemma_word(a, s1);
    let line = a + " "@ + b + " "@ + c;
    assert(line =~= a + s1);
    assert(text::words(none) =~= seq![]);
    assert(text::words(line) =~= seq![a, b, c]);
    assert forall|i: int| 0 <= i < line.len() implies line[i] != '\n' by {
        if i < a.len() {
            assert(line[i] == a[i]);
        } else if a.len() < i <= a.len() + b.len() {
            assert(line[i] == b[i - a.len() - 1]);
        } else if i > a.len() + b.len() + 1 {
            assert(line[i] == c[i - a.len() - b.len() - 2]);
        }
    }
}

/// The upstream of a location gets the request under the path behind the
/// location, query included, with the same method and version, the fields that go
/// on and the whole body, and nothing besides. It is asked to keep the connection
/// open where connections are pooled, unless the version is HTTP/1.0.
pub proof fn request_goes_on(
    l: LocationView,
    c: ConfigView,
    turns: Map<Seq<char>, usize>,
    name: Seq<char>,
    method: Seq<char>,
    target: Seq<char>,
    version: Seq<char>,
    fs: Seq<(Seq<char>, Seq<char>)>,
    head: Seq<char>,
    tail: Seq<char>,
    body: Seq<u8>,
    ip: Seq<char>,
    pooled: bool,
)
    requires
        l.upstream == Some(name),
        named::find(c.upstream, name) is Some,
        upstream::servers_of(named::find(c.upstream, name)->0).len() > 0,
        is_word(method),
        is_word(target),
        is_word(version),
        written::all_clean(fs),
        head + "\r\n"@ == written::head_text(method + " "@ + target + " "@ + version, fs),
        tail.len() > 0,
        tail[0] == '/',
    ensures
        ({
            let keep = pooled && version != "HTTP/1.0"@;
            let fields = headers::upstream_fields(head, ip, keep);
            let sent = method + " "@ + tail + " "@ + version + "\r\n"@ + written::field_lines(fields)
                + "\r\n"@;
            plan_of(l, c, turns, l.path + tail, head, body, ip, pooled) == (PlanView::Forward {
                addrs: upstream::order_of(
                    named::find(c.upstream, name)->0,
                    upstream::turn_of(turns, name),
                ),
                request: encode_utf8(sent) + body,
                method,
            })
        }),
        head_fields::header_fields(head) == fs,
{
    let line = method + " "@ + target + " "@ + version;
    lemma_three_words(method, target, version);
    written::written_head_reads_back(line, fs);
    assert(head_fields::start_line(head) == line);
    path::only_the_prefix_is_lost(l.path, tail, l.path);
    reveal_strlit(" ");
    assert(line.len() > 0);
    assert(text::lines(head).len() > 0);
}

/// A location without an upstream, with one that is not there, or with one that
/// has no servers is not served, and takes no turn.
pub proof fn only_known_upstreams_are_asked(
    l: LocationView,
    c: ConfigView,
    turns: Map<Seq<char>, usize>,
    path: Seq<char>,
    head: Seq<char>,
    body: Seq<u8>,
    ip: Seq<char>,
    pooled: bool,
)
    ensures
        ({
            let p = plan_of(l, c, turns, path, head, body, ip, pooled);
            match l.upstream {
                None => p == PlanView::MissingUpstream && turns_after(l, c, turns) == turns,
                Some(name) => match named::find(c.upstream, name) {
                    None => p == PlanView::UnknownUpstream(name) && turns_after(l, c, turns) == turns,
                    Some(u) => upstream::servers_of(u).len() == 0 ==> p == PlanView::NoServers
                        && turns_after(l, c, turns) == turns,
                },
            }
        }),
{
}

/// What is tried behind a number of outcomes.
pub open spec fn state_after(s: ForwardState, count: nat, os: Seq<Outcome>) -> ForwardState
    decreases os.len(),
{
    if os.len() == 0 {
        s
    } else {
        next_state(state_after(s, count, os.drop_last()), count, os.last())
    }
}

proof fn lemma_outcome(s: ForwardState, count: nat, os: Seq<Outcome>, o: Outcome)
    ensures
        state_after(s, count, os.push(o)) == next_state(state_after(s, count, os), count, o),
{
    assert(os.push(o).drop_last() =~= os);
}

/// At an address the request is written to a connection and the response passed
/// on; where the writing fails, it is tried once more on a new connection. The
/// address has failed where there is no connection, the second writing fails, or
/// the response cannot be passed on: only the next address is tried, and behind
/// the last one the gateway is bad. A connection goes back to the pool only if the
/// response says so.
pub proof fn an_address_is_tried_in_full(i: usize, count: nat, done: Outcome)
    requires
        i < count <= usize::MAX,
        done != Outcome::Failed,
    ensures
        ({
            let s = ForwardState::Checkout(i);
            let next = if i + 1 < count {
                ForwardState::Checkout((i + 1) as usize)
            } else {
                ForwardState::GaveUp
            };
            let (ok, no) = (Outcome::Worked, Outcome::Failed);
            let served = ForwardState::Served(i, done == Outcome::WorkedReusable);
            &&& state_after(s, count, seq![].push(ok)) == ForwardState::Write(i)
            &&& state_after(s, count, seq![].push(ok).push(ok)) == ForwardState::Stream(i)
            &&& state_after(s, count, seq![].push(ok).push(ok).push(done)) == served
            &&& state_after(s, count, seq![].push(ok).push(no)) == ForwardState::Reconnect(i)
            &&& state_after(s, count, seq![].push(ok).push(no).push(ok)) == ForwardState::Rewrite(i)
            &&& state_after(s, count, seq![].push(ok).push(no).push(ok).push(ok))
                == ForwardState::Stream(i)
            &&& state_after(s, count, seq![].push(ok).push(no).push(ok).push(ok).push(done)) == served
            &&& state_after(s, count, seq![].push(no)) == next
            &&& state_after(s, count, seq![].push(ok).push(no).push(no)) == next
            &&& state_after(s, count, seq![].push(ok).push(no).push(ok).push(no)) == next
            &&& state_after(s, count, seq![].push(ok).push(ok).push(no)) == next
            &&& state_after(s, count, seq![].push(ok).push(no).push(ok).push(ok).push(no)) == next
        }),
        first_state(count) == ForwardState::Checkout(0),
        first_state(0) == ForwardState::GaveUp,
{
    let s = ForwardState::Checkout(i);
    let (ok, no) = (Outcome::Worked, Outcome::Failed);
    let e = Seq::<Outcome>::empty();
    let w = e.push(ok);
    let wf = w.push(no);
    let wfw = wf.push(ok);
    let wfww = wfw.push(ok);
    lemma_outcome(s, count, e, ok);
    lemma_outcome(s, count, e, no);
    lemma_outcome(s, count, w, ok);
    lemma_outcome(s, count, w, no);
    lemma_outcome(s, count, w.push(ok), done);
    lemma_outcome(s, count, w.push(ok), no);
    lemma_outcome(s, count, wf, ok);
    lemma_outcome(s, count, wf, no);
    lemma_outcome(s, count, wfw, ok);
    lemma_outcome(s, count, wfw, no);
    lemma_outcome(s, count, wfww, done);
    lemma_outcome(s, count, wfww, no);
}

/// Where the header lines are left alone, the one address whose turn it is gets
/// them as they came, under the path behind the location, with the whole body.
pub proof fn request_goes_through(
    l: LocationView,
    c: ConfigView,
    turns: Map<Seq<char>, usize>,
    name: Seq<char>,
    method: Seq<char>,
    target: Seq<char>,
    version: Seq<char>,
    fs: Seq<(Seq<char>, Seq<char>)>,
    head: Seq<char>,
    tail: Seq<char>,
    body: Seq<u8>,
)
    requires
        l.upstream == Some(name),
        named::find(c.upstream, name) is Some,
        upstream::servers_of(named::find(c.upstream, name)->0).len() > 0,
        is_word(method),
        is_word(target),
        is_word(version),
        written::all_clean(fs),
        head + "\r\n"@ == written::head_text(method + " "@ + target + " "@ + version, fs),
        tail.len() > 0,
        tail[0] == '/',
    ensures
        tunnel_plan_of(l, c, turns, l.path + tail, head, body) == (PlanView::Forward {
            addrs: seq![
                upstream::order_of(
                    named::find(c.upstream, name)->0,
                    upstream::turn_of(turns, name),
                )[0],
            ],
            request: encode_utf8(
                method + " "@ + tail + " "@ + version + "\r\n"@ + written::field_lines(fs) + "\r\n"@,
            ) + body,
            method,
        }),
{
    let line = method + " "@ + target + " "@ + version;
    lemma_three_words(method, target, version);
    written::written_head_reads_back(line, fs);
    assert(head_fields::start_line(head) == line);
    path::only_the_prefix_is_lost(l.path, tail, l.path);
    reveal_strlit(" ");
    assert(line.len() > 0);
    assert(text::lines(head).len() > 0);
    assert(head_fields::header_lines(head) == written::bare_lines(fs));
    lemma_lines_text(fs);
}

proof fn lemma_lines_text(fs: Seq<(Seq<char>, Seq<char>)>)
    ensures
        lines_text(written::bare_lines(fs)) == written::field_lines(fs),
    decreases fs.len(),
{
    let ls = written::bare_lines(fs);
    if fs.len() > 0 {
        lemma_lines_text(fs.drop_last());
        assert(ls.drop_last() =~= written::bare_lines(fs.drop_last()));
        assert(ls.last() == written::bare_line(fs.last()));
        assert(lines_text(ls) =~= written::field_lines(fs));
    }
}

proof fn lemma_lines_as_written(fs: Seq<(Seq<char>, Seq<char>)>)
    ensures
        lines_text(written::bare_lines(fs)) == written::field_lines(fs),
    decreases fs.len(),
{
    let ls = written::bare_lines(fs);
    if fs.len() > 0 {
        lemma_lines_as_written(fs.drop_last());
        assert(ls.drop_last() =~= written::bare_lines(fs.drop_last()));
        assert(ls.last() == fs.last().0 + ": "@ + fs.last().1);
        assert(lines_text(ls) =~= written::field_lines(fs));
    } else {
        assert(lines_text(ls) =~= written::field_lines(fs));
    }
}

/// A request that opens a tunnel goes on to the address whose turn it is, and to no
/// other, with its method and version, its path without the prefix of the location,
/// and every field as it came.
pub proof fn tunnel_request_goes_on(
    l: LocationView,
    c: ConfigView,
    turns: Map<Seq<char>, usize>,
    name: Seq<char>,
    method: Seq<char>,
    target: Seq<char>,
    version: Seq<char>,
    fs: Seq<(Seq<char>, Seq<char>)>,
    head: Seq<char>,
    tail: Seq<char>,
    body: Seq<u8>,
)
    requires
        l.upstream == Some(name),
        named::find(c.upstream, name) is Some,
        upstream::servers_of(named::find(c.upstream, name)->0).len() > 0,
        is_word(method),
        is_word(target),
        is_word(version),
        written::all_clean(fs),
        head + "\r\n"@ == written::head_text(method + " "@ + target + " "@ + version, fs),
        tail.len() > 0,
        tail[0] == '/',
    ensures
        ({
            let sent = method + " "@ + tail + " "@ + version;
            tunnel_plan_of(l, c, turns, l.path + tail, head, body) == (PlanView::Forward {
                addrs: seq![
                    upstream::order_of(
                        named::find(c.upstream, name)->0,
                        upstream::turn_of(turns, name),
                    )[0],
                ],
                request: encode_utf8(written::head_text(sent, fs) + "\r\n"@) + body,
                method,
            })
        }),
{
    let line = method + " "@ + target + " "@ + version;
    lemma_three_words(method, target, version);
    written::written_head_reads_back(line, fs);
    assert(head_fields::start_line(head) == line);
    path::only_the_prefix_is_lost(l.path, tail, l.path);
    reveal_strlit(" ");
    assert(line.len() > 0);
    assert(text::lines(head).len() > 0);
    lemma_lines_as_written(fs);
}

/// A tunnel is not opened for a location without an upstream, with one that is not
/// there, or with one that has no servers.
pub proof fn tunnels_lead_to_known_upstreams(
    l: LocationView,
    c: ConfigView,
    turns: Map<Seq<char>, usize>,
    path: Seq<char>,
    head: Seq<char>,
    body: Seq<u8>,
)
    ensures
        ({
            let p = tunnel_plan_of(l, c, turns, path, head, body);
            match l.upstream {
                None => p == PlanView::MissingUpstream,
                Some(name) => match named::find(c.upstream, name) {
                    None => p == PlanView::UnknownUpstream(name),
                    Some(u) => upstream::servers_of(u).len() == 0 ==> p == PlanView::NoServers,
                },
            }
        }),
{
}

} // verus!
