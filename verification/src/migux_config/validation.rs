//! Checking a configuration before it is used.
use super::http::HttpView;
use super::location::{LocationConfig, LocationType, LocationView};
use super::migux::{self, ConfigView, MiguxConfig};
use super::server::{ServerConfig, ServerView};
use super::tls::{TlsConfig, TlsView};
use super::upstream::{ServersView, UpstreamServers, UpstreamView};
use crate::named;
use crate::number::{self, push_decimal};
use crate::text::{self, concat3, concat5, concat7, copy_str, is_blank, same_str, str_starts_with};
use vstd::prelude::*;

verus! {

// ---------------------------------------------------------------------------
// Reports
// ---------------------------------------------------------------------------

/// What was found wrong with a configuration.
#[derive(Debug)]
pub struct ConfigReport {
    warnings: Vec<String>,
    errors: Vec<String>,
}

/// The same, as texts.
#[verifier::ext_equal]
pub struct ReportView {
    pub warnings: Seq<Seq<char>>,
    pub errors: Seq<Seq<char>>,
}

impl View for ConfigReport {
    type V = ReportView;

    closed spec fn view(&self) -> ReportView {
        ReportView { warnings: self.warnings.deep_view(), errors: self.errors.deep_view() }
    }
}

/// A report without findings.
pub open spec fn no_findings() -> ReportView {
    ReportView { warnings: Seq::empty(), errors: Seq::empty() }
}

/// A report with one warning.
pub open spec fn warning(m: Seq<char>) -> ReportView {
    ReportView { warnings: seq![m], errors: Seq::empty() }
}

/// A report with one error.
pub open spec fn failure(m: Seq<char>) -> ReportView {
    ReportView { warnings: Seq::empty(), errors: seq![m] }
}

/// The findings of one report followed by those of another.
pub open spec fn then_report(a: ReportView, b: ReportView) -> ReportView {
    ReportView { warnings: a.warnings + b.warnings, errors: a.errors + b.errors }
}

/// The lines of a list of findings.
pub open spec fn finding_lines(ms: Seq<Seq<char>>) -> Seq<char>
    decreases ms.len(),
{
    if ms.len() == 0 {
        Seq::empty()
    } else {
        finding_lines(ms.drop_last()) + "  - "@ + ms.last() + "\n"@
    }
}

/// A report as text: the errors, then the warnings, with an empty line between
/// the two.
pub open spec fn report_text(v: ReportView) -> Seq<char> {
    let errors = if v.errors.len() == 0 {
        Seq::<char>::empty()
    } else {
        "Errors:\n"@ + finding_lines(v.errors)
    };
    if v.warnings.len() == 0 {
        errors
    } else {
        (if v.errors.len() == 0 {
            errors
        } else {
            errors + "\n"@
        }) + "Warnings:\n"@ + finding_lines(v.warnings)
    }
}

/// Appends the lines of a list of findings.
fn push_findings(out: &mut String, ms: &Vec<String>)
    ensures
        final(out)@ == old(out)@ + finding_lines(ms.deep_view()),
{
    let ghost start = out@;
    let ghost all = ms.deep_view();
    assert(all.take(0) =~= Seq::empty());
    assert(start + Seq::<char>::empty() =~= start);
    for i in 0..ms.len()
        invariant
            all == ms.deep_view(),
            out@ == start + finding_lines(all.take(i as int)),
    {
        let ghost before = out@;
        assert(all.take(i + 1).drop_last() =~= all.take(i as int));
        assert(all.take(i + 1).last() == ms@[i as int]@);
        out.append("  - ");
        out.append(ms[i].as_str());
        out.append("\n");
        assert(out@ =~= start + finding_lines(all.take(i + 1)));
    }
    assert(all.take(ms@.len() as int) =~= all);
}

impl Default for ConfigReport {
    fn default() -> (r: Self)
        ensures
            r@ == no_findings(),
    {
        let r = ConfigReport { warnings: Vec::new(), errors: Vec::new() };
        assert(r@ =~= no_findings());
        r
    }
}

impl ConfigReport {
    /// Whether no errors were found.
    pub fn is_ok(&self) -> (r: bool)
        ensures
            r == (self@.errors.len() == 0),
    {
        self.errors.len() == 0
    }

    /// Whether at least one error was found.
    pub fn has_errors(&self) -> (r: bool)
        ensures
            r == (self@.errors.len() > 0),
    {
        self.errors.len() > 0
    }

    /// The warnings.
    pub fn warnings(&self) -> (r: &[String])
        ensures
            r.deep_view() == self@.warnings,
    {
        self.warnings.as_slice()
    }

    /// The errors.
    pub fn errors(&self) -> (r: &[String])
        ensures
            r.deep_view() == self@.errors,
    {
        self.errors.as_slice()
    }

    /// The report as text of several lines.
    pub fn format(&self) -> (r: String)
        ensures
            r@ == report_text(self@),
    {
        let mut out = String::new();
        if self.errors.len() > 0 {
            out.append("Errors:\n");
            push_findings(&mut out, &self.errors);
        }
        if self.warnings.len() > 0 {
            if self.errors.len() > 0 {
                out.append("\n");
            }
            out.append("Warnings:\n");
            push_findings(&mut out, &self.warnings);
        }
        assert(out@ =~= report_text(self@));
        out
    }

    /// Adds a warning.
    fn warn(&mut self, message: String)
        ensures
            final(self)@ == then_report(old(self)@, warning(message@)),
    {
        let ghost v = self@;
        self.warnings.push(message);
        assert(self@ =~= then_report(v, warning(message@)));
    }

    /// Adds an error.
    fn error(&mut self, message: String)
        ensures
            final(self)@ == then_report(old(self)@, failure(message@)),
    {
        let ghost v = self@;
        self.errors.push(message);
        assert(self@ =~= then_report(v, failure(message@)));
    }
}

proof fn lemma_then_assoc(a: ReportView, b: ReportView, c: ReportView)
    ensures
        then_report(then_report(a, b), c) == then_report(a, then_report(b, c)),
{
    assert(then_report(then_report(a, b), c) =~= then_report(a, then_report(b, c)));
}

proof fn lemma_then_nothing(a: ReportView)
    ensures
        then_report(a, no_findings()) == a,
        then_report(no_findings(), a) == a,
{
    assert(then_report(a, no_findings()) =~= a);
    assert(then_report(no_findings(), a) =~= a);
}

// ---------------------------------------------------------------------------
// What is known of the machine
// ---------------------------------------------------------------------------

/// What was found out about the paths and addresses that a configuration
/// names.
#[derive(Debug)]
pub struct Surroundings {
    /// Paths at which there is something.
    pub existing: Vec<String>,
    /// Paths at which there is a directory.
    pub directories: Vec<String>,
    /// Paths at which there is a file.
    pub files: Vec<String>,
    /// Texts that are socket addresses.
    pub socket_addrs: Vec<String>,
}

/// The same, as texts.
pub struct SurroundingsView {
    pub existing: Seq<Seq<char>>,
    pub directories: Seq<Seq<char>>,
    pub files: Seq<Seq<char>>,
    pub socket_addrs: Seq<Seq<char>>,
}

impl DeepView for Surroundings {
    type V = SurroundingsView;

    open spec fn deep_view(&self) -> SurroundingsView {
        SurroundingsView {
            existing: self.existing.deep_view(),
            directories: self.directories.deep_view(),
            files: self.files.deep_view(),
            socket_addrs: self.socket_addrs.deep_view(),
        }
    }
}

/// Whether a list holds a string.
pub fn list_has(l: &Vec<String>, s: &str) -> (r: bool)
    ensures
        r == l.deep_view().contains(s@),
{
    for i in 0..l.len()
        invariant
            forall|j: int| 0 <= j < i ==> l@[j]@ != s@,
    {
        if same_str(l[i].as_str(), s) {
            assert(l.deep_view()[i as int] == s@);
            return true;
        }
    }
    assert(!l.deep_view().contains(s@)) by {
        if l.deep_view().contains(s@) {
            let j = choose|j: int| 0 <= j < l.deep_view().len() && l.deep_view()[j] == s@;
            assert(l@[j]@ == s@);
        }
    }
    false
}

/// Whether a text is empty or white space alone.
pub open spec fn blank(s: Seq<char>) -> bool {
    text::trimmed(s).len() == 0
}

// ---------------------------------------------------------------------------
// The cache
// ---------------------------------------------------------------------------

/// What is wrong with the directory of the cache.
pub open spec fn cache_dir_findings(dir: Seq<char>, w: SurroundingsView) -> ReportView {
    if w.existing.contains(dir) {
        if w.directories.contains(dir) {
            no_findings()
        } else {
            failure("http.cache_dir '"@ + dir + "' exists but is not a directory"@)
        }
    } else {
        warning("http.cache_dir '"@ + dir + "' does not exist; it will be created at runtime"@)
    }
}

/// What is wrong with the settings of the cache.
pub open spec fn cache_findings(h: HttpView, w: SurroundingsView) -> ReportView {
    match h.cache_dir {
        None => no_findings(),
        Some(dir) => then_report(
            then_report(
                cache_dir_findings(dir, w),
                if h.cache_default_ttl_secs is None || h.cache_default_ttl_secs == Some(0u32) {
                    warning(
                        "http.cache_default_ttl_secs is 0; cache entries will not be stored"@,
                    )
                } else {
                    no_findings()
                },
            ),
            if h.cache_max_object_bytes is None || h.cache_max_object_bytes == Some(0u64) {
                warning("http.cache_max_object_bytes is 0; cache is effectively disabled"@)
            } else {
                no_findings()
            },
        ),
    }
}

/// Checks the settings of the cache.
fn validate_http_cache(cfg: &MiguxConfig, w: &Surroundings, report: &mut ConfigReport)
    ensures
        final(report)@ == then_report(
            old(report)@,
            cache_findings(cfg.deep_view().http, w.deep_view()),
        ),
{
    let ghost start = report@;
    let ghost h = cfg.deep_view().http;
    proof {
        lemma_then_nothing(start);
    }
    match &cfg.http.cache_dir {
        None => {},
        Some(dir) => {
            let d = dir.as_str();
            if list_has(&w.existing, d) {
                if !list_has(&w.directories, d) {
                    report.error(
                        concat3("http.cache_dir '", d, "' exists but is not a directory"),
                    );
                }
            } else {
                report.warn(
                    concat3(
                        "http.cache_dir '",
                        d,
                        "' does not exist; it will be created at runtime",
                    ),
                );
            }
            assert(report@ =~= then_report(start, cache_dir_findings(d@, w.deep_view())));
            let ttl: u32 = match cfg.http.cache_default_ttl_secs {
                Some(n) => n,
                None => 0,
            };
            if ttl == 0 {
                report.warn(
                    copy_str("http.cache_default_ttl_secs is 0; cache entries will not be stored"),
                );
            }
            let max: u64 = match cfg.http.cache_max_object_bytes {
                Some(n) => n,
                None => 0,
            };
            if max == 0 {
                report.warn(
                    copy_str("http.cache_max_object_bytes is 0; cache is effectively disabled"),
                );
            }
            assert(report@ =~= then_report(start, cache_findings(h, w.deep_view())));
        },
    }
}

// ---------------------------------------------------------------------------
// Upstreams
// ---------------------------------------------------------------------------

/// What is wrong with the entries of a list of servers.
pub open spec fn entry_errors(name: Seq<char>, servers: Seq<Seq<char>>) -> Seq<Seq<char>>
    decreases servers.len(),
{
    if servers.len() == 0 {
        Seq::empty()
    } else if blank(servers.last()) {
        entry_errors(name, servers.drop_last()).push(
            "upstream '"@ + name + "' server entry at index "@ + number::decimal(
                (servers.len() - 1) as nat,
            ) + " is empty"@,
        )
    } else {
        entry_errors(name, servers.drop_last())
    }
}

/// What is wrong with the servers of an upstream.
pub open spec fn upstream_errors(name: Seq<char>, u: UpstreamView) -> Seq<Seq<char>> {
    match u.server {
        ServersView::One(s) => if blank(s) {
            seq!["upstream '"@ + name + "' has an empty server address"@]
        } else {
            Seq::empty()
        },
        ServersView::Many(l) => if l.len() == 0 {
            seq!["upstream '"@ + name + "' has no servers configured"@]
        } else {
            entry_errors(name, l)
        },
    }
}

/// What is wrong with the upstreams.
pub open spec fn upstreams_findings(us: Seq<(Seq<char>, UpstreamView)>) -> ReportView
    decreases us.len(),
{
    if us.len() == 0 {
        no_findings()
    } else {
        then_report(
            upstreams_findings(us.drop_last()),
            (ReportView {
                warnings: Seq::empty(),
                errors: upstream_errors(us.last().0, us.last().1),
            }),
        )
    }
}

/// Checks the entries of a list of servers.
fn validate_entries(name: &str, list: &Vec<String>, report: &mut ConfigReport)
    ensures
        final(report)@ == then_report(
            old(report)@,
            (ReportView {
                warnings: Seq::empty(),
                errors: entry_errors(name@, list.deep_view()),
            }),
        ),
{
    let ghost start = report@;
    let ghost all = list.deep_view();
    assert(all.take(0) =~= Seq::empty());
    assert(start =~= then_report(
        start,
        (ReportView { warnings: Seq::empty(), errors: Seq::empty() }),
    ));
    for i in 0..list.len()
        invariant
            all == list.deep_view(),
            report@ == then_report(
                start,
                (ReportView {
                    warnings: Seq::empty(),
                    errors: entry_errors(name@, all.take(i as int)),
                }),
            ),
    {
        assert(all.take(i + 1).drop_last() =~= all.take(i as int));
        assert(all.take(i + 1).last() == list@[i as int]@);
        if is_blank(list[i].as_str()) {
            let mut m = concat3("upstream '", name, "' server entry at index ");
            push_decimal(&mut m, i as u128);
            m.append(" is empty");
            report.error(m);
        }
        assert(report@ =~= then_report(
            start,
            (ReportView {
                warnings: Seq::empty(),
                errors: entry_errors(name@, all.take(i + 1)),
            }),
        ));
    }
    assert(all.take(list@.len() as int) =~= all);
}

/// Checks the upstreams.
fn validate_upstreams(cfg: &MiguxConfig, report: &mut ConfigReport)
    ensures
        final(report)@ == then_report(old(report)@, upstreams_findings(cfg.upstream.deep_view())),
{
    let ghost start = report@;
    let ghost all = cfg.upstream.deep_view();
    assert(all.take(0) =~= Seq::empty());
    proof {
        lemma_then_nothing(start);
    }
    for i in 0..cfg.upstream.entries.len()
        invariant
            all == cfg.upstream.deep_view(),
            report@ == then_report(start, upstreams_findings(all.take(i as int))),
    {
        assert(all.take(i + 1).drop_last() =~= all.take(i as int));
        let name = cfg.upstream.entries[i].0.as_str();
        let upstream = &cfg.upstream.entries[i].1;
        let ghost found = ReportView {
            warnings: Seq::empty(),
            errors: upstream_errors(name@, upstream.deep_view()),
        };
        assert(all.take(i + 1).last() == (name@, upstream.deep_view()));
        let ghost before = report@;
        match &upstream.server {
            UpstreamServers::One(s) => {
                if is_blank(s.as_str()) {
                    report.error(concat3("upstream '", name, "' has an empty server address"));
                }
            },
            UpstreamServers::Many(l) => {
                if l.len() == 0 {
                    report.error(concat3("upstream '", name, "' has no servers configured"));
                } else {
                    validate_entries(name, l, report);
                }
            },
        }
        assert(report@ =~= then_report(before, found));
        proof {
            lemma_then_assoc(start, upstreams_findings(all.take(i as int)), found);
        }
    }
    assert(all.take(cfg.upstream.entries@.len() as int) =~= all);
}

// ---------------------------------------------------------------------------
// Servers
// ---------------------------------------------------------------------------

/// What is wrong with the listen address of a server.
pub open spec fn listen_findings(name: Seq<char>, s: ServerView, w: SurroundingsView) -> ReportView {
    if blank(s.listen) {
        failure("server '"@ + name + "' has an empty listen address"@)
    } else if !w.socket_addrs.contains(s.listen) {
        warning(
            "server '"@ + name + "' listen '"@ + s.listen
                + "' is not a socket address; DNS resolution will be used"@,
        )
    } else {
        no_findings()
    }
}

/// What is wrong with the root of a server.
pub open spec fn root_findings(name: Seq<char>, s: ServerView, w: SurroundingsView) -> ReportView {
    if blank(s.root) {
        warning("server '"@ + name + "' has an empty root path"@)
    } else if !w.existing.contains(s.root) {
        warning("server '"@ + name + "' root '"@ + s.root + "' does not exist"@)
    } else {
        no_findings()
    }
}

/// What is wrong with a file that TLS needs.
pub open spec fn tls_file_findings(
    name: Seq<char>,
    what: Seq<char>,
    path: Seq<char>,
    w: SurroundingsView,
) -> ReportView {
    if w.files.contains(path) {
        no_findings()
    } else {
        failure("server '"@ + name + what + path + "' not found"@)
    }
}

/// What is wrong with the TLS settings of a server.
pub open spec fn tls_findings(name: Seq<char>, t: TlsView, w: SurroundingsView) -> ReportView {
    then_report(
        if blank(t.listen) {
            failure("server '"@ + name + "' enables TLS but tls.listen is empty"@)
        } else {
            no_findings()
        },
        if blank(t.cert_path) || blank(t.key_path) {
            failure("server '"@ + name + "' TLS config requires cert_path and key_path"@)
        } else {
            then_report(
                tls_file_findings(name, "' TLS cert_path '"@, t.cert_path, w),
                tls_file_findings(name, "' TLS key_path '"@, t.key_path, w),
            )
        },
    )
}

/// What is wrong with one server.
pub open spec fn server_findings(name: Seq<char>, s: ServerView, w: SurroundingsView) -> ReportView {
    then_report(
        then_report(listen_findings(name, s, w), root_findings(name, s, w)),
        match s.tls {
            Some(t) => tls_findings(name, t, w),
            None => no_findings(),
        },
    )
}

/// What is wrong with the servers, each by itself.
pub open spec fn each_server_findings(
    ss: Seq<(Seq<char>, ServerView)>,
    w: SurroundingsView,
) -> ReportView
    decreases ss.len(),
{
    if ss.len() == 0 {
        no_findings()
    } else {
        then_report(
            each_server_findings(ss.drop_last(), w),
            server_findings(ss.last().0, ss.last().1, w),
        )
    }
}

/// The listen addresses of the servers.
pub open spec fn http_listens(ss: Seq<(Seq<char>, ServerView)>) -> Seq<Seq<char>>
    decreases ss.len(),
{
    if ss.len() == 0 {
        Seq::empty()
    } else if blank(ss.last().1.listen) {
        http_listens(ss.drop_last())
    } else {
        http_listens(ss.drop_last()).push(ss.last().1.listen)
    }
}

/// The TLS listen addresses of the servers, each once.
pub open spec fn tls_listens(ss: Seq<(Seq<char>, ServerView)>) -> Seq<Seq<char>>
    decreases ss.len(),
{
    if ss.len() == 0 {
        Seq::empty()
    } else {
        let before = tls_listens(ss.drop_last());
        match ss.last().1.tls {
            Some(t) => if blank(t.listen) || before.contains(t.listen) {
                before
            } else {
                before.push(t.listen)
            },
            None => before,
        }
    }
}

/// The addresses at which both HTTP and TLS listen.
pub open spec fn conflict_findings(tls: Seq<Seq<char>>, http: Seq<Seq<char>>) -> ReportView
    decreases tls.len(),
{
    if tls.len() == 0 {
        no_findings()
    } else {
        then_report(
            conflict_findings(tls.drop_last(), http),
            if http.contains(tls.last()) {
                failure(
                    "TLS listen '"@ + tls.last()
                        + "' conflicts with an HTTP listen; use separate ports"@,
                )
            } else {
                no_findings()
            },
        )
    }
}

/// What is wrong with the servers.
pub open spec fn servers_findings(
    ss: Seq<(Seq<char>, ServerView)>,
    w: SurroundingsView,
) -> ReportView {
    if ss.len() == 0 {
        failure("no [server] sections found; at least one server is required"@)
    } else {
        then_report(each_server_findings(ss, w), conflict_findings(tls_listens(ss), http_listens(ss)))
    }
}

/// Checks a file that TLS needs.
fn validate_tls_file(
    name: &str,
    what: &str,
    path: &str,
    w: &Surroundings,
    report: &mut ConfigReport,
)
    ensures
        final(report)@ == then_report(
            old(report)@,
            tls_file_findings(name@, what@, path@, w.deep_view()),
        ),
{
    proof {
        lemma_then_nothing(report@);
    }
    if !list_has(&w.files, path) {
        report.error(concat5("server '", name, what, path, "' not found"));
    }
}

/// Checks the TLS settings of a server.
fn validate_tls(name: &str, tls: &TlsConfig, w: &Surroundings, report: &mut ConfigReport)
    ensures
        final(report)@ == then_report(
            old(report)@,
            tls_findings(name@, tls.deep_view(), w.deep_view()),
        ),
{
    let ghost start = report@;
    if is_blank(tls.listen.as_str()) {
        report.error(concat3("server '", name, "' enables TLS but tls.listen is empty"));
    }
    if is_blank(tls.cert_path.as_str()) || is_blank(tls.key_path.as_str()) {
        report.error(concat3("server '", name, "' TLS config requires cert_path and key_path"));
    } else {
        validate_tls_file(name, "' TLS cert_path '", tls.cert_path.as_str(), w, report);
        validate_tls_file(name, "' TLS key_path '", tls.key_path.as_str(), w, report);
    }
    assert(report@ =~= then_report(start, tls_findings(name@, tls.deep_view(), w.deep_view())));
}

/// Checks one server.
fn validate_server(name: &str, server: &ServerConfig, w: &Surroundings, report: &mut ConfigReport)
    ensures
        final(report)@ == then_report(
            old(report)@,
            server_findings(name@, server.deep_view(), w.deep_view()),
        ),
{
    let ghost start = report@;
    if is_blank(server.listen.as_str()) {
        report.error(concat3("server '", name, "' has an empty listen address"));
    } else if !list_has(&w.socket_addrs, server.listen.as_str()) {
        report.warn(
            concat5(
                "server '",
                name,
                "' listen '",
                server.listen.as_str(),
                "' is not a socket address; DNS resolution will be used",
            ),
        );
    }
    assert(report@ =~= then_report(
        start,
        listen_findings(name@, server.deep_view(), w.deep_view()),
    ));
    if is_blank(server.root.as_str()) {
        report.warn(concat3("server '", name, "' has an empty root path"));
    } else if !list_has(&w.existing, server.root.as_str()) {
        report.warn(
            concat5("server '", name, "' root '", server.root.as_str(), "' does not exist"),
        );
    }
    match &server.tls {
        Some(t) => validate_tls(name, t, w, report),
        None => {},
    }
    assert(report@ =~= then_report(
        start,
        server_findings(name@, server.deep_view(), w.deep_view()),
    ));
}

/// Checks that HTTP and TLS listen at different addresses.
fn validate_conflicts(tls: &Vec<String>, http: &Vec<String>, report: &mut ConfigReport)
    ensures
        final(report)@ == then_report(
            old(report)@,
            conflict_findings(tls.deep_view(), http.deep_view()),
        ),
{
    let ghost start = report@;
    let ghost all = tls.deep_view();
    assert(all.take(0) =~= Seq::empty());
    proof {
        lemma_then_nothing(start);
    }
    for i in 0..tls.len()
        invariant
            all == tls.deep_view(),
            report@ == then_report(
                start,
                conflict_findings(all.take(i as int), http.deep_view()),
            ),
    {
        assert(all.take(i + 1).drop_last() =~= all.take(i as int));
        assert(all.take(i + 1).last() == tls@[i as int]@);
        if list_has(http, tls[i].as_str()) {
            report.error(
                concat3(
                    "TLS listen '",
                    tls[i].as_str(),
                    "' conflicts with an HTTP listen; use separate ports",
                ),
            );
        }
        assert(report@ =~= then_report(
            start,
            conflict_findings(all.take(i + 1), http.deep_view()),
        ));
    }
    assert(all.take(tls@.len() as int) =~= all);
}

/// Checks the servers.
fn validate_servers(cfg: &MiguxConfig, w: &Surroundings, report: &mut ConfigReport)
    ensures
        final(report)@ == then_report(
            old(report)@,
            servers_findings(cfg.servers.deep_view(), w.deep_view()),
        ),
{
    if cfg.servers.len() == 0 {
        report.error(copy_str("no [server] sections found; at least one server is required"));
        return;
    }
    let ghost start = report@;
    let ghost all = cfg.servers.deep_view();
    let ghost wv = w.deep_view();
    let mut http: Vec<String> = Vec::new();
    let mut tls: Vec<String> = Vec::new();
    assert(all.take(0) =~= Seq::empty());
    assert(http.deep_view() =~= Seq::empty());
    assert(tls.deep_view() =~= Seq::empty());
    proof {
        lemma_then_nothing(start);
    }
    for i in 0..cfg.servers.entries.len()
        invariant
            all == cfg.servers.deep_view(),
            wv == w.deep_view(),
            report@ == then_report(start, each_server_findings(all.take(i as int), wv)),
            http.deep_view() == http_listens(all.take(i as int)),
            tls.deep_view() == tls_listens(all.take(i as int)),
    {
        assert(all.take(i + 1).drop_last() =~= all.take(i as int));
        let name = cfg.servers.entries[i].0.as_str();
        let server = &cfg.servers.entries[i].1;
        assert(all.take(i + 1).last() == (name@, server.deep_view()));
        validate_server(name, server, w, report);
        proof {
            lemma_then_assoc(
                start,
                each_server_findings(all.take(i as int), wv),
                server_findings(name@, server.deep_view(), wv),
            );
        }
        let ghost hv = http.deep_view();
        let ghost tv = tls.deep_view();
        if !is_blank(server.listen.as_str()) {
            http.push(server.listen.clone());
            assert(http.deep_view() =~= hv.push(server.listen@));
        }
        match &server.tls {
            Some(t) => {
                if !is_blank(t.listen.as_str()) && !list_has(&tls, t.listen.as_str()) {
                    tls.push(t.listen.clone());
                    assert(tls.deep_view() =~= tv.push(t.listen@));
                }
            },
            None => {},
        }
    }
    assert(all.take(cfg.servers.entries@.len() as int) =~= all);
    validate_conflicts(&tls, &http, report);
    proof {
        lemma_then_assoc(
            start,
            each_server_findings(all, wv),
            conflict_findings(tls_listens(all), http_listens(all)),
        );
    }
}

// ---------------------------------------------------------------------------
// Locations
// ---------------------------------------------------------------------------

/// What is wrong with the path of a location.
pub open spec fn path_findings(name: Seq<char>, l: LocationView) -> ReportView {
    if blank(l.path) {
        failure("location '"@ + name + "' has an empty path"@)
    } else if !text::starts(l.path, "/"@) {
        failure("location '"@ + name + "' path '"@ + l.path + "' must start with '/'"@)
    } else {
        no_findings()
    }
}

/// What is wrong with the prefix that a location strips.
pub open spec fn prefix_findings(name: Seq<char>, l: LocationView) -> ReportView {
    match l.strip_prefix {
        Some(p) => if text::starts(l.path, p) {
            no_findings()
        } else {
            warning(
                "location '"@ + name + "' strip_prefix '"@ + p + "' does not match path '"@
                    + l.path + "'"@,
            )
        },
        None => no_findings(),
    }
}

/// What is wrong with a static location.
pub open spec fn static_findings(
    name: Seq<char>,
    l: LocationView,
    server: ServerView,
    w: SurroundingsView,
) -> ReportView {
    let root = match l.root {
        Some(r) => r,
        None => server.root,
    };
    then_report(
        if l.upstream is Some {
            warning("location '"@ + name + "' is static but defines an upstream"@)
        } else {
            no_findings()
        },
        if !blank(root) && !w.existing.contains(root) {
            warning("location '"@ + name + "' root '"@ + root + "' does not exist"@)
        } else {
            no_findings()
        },
    )
}

/// What is wrong with a proxy location. A proxy location without an upstream
/// is not looked at further.
pub open spec fn proxy_findings(
    name: Seq<char>,
    l: LocationView,
    ups: Seq<(Seq<char>, UpstreamView)>,
) -> ReportView {
    match l.upstream {
        None => failure("location '"@ + name + "' is proxy but no upstream is configured"@),
        Some(u) => then_report(
            if named::has_name(ups, u) {
                no_findings()
            } else {
                failure("location '"@ + name + "' references unknown upstream '"@ + u + "'"@)
            },
            if l.cache == Some(true) {
                warning("location '"@ + name + "' enables cache but is not static"@)
            } else {
                no_findings()
            },
        ),
    }
}

/// What is wrong with one location.
pub open spec fn location_findings(
    name: Seq<char>,
    l: LocationView,
    c: ConfigView,
    w: SurroundingsView,
) -> ReportView {
    if blank(l.server) {
        failure("location '"@ + name + "' has an empty server reference"@)
    } else {
        match named::find(c.servers, l.server) {
            None => failure(
                "location '"@ + name + "' references unknown server '"@ + l.server + "'"@,
            ),
            Some(server) => then_report(
                then_report(path_findings(name, l), prefix_findings(name, l)),
                match l.kind {
                    LocationType::Static => static_findings(name, l, server, w),
                    LocationType::Proxy => proxy_findings(name, l, c.upstream),
                },
            ),
        }
    }
}

/// What is wrong with the locations.
pub open spec fn locations_findings(
    ls: Seq<(Seq<char>, LocationView)>,
    c: ConfigView,
    w: SurroundingsView,
) -> ReportView
    decreases ls.len(),
{
    if ls.len() == 0 {
        no_findings()
    } else {
        then_report(
            locations_findings(ls.drop_last(), c, w),
            location_findings(ls.last().0, ls.last().1, c, w),
        )
    }
}

/// Checks the path of a location and the prefix that it strips.
fn validate_path(name: &str, l: &LocationConfig, report: &mut ConfigReport)
    ensures
        final(report)@ == then_report(
            old(report)@,
            then_report(path_findings(name@, l.deep_view()), prefix_findings(name@, l.deep_view())),
        ),
{
    let ghost start = report@;
    let path = l.path.as_str();
    if is_blank(path) {
        report.error(concat3("location '", name, "' has an empty path"));
    } else if !str_starts_with(path, "/") {
        report.error(concat5("location '", name, "' path '", path, "' must start with '/'"));
    }
    assert(report@ =~= then_report(start, path_findings(name@, l.deep_view())));
    match &l.strip_prefix {
        Some(p) => {
            if !str_starts_with(path, p.as_str()) {
                report.warn(
                    concat7(
                        "location '",
                        name,
                        "' strip_prefix '",
                        p.as_str(),
                        "' does not match path '",
                        path,
                        "'",
                    ),
                );
            }
        },
        None => {},
    }
    assert(report@ =~= then_report(
        start,
        then_report(path_findings(name@, l.deep_view()), prefix_findings(name@, l.deep_view())),
    ));
}

/// Checks a static location.
fn validate_static(
    name: &str,
    l: &LocationConfig,
    server: &ServerConfig,
    w: &Surroundings,
    report: &mut ConfigReport,
)
    ensures
        final(report)@ == then_report(
            old(report)@,
            static_findings(name@, l.deep_view(), server.deep_view(), w.deep_view()),
        ),
{
    let ghost start = report@;
    if l.upstream.is_some() {
        report.warn(concat3("location '", name, "' is static but defines an upstream"));
    }
    let root = l.root_or(server.root.as_str());
    if !is_blank(root) && !list_has(&w.existing, root) {
        report.warn(concat5("location '", name, "' root '", root, "' does not exist"));
    }
    assert(report@ =~= then_report(
        start,
        static_findings(name@, l.deep_view(), server.deep_view(), w.deep_view()),
    ));
}

/// Checks a proxy location.
fn validate_proxy(name: &str, l: &LocationConfig, cfg: &MiguxConfig, report: &mut ConfigReport)
    ensures
        final(report)@ == then_report(
            old(report)@,
            proxy_findings(name@, l.deep_view(), cfg.upstream.deep_view()),
        ),
{
    let ghost start = report@;
    match &l.upstream {
        None => {
            report.error(concat3("location '", name, "' is proxy but no upstream is configured"));
        },
        Some(u) => {
            if !cfg.upstream.contains(u.as_str()) {
                report.error(
                    concat5("location '", name, "' references unknown upstream '", u.as_str(), "'"),
                );
            }
            let cached = match l.cache {
                Some(b) => b,
                None => false,
            };
            if cached {
                report.warn(concat3("location '", name, "' enables cache but is not static"));
            }
        },
    }
    assert(report@ =~= then_report(
        start,
        proxy_findings(name@, l.deep_view(), cfg.upstream.deep_view()),
    ));
}

/// Checks one location.
fn validate_location(
    name: &str,
    l: &LocationConfig,
    cfg: &MiguxConfig,
    w: &Surroundings,
    report: &mut ConfigReport,
)
    ensures
        final(report)@ == then_report(
            old(report)@,
            location_findings(name@, l.deep_view(), cfg.deep_view(), w.deep_view()),
        ),
{
    let ghost start = report@;
    if is_blank(l.server.as_str()) {
        report.error(concat3("location '", name, "' has an empty server reference"));
        return;
    }
    match cfg.servers.get(l.server.as_str()) {
        None => {
            report.error(
                concat5(
                    "location '",
                    name,
                    "' references unknown server '",
                    l.server.as_str(),
                    "'",
                ),
            );
        },
        Some(server) => {
            validate_path(name, l, report);
            let ghost first = then_report(
                path_findings(name@, l.deep_view()),
                prefix_findings(name@, l.deep_view()),
            );
            match l.kind {
                LocationType::Static => {
                    proof {
                        lemma_then_assoc(
                            start,
                            first,
                            static_findings(
                                name@,
                                l.deep_view(),
                                server.deep_view(),
                                w.deep_view(),
                            ),
                        );
                    }
                    validate_static(name, l, server, w, report);
                },
                LocationType::Proxy => {
                    proof {
                        lemma_then_assoc(
                            start,
                            first,
                            proxy_findings(name@, l.deep_view(), cfg.upstream.deep_view()),
                        );
                    }
                    validate_proxy(name, l, cfg, report);
                },
            }
        },
    }
}

/// Checks the locations.
fn validate_locations(cfg: &MiguxConfig, w: &Surroundings, report: &mut ConfigReport)
    ensures
        final(report)@ == then_report(
            old(report)@,
            locations_findings(cfg.location.deep_view(), cfg.deep_view(), w.deep_view()),
        ),
{
    let ghost start = report@;
    let ghost all = cfg.location.deep_view();
    let ghost c = cfg.deep_view();
    let ghost wv = w.deep_view();
    assert(all.take(0) =~= Seq::empty());
    proof {
        lemma_then_nothing(start);
    }
    for i in 0..cfg.location.entries.len()
        invariant
            all == cfg.location.deep_view(),
            c == cfg.deep_view(),
            wv == w.deep_view(),
            report@ == then_report(start, locations_findings(all.take(i as int), c, wv)),
    {
        assert(all.take(i + 1).drop_last() =~= all.take(i as int));
        let name = cfg.location.entries[i].0.as_str();
        let l = &cfg.location.entries[i].1;
        assert(all.take(i + 1).last() == (name@, l.deep_view()));
        validate_location(name, l, cfg, w, report);
        proof {
            lemma_then_assoc(
                start,
                locations_findings(all.take(i as int), c, wv),
                location_findings(name@, l.deep_view(), c, wv),
            );
        }
    }
    assert(all.take(cfg.location.entries@.len() as int) =~= all);
}

// ---------------------------------------------------------------------------
// The whole configuration
// ---------------------------------------------------------------------------

/// What is wrong with a configuration.
pub open spec fn findings(c: ConfigView, w: SurroundingsView) -> ReportView {
    then_report(
        then_report(
            then_report(cache_findings(c.http, w), upstreams_findings(c.upstream)),
            servers_findings(c.servers, w),
        ),
        locations_findings(c.location, c, w),
    )
}

/// Checks a configuration.
pub fn validate(cfg: &MiguxConfig, w: &Surroundings) -> (r: ConfigReport)
    ensures
        r@ == findings(cfg.deep_view(), w.deep_view()),
        r@.errors.len() > 0 <==> config_is_faulty(cfg.deep_view(), w.deep_view()),
{
    let mut report = ConfigReport::default();
    validate_http_cache(cfg, w, &mut report);
    proof {
        lemma_then_nothing(cache_findings(cfg.deep_view().http, w.deep_view()));
    }
    validate_upstreams(cfg, &mut report);
    validate_servers(cfg, w, &mut report);
    validate_locations(cfg, w, &mut report);
    proof {
        errors_tell_of_faults(cfg.deep_view(), w.deep_view());
    }
    report
}

/// Whether a location can be served: its server is there, its path is
/// absolute, and a proxy location has an upstream that is there.
pub open spec fn location_servable(l: LocationView, c: ConfigView) -> bool {
    &&& named::find(c.servers, l.server) is Some
    &&& text::starts(l.path, "/"@)
    &&& l.kind == LocationType::Proxy ==> (l.upstream matches Some(u) && named::has_name(
        c.upstream,
        u,
    ))
}

proof fn lemma_location_without_errors(
    ls: Seq<(Seq<char>, LocationView)>,
    c: ConfigView,
    w: SurroundingsView,
    i: int,
)
    requires
        locations_findings(ls, c, w).errors.len() == 0,
        0 <= i < ls.len(),
    ensures
        location_servable(ls[i].1, c),
    decreases ls.len(),
{
    if i < ls.len() - 1 {
        lemma_location_without_errors(ls.drop_last(), c, w, i);
    } else {
        assert(location_findings(ls[i].0, ls[i].1, c, w).errors.len() == 0);
    }
}

proof fn lemma_no_conflict(tls: Seq<Seq<char>>, http: Seq<Seq<char>>, i: int)
    requires
        conflict_findings(tls, http).errors.len() == 0,
        0 <= i < tls.len(),
    ensures
        !http.contains(tls[i]),
    decreases tls.len(),
{
    if i < tls.len() - 1 {
        lemma_no_conflict(tls.drop_last(), http, i);
    }
}

/// A configuration without errors has a server, only locations that can be
/// served, and no address at which both HTTP and TLS listen.
pub proof fn valid_config_is_servable(c: ConfigView, w: SurroundingsView)
    requires
        findings(c, w).errors.len() == 0,
    ensures
        c.servers.len() > 0,
        forall|i: int| 0 <= i < c.location.len() ==> location_servable((#[trigger] c.location[i]).1, c),
        forall|i: int|
            0 <= i < tls_listens(c.servers).len() ==> !http_listens(c.servers).contains(
                #[trigger] tls_listens(c.servers)[i],
            ),
{
    assert forall|i: int| 0 <= i < c.location.len() implies location_servable(
        (#[trigger] c.location[i]).1,
        c,
    ) by {
        lemma_location_without_errors(c.location, c, w, i);
    }
    assert forall|i: int| 0 <= i < tls_listens(c.servers).len() implies !http_listens(
        c.servers,
    ).contains(#[trigger] tls_listens(c.servers)[i]) by {
        lemma_no_conflict(tls_listens(c.servers), http_listens(c.servers), i);
    }
}

// ---------------------------------------------------------------------------
// Which configurations have errors
// ---------------------------------------------------------------------------

/// Whether the directory of the cache is something else.
pub open spec fn cache_is_faulty(h: HttpView, w: SurroundingsView) -> bool {
    h.cache_dir matches Some(dir) && w.existing.contains(dir) && !w.directories.contains(dir)
}

/// Whether an upstream has no server, or one with a blank address.
pub open spec fn upstream_is_faulty(u: UpstreamView) -> bool {
    match u.server {
        ServersView::One(s) => blank(s),
        ServersView::Many(l) => l.len() == 0 || exists|i: int|
            0 <= i < l.len() && blank(#[trigger] l[i]),
    }
}

/// Whether TLS settings lack something, name a file that is not there, or
/// listen where one of the servers listens for HTTP.
pub open spec fn tls_is_faulty(
    t: TlsView,
    ss: Seq<(Seq<char>, ServerView)>,
    w: SurroundingsView,
) -> bool {
    ||| blank(t.listen)
    ||| blank(t.cert_path)
    ||| blank(t.key_path)
    ||| !w.files.contains(t.cert_path)
    ||| !w.files.contains(t.key_path)
    ||| exists|i: int| 0 <= i < ss.len() && (#[trigger] ss[i]).1.listen == t.listen
}

/// Whether a server has a blank listen address or faulty TLS settings.
pub open spec fn server_is_faulty(
    s: ServerView,
    ss: Seq<(Seq<char>, ServerView)>,
    w: SurroundingsView,
) -> bool {
    ||| blank(s.listen)
    ||| s.tls matches Some(t) && tls_is_faulty(t, ss, w)
}

/// Whether a location has a blank or unknown server, a path that does not begin
/// with a slash, or is a proxy without an upstream or with an unknown one.
pub open spec fn location_is_faulty(l: LocationView, c: ConfigView) -> bool {
    ||| blank(l.server)
    ||| !named::has_name(c.servers, l.server)
    ||| !text::starts(l.path, "/"@)
    ||| l.kind == LocationType::Proxy && (match l.upstream {
        None => true,
        Some(u) => !named::has_name(c.upstream, u),
    })
}

/// Whether a configuration has no server, or something in it is faulty.
pub open spec fn config_is_faulty(c: ConfigView, w: SurroundingsView) -> bool {
    ||| c.servers.len() == 0
    ||| cache_is_faulty(c.http, w)
    ||| exists|i: int| 0 <= i < c.upstream.len() && upstream_is_faulty((#[trigger] c.upstream[i]).1)
    ||| exists|i: int|
        0 <= i < c.servers.len() && server_is_faulty((#[trigger] c.servers[i]).1, c.servers, w)
    ||| exists|i: int| 0 <= i < c.location.len() && location_is_faulty((#[trigger] c.location[i]).1, c)
}

proof fn lemma_entry_errors(name: Seq<char>, l: Seq<Seq<char>>)
    ensures
        entry_errors(name, l).len() > 0 <==> exists|i: int|
            0 <= i < l.len() && blank(#[trigger] l[i]),
    decreases l.len(),
{
    if l.len() > 0 {
        let rest = l.drop_last();
        lemma_entry_errors(name, rest);
        if exists|i: int| 0 <= i < l.len() && blank(#[trigger] l[i]) {
            let i = choose|i: int| 0 <= i < l.len() && blank(#[trigger] l[i]);
            if i < rest.len() {
                assert(blank(rest[i]));
            }
        }
        if exists|i: int| 0 <= i < rest.len() && blank(#[trigger] rest[i]) {
            let i = choose|i: int| 0 <= i < rest.len() && blank(#[trigger] rest[i]);
            assert(blank(l[i]));
        }
        assert(l.last() == l[l.len() - 1]);
    }
}

proof fn lemma_upstream_errors(us: Seq<(Seq<char>, UpstreamView)>)
    ensures
        upstreams_findings(us).errors.len() > 0 <==> exists|i: int|
            0 <= i < us.len() && upstream_is_faulty((#[trigger] us[i]).1),
    decreases us.len(),
{
    if us.len() > 0 {
        let rest = us.drop_last();
        let u = us[us.len() - 1];
        lemma_upstream_errors(rest);
        match u.1.server {
            ServersView::One(_) => {},
            ServersView::Many(l) => {
                lemma_entry_errors(u.0, l);
            },
        }
        assert(upstream_errors(u.0, u.1).len() > 0 <==> upstream_is_faulty(u.1));
        assert(forall|i: int| 0 <= i < rest.len() ==> #[trigger] rest[i] == us[i]);
        if exists|i: int| 0 <= i < us.len() && upstream_is_faulty((#[trigger] us[i]).1) {
            let i = choose|i: int| 0 <= i < us.len() && upstream_is_faulty((#[trigger] us[i]).1);
            if i < rest.len() {
                assert(upstream_is_faulty(rest[i].1));
            }
        }
    }
}

/// Whether a server by itself has an error.
spec fn alone_faulty(s: ServerView, w: SurroundingsView) -> bool {
    ||| blank(s.listen)
    ||| s.tls matches Some(t) && tls_is_faulty(t, seq![], w)
}

proof fn lemma_each_server_errors(ss: Seq<(Seq<char>, ServerView)>, w: SurroundingsView)
    ensures
        each_server_findings(ss, w).errors.len() > 0 <==> exists|i: int|
            0 <= i < ss.len() && alone_faulty((#[trigger] ss[i]).1, w),
    decreases ss.len(),
{
    if ss.len() > 0 {
        let rest = ss.drop_last();
        let s = ss[ss.len() - 1];
        lemma_each_server_errors(rest, w);
        assert(server_findings(s.0, s.1, w).errors.len() > 0 <==> alone_faulty(s.1, w));
        assert(forall|i: int| 0 <= i < rest.len() ==> #[trigger] rest[i] == ss[i]);
        if exists|i: int| 0 <= i < ss.len() && alone_faulty((#[trigger] ss[i]).1, w) {
            let i = choose|i: int| 0 <= i < ss.len() && alone_faulty((#[trigger] ss[i]).1, w);
            if i < rest.len() {
                assert(alone_faulty(rest[i].1, w));
            }
        }
    }
}

proof fn lemma_http_listens(ss: Seq<(Seq<char>, ServerView)>, a: Seq<char>)
    ensures
        http_listens(ss).contains(a) <==> !blank(a) && exists|i: int|
            0 <= i < ss.len() && (#[trigger] ss[i]).1.listen == a,
    decreases ss.len(),
{
    if ss.len() > 0 {
        let rest = ss.drop_last();
        let s = ss[ss.len() - 1];
        let before = http_listens(rest);
        lemma_http_listens(rest, a);
        assert(forall|i: int| 0 <= i < rest.len() ==> #[trigger] rest[i] == ss[i]);
        if exists|i: int| 0 <= i < ss.len() && (#[trigger] ss[i]).1.listen == a {
            let i = choose|i: int| 0 <= i < ss.len() && (#[trigger] ss[i]).1.listen == a;
            if i < rest.len() {
                assert(rest[i].1.listen == a);
            }
        }
        lemma_pushed(before, s.1.listen, a);
    }
}

proof fn lemma_tls_listens(ss: Seq<(Seq<char>, ServerView)>, a: Seq<char>)
    ensures
        tls_listens(ss).contains(a) <==> !blank(a) && exists|i: int|
            0 <= i < ss.len() && ((#[trigger] ss[i]).1.tls matches Some(t) && t.listen == a),
    decreases ss.len(),
{
    if ss.len() > 0 {
        let rest = ss.drop_last();
        let s = ss[ss.len() - 1];
        let before = tls_listens(rest);
        lemma_tls_listens(rest, a);
        assert(forall|i: int| 0 <= i < rest.len() ==> #[trigger] rest[i] == ss[i]);
        if exists|i: int|
            0 <= i < ss.len() && ((#[trigger] ss[i]).1.tls matches Some(t) && t.listen == a) {
            let i = choose|i: int|
                0 <= i < ss.len() && ((#[trigger] ss[i]).1.tls matches Some(t) && t.listen == a);
            if i < rest.len() {
                assert(rest[i].1.tls == ss[i].1.tls);
            }
        }
        match s.1.tls {
            Some(t) => {
                lemma_pushed(before, t.listen, a);
            },
            None => {},
        }
    }
}

proof fn lemma_pushed(s: Seq<Seq<char>>, last: Seq<char>, a: Seq<char>)
    ensures
        s.push(last).contains(a) <==> s.contains(a) || last == a,
{
    let t = s.push(last);
    if s.contains(a) {
        let i = choose|i: int| 0 <= i < s.len() && s[i] == a;
        assert(t[i] == a);
    }
    if last == a {
        assert(t[s.len() as int] == a);
    }
    if t.contains(a) {
        let i = choose|i: int| 0 <= i < t.len() && t[i] == a;
        if i < s.len() {
            assert(s[i] == a);
        }
    }
}

proof fn lemma_conflict_errors(tls: Seq<Seq<char>>, http: Seq<Seq<char>>)
    ensures
        conflict_findings(tls, http).errors.len() > 0 <==> exists|a: Seq<char>| #[trigger]
            tls.contains(a) && http.contains(a),
    decreases tls.len(),
{
    if tls.len() > 0 {
        let rest = tls.drop_last();
        lemma_conflict_errors(rest, http);
        assert(rest.push(tls.last()) =~= tls);
        assert forall|a: Seq<char>| #[trigger] tls.contains(a) == (rest.contains(a) || tls.last()
            == a) by {
            lemma_pushed(rest, tls.last(), a);
        }
        assert(tls.contains(tls.last()));
        if exists|a: Seq<char>| #[trigger] rest.contains(a) && http.contains(a) {
            let a = choose|a: Seq<char>| #[trigger] rest.contains(a) && http.contains(a);
            assert(tls.contains(a));
        }
        if exists|a: Seq<char>| #[trigger] tls.contains(a) && http.contains(a) {
            let a = choose|a: Seq<char>| #[trigger] tls.contains(a) && http.contains(a);
            if a != tls.last() {
                assert(rest.contains(a));
            }
        }
    }
}

proof fn lemma_server_errors(ss: Seq<(Seq<char>, ServerView)>, w: SurroundingsView)
    requires
        ss.len() > 0,
    ensures
        servers_findings(ss, w).errors.len() > 0 <==> exists|i: int|
            0 <= i < ss.len() && server_is_faulty((#[trigger] ss[i]).1, ss, w),
{
    let (tls, http) = (tls_listens(ss), http_listens(ss));
    lemma_each_server_errors(ss, w);
    lemma_conflict_errors(tls, http);
    if servers_findings(ss, w).errors.len() > 0 {
        if each_server_findings(ss, w).errors.len() > 0 {
            let i = choose|i: int| 0 <= i < ss.len() && alone_faulty((#[trigger] ss[i]).1, w);
            assert(server_is_faulty(ss[i].1, ss, w));
        } else {
            let a = choose|a: Seq<char>| #[trigger] tls.contains(a) && http.contains(a);
            lemma_tls_listens(ss, a);
            lemma_http_listens(ss, a);
            let i = choose|i: int|
                0 <= i < ss.len() && ((#[trigger] ss[i]).1.tls matches Some(t) && t.listen == a);
            assert(server_is_faulty(ss[i].1, ss, w));
        }
    }
    if exists|i: int| 0 <= i < ss.len() && server_is_faulty((#[trigger] ss[i]).1, ss, w) {
        let i = choose|i: int| 0 <= i < ss.len() && server_is_faulty((#[trigger] ss[i]).1, ss, w);
        if alone_faulty(ss[i].1, w) {
            assert(each_server_findings(ss, w).errors.len() > 0);
        } else {
            let a = ss[i].1.tls->Some_0.listen;
            lemma_tls_listens(ss, a);
            lemma_http_listens(ss, a);
            assert(tls.contains(a) && http.contains(a));
        }
    }
}

/// What begins with something else than white space is not blank.
proof fn lemma_not_blank(s: Seq<char>)
    requires
        s.len() > 0,
        !text::is_white(s[0]),
    ensures
        text::trim_end(s, text::Class::White).len() > 0,
        !blank(s),
    decreases s.len(),
{
    if text::is_white(s.last()) {
        lemma_not_blank(s.drop_last());
    }
}

proof fn lemma_location_errors(
    ls: Seq<(Seq<char>, LocationView)>,
    c: ConfigView,
    w: SurroundingsView,
)
    ensures
        locations_findings(ls, c, w).errors.len() > 0 <==> exists|i: int|
            0 <= i < ls.len() && location_is_faulty((#[trigger] ls[i]).1, c),
    decreases ls.len(),
{
    if ls.len() > 0 {
        let rest = ls.drop_last();
        let l = ls[ls.len() - 1];
        lemma_location_errors(rest, c, w);
        named::lemma_found_by_name(c.servers, l.1.server);
        reveal_strlit("/");
        if text::starts(l.1.path, "/"@) {
            assert(l.1.path.take(1)[0] == '/');
            lemma_not_blank(l.1.path);
        }
        assert(location_findings(l.0, l.1, c, w).errors.len() > 0 <==> location_is_faulty(l.1, c));
        assert(forall|i: int| 0 <= i < rest.len() ==> #[trigger] rest[i] == ls[i]);
        if exists|i: int| 0 <= i < ls.len() && location_is_faulty((#[trigger] ls[i]).1, c) {
            let i = choose|i: int| 0 <= i < ls.len() && location_is_faulty((#[trigger] ls[i]).1, c);
            if i < rest.len() {
                assert(location_is_faulty(rest[i].1, c));
            }
        }
    }
}

/// A configuration has errors if and only if it has no server, its cache
/// directory is something else, or one of its upstreams, servers or locations
/// is faulty.
pub proof fn errors_tell_of_faults(c: ConfigView, w: SurroundingsView)
    ensures
        findings(c, w).errors.len() > 0 <==> config_is_faulty(c, w),
{
    lemma_upstream_errors(c.upstream);
    if c.servers.len() > 0 {
        lemma_server_errors(c.servers, w);
    }
    lemma_location_errors(c.location, c, w);
    assert(cache_findings(c.http, w).errors.len() > 0 <==> cache_is_faulty(c.http, w));
}

impl MiguxConfig {
    /// Checks the configuration.
    pub fn validate(&self, w: &Surroundings) -> (r: ConfigReport)
        ensures
            r@ == findings(self.deep_view(), w.deep_view()),
            r@.errors.len() > 0 <==> config_is_faulty(self.deep_view(), w.deep_view()),
    {
        self::validate(self, w)
    }

    /// The configuration to use, given what came of reading it from a file:
    /// the one that was read, if it has no errors, and else the default one.
    /// The second result is what to tell the operator, line by line.
    pub fn from_file_or_default(
        file_name: &str,
        loaded: Result<MiguxConfig, String>,
        w: &Surroundings,
    ) -> (r: (MiguxConfig, Vec<String>))
        ensures
            r.0.deep_view() == (match loaded {
                Ok(c) => if findings(c.deep_view(), w.deep_view()).errors.len() == 0 {
                    c.deep_view()
                } else {
                    migux::default_config()
                },
                Err(_) => migux::default_config(),
            }),
            r.1.deep_view() == load_messages(
                file_name@,
                match loaded {
                    Ok(c) => Ok(findings(c.deep_view(), w.deep_view())),
                    Err(e) => Err(e@),
                },
            ),
    {
        let mut said: Vec<String> = Vec::new();
        match loaded {
            Ok(c) => {
                let report = c.validate(w);
                if report.has_errors() {
                    said.push(concat3("⚠️  Invalid config in '", file_name, "':"));
                    said.push(report.format());
                    said.push(copy_str("➡️  Using default config(in-memory)..."));
                    assert(said.deep_view() =~= load_messages(file_name@, Ok(report@)));
                    (MiguxConfig::default(), said)
                } else {
                    if report.warnings().len() > 0 {
                        said.push(concat3("⚠️  Config warnings in '", file_name, "':"));
                        said.push(report.format());
                    }
                    assert(said.deep_view() =~= load_messages(file_name@, Ok(report@)));
                    (c, said)
                }
            },
            Err(e) => {
                said.push(concat5("⚠️  Error reading config'", file_name, "': ", e.as_str(), ""));
                said.push(copy_str("➡️  Using default config(in-memory)..."));
                assert(said.deep_view() =~= load_messages(file_name@, Err(e@))) by {
                    reveal_strlit("");
                    assert(said@[0]@ =~= "⚠️  Error reading config'"@ + file_name@ + "': "@ + e@);
                }
                (MiguxConfig::default(), said)
            },
        }
    }
}

/// What to tell the operator about the reading of the configuration.
pub open spec fn load_messages(
    file_name: Seq<char>,
    outcome: Result<ReportView, Seq<char>>,
) -> Seq<Seq<char>> {
    match outcome {
        Ok(v) => if v.errors.len() > 0 {
            seq![
                "⚠️  Invalid config in '"@ + file_name + "':"@,
                report_text(v),
                "➡️  Using default config(in-memory)..."@,
            ]
        } else if v.warnings.len() > 0 {
            seq!["⚠️  Config warnings in '"@ + file_name + "':"@, report_text(v)]
        } else {
            Seq::empty()
        },
        Err(e) => seq![
            "⚠️  Error reading config'"@ + file_name + "': "@ + e,
            "➡️  Using default config(in-memory)..."@,
        ],
    }
}

// ---------------------------------------------------------------------------
// What is told of each section
// ---------------------------------------------------------------------------

/// Whether a report holds all findings of another.
pub open spec fn within(part: ReportView, whole: ReportView) -> bool {
    &&& forall|m: Seq<char>| #[trigger] part.errors.contains(m) ==> whole.errors.contains(m)
    &&& forall|m: Seq<char>| #[trigger] part.warnings.contains(m) ==> whole.warnings.contains(m)
}

proof fn lemma_both_within(a: ReportView, b: ReportView)
    ensures
        within(a, then_report(a, b)),
        within(b, then_report(a, b)),
{
    let r = then_report(a, b);
    assert forall|m: Seq<char>| #[trigger] a.errors.contains(m) implies r.errors.contains(m) by {
        let i = choose|i: int| 0 <= i < a.errors.len() && a.errors[i] == m;
        assert(r.errors[i] == m);
    }
    assert forall|m: Seq<char>| #[trigger] a.warnings.contains(m) implies r.warnings.contains(m) by {
        let i = choose|i: int| 0 <= i < a.warnings.len() && a.warnings[i] == m;
        assert(r.warnings[i] == m);
    }
    assert forall|m: Seq<char>| #[trigger] b.errors.contains(m) implies r.errors.contains(m) by {
        let i = choose|i: int| 0 <= i < b.errors.len() && b.errors[i] == m;
        assert(r.errors[a.errors.len() + i] == m);
    }
    assert forall|m: Seq<char>| #[trigger] b.warnings.contains(m) implies r.warnings.contains(m) by {
        let i = choose|i: int| 0 <= i < b.warnings.len() && b.warnings[i] == m;
        assert(r.warnings[a.warnings.len() + i] == m);
    }
}

proof fn lemma_said(m: Seq<char>)
    ensures
        failure(m).errors.contains(m),
        warning(m).warnings.contains(m),
{
    assert(failure(m).errors[0] == m);
    assert(warning(m).warnings[0] == m);
}

proof fn lemma_sections_within(c: ConfigView, w: SurroundingsView)
    ensures
        within(cache_findings(c.http, w), findings(c, w)),
        within(upstreams_findings(c.upstream), findings(c, w)),
        within(servers_findings(c.servers, w), findings(c, w)),
        within(locations_findings(c.location, c, w), findings(c, w)),
{
    let a = then_report(cache_findings(c.http, w), upstreams_findings(c.upstream));
    let b = then_report(a, servers_findings(c.servers, w));
    lemma_both_within(cache_findings(c.http, w), upstreams_findings(c.upstream));
    lemma_both_within(a, servers_findings(c.servers, w));
    lemma_both_within(b, locations_findings(c.location, c, w));
}

proof fn lemma_location_within(
    ls: Seq<(Seq<char>, LocationView)>,
    c: ConfigView,
    w: SurroundingsView,
    i: int,
)
    requires
        0 <= i < ls.len(),
    ensures
        within(location_findings(ls[i].0, ls[i].1, c, w), locations_findings(ls, c, w)),
    decreases ls.len(),
{
    let rest = locations_findings(ls.drop_last(), c, w);
    let last = location_findings(ls.last().0, ls.last().1, c, w);
    lemma_both_within(rest, last);
    if i < ls.len() - 1 {
        lemma_location_within(ls.drop_last(), c, w, i);
    }
}

proof fn lemma_server_within(ss: Seq<(Seq<char>, ServerView)>, w: SurroundingsView, i: int)
    requires
        0 <= i < ss.len(),
    ensures
        within(server_findings(ss[i].0, ss[i].1, w), each_server_findings(ss, w)),
    decreases ss.len(),
{
    let rest = each_server_findings(ss.drop_last(), w);
    let last = server_findings(ss.last().0, ss.last().1, w);
    lemma_both_within(rest, last);
    if i < ss.len() - 1 {
        lemma_server_within(ss.drop_last(), w, i);
    }
}

proof fn lemma_upstream_within(us: Seq<(Seq<char>, UpstreamView)>, i: int)
    requires
        0 <= i < us.len(),
    ensures
        within(
            (ReportView { warnings: Seq::empty(), errors: upstream_errors(us[i].0, us[i].1) }),
            upstreams_findings(us),
        ),
    decreases us.len(),
{
    let rest = upstreams_findings(us.drop_last());
    let last = ReportView {
        warnings: Seq::empty(),
        errors: upstream_errors(us.last().0, us.last().1),
    };
    lemma_both_within(rest, last);
    if i < us.len() - 1 {
        lemma_upstream_within(us.drop_last(), i);
    }
}

/// What is wrong with a location is told, each fault in words of its own.
#[verifier::rlimit(40)]
pub proof fn location_findings_are_told(c: ConfigView, w: SurroundingsView, i: int)
    requires
        0 <= i < c.location.len(),
    ensures
        ({
            let name = c.location[i].0;
            let l = c.location[i].1;
            let r = findings(c, w);
            let known = !blank(l.server) && named::has_name(c.servers, l.server);
            let stat = l.kind == LocationType::Static;
            &&& blank(l.server) ==> r.errors.contains(
                "location '"@ + name + "' has an empty server reference"@,
            )
            &&& !blank(l.server) && !named::has_name(c.servers, l.server) ==> r.errors.contains(
                "location '"@ + name + "' references unknown server '"@ + l.server + "'"@,
            )
            &&& known && blank(l.path) ==> r.errors.contains(
                "location '"@ + name + "' has an empty path"@,
            )
            &&& known && !blank(l.path) && l.path[0] != '/' ==> r.errors.contains(
                "location '"@ + name + "' path '"@ + l.path + "' must start with '/'"@,
            )
            &&& known && l.strip_prefix is Some && !text::starts(l.path, l.strip_prefix->0)
                ==> r.warnings.contains(
                "location '"@ + name + "' strip_prefix '"@ + l.strip_prefix->0
                    + "' does not match path '"@ + l.path + "'"@,
            )
            &&& known && stat && l.upstream is Some ==> r.warnings.contains(
                "location '"@ + name + "' is static but defines an upstream"@,
            )
            &&& known && stat && l.root is Some && !blank(l.root->0) && !w.existing.contains(l.root->0)
                ==> r.warnings.contains(
                "location '"@ + name + "' root '"@ + l.root->0 + "' does not exist"@,
            )
            &&& known && !stat && l.upstream is None ==> r.errors.contains(
                "location '"@ + name + "' is proxy but no upstream is configured"@,
            )
            &&& known && !stat && l.upstream is Some && !named::has_name(c.upstream, l.upstream->0)
                ==> r.errors.contains(
                "location '"@ + name + "' references unknown upstream '"@ + l.upstream->0 + "'"@,
            )
            &&& known && !stat && l.upstream is Some && l.cache == Some(true) ==> r.warnings.contains(
                "location '"@ + name + "' enables cache but is not static"@,
            )
        }),
{
    let name = c.location[i].0;
    let l = c.location[i].1;
    lemma_sections_within(c, w);
    lemma_location_within(c.location, c, w, i);
    named::lemma_found_by_name(c.servers, l.server);
    lemma_said("location '"@ + name + "' has an empty server reference"@);
    lemma_said("location '"@ + name + "' references unknown server '"@ + l.server + "'"@);
    if !blank(l.server) && named::has_name(c.servers, l.server) {
        let server = named::find(c.servers, l.server)->0;
        let paths = then_report(path_findings(name, l), prefix_findings(name, l));
        let kinds = match l.kind {
            LocationType::Static => static_findings(name, l, server, w),
            LocationType::Proxy => proxy_findings(name, l, c.upstream),
        };
        lemma_both_within(path_findings(name, l), prefix_findings(name, l));
        lemma_both_within(paths, kinds);
        assert(within(kinds, findings(c, w)));
        assert(within(path_findings(name, l), findings(c, w)));
        assert(within(prefix_findings(name, l), findings(c, w)));
        lemma_said("location '"@ + name + "' has an empty path"@);
        lemma_said("location '"@ + name + "' path '"@ + l.path + "' must start with '/'"@);
        assert(!blank(l.path) && l.path[0] != '/' ==> !text::starts(l.path, "/"@)) by {
            reveal_strlit("/");
            if text::starts(l.path, "/"@) {
                assert(l.path.take(1)[0] == '/');
            }
        }
        if l.strip_prefix is Some {
            lemma_said(
                "location '"@ + name + "' strip_prefix '"@ + l.strip_prefix->0
                    + "' does not match path '"@ + l.path + "'"@,
            );
        }
        if l.kind == LocationType::Static {
            lemma_static_told(name, l, server, w);
        } else {
            lemma_proxy_told(name, l, c.upstream);
        }
    }
}

proof fn lemma_static_told(name: Seq<char>, l: LocationView, server: ServerView, w: SurroundingsView)
    ensures
        l.upstream is Some ==> static_findings(name, l, server, w).warnings.contains(
            "location '"@ + name + "' is static but defines an upstream"@,
        ),
        l.root is Some && !blank(l.root->0) && !w.existing.contains(l.root->0) ==> static_findings(
            name,
            l,
            server,
            w,
        ).warnings.contains("location '"@ + name + "' root '"@ + l.root->0 + "' does not exist"@),
        l.root is None && !blank(server.root) && !w.existing.contains(server.root) ==> static_findings(
            name,
            l,
            server,
            w,
        ).warnings.contains("location '"@ + name + "' root '"@ + server.root + "' does not exist"@),
{
    let root = match l.root {
        Some(r) => r,
        None => server.root,
    };
    let a = if l.upstream is Some {
        warning("location '"@ + name + "' is static but defines an upstream"@)
    } else {
        no_findings()
    };
    let b = if !blank(root) && !w.existing.contains(root) {
        warning("location '"@ + name + "' root '"@ + root + "' does not exist"@)
    } else {
        no_findings()
    };
    lemma_both_within(a, b);
    lemma_said("location '"@ + name + "' is static but defines an upstream"@);
    lemma_said("location '"@ + name + "' root '"@ + root + "' does not exist"@);
}

proof fn lemma_proxy_told(name: Seq<char>, l: LocationView, ups: Seq<(Seq<char>, UpstreamView)>)
    ensures
        l.upstream is None ==> proxy_findings(name, l, ups).errors.contains(
            "location '"@ + name + "' is proxy but no upstream is configured"@,
        ),
        l.upstream is Some && !named::has_name(ups, l.upstream->0) ==> proxy_findings(
            name,
            l,
            ups,
        ).errors.contains(
            "location '"@ + name + "' references unknown upstream '"@ + l.upstream->0 + "'"@,
        ),
        l.upstream is Some && l.cache == Some(true) ==> proxy_findings(name, l, ups).warnings.contains(
            "location '"@ + name + "' enables cache but is not static"@,
        ),
{
    lemma_said("location '"@ + name + "' is proxy but no upstream is configured"@);
    match l.upstream {
        Some(u) => {
            let a = if named::has_name(ups, u) {
                no_findings()
            } else {
                failure("location '"@ + name + "' references unknown upstream '"@ + u + "'"@)
            };
            let b = if l.cache == Some(true) {
                warning("location '"@ + name + "' enables cache but is not static"@)
            } else {
                no_findings()
            };
            lemma_both_within(a, b);
            lemma_said("location '"@ + name + "' references unknown upstream '"@ + u + "'"@);
            lemma_said("location '"@ + name + "' enables cache but is not static"@);
        },
        None => {},
    }
}

/// What is wrong with a server is told, each fault in words of its own.
#[verifier::rlimit(40)]
pub proof fn server_findings_are_told(c: ConfigView, w: SurroundingsView, i: int)
    requires
        0 <= i < c.servers.len(),
    ensures
        ({
            let name = c.servers[i].0;
            let s = c.servers[i].1;
            let t = s.tls->0;
            let r = findings(c, w);
            let named_files = s.tls is Some && !blank(t.cert_path) && !blank(t.key_path);
            &&& blank(s.listen) ==> r.errors.contains(
                "server '"@ + name + "' has an empty listen address"@,
            )
            &&& !blank(s.listen) && !w.socket_addrs.contains(s.listen) ==> r.warnings.contains(
                "server '"@ + name + "' listen '"@ + s.listen
                    + "' is not a socket address; DNS resolution will be used"@,
            )
            &&& blank(s.root) ==> r.warnings.contains(
                "server '"@ + name + "' has an empty root path"@,
            )
            &&& !blank(s.root) && !w.existing.contains(s.root) ==> r.warnings.contains(
                "server '"@ + name + "' root '"@ + s.root + "' does not exist"@,
            )
            &&& s.tls is Some && blank(t.listen) ==> r.errors.contains(
                "server '"@ + name + "' enables TLS but tls.listen is empty"@,
            )
            &&& s.tls is Some && (blank(t.cert_path) || blank(t.key_path)) ==> r.errors.contains(
                "server '"@ + name + "' TLS config requires cert_path and key_path"@,
            )
            &&& named_files && !w.files.contains(t.cert_path) ==> r.errors.contains(
                "server '"@ + name + "' TLS cert_path '"@ + t.cert_path + "' not found"@,
            )
            &&& named_files && !w.files.contains(t.key_path) ==> r.errors.contains(
                "server '"@ + name + "' TLS key_path '"@ + t.key_path + "' not found"@,
            )
        }),
{
    let name = c.servers[i].0;
    let s = c.servers[i].1;
    let ss = c.servers;
    let own = server_findings(name, s, w);
    lemma_sections_within(c, w);
    lemma_both_within(
        each_server_findings(ss, w),
        conflict_findings(tls_listens(ss), http_listens(ss)),
    );
    lemma_server_within(ss, w, i);
    assert(within(own, findings(c, w)));
    let plain = then_report(listen_findings(name, s, w), root_findings(name, s, w));
    let tls = match s.tls {
        Some(t) => tls_findings(name, t, w),
        None => no_findings(),
    };
    lemma_both_within(listen_findings(name, s, w), root_findings(name, s, w));
    lemma_both_within(plain, tls);
    assert(within(listen_findings(name, s, w), findings(c, w)));
    assert(within(root_findings(name, s, w), findings(c, w)));
    assert(within(tls, findings(c, w)));
    lemma_said("server '"@ + name + "' has an empty listen address"@);
    lemma_said(
        "server '"@ + name + "' listen '"@ + s.listen
            + "' is not a socket address; DNS resolution will be used"@,
    );
    lemma_said("server '"@ + name + "' has an empty root path"@);
    lemma_said("server '"@ + name + "' root '"@ + s.root + "' does not exist"@);
    match s.tls {
        Some(t) => {
            lemma_tls_told(name, t, w);
        },
        None => {},
    }
}

proof fn lemma_tls_told(name: Seq<char>, t: TlsView, w: SurroundingsView)
    ensures
        ({
            let r = tls_findings(name, t, w);
            let named_files = !blank(t.cert_path) && !blank(t.key_path);
            &&& blank(t.listen) ==> r.errors.contains(
                "server '"@ + name + "' enables TLS but tls.listen is empty"@,
            )
            &&& blank(t.cert_path) || blank(t.key_path) ==> r.errors.contains(
                "server '"@ + name + "' TLS config requires cert_path and key_path"@,
            )
            &&& named_files && !w.files.contains(t.cert_path) ==> r.errors.contains(
                "server '"@ + name + "' TLS cert_path '"@ + t.cert_path + "' not found"@,
            )
            &&& named_files && !w.files.contains(t.key_path) ==> r.errors.contains(
                "server '"@ + name + "' TLS key_path '"@ + t.key_path + "' not found"@,
            )
        }),
{
    let cert = tls_file_findings(name, "' TLS cert_path '"@, t.cert_path, w);
    let key = tls_file_findings(name, "' TLS key_path '"@, t.key_path, w);
    lemma_both_within(cert, key);
    let a = if blank(t.listen) {
        failure("server '"@ + name + "' enables TLS but tls.listen is empty"@)
    } else {
        no_findings()
    };
    let b = if blank(t.cert_path) || blank(t.key_path) {
        failure("server '"@ + name + "' TLS config requires cert_path and key_path"@)
    } else {
        then_report(cert, key)
    };
    lemma_both_within(a, b);
    lemma_said("server '"@ + name + "' enables TLS but tls.listen is empty"@);
    lemma_said("server '"@ + name + "' TLS config requires cert_path and key_path"@);
    lemma_said("server '"@ + name + "' TLS cert_path '"@ + t.cert_path + "' not found"@);
    lemma_said("server '"@ + name + "' TLS key_path '"@ + t.key_path + "' not found"@);
}

proof fn lemma_conflict_told(tls: Seq<Seq<char>>, http: Seq<Seq<char>>, a: Seq<char>)
    requires
        tls.contains(a),
        http.contains(a),
    ensures
        conflict_findings(tls, http).errors.contains(
            "TLS listen '"@ + a + "' conflicts with an HTTP listen; use separate ports"@,
        ),
    decreases tls.len(),
{
    let rest = tls.drop_last();
    let last = if http.contains(tls.last()) {
        failure(
            "TLS listen '"@ + tls.last() + "' conflicts with an HTTP listen; use separate ports"@,
        )
    } else {
        no_findings()
    };
    lemma_both_within(conflict_findings(rest, http), last);
    lemma_said("TLS listen '"@ + a + "' conflicts with an HTTP listen; use separate ports"@);
    if tls.last() != a {
        let i = choose|i: int| 0 <= i < tls.len() && tls[i] == a;
        assert(rest[i] == a);
        lemma_conflict_told(rest, http, a);
    }
}

/// An address on which one server listens for TLS and another, or the same, without
/// is told of as a conflict. That there is no server is told too.
pub proof fn conflicts_are_told(c: ConfigView, w: SurroundingsView, i: int, j: int)
    ensures
        c.servers.len() == 0 ==> findings(c, w).errors.contains(
            "no [server] sections found; at least one server is required"@,
        ),
        0 <= i < c.servers.len() && 0 <= j < c.servers.len() && c.servers[i].1.tls is Some
            && c.servers[i].1.tls->0.listen == c.servers[j].1.listen && !blank(c.servers[j].1.listen)
            ==> findings(c, w).errors.contains(
            "TLS listen '"@ + c.servers[j].1.listen
                + "' conflicts with an HTTP listen; use separate ports"@,
        ),
{
    lemma_sections_within(c, w);
    lemma_said("no [server] sections found; at least one server is required"@);
    let ss = c.servers;
    if 0 <= i < ss.len() && 0 <= j < ss.len() && ss[i].1.tls is Some && ss[i].1.tls->0.listen
        == ss[j].1.listen && !blank(ss[j].1.listen) {
        let a = ss[j].1.listen;
        lemma_tls_listens(ss, a);
        lemma_http_listens(ss, a);
        lemma_conflict_told(tls_listens(ss), http_listens(ss), a);
        lemma_both_within(
            each_server_findings(ss, w),
            conflict_findings(tls_listens(ss), http_listens(ss)),
        );
    }
}

proof fn lemma_entry_told(name: Seq<char>, servers: Seq<Seq<char>>, k: int)
    requires
        0 <= k < servers.len(),
        blank(servers[k]),
    ensures
        entry_errors(name, servers).contains(
            "upstream '"@ + name + "' server entry at index "@ + number::decimal(k as nat)
                + " is empty"@,
        ),
    decreases servers.len(),
{
    let m = "upstream '"@ + name + "' server entry at index "@ + number::decimal(k as nat)
        + " is empty"@;
    let rest = entry_errors(name, servers.drop_last());
    if k == servers.len() - 1 {
        assert(entry_errors(name, servers)[rest.len() as int] == m);
    } else {
        lemma_entry_told(name, servers.drop_last(), k);
        let i = choose|i: int| 0 <= i < rest.len() && rest[i] == m;
        assert(entry_errors(name, servers)[i] == m);
    }
}

/// What is wrong with an upstream is told: that it has no servers, or which of them
/// has no address.
pub proof fn upstream_findings_are_told(c: ConfigView, w: SurroundingsView, i: int, k: int)
    requires
        0 <= i < c.upstream.len(),
    ensures
        ({
            let name = c.upstream[i].0;
            let r = findings(c, w);
            match c.upstream[i].1.server {
                ServersView::One(s) => blank(s) ==> r.errors.contains(
                    "upstream '"@ + name + "' has an empty server address"@,
                ),
                ServersView::Many(l) => {
                    &&& l.len() == 0 ==> r.errors.contains(
                        "upstream '"@ + name + "' has no servers configured"@,
                    )
                    &&& 0 <= k < l.len() && blank(l[k]) ==> r.errors.contains(
                        "upstream '"@ + name + "' server entry at index "@ + number::decimal(k as nat)
                            + " is empty"@,
                    )
                },
            }
        }),
{
    lemma_sections_within(c, w);
    lemma_upstream_within(c.upstream, i);
    let name = c.upstream[i].0;
    let own = ReportView {
        warnings: Seq::<Seq<char>>::empty(),
        errors: upstream_errors(name, c.upstream[i].1),
    };
    assert(within(own, findings(c, w)));
    match c.upstream[i].1.server {
        ServersView::One(s) => {
            if blank(s) {
                let m = "upstream '"@ + name + "' has an empty server address"@;
                assert(own.errors[0] == m);
                assert(own.errors.contains(m));
            }
        },
        ServersView::Many(l) => {
            if l.len() == 0 {
                let m = "upstream '"@ + name + "' has no servers configured"@;
                assert(own.errors[0] == m);
                assert(own.errors.contains(m));
            }
            if 0 <= k < l.len() && blank(l[k]) {
                lemma_entry_told(name, l, k);
                assert(own.errors.contains(
                    "upstream '"@ + name + "' server entry at index "@ + number::decimal(k as nat)
                        + " is empty"@,
                ));
            }
        },
    }
}

/// What is wrong with the cache is told, where a directory is set for it.
pub proof fn cache_findings_are_told(c: ConfigView, w: SurroundingsView, dir: Seq<char>)
    requires
        c.http.cache_dir == Some(dir),
    ensures
        ({
            let r = findings(c, w);
            &&& w.existing.contains(dir) && !w.directories.contains(dir) ==> r.errors.contains(
                "http.cache_dir '"@ + dir + "' exists but is not a directory"@,
            )
            &&& !w.existing.contains(dir) ==> r.warnings.contains(
                "http.cache_dir '"@ + dir + "' does not exist; it will be created at runtime"@,
            )
            &&& c.http.cache_default_ttl_secs is None || c.http.cache_default_ttl_secs->0 == 0
                ==> r.warnings.contains(
                "http.cache_default_ttl_secs is 0; cache entries will not be stored"@,
            )
            &&& c.http.cache_max_object_bytes is None || c.http.cache_max_object_bytes->0 == 0
                ==> r.warnings.contains(
                "http.cache_max_object_bytes is 0; cache is effectively disabled"@,
            )
        }),
{
    lemma_sections_within(c, w);
    let h = c.http;
    let a = cache_dir_findings(dir, w);
    let b = if h.cache_default_ttl_secs is None || h.cache_default_ttl_secs == Some(0u32) {
        warning("http.cache_default_ttl_secs is 0; cache entries will not be stored"@)
    } else {
        no_findings()
    };
    let d = if h.cache_max_object_bytes is None || h.cache_max_object_bytes == Some(0u64) {
        warning("http.cache_max_object_bytes is 0; cache is effectively disabled"@)
    } else {
        no_findings()
    };
    lemma_both_within(a, b);
    lemma_both_within(then_report(a, b), d);
    assert(within(a, findings(c, w)));
    assert(within(b, findings(c, w)));
    assert(within(d, findings(c, w)));
    lemma_said("http.cache_dir '"@ + dir + "' exists but is not a directory"@);
    lemma_said("http.cache_dir '"@ + dir + "' does not exist; it will be created at runtime"@);
    lemma_said("http.cache_default_ttl_secs is 0; cache entries will not be stored"@);
    lemma_said("http.cache_max_object_bytes is 0; cache is effectively disabled"@);
}

// ---------------------------------------------------------------------------
// What is not told
// ---------------------------------------------------------------------------

/// Nothing is told as an error of a configuration that has a server, whose cache
/// directory is one or is not there yet, whose upstreams have servers with
/// addresses, whose servers listen somewhere, with the files for TLS there and on
/// no address with and without it, and whose locations belong to a server, have a
/// path from the root on and, where they pass requests on, a known upstream.
pub proof fn sound_config_has_no_errors(c: ConfigView, w: SurroundingsView)
    requires
        c.servers.len() > 0,
        c.http.cache_dir is Some && w.existing.contains(c.http.cache_dir->0)
            ==> w.directories.contains(c.http.cache_dir->0),
        forall|i: int|
            0 <= i < c.upstream.len() ==> match (#[trigger] c.upstream[i]).1.server {
                ServersView::One(s) => text::trimmed(s).len() > 0,
                ServersView::Many(l) => l.len() > 0 && forall|k: int|
                    0 <= k < l.len() ==> text::trimmed(#[trigger] l[k]).len() > 0,
            },
        forall|i: int|
            0 <= i < c.servers.len() ==> text::trimmed((#[trigger] c.servers[i]).1.listen).len() > 0,
        forall|i: int|
            0 <= i < c.servers.len() && (#[trigger] c.servers[i]).1.tls is Some ==> {
                let t = c.servers[i].1.tls->0;
                &&& text::trimmed(t.listen).len() > 0
                &&& text::trimmed(t.cert_path).len() > 0 && w.files.contains(t.cert_path)
                &&& text::trimmed(t.key_path).len() > 0 && w.files.contains(t.key_path)
            },
        forall|i: int, j: int|
            0 <= i < c.servers.len() && 0 <= j < c.servers.len() && (
            #[trigger] c.servers[i]).1.tls is Some ==> c.servers[i].1.tls->0.listen != (
            #[trigger] c.servers[j]).1.listen,
        forall|i: int|
            0 <= i < c.location.len() ==> {
                let l = (#[trigger] c.location[i]).1;
                &&& text::trimmed(l.server).len() > 0 && named::has_name(c.servers, l.server)
                &&& l.path.len() > 0 && l.path[0] == '/'
                &&& l.kind == LocationType::Proxy ==> l.upstream is Some && named::has_name(
                    c.upstream,
                    l.upstream->0,
                )
            },
    ensures
        findings(c, w).errors.len() == 0,
{
    reveal_strlit("/");
    errors_tell_of_faults(c, w);
    assert forall|i: int| 0 <= i < c.upstream.len() implies !upstream_is_faulty(
        (#[trigger] c.upstream[i]).1,
    ) by {}
    assert forall|i: int| 0 <= i < c.servers.len() implies !server_is_faulty(
        (#[trigger] c.servers[i]).1,
        c.servers,
        w,
    ) by {}
    assert forall|i: int| 0 <= i < c.location.len() implies !location_is_faulty(
        (#[trigger] c.location[i]).1,
        c,
    ) by {
        let l = c.location[i].1;
        assert(l.path.take(1) =~= "/"@);
    }
}

proof fn lemma_no_upstream_warnings(us: Seq<(Seq<char>, UpstreamView)>)
    ensures
        upstreams_findings(us).warnings.len() == 0,
    decreases us.len(),
{
    if us.len() > 0 {
        lemma_no_upstream_warnings(us.drop_last());
    }
}

proof fn lemma_no_conflict_warnings(tls: Seq<Seq<char>>, http: Seq<Seq<char>>)
    ensures
        conflict_findings(tls, http).warnings.len() == 0,
    decreases tls.len(),
{
    if tls.len() > 0 {
        lemma_no_conflict_warnings(tls.drop_last(), http);
    }
}

proof fn lemma_no_server_warnings(ss: Seq<(Seq<char>, ServerView)>, w: SurroundingsView)
    requires
        forall|i: int|
            0 <= i < ss.len() ==> {
                let s = (#[trigger] ss[i]).1;
                &&& w.socket_addrs.contains(s.listen)
                &&& !blank(s.root) && w.existing.contains(s.root)
            },
    ensures
        each_server_findings(ss, w).warnings.len() == 0,
    decreases ss.len(),
{
    if ss.len() > 0 {
        let rest = ss.drop_last();
        assert forall|i: int| 0 <= i < rest.len() implies {
            let s = (#[trigger] rest[i]).1;
            &&& w.socket_addrs.contains(s.listen)
            &&& !blank(s.root) && w.existing.contains(s.root)
        } by {
            assert(rest[i] == ss[i]);
        }
        lemma_no_server_warnings(rest, w);
        assert(w.existing.contains(ss[ss.len() - 1].1.root));
    }
}

/// Whether nothing about a location is doubtful: it loses no prefix that its path
/// does not have, it has an upstream only where it passes requests on, its root is
/// there where it serves files, and it asks for a cache only there.
pub open spec fn location_is_undoubted(l: LocationView, w: SurroundingsView) -> bool {
    &&& l.strip_prefix is Some ==> text::starts(l.path, l.strip_prefix->0)
    &&& l.kind == LocationType::Static ==> l.upstream is None && l.root is Some && w.existing.contains(
        l.root->0,
    )
    &&& l.kind == LocationType::Proxy ==> l.cache != Some(true)
}

proof fn lemma_no_location_warnings(
    ls: Seq<(Seq<char>, LocationView)>,
    c: ConfigView,
    w: SurroundingsView,
)
    requires
        forall|i: int| 0 <= i < ls.len() ==> location_is_undoubted((#[trigger] ls[i]).1, w),
    ensures
        locations_findings(ls, c, w).warnings.len() == 0,
    decreases ls.len(),
{
    if ls.len() > 0 {
        let rest = ls.drop_last();
        assert forall|i: int| 0 <= i < rest.len() implies location_is_undoubted(
            (#[trigger] rest[i]).1,
            w,
        ) by {
            assert(rest[i] == ls[i]);
        }
        lemma_no_location_warnings(rest, c, w);
        assert(location_is_undoubted(ls[ls.len() - 1].1, w));
    }
}

/// Nothing is told as a warning of a configuration whose cache has a directory, a
/// life and a size, whose servers listen on socket addresses and have a root that
/// is there, and whose locations are not doubtful.
pub proof fn undoubted_config_has_no_warnings(c: ConfigView, w: SurroundingsView)
    requires
        c.http.cache_dir is Some ==> w.existing.contains(c.http.cache_dir->0)
            && c.http.cache_default_ttl_secs is Some && c.http.cache_default_ttl_secs->0 > 0
            && c.http.cache_max_object_bytes is Some && c.http.cache_max_object_bytes->0 > 0,
        forall|i: int|
            0 <= i < c.servers.len() ==> {
                let s = (#[trigger] c.servers[i]).1;
                &&& w.socket_addrs.contains(s.listen)
                &&& text::trimmed(s.root).len() > 0 && w.existing.contains(s.root)
            },
        forall|i: int| 0 <= i < c.location.len() ==> location_is_undoubted((#[trigger] c.location[i]).1, w),
    ensures
        findings(c, w).warnings.len() == 0,
{
    lemma_no_upstream_warnings(c.upstream);
    lemma_no_conflict_warnings(tls_listens(c.servers), http_listens(c.servers));
    lemma_no_server_warnings(c.servers, w);
    lemma_no_location_warnings(c.location, c, w);
}

/// A report is shown with its errors before its warnings, each under a heading and
/// on a line of its own.
pub proof fn reports_are_shown(errors: Seq<Seq<char>>, warnings: Seq<Seq<char>>, m: Seq<char>)
    ensures
        errors.len() > 0 && warnings.len() > 0 ==> report_text((ReportView { warnings, errors }))
            == "Errors:\n"@ + finding_lines(errors) + "\n"@ + "Warnings:\n"@ + finding_lines(warnings),
        errors.len() > 0 ==> report_text((ReportView { warnings: seq![], errors })) == "Errors:\n"@
            + finding_lines(errors),
        warnings.len() > 0 ==> report_text((ReportView { warnings, errors: seq![] }))
            == "Warnings:\n"@ + finding_lines(warnings),
        report_text((ReportView { warnings: seq![], errors: seq![] })) == Seq::<char>::empty(),
        finding_lines(errors.push(m)) == finding_lines(errors) + "  - "@ + m + "\n"@,
        finding_lines(seq![]) == Seq::<char>::empty(),
{
    assert(errors.push(m).drop_last() =~= errors);
    let none = Seq::<char>::empty();
    assert(none + "Warnings:\n"@ =~= "Warnings:\n"@);
}

/// What is told of loading a configuration: nothing where there is nothing to tell,
/// the warnings where there are only those, and the errors with what is used
/// instead.
pub proof fn loading_is_told(file_name: Seq<char>, report: ReportView, fault: Seq<char>)
    ensures
        report.errors.len() == 0 && report.warnings.len() == 0 ==> load_messages(
            file_name,
            Ok(report),
        ).len() == 0,
        report.errors.len() == 0 && report.warnings.len() > 0 ==> load_messages(file_name, Ok(report))
            == seq!["⚠️  Config warnings in '"@ + file_name + "':"@, report_text(report)],
        report.errors.len() > 0 ==> load_messages(file_name, Ok(report)) == seq![
            "⚠️  Invalid config in '"@ + file_name + "':"@,
            report_text(report),
            "➡️  Using default config(in-memory)..."@,
        ],
        load_messages(file_name, Err(fault)) == seq![
            "⚠️  Error reading config'"@ + file_name + "': "@ + fault,
            "➡️  Using default config(in-memory)..."@,
        ],
{
}

} // verus!
