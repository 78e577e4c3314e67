//! Answers of static locations: from a request path to a file, and from what
//! is known of the file to a response.
use crate::buffer::copy_bytes;
use crate::dates::{self, format_date};
use crate::media::{self, content_type_for_path};
use crate::migux_config::{HttpConfig, LocationConfig, ServerConfig};
use crate::migux_static::cache::{self, build_cache_key, MemoryCache, MemoryView};
use crate::migux_static::conditional::{self, should_return_not_modified};
use crate::migux_static::etag::{self, last_modified_header, weak_etag_size_mtime, EtagInfo};
use crate::migux_static::fs::{self, PathResolver};
use crate::migux_static::response::{self, ResponseBuilder};
use crate::number::{self, push_decimal};
use crate::text::{self, copy_str, same_str};
use vstd::prelude::*;

verus! {

/// What is known of a path.
#[derive(Debug, Clone, Copy)]
pub enum FileFacts {
    /// Nothing is there.
    Missing,
    /// What is there could not be found out.
    Unknown,
    /// Something else than a file.
    NoFile,
    /// A file.
    File {
        /// Its size.
        len: u64,
        /// The time of its last change, in nanoseconds since 1970.
        mtime_nanos: Option<u128>,
    },
}

/// What came of reading a file.
#[derive(Debug)]
pub enum FileContents {
    /// The file is gone.
    Missing,
    /// The file could not be read.
    Failed,
    /// What it holds.
    Bytes(Vec<u8>),
}

/// What responses say of a file.
#[derive(Debug)]
pub struct StaticFileInfo {
    /// Its size.
    pub content_length: usize,
    /// Its entity tag.
    pub etag: EtagInfo,
    /// The date of its last change.
    pub last_modified: Option<String>,
}

/// A file that a request asks for.
#[derive(Debug)]
pub struct ResolvedFile {
    /// Where it is.
    pub path: String,
    /// Its size.
    pub len: u64,
    /// What responses say of it.
    pub info: StaticFileInfo,
    /// Its content type.
    pub content_type: String,
}

/// A file, or the response where there is none.
#[derive(Debug)]
pub enum FileResolution {
    /// The file.
    File(ResolvedFile),
    /// The response.
    Response(Vec<u8>),
}

/// A file as responses speak of it.
#[verifier::ext_equal]
pub struct FileView {
    pub path: Seq<char>,
    pub len: u64,
    pub mtime_nanos: u128,
    pub content_length: usize,
    pub tag: Seq<char>,
    pub tag_header: Seq<char>,
    pub last_modified: Option<Seq<char>>,
    pub content_type: Seq<char>,
}

impl View for ResolvedFile {
    type V = FileView;

    open spec fn view(&self) -> FileView {
        FileView {
            path: self.path@,
            len: self.len,
            mtime_nanos: self.info.etag.mtime_nanos,
            content_length: self.info.content_length,
            tag: self.info.etag.value@,
            tag_header: self.info.etag.header@,
            last_modified: self.info.last_modified.deep_view(),
            content_type: self.content_type@,
        }
    }
}

/// A size as a length in memory.
pub open spec fn length_of(len: u64) -> usize {
    if len <= usize::MAX {
        len as usize
    } else {
        usize::MAX
    }
}

/// What responses say of a file at a path.
pub open spec fn file_view(path: Seq<char>, len: u64, mtime_nanos: Option<u128>) -> FileView {
    let nanos = etag::known_nanos(mtime_nanos);
    FileView {
        path,
        len,
        mtime_nanos: nanos,
        content_length: length_of(len),
        tag: etag::tag_of(len, nanos),
        tag_header: etag::tag_header(etag::tag_of(len, nanos)),
        last_modified: match mtime_nanos {
            Some(n) => Some(dates::date_text(etag::seconds_of(n) as u64)),
            None => None,
        },
        content_type: media::content_type(media::media_of(path).0, media::media_of(path).1),
    }
}

impl StaticFileInfo {
    /// What responses say of a file.
    pub fn from_metadata(len: u64, mtime_nanos: Option<u128>) -> (r: Self)
        requires
            etag::writable(mtime_nanos),
        ensures
            r.content_length == length_of(len),
            r.etag.mtime_nanos == etag::known_nanos(mtime_nanos),
            r.etag.value@ == etag::tag_of(len, etag::known_nanos(mtime_nanos)),
            r.etag.header@ == etag::tag_header(r.etag.value@),
            r.last_modified.deep_view() == (match mtime_nanos {
                Some(n) => Some(dates::date_text(etag::seconds_of(n) as u64)),
                None => None,
            }),
    {
        let content_length: usize = if len <= usize::MAX as u64 {
            len as usize
        } else {
            usize::MAX
        };
        StaticFileInfo {
            content_length,
            etag: weak_etag_size_mtime(len, mtime_nanos),
            last_modified: last_modified_header(mtime_nanos),
        }
    }
}

/// The validators of a file and the transport policy, as header fields.
pub open spec fn static_fields(f: FileView, hsts: Option<Seq<char>>) -> Seq<
    (Seq<char>, Seq<char>),
> {
    seq![("ETag"@, f.tag_header)] + (match f.last_modified {
        Some(d) => seq![("Last-Modified"@, d)],
        None => seq![],
    }) + (match hsts {
        Some(h) => seq![("Strict-Transport-Security"@, h)],
        None => seq![],
    })
}

/// The text that a cached response of a file goes by.
pub open spec fn key_text(f: FileView, hsts: bool) -> Seq<char> {
    f.path + "|"@ + number::decimal(f.len as nat) + "|"@ + number::decimal(f.mtime_nanos as nat)
        + "|"@ + (if hsts {
        "hsts"@
    } else {
        "no-hsts"@
    })
}

impl ResolvedFile {
    /// The validators of the file and the transport policy, as header fields.
    pub fn static_headers(&self, hsts: Option<&str>) -> (r: Vec<(String, String)>)
        ensures
            response::string_pairs(r@) == static_fields(self@, hsts.deep_view()),
    {
        let mut headers: Vec<(String, String)> = Vec::new();
        headers.push((copy_str("ETag"), copy_str(self.info.etag.header.as_str())));
        match &self.info.last_modified {
            Some(d) => headers.push((copy_str("Last-Modified"), copy_str(d.as_str()))),
            None => {},
        }
        match hsts {
            Some(h) => headers.push((copy_str("Strict-Transport-Security"), copy_str(h))),
            None => {},
        }
        assert(response::string_pairs(headers@) =~= static_fields(self@, hsts.deep_view()));
        headers
    }

    /// The text that a cached response of the file goes by.
    pub fn cache_key(&self, hsts: Option<&str>) -> (r: String)
        ensures
            r@ == key_text(self@, hsts is Some),
    {
        let mut out = copy_str(self.path.as_str());
        out.append("|");
        push_decimal(&mut out, self.len as u128);
        out.append("|");
        push_decimal(&mut out, self.info.etag.mtime_nanos);
        out.append("|");
        if hsts.is_some() {
            out.append("hsts");
        } else {
            out.append("no-hsts");
        }
        out
    }

    /// The key that a cached response of the file is kept under.
    pub fn hashed_key(&self, hsts: Option<&str>) -> (r: u64)
        ensures
            r == cache::key_of(self@.path, self@.len, self@.mtime_nanos, hsts is Some),
    {
        build_cache_key(
            self.path.as_str(),
            self.len,
            self.info.etag.mtime_nanos,
            hsts.is_some(),
        )
    }
}

/// The response for a file that the client has already.
pub open spec fn not_modified(
    f: FileView,
    keep_alive: bool,
    hsts: Option<Seq<char>>,
    now_secs: u64,
) -> Seq<u8> {
    response::response_bytes(
        "304 Not Modified"@,
        None,
        0,
        keep_alive,
        static_fields(f, hsts).push(("Date"@, dates::date_text(now_secs))),
        None,
    )
}

/// The response with the head of a file's response.
pub open spec fn head_only(f: FileView, keep_alive: bool, hsts: Option<Seq<char>>) -> Seq<u8> {
    response::response_bytes(
        "200 OK"@,
        Some(f.content_type),
        f.content_length as nat,
        keep_alive,
        static_fields(f, hsts),
        None,
    )
}

/// The response with a file.
pub open spec fn with_file(
    f: FileView,
    body: Seq<u8>,
    keep_alive: bool,
    hsts: Option<Seq<char>>,
) -> Seq<u8> {
    response::response_bytes(
        "200 OK"@,
        Some(f.content_type),
        body.len(),
        keep_alive,
        static_fields(f, hsts),
        Some(body),
    )
}

/// The response where no file is.
pub open spec fn missing(keep_alive: bool) -> Seq<u8> {
    response::plain_response("404 Not Found"@, "404 Not Found"@, keep_alive)
}

/// The response where a file cannot be read.
pub open spec fn failed(keep_alive: bool) -> Seq<u8> {
    response::plain_response(
        "500 Internal Server Error"@,
        "500 Internal Server Error"@,
        keep_alive,
    )
}

/// Builds the response for a file that the client has already.
pub fn build_not_modified(
    file: &ResolvedFile,
    keep_alive: bool,
    hsts: Option<&str>,
    now_secs: u64,
) -> (r: Vec<u8>)
    requires
        now_secs < dates::DATE_LIMIT,
    ensures
        r@ == not_modified(file@, keep_alive, hsts.deep_view(), now_secs),
{
    let date = format_date(now_secs);
    let mut headers = file.static_headers(hsts);
    let ghost before = headers@;
    headers.push((copy_str("Date"), date));
    assert(response::string_pairs(headers@) =~= response::string_pairs(before).push(
        ("Date"@, dates::date_text(now_secs)),
    ));
    ResponseBuilder::build_with_headers("304 Not Modified", None, 0, keep_alive, &headers, None)
}

/// The body that was read, or the response where it could not be read.
pub fn read_body(contents: FileContents, keep_alive: bool) -> (r: Result<Vec<u8>, Vec<u8>>)
    ensures
        match contents {
            FileContents::Bytes(b) => r matches Ok(v) && v == b,
            FileContents::Missing => r matches Err(e) && e@ == missing(keep_alive),
            FileContents::Failed => r matches Err(e) && e@ == failed(keep_alive),
        },
{
    match contents {
        FileContents::Bytes(b) => Ok(b),
        FileContents::Missing => Err(ResponseBuilder::not_found(keep_alive)),
        FileContents::Failed => Err(ResponseBuilder::internal_error(keep_alive)),
    }
}

/// A static location of a server.
pub struct StaticService<'a> {
    server_cfg: &'a ServerConfig,
    location: &'a LocationConfig,
}

/// The file that a location has for a request path.
pub open spec fn file_for(
    req_path: Seq<char>,
    location_path: Seq<char>,
    root: Seq<char>,
    index: Seq<char>,
) -> Option<Seq<char>> {
    match fs::relative_path(req_path, location_path, index) {
        Some(rel) => Some(root + "/"@ + rel),
        None => None,
    }
}

/// The value of an option, or another value.
pub open spec fn text_or(o: Option<Seq<char>>, other: Seq<char>) -> Seq<char> {
    match o {
        Some(s) => s,
        None => other,
    }
}

impl<'a> StaticService<'a> {
    /// The server of the location.
    pub closed spec fn server(&self) -> ServerConfig {
        *self.server_cfg
    }

    /// The location.
    pub closed spec fn place(&self) -> LocationConfig {
        *self.location
    }

    /// The file that the location has for a request path.
    pub open spec fn path_for(&self, req_path: Seq<char>) -> Option<Seq<char>> {
        file_for(
            req_path,
            self.place().path@,
            text_or(self.place().root.deep_view(), self.server().root@),
            text_or(self.place().index.deep_view(), self.server().index@),
        )
    }

    /// A static location of a server.
    pub fn new(server_cfg: &'a ServerConfig, location: &'a LocationConfig) -> (r: Self)
        ensures
            r.server() == *server_cfg,
            r.place() == *location,
    {
        StaticService { server_cfg, location }
    }

    /// The file that the location has for a request path.
    pub fn file_path(&self, req_path: &str) -> (r: Option<String>)
        ensures
            r.deep_view() == self.path_for(req_path@),
    {
        let root = self.location.root_or(self.server_cfg.root());
        let index = self.location.index_or(self.server_cfg.index());
        match PathResolver::resolve_relative_path(req_path, self.location.path.as_str(), index) {
            Some(rel) => {
                let mut out = copy_str(root);
                out.append("/");
                out.append(rel.as_str());
                Some(out)
            },
            None => None,
        }
    }

    /// The file that a request asks for, from what is known of the path that
    /// the location has for it; or the response where there is no such file.
    pub fn resolve_file(&self, req_path: &str, facts: FileFacts, keep_alive: bool) -> (r:
        FileResolution)
        requires
            facts matches FileFacts::File { mtime_nanos, .. } ==> etag::writable(mtime_nanos),
        ensures
            match (self.path_for(req_path@), facts) {
                (Some(p), FileFacts::File { len, mtime_nanos }) => r matches FileResolution::File(f)
                    && f@ == file_view(p, len, mtime_nanos),
                (Some(p), FileFacts::Unknown) => r matches FileResolution::Response(b) && b@
                    == failed(keep_alive),
                _ => r matches FileResolution::Response(b) && b@ == missing(keep_alive),
            },
    {
        let path = match self.file_path(req_path) {
            Some(p) => p,
            None => {
                return FileResolution::Response(ResponseBuilder::not_found(keep_alive));
            },
        };
        match facts {
            FileFacts::Missing => FileResolution::Response(ResponseBuilder::not_found(keep_alive)),
            FileFacts::NoFile => FileResolution::Response(ResponseBuilder::not_found(keep_alive)),
            FileFacts::Unknown => FileResolution::Response(
                ResponseBuilder::internal_error(keep_alive),
            ),
            FileFacts::File { len, mtime_nanos } => {
                let info = StaticFileInfo::from_metadata(len, mtime_nanos);
                let content_type = content_type_for_path(path.as_str());
                let file = ResolvedFile { path, len, info, content_type };
                assert(file@ =~= file_view(file.path@, len, mtime_nanos));
                FileResolution::File(file)
            },
        }
    }

    /// The response without the file, where the client has the file already.
    pub fn not_modified_response(
        &self,
        method: &str,
        headers: &str,
        file: &ResolvedFile,
        keep_alive: bool,
        hsts: Option<&str>,
        now_secs: u64,
    ) -> (r: Option<Vec<u8>>)
        requires
            now_secs < dates::DATE_LIMIT,
        ensures
            match r {
                Some(b) => conditional::matches_tag(method@, headers@, file@.tag) && b@
                    == not_modified(file@, keep_alive, hsts.deep_view(), now_secs),
                None => !conditional::matches_tag(method@, headers@, file@.tag),
            },
    {
        if should_return_not_modified(method, headers, file.info.etag.value.as_str()) {
            Some(build_not_modified(file, keep_alive, hsts, now_secs))
        } else {
            None
        }
    }

    /// The response with the head of the file's response.
    pub fn head_response(&self, file: &ResolvedFile, keep_alive: bool, hsts: Option<&str>) -> (r:
        Vec<u8>)
        ensures
            r@ == head_only(file@, keep_alive, hsts.deep_view()),
    {
        let extra = file.static_headers(hsts);
        ResponseBuilder::build_with_headers(
            "200 OK",
            Some(file.content_type.as_str()),
            file.info.content_length,
            keep_alive,
            &extra,
            None,
        )
    }

    /// The response with the file.
    pub fn ok_response(
        &self,
        file: &ResolvedFile,
        body: &[u8],
        keep_alive: bool,
        hsts: Option<&str>,
    ) -> (r: Vec<u8>)
        ensures
            r@ == with_file(file@, body@, keep_alive, hsts.deep_view()),
    {
        let extra = file.static_headers(hsts);
        ResponseBuilder::build_with_headers(
            "200 OK",
            Some(file.content_type.as_str()),
            body.len(),
            keep_alive,
            &extra,
            Some(body),
        )
    }
}

/// What a request for a file asks for, with what it takes to answer it.
#[derive(Debug)]
pub struct StaticRequest<'a> {
    /// The method.
    pub method: &'a str,
    /// The head of the request.
    pub headers: &'a str,
    /// Whether the connection stays open.
    pub keep_alive: bool,
    /// The transport policy to announce.
    pub hsts: Option<&'a str>,
    /// The seconds since 1970.
    pub now_secs: u64,
}

/// What a request is answered with before the file is read: the response, if
/// the file is not needed for it.
pub open spec fn early_answer(rq: StaticRequest, f: FileView) -> Option<Seq<u8>> {
    if conditional::matches_tag(rq.method@, rq.headers@, f.tag) {
        Some(not_modified(f, rq.keep_alive, rq.hsts.deep_view(), rq.now_secs))
    } else if rq.method@ == "HEAD"@ {
        Some(head_only(f, rq.keep_alive, rq.hsts.deep_view()))
    } else {
        None
    }
}

/// What a request is answered with once the file was read.
pub open spec fn late_answer(rq: StaticRequest, f: FileView, contents: FileContents) -> Seq<u8> {
    match contents {
        FileContents::Bytes(b) => with_file(f, b@, rq.keep_alive, rq.hsts.deep_view()),
        FileContents::Missing => missing(rq.keep_alive),
        FileContents::Failed => failed(rq.keep_alive),
    }
}

/// The key that the response to a request for a file is kept under.
pub open spec fn file_key(rq: StaticRequest, f: FileView) -> u64 {
    cache::key_of(f.path, f.len, f.mtime_nanos, rq.hsts is Some)
}

/// What becomes of a request for a file.
#[derive(Debug)]
pub enum StaticStep {
    /// The response is sent.
    Respond(Vec<u8>),
    /// The file is to be read.
    Read(ResolvedFile),
}

/// How long responses are cached, in seconds.
pub open spec fn ttl_of(http_cfg: HttpConfig) -> u64 {
    match http_cfg.cache_default_ttl_secs {
        Some(t) => t as u64,
        None => 0,
    }
}

/// Whether the response with a file of the given size is cached.
pub open spec fn is_stored(http_cfg: HttpConfig, body_len: nat) -> bool {
    http_cfg.cache_max_object_bytes matches Some(max) && max > 0 && body_len <= max && ttl_of(
        http_cfg,
    ) > 0
}

impl<'a> StaticService<'a> {
    /// Answers a request as far as that goes without reading the file.
    pub fn serve_bytes(&self, req_path: &str, facts: FileFacts, rq: &StaticRequest) -> (r:
        StaticStep)
        requires
            facts matches FileFacts::File { mtime_nanos, .. } ==> etag::writable(mtime_nanos),
            rq.now_secs < dates::DATE_LIMIT,
        ensures
            match (self.path_for(req_path@), facts) {
                (Some(p), FileFacts::File { len, mtime_nanos }) => match early_answer(
                    *rq,
                    file_view(p, len, mtime_nanos),
                ) {
                    Some(b) => r matches StaticStep::Respond(v) && v@ == b,
                    None => r matches StaticStep::Read(f) && f@ == file_view(p, len, mtime_nanos),
                },
                (Some(p), FileFacts::Unknown) => r matches StaticStep::Respond(v) && v@ == failed(
                    rq.keep_alive,
                ),
                _ => r matches StaticStep::Respond(v) && v@ == missing(rq.keep_alive),
            },
    {
        let file = match self.resolve_file(req_path, facts, rq.keep_alive) {
            FileResolution::Response(b) => {
                return StaticStep::Respond(b);
            },
            FileResolution::File(f) => f,
        };
        match self.not_modified_response(
            rq.method,
            rq.headers,
            &file,
            rq.keep_alive,
            rq.hsts,
            rq.now_secs,
        ) {
            Some(b) => {
                return StaticStep::Respond(b);
            },
            None => {},
        }
        if same_str(rq.method, "HEAD") {
            return StaticStep::Respond(self.head_response(&file, rq.keep_alive, rq.hsts));
        }
        StaticStep::Read(file)
    }

    /// Answers a request as far as that goes with what is cached in memory.
    pub fn serve_bytes_cached(
        &self,
        memory: &mut MemoryCache,
        req_path: &str,
        facts: FileFacts,
        rq: &StaticRequest,
        now: u64,
    ) -> (r: StaticStep)
        requires
            facts matches FileFacts::File { mtime_nanos, .. } ==> etag::writable(mtime_nanos),
            rq.now_secs < dates::DATE_LIMIT,
        ensures
            match (self.path_for(req_path@), facts) {
                (Some(p), FileFacts::File { len, mtime_nanos }) => {
                    let f = file_view(p, len, mtime_nanos);
                    let key = file_key(*rq, f);
                    match early_answer(*rq, f) {
                        Some(b) => r matches StaticStep::Respond(v) && v@ == b && final(memory)@
                            == old(memory)@,
                        None => final(memory)@ == cache::after_get(old(memory)@, key, now) && (
                        match cache::fresh(old(memory)@, key, now) {
                            Some(b) => r matches StaticStep::Respond(v) && v@ == b,
                            None => r matches StaticStep::Read(g) && g@ == f,
                        }),
                    }
                },
                (Some(p), FileFacts::Unknown) => r matches StaticStep::Respond(v) && v@ == failed(
                    rq.keep_alive,
                ) && final(memory)@ == old(memory)@,
                _ => r matches StaticStep::Respond(v) && v@ == missing(rq.keep_alive) && final(memory)@
                    == old(memory)@,
            },
    {
        match self.serve_bytes(req_path, facts, rq) {
            StaticStep::Respond(b) => StaticStep::Respond(b),
            StaticStep::Read(file) => match memory.get(file.hashed_key(rq.hsts), now) {
                Some(b) => StaticStep::Respond(b),
                None => StaticStep::Read(file),
            },
        }
    }

    /// Takes a response that was found on disk over into memory.
    pub fn keep_found(
        &self,
        http_cfg: &HttpConfig,
        memory: &mut MemoryCache,
        file: &ResolvedFile,
        response: &[u8],
        rq: &StaticRequest,
        now: u64,
    )
        ensures
            final(memory)@ == cache::after_put(
                old(memory)@,
                file_key(*rq, file@),
                response@,
                ttl_of(*http_cfg),
                now,
            ),
    {
        memory.put(file.hashed_key(rq.hsts), copy_bytes(response), cache_ttl(http_cfg), now);
    }

    /// Answers a request once the file was read.
    pub fn serve_read(&self, file: &ResolvedFile, contents: FileContents, rq: &StaticRequest) -> (r:
        Vec<u8>)
        ensures
            r@ == late_answer(*rq, file@, contents),
    {
        match read_body(contents, rq.keep_alive) {
            Ok(body) => self.ok_response(file, body.as_slice(), rq.keep_alive, rq.hsts),
            Err(response) => response,
        }
    }

    /// Answers a request once the file was read, and stores the response in
    /// memory where the settings let it. The result says whether the response
    /// is to be stored on disk too.
    pub fn serve_read_cached(
        &self,
        http_cfg: &HttpConfig,
        memory: &mut MemoryCache,
        file: &ResolvedFile,
        contents: FileContents,
        rq: &StaticRequest,
        now: u64,
    ) -> (r: (Vec<u8>, bool))
        ensures
            r.0@ == late_answer(*rq, file@, contents),
            r.1 == (contents matches FileContents::Bytes(b) && is_stored(*http_cfg, b@.len())),
            final(memory)@ == (if r.1 {
                cache::after_put(
                    old(memory)@,
                    file_key(*rq, file@),
                    r.0@,
                    ttl_of(*http_cfg),
                    now,
                )
            } else {
                old(memory)@
            }),
    {
        let body = match read_body(contents, rq.keep_alive) {
            Ok(body) => body,
            Err(response) => {
                return (response, false);
            },
        };
        let response = self.ok_response(file, body.as_slice(), rq.keep_alive, rq.hsts);
        let stored = may_store(http_cfg, body.len());
        if stored {
            let copy = copy_bytes(response.as_slice());
            memory.put(file.hashed_key(rq.hsts), copy, cache_ttl(http_cfg), now);
        }
        (response, stored)
    }
}

/// How long responses are cached, in seconds.
pub fn cache_ttl(http_cfg: &HttpConfig) -> (r: u64)
    ensures
        r == ttl_of(*http_cfg),
{
    match http_cfg.cache_default_ttl_secs() {
        Some(t) => t as u64,
        None => 0,
    }
}

/// Whether the response with a file of the given size is cached.
pub fn may_store(http_cfg: &HttpConfig, body_len: usize) -> (r: bool)
    ensures
        r == is_stored(*http_cfg, body_len as nat),
{
    match http_cfg.cache_max_object_bytes() {
        Some(max) => max > 0 && body_len as u64 <= max && cache_ttl(http_cfg) > 0,
        None => false,
    }
}

/// A request with the tag of a file is answered without the file, whatever
/// the cache holds.
pub proof fn known_file_is_not_sent(rq: StaticRequest, f: FileView)
    requires
        conditional::matches_tag(rq.method@, rq.headers@, f.tag),
    ensures
        early_answer(rq, f) == Some(
            not_modified(f, rq.keep_alive, rq.hsts.deep_view(), rq.now_secs),
        ),
{
}

/// A response that was stored after a file was read is what the next request
/// for the same file finds, as long as it lives.
pub proof fn cached_response_is_served(
    m: MemoryView,
    http_cfg: HttpConfig,
    rq: StaticRequest,
    f: FileView,
    contents: FileContents,
    stored: u64,
    now: u64,
)
    requires
        contents matches FileContents::Bytes(b) && is_stored(http_cfg, b@.len()),
        now <= stored + ttl_of(http_cfg) * 1_000_000_000,
    ensures
        ({
            let key = file_key(rq, f);
            cache::fresh(
                cache::after_put(m, key, late_answer(rq, f, contents), ttl_of(http_cfg), stored),
                key,
                now,
            ) == Some(late_answer(rq, f, contents))
        }),
{
}

/// A request below the location stands for a file under the location's own root,
/// where it has one, and else under the server's: the path behind the location,
/// without the slash at its beginning. Where nothing is left of it, it stands for
/// the location's own index, where it has one, and else for the server's. The
/// query makes no difference. A path that is not safe, or that does not begin
/// with the location, stands for no file.
pub proof fn files_lie_under_their_root(
    service: StaticService,
    tail: Seq<char>,
    query: Seq<char>,
    other: Seq<char>,
)
    requires
        !(service.place().path@ + tail).contains('?'),
        !other.contains('?'),
    ensures
        ({
            let req = service.place().path@ + tail;
            let root = match service.place().root {
                Some(r) => r@,
                None => service.server().root@,
            };
            let index = match service.place().index {
                Some(i) => i@,
                None => service.server().index@,
            };
            &&& fs::safe_path(req) && (tail == seq!['/'] || tail.len() == 0) ==> service.path_for(req)
                == Some(root + "/"@ + index)
            &&& fs::safe_path(req) && tail.len() > 1 && tail[0] == '/' ==> service.path_for(req)
                == Some(root + tail)
            &&& fs::safe_path(req) && tail.len() > 0 && tail[0] != '/' ==> service.path_for(req)
                == Some(root + "/"@ + tail)
            &&& !fs::safe_path(req) ==> service.path_for(req) is None
            &&& service.path_for(req + "?"@ + query) == service.path_for(req)
        }),
        (forall|t: Seq<char>| other != #[trigger] (service.place().path@ + t)) ==> service.path_for(
            other,
        ) is None,
{
    reveal_strlit("?");
    reveal_strlit("/");
    let loc = service.place().path@;
    let req = loc + tail;
    lemma_no_query(req, "?"@ + query);
    assert(req + "?"@ + query =~= req + ("?"@ + query));
    lemma_no_query(req, seq![]);
    assert(req + Seq::<char>::empty() =~= req);
    lemma_no_query(other, seq![]);
    assert(other + Seq::<char>::empty() =~= other);
    assert(req.take(loc.len() as int) =~= loc);
    assert(req.skip(loc.len() as int) =~= tail);
    if tail.len() > 1 && tail[0] == '/' {
        let root = text_or(service.place().root.deep_view(), service.server().root@);
        assert(root + "/"@ + tail.skip(1) =~= root + tail);
    }
    if text::starts(other, loc) {
        assert(other =~= loc + other.skip(loc.len() as int));
    }
}

proof fn lemma_no_query(path: Seq<char>, query: Seq<char>)
    requires
        !path.contains('?'),
        query.len() == 0 || query[0] == '?',
    ensures
        text::before(path + query, '?') == path,
{
    let s = path + query;
    assert forall|j: int| 0 <= j < path.len() implies s[j] != '?' by {
        assert(s[j] == path[j]);
    }
    text::lemma_first_pos(s, '?', path.len() as int);
    assert(s.take(path.len() as int) =~= path);
}

// ---------------------------------------------------------------------------
// What answers tell of a file
// ---------------------------------------------------------------------------

/// What is told of a file with a known size and time of its last change: the
/// length is its size, the tag goes by both, and the date is the second of the
/// change.
pub proof fn file_is_described(path: Seq<char>, len: u64, nanos: u128)
    ensures
        ({
            let f = file_view(path, len, Some(nanos));
            &&& f.path == path
            &&& f.len == len
            &&& f.mtime_nanos == nanos
            &&& len <= usize::MAX ==> f.content_length == len
            &&& len > usize::MAX ==> f.content_length == usize::MAX
            &&& f.tag == etag::tag_of(len, nanos)
            &&& f.tag_header == "W/\""@ + etag::tag_of(len, nanos) + "\""@
            &&& f.last_modified == Some(dates::date_text((nanos / 1_000_000_000) as u64))
        }),
        ({
            let f = file_view(path, len, None);
            &&& f.path == path
            &&& f.len == len
            &&& f.mtime_nanos == 0
            &&& f.content_length == file_view(path, len, Some(nanos)).content_length
            &&& f.tag == etag::tag_of(len, 0)
            &&& f.tag_header == "W/\""@ + etag::tag_of(len, 0) + "\""@
            &&& f.last_modified is None
            &&& f.content_type == file_view(path, len, Some(nanos)).content_type
        }),
{
}

/// What is told of a file besides its length: its tag, the time of its last change
/// where it is known, and the transport policy where there is one.
pub open spec fn told_fields(f: FileView, hsts: Option<Seq<char>>) -> Seq<(Seq<char>, Seq<char>)> {
    let tag = seq![("ETag"@, f.tag_header)];
    let tag_and_time = if f.last_modified is Some {
        tag.push(("Last-Modified"@, f.last_modified->0))
    } else {
        tag
    };
    if hsts is Some {
        tag_and_time.push(("Strict-Transport-Security"@, hsts->0))
    } else {
        tag_and_time
    }
}

/// A client that has no good copy is sent the whole file, with its length, its
/// type and what else is told of it. The head of it alone answers HEAD, and a
/// client with a good copy is told so, without a body. Where the file is gone or
/// cannot be read, the client is told that.
pub proof fn files_are_answered(rq: StaticRequest, f: FileView, body: Vec<u8>)
    ensures
        ({
            let hsts = rq.hsts.deep_view();
            let told = told_fields(f, hsts);
            let known = conditional::matches_tag(rq.method@, rq.headers@, f.tag);
            &&& late_answer(rq, f, FileContents::Bytes(body)) == response::response_bytes(
                "200 OK"@,
                Some(f.content_type),
                body@.len(),
                rq.keep_alive,
                told,
                Some(body@),
            )
            &&& !known && rq.method@ != "HEAD"@ ==> early_answer(rq, f) is None
            &&& !known && rq.method@ == "HEAD"@ ==> early_answer(rq, f) == Some(
                response::response_bytes(
                    "200 OK"@,
                    Some(f.content_type),
                    f.content_length as nat,
                    rq.keep_alive,
                    told,
                    None,
                ),
            )
            &&& known ==> early_answer(rq, f) == Some(
                response::response_bytes(
                    "304 Not Modified"@,
                    None,
                    0,
                    rq.keep_alive,
                    told + seq![("Date"@, dates::date_text(rq.now_secs))],
                    None,
                ),
            )
            &&& late_answer(rq, f, FileContents::Missing) == response::plain_response(
                "404 Not Found"@,
                "404 Not Found"@,
                rq.keep_alive,
            )
            &&& late_answer(rq, f, FileContents::Failed) == response::plain_response(
                "500 Internal Server Error"@,
                "500 Internal Server Error"@,
                rq.keep_alive,
            )
        }),
{
    let hsts = rq.hsts.deep_view();
    assert(static_fields(f, hsts) =~= told_fields(f, hsts));
    let date = ("Date"@, dates::date_text(rq.now_secs));
    assert(told_fields(f, hsts).push(date) =~= told_fields(f, hsts) + seq![date]);
}

/// A response to HEAD is the one to GET without its body, for a file whose contents
/// are as long as its size.
pub proof fn head_is_as_of_get(rq: StaticRequest, f: FileView, body: Vec<u8>)
    requires
        rq.method@ == "HEAD"@,
        !conditional::matches_tag(rq.method@, rq.headers@, f.tag),
        f.content_length == body@.len(),
    ensures
        early_answer(rq, f) is Some,
        late_answer(rq, f, FileContents::Bytes(body)) == early_answer(rq, f)->0 + body@,
{
    let hsts = rq.hsts.deep_view();
    response::response_is_well_formed(
        "200 OK"@,
        f.content_type,
        body@.len(),
        rq.keep_alive,
        static_fields(f, hsts),
        body@,
    );
}

proof fn lemma_last_part(a: Seq<char>, b: Seq<char>, c: Seq<char>, d: Seq<char>)
    requires
        a + "|"@ + b == c + "|"@ + d,
        forall|i: int| 0 <= i < b.len() ==> #[trigger] b[i] != '|',
        forall|i: int| 0 <= i < d.len() ==> #[trigger] d[i] != '|',
    ensures
        a == c,
        b == d,
{
    reveal_strlit("|");
    let s = a + "|"@ + b;
    let t = c + "|"@ + d;
    assert("|"@ =~= seq!['|']);
    assert(s.len() == a.len() + 1 + b.len());
    assert(t.len() == c.len() + 1 + d.len());
    assert(s[a.len() as int] == '|');
    assert(t[c.len() as int] == '|');
    if a.len() < c.len() {
        let k: int = c.len() - a.len() - 1;
        assert(s[a.len() + 1 + k] == b[k]);
    } else if c.len() < a.len() {
        let k: int = a.len() - c.len() - 1;
        assert(t[c.len() + 1 + k] == d[k]);
    }
    assert(a =~= s.take(a.len() as int));
    assert(c =~= t.take(a.len() as int));
    assert(b =~= s.skip(a.len() as int + 1));
    assert(d =~= t.skip(a.len() as int + 1));
}

/// The text of a key tells files with another path, another size or another time
/// of their last change apart, and responses with a transport policy from those
/// without.
pub proof fn key_texts_tell_files_apart(f: FileView, hsts: bool, g: FileView, other: bool)
    requires
        key_text(f, hsts) == key_text(g, other),
    ensures
        f.path == g.path,
        f.len == g.len,
        f.mtime_nanos == g.mtime_nanos,
        hsts == other,
{
    reveal_strlit("hsts");
    reveal_strlit("no-hsts");
    number::lemma_digits_plain(f.len as nat);
    number::lemma_digits_plain(g.len as nat);
    number::lemma_digits_plain(f.mtime_nanos as nat);
    number::lemma_digits_plain(g.mtime_nanos as nat);
    let (fl, gl) = (number::decimal(f.len as nat), number::decimal(g.len as nat));
    let (fm, gm) = (number::decimal(f.mtime_nanos as nat), number::decimal(g.mtime_nanos as nat));
    let fh = if hsts {
        "hsts"@
    } else {
        "no-hsts"@
    };
    let gh = if other {
        "hsts"@
    } else {
        "no-hsts"@
    };
    lemma_last_part(
        f.path + "|"@ + fl + "|"@ + fm,
        fh,
        g.path + "|"@ + gl + "|"@ + gm,
        gh,
    );
    lemma_last_part(f.path + "|"@ + fl, fm, g.path + "|"@ + gl, gm);
    lemma_last_part(f.path, fl, g.path, gl);
    number::decimal_reads_back(f.len as nat, u64::MAX as nat);
    number::decimal_reads_back(g.len as nat, u64::MAX as nat);
    number::decimal_reads_back(f.mtime_nanos as nat, u128::MAX as nat);
    number::decimal_reads_back(g.mtime_nanos as nat, u128::MAX as nat);
    assert("hsts"@.len() != "no-hsts"@.len());
}

/// A response is stored if its body is not longer than the largest object and both
/// the largest object and the life of responses are set to more than nothing.
pub proof fn small_bodies_are_stored(http_cfg: HttpConfig, body_len: nat, max: u64, ttl: u32)
    ensures
        http_cfg.cache_max_object_bytes == Some(max) && http_cfg.cache_default_ttl_secs == Some(ttl)
            ==> is_stored(http_cfg, body_len) == (0 < max && body_len <= max && 0 < ttl),
        http_cfg.cache_max_object_bytes is None ==> !is_stored(http_cfg, body_len),
        http_cfg.cache_default_ttl_secs is None ==> !is_stored(http_cfg, body_len),
        http_cfg.cache_default_ttl_secs == Some(ttl) ==> ttl_of(http_cfg) == ttl,
        http_cfg.cache_default_ttl_secs is None ==> ttl_of(http_cfg) == 0,
{
}

} // verus!
