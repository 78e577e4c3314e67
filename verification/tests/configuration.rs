use migux::config;
use migux::migux_config::validation::{validate, Surroundings};
use migux::migux_config::{
    HttpConfig, LocationConfig, LocationType, MiguxConfig, ServerConfig, TlsConfig,
    UpstreamConfig, UpstreamHealthConfig, UpstreamServers,
};
use migux::migux_core::master::Master;
use migux::migux_core::{build_servers_by_listen, build_tls_servers_by_listen};
use migux::migux_static::service::FileContents;
use migux::server_core;
use migux::startup::{config_path, judge_config, unreadable_config};

fn location(server: &str, path: &str, kind: LocationType) -> LocationConfig {
    LocationConfig {
        server: server.to_string(),
        path: path.to_string(),
        kind,
        root: None,
        index: None,
        upstream: None,
        strip_prefix: None,
        cache: None,
    }
}

fn blank_tls() -> TlsConfig {
    TlsConfig {
        listen: String::new(),
        cert_path: String::new(),
        key_path: String::new(),
        redirect_http: false,
        http2: false,
        hsts_max_age_secs: None,
        hsts_include_subdomains: None,
    }
}

fn around() -> Surroundings {
    Surroundings {
        existing: vec!["./public".to_string()],
        directories: vec!["./public".to_string()],
        files: Vec::new(),
        socket_addrs: vec!["0.0.0.0:8080".to_string()],
    }
}

fn one_server() -> MiguxConfig {
    let mut cfg = MiguxConfig::default();
    cfg.servers.insert("main".to_string(), ServerConfig::default());
    cfg
}

#[test]
fn a_plain_configuration_is_valid() {
    let report = validate(&one_server(), &around());
    assert!(report.is_ok());
    assert!(report.errors().is_empty() && report.warnings().is_empty());
}

#[test]
fn findings_are_reported() {
    let mut cfg = one_server();
    cfg.http.cache_dir = Some("/cache".to_string());
    cfg.upstream.insert(
        "none".to_string(),
        UpstreamConfig {
            server: UpstreamServers::Many(vec![" ".to_string()]),
            strategy: None,
            health: UpstreamHealthConfig::default(),
        },
    );
    let mut tls = blank_tls();
    tls.listen = "0.0.0.0:8080".to_string();
    tls.cert_path = "/c.pem".to_string();
    tls.key_path = "/k.pem".to_string();
    cfg.servers.entries[0].1.tls = Some(tls);
    cfg.location.insert("a".to_string(), location("gone", "/", LocationType::Static));
    cfg.location.insert("b".to_string(), location("main", "x", LocationType::Proxy));
    let mut c = location("main", "/c", LocationType::Proxy);
    c.upstream = Some("nowhere".to_string());
    c.cache = Some(true);
    cfg.location.insert("c".to_string(), c);
    let report = cfg.validate(&around());
    assert_eq!(
        report.errors(),
        [
            "upstream 'none' server entry at index 0 is empty",
            "server 'main' TLS cert_path '/c.pem' not found",
            "server 'main' TLS key_path '/k.pem' not found",
            "TLS listen '0.0.0.0:8080' conflicts with an HTTP listen; use separate ports",
            "location 'a' references unknown server 'gone'",
            "location 'b' path 'x' must start with '/'",
            "location 'b' is proxy but no upstream is configured",
            "location 'c' references unknown upstream 'nowhere'",
        ]
    );
    assert_eq!(
        report.warnings(),
        [
            "http.cache_dir '/cache' does not exist; it will be created at runtime",
            "http.cache_default_ttl_secs is 0; cache entries will not be stored",
            "http.cache_max_object_bytes is 0; cache is effectively disabled",
            "location 'c' enables cache but is not static",
        ]
    );
    let (lines, goes_on) = judge_config(&report);
    assert!(!goes_on);
    assert_eq!(
        lines[0],
        "WARNING: http.cache_dir '/cache' does not exist; it will be created at runtime"
    );
    assert_eq!(lines[4], "Invalid configuration:");
    assert_eq!(lines[5], "  - upstream 'none' server entry at index 0 is empty");
}

fn upstream(server: UpstreamServers) -> UpstreamConfig {
    UpstreamConfig { server, strategy: None, health: UpstreamHealthConfig::default() }
}

#[test]
fn each_fault_is_an_error() {
    let mut w = around();
    w.existing.push("/file".to_string());
    w.files.push("/file".to_string());
    let sound = || {
        let mut cfg = one_server();
        cfg.http.cache_dir = Some("/absent".to_string());
        cfg.upstream.insert("u".to_string(), upstream(UpstreamServers::One("a:1".to_string())));
        let mut tls = blank_tls();
        tls.listen = "0.0.0.0:8443".to_string();
        tls.cert_path = "/file".to_string();
        tls.key_path = "/file".to_string();
        cfg.servers.entries[0].1.tls = Some(tls);
        cfg.servers.entries[0].1.root = String::new();
        let mut l = location("main", "/p", LocationType::Proxy);
        l.upstream = Some("u".to_string());
        l.strip_prefix = Some("/q".to_string());
        cfg.location.insert("l".to_string(), l);
        cfg
    };
    assert!(!sound().validate(&w).has_errors());
    assert!(!sound().validate(&w).warnings().is_empty());

    let faults: Vec<fn(&mut MiguxConfig)> = vec![
        |c| c.servers.entries.clear(),
        |c| c.http.cache_dir = Some("/file".to_string()),
        |c| c.upstream.entries[0].1.server = UpstreamServers::One(" \t".to_string()),
        |c| c.upstream.entries[0].1.server = UpstreamServers::Many(Vec::new()),
        |c| {
            c.upstream.entries[0].1.server =
                UpstreamServers::Many(vec!["a:1".to_string(), String::new()])
        },
        |c| c.servers.entries[0].1.listen = " ".to_string(),
        |c| c.servers.entries[0].1.tls.as_mut().expect("tls").listen = String::new(),
        |c| c.servers.entries[0].1.tls.as_mut().expect("tls").cert_path = String::new(),
        |c| c.servers.entries[0].1.tls.as_mut().expect("tls").key_path = " ".to_string(),
        |c| c.servers.entries[0].1.tls.as_mut().expect("tls").cert_path = "/no".to_string(),
        |c| c.servers.entries[0].1.tls.as_mut().expect("tls").key_path = "/no".to_string(),
        |c| {
            let listen = c.servers.entries[0].1.listen.clone();
            c.servers.entries[0].1.tls.as_mut().expect("tls").listen = listen
        },
        |c| c.location.entries[0].1.server = String::new(),
        |c| c.location.entries[0].1.server = "other".to_string(),
        |c| c.location.entries[0].1.path = " /p".to_string(),
        |c| c.location.entries[0].1.path = String::new(),
        |c| c.location.entries[0].1.upstream = None,
        |c| c.location.entries[0].1.upstream = Some("v".to_string()),
    ];
    for (i, fault) in faults.iter().enumerate() {
        let mut cfg = sound();
        fault(&mut cfg);
        assert!(cfg.validate(&w).has_errors(), "{i}");
    }
}

#[test]
fn a_configuration_needs_a_server() {
    let report = MiguxConfig::default().validate(&around());
    assert_eq!(
        report.errors(),
        ["no [server] sections found; at least one server is required"]
    );
}

#[test]
fn the_default_takes_the_place_of_an_invalid_configuration() {
    let mut broken = MiguxConfig::default();
    broken.global.worker_processes = 9;
    let (cfg, said) = MiguxConfig::from_file_or_default("m.conf", Ok(broken), &around());
    assert_eq!(cfg.global.worker_processes, 1);
    assert!(said[0].contains("Invalid config in 'm.conf'"));
    let (cfg, said) =
        MiguxConfig::from_file_or_default("m.conf", Err("no file".to_string()), &around());
    assert_eq!(cfg.servers.len(), 0);
    assert!(said[0].contains("no file"));
    let mut fine = one_server();
    fine.global.worker_processes = 9;
    let (cfg, said) = MiguxConfig::from_file_or_default("m.conf", Ok(fine), &around());
    assert_eq!(cfg.global.worker_processes, 9);
    assert!(said.is_empty());
}

#[test]
fn defaults_are_filled_in_once() {
    let mut cfg = MiguxConfig::default();
    let mut s = ServerConfig::default();
    s.root = "/srv".to_string();
    s.index = String::new();
    cfg.servers.insert("main".to_string(), s);
    cfg.location.insert("a".to_string(), location("main", "/", LocationType::Static));
    cfg.global.worker_connections = 0;
    cfg.http.cache_dir = Some("/c".to_string());
    let mut cfg = MiguxConfig::from_file(Ok(cfg)).ok().expect("config");
    assert_eq!(cfg.global.worker_connections, 1024);
    assert_eq!(cfg.http.cache_default_ttl_secs, Some(30));
    assert_eq!(cfg.server("main").expect("server").index(), "index.html");
    assert_eq!(cfg.location("a").expect("location").root_or("x"), "/srv");
    let before = cfg.print();
    cfg.apply_defaults();
    assert_eq!(cfg.print(), before);
    assert_eq!(
        MiguxConfig::from_file(Err("e".to_string())).err(),
        Some("e".to_string())
    );
}

#[test]
fn the_configuration_is_shown() {
    let mut cfg = one_server();
    cfg.http.cache_dir = Some("/a\"b".to_string());
    cfg.http.cache_default_ttl_secs = Some(5);
    cfg.upstream.insert(
        "u".to_string(),
        UpstreamConfig {
            server: UpstreamServers::Many(vec!["a".to_string(), "b".to_string()]),
            strategy: None,
            health: UpstreamHealthConfig::default(),
        },
    );
    let mut tls = blank_tls();
    tls.hsts_max_age_secs = Some(6);
    cfg.servers.entries[0].1.tls = Some(tls);
    cfg.location.insert("l".to_string(), location("main", "/", LocationType::Static));
    let lines = cfg.print();
    assert_eq!(lines[0], "================ MIGUX CONFIG ================");
    assert_eq!(lines[1], "\n[global]");
    assert_eq!(lines[2], "  worker_processes     = 1");
    for expected in [
        "  cache_dir       = Some(\"/a\\\"b\")",
        "  cache_default_ttl_secs       = Some(5)",
        "  cache_max_object_bytes       = None",
        "  sendfile             = true",
        "    server   = [\"a\", \"b\"]",
        "    tls.hsts_max_age_secs = 6",
        "    tls.hsts_include_subdomains = false",
        "    type         = Static",
        "    root         = None",
    ] {
        assert!(lines.iter().any(|l| l == expected), "{expected}");
    }
    assert_eq!(UpstreamServers::One("x".to_string()).show(), "x");
    assert_eq!(UpstreamServers::Many(vec![]).show(), "[]");
}

#[test]
fn servers_are_grouped_by_address() {
    let mut cfg = one_server();
    let mut other = ServerConfig::default();
    let mut tls = blank_tls();
    tls.listen = "0.0.0.0:8443".to_string();
    other.tls = Some(tls);
    cfg.servers.insert("other".to_string(), other);
    cfg.location.insert("a".to_string(), location("other", "/a", LocationType::Proxy));
    let by_listen = build_servers_by_listen(&cfg);
    let group = by_listen.get("0.0.0.0:8080").expect("group");
    assert_eq!(group.len(), 2);
    assert_eq!(group[0].name, "main");
    assert_eq!(group[0].locations.len(), 1);
    assert_eq!(group[0].locations[0].path, "/");
    assert_eq!(group[1].locations[0].path, "/a");
    let tls = build_tls_servers_by_listen(&cfg);
    assert_eq!(tls.len(), 1);
    assert_eq!(tls.get("0.0.0.0:8443").expect("tls").servers[0].name, "other");
    let master = Master::new(cfg);
    assert_eq!(master.max_connections(), 1024);
    assert_eq!(master.servers_by_listen.len(), 1);
    assert_eq!(master.tls_servers_by_listen.len(), 1);
}

fn args(list: &[&str]) -> Vec<String> {
    list.iter().map(|s| s.to_string()).collect()
}

#[test]
fn the_file_is_chosen() {
    assert_eq!(config_path(None, &args(&["migux"])), "migux.conf");
    assert_eq!(config_path(Some("/e"), &args(&["migux", "-c", "x"])), "/e");
    assert_eq!(config_path(Some(""), &args(&["migux", "-c", "x"])), "x");
    assert_eq!(config_path(None, &args(&["migux", "-v", "--config", "y"])), "y");
    assert_eq!(config_path(None, &args(&["migux", "--config=z"])), "z");
    assert_eq!(config_path(None, &args(&["migux", "-c"])), "migux.conf");
    assert_eq!(config_path(None, &args(&["-c", "x"])), "migux.conf");
    assert_eq!(
        unreadable_config("f", "bad"),
        vec!["Error reading migux config from 'f': bad", "Using default config..."]
    );
}

#[test]
fn the_smaller_configuration_fills_in_its_defaults() {
    assert_eq!(config::MiguxConfig::default_file(), "migux.conf");
    let blank = config::MiguxConfig::default(config::MiguxConfig::blank());
    assert_eq!(blank.global.worker_connections, 1024);
    let mut few = config::MiguxConfig::blank();
    few.global.worker_connections = 5;
    few.global.log_level = String::new();
    let few = config::MiguxConfig::default(few);
    assert_eq!(few.global.worker_connections, 5);
    assert_eq!(few.global.log_level, blank.global.log_level);
    let mut read = config::MiguxConfig::blank();
    read.server.insert(
        "main".to_string(),
        config::ServerConfig {
            listen: String::new(),
            server_name: "n".to_string(),
            root: "/r".to_string(),
            index: String::new(),
        },
    );
    let mut l = config::LocationConfig::default();
    l.kind = String::new();
    read.location.insert("a".to_string(), l);
    read.http.access_log = String::new();
    let cfg = config::MiguxConfig::from_file(read);
    let s = cfg.server.get("main").expect("server");
    assert_eq!((s.listen.as_str(), s.index.as_str()), ("0.0.0.0:8080", "index.html"));
    let l = cfg.location.get("a").expect("location");
    assert_eq!(l.kind, "static");
    assert_eq!(l.root.as_deref(), Some("/r"));
    assert_eq!(cfg.http.access_log, "/var/log/migux/access.log");
    let lines = cfg.print();
    assert!(lines.iter().any(|x| x == "    root         = Some(\"/r\")"));
    assert_eq!(lines[6], "\n[http]");
}

#[test]
fn the_plainer_server_answers() {
    assert_eq!(
        server_core::build_hello(),
        b"HTTP/1.1 200 OK\r\nContent-Type: text/plain; charset=utf-8\r\nContent-Length: 18\r\nConnection: close\r\n\r\nHello from Migux!\n"
    );
    assert_eq!(server_core::serve_index(&FileContents::Missing), server_core::build_404());
    assert_eq!(server_core::serve_index(&FileContents::Failed), server_core::build_500());
    assert_eq!(
        server_core::serve_index(&FileContents::Bytes(b"<p>".to_vec())),
        b"HTTP/1.1 200 OK\r\nContent-Type: text/html; charset=utf-8\r\nContent-Length: 3\r\nConnection: close\r\n\r\n<p>"
    );
    assert_eq!(server_core::index_path(&ServerConfig::default()), "./public/index.html");
    assert!(server_core::MiguxApp::init().cache.responses.is_empty());
    let master = server_core::Master::new(one_server());
    assert_eq!(master.servers_by_listen.len(), 1);
    assert!(String::from_utf8(server_core::build_501()).expect("text").contains("501 Not Implemented (proxy TODO)\n"));
    assert_eq!(HttpConfig::default().access_log(), "/var/log/migux/access.log");
}
