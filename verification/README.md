# migux

A small nginx-like HTTP server: static files, reverse proxying, TLS and HTTP/2.

The decisions are made in a library (`src/`) whose functions are verified with
Verus: each states in its contract what it returns, and the laws that hold
across functions stand beside them as public proof functions. The program
(`app/`) moves bytes between sockets, files and the library.

## Layout

- `migux_config`, `config`, `startup`: settings, their defaults and validation,
  and the start of the program
- `migux_core`: reading requests, routing, connections, HTTP/2, TLS, listeners
- `migux_proxy`: what is sent to upstreams, to which of them, and how their
  responses are passed on
- `migux_static`: files, conditional requests, the caches in memory and on disk
- `migux_cache`: a cache of responses by method and path
- `migux_http`, `server_core`: short responses, and a plainer server
- `text`, `number`, `headers`, `written`, `chunked`, `buffer`, `encoding`,
  `named`, `listing`: the ground that the rest stands on
- `wire`, `pem`, `dates`, `media`, `shared_map`: calls into other crates, behind
  stated contracts

## Running

By default the program reads `migux.conf`; `-c`, `--config` or the environment
variable `MIGUX_CONFIG` name another file.

```ini
[server.main]
listen = "0.0.0.0:8080"
root = "./public"

[location.main_root]
server = "main"
path = "/"
type = "static"
```
