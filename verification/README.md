# rproxy

A reverse proxy: it terminates HTTP/1.1 connections, optionally over TLS, routes
requests by method, host and path, balances them over pools of servers, and applies
policy on the way: limits, address lists, authentication, rate limits, a firewall,
rewriting, logging, metrics and a response cache.

The logic is a library whose behaviour is stated in contracts and proved with Verus;
the program around it reads, writes, waits and prints.

- `src/` is the library. `http`, `proxy` and `router` are the way of a request;
  `balancer` and `health` choose servers; `middleware`, `waf`, `security` and `tls`
  guard the way; `rewrite` changes heads; `cache` keeps responses; `metrics`,
  `logging` and `admin` tell what happens; `config` and `cli` read the settings.
  Public proof functions whose names begin with `law_` state what holds of several
  functions together.
- `tests/` runs the library.
- `app/` is the program. What is known only by calling std, the clock, the network
  or floating-point arithmetic is found out there and handed to the library as a
  plain value.

A request is served in stages (`proxy::exchange`): the program performs what a stage
asks for, and hands the outcome to the next one.
