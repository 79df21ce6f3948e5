//! A reverse proxy's logic: parsing, routing, balancing, caching, filtering and
//! the decisions of one exchange, stated in contracts and proved.

pub mod admin;
pub mod balancer;
pub mod cache;
pub mod cli;
pub mod config;
pub mod count;
pub mod fault;
pub mod health;
pub mod http;
pub mod ip;
pub mod laws;
pub mod logging;
pub mod metrics;
pub mod middleware;
pub mod order;
pub mod pattern;
pub mod proxy;
pub mod rewrite;
pub mod router;
pub mod security;
pub mod text;
pub mod time;
pub mod tls;
pub mod waf;
