//! Idle connections to one server, kept for the next exchange.
//!
//! The connection that was put back last is taken first: it is the one that the
//! server is least likely to have closed.

use vstd::prelude::*;

use super::PoolConfig;
use crate::time::{elapsed, Instant};

verus! {

/// Idle connections, in the order in which they were put back.
#[derive(Debug)]
pub struct IdlePool<T> {
    pub items: Vec<(Instant, T)>,
}

/// An idle connection is too old.
pub open spec fn expired(since: Instant, cfg: PoolConfig, now: Instant) -> bool {
    elapsed(now, since) >= cfg.idle_timeout.nanos
}

/// The connection that is taken, and those that are kept.
pub open spec fn drawn<T>(v: Seq<(Instant, T)>, cfg: PoolConfig, now: Instant) -> (
    Option<T>,
    Seq<(Instant, T)>,
) {
    if v.len() > 0 && !expired(v.last().0, cfg, now) {
        (Some(v.last().1), v.drop_last())
    } else {
        (None, Seq::empty())
    }
}

/// The connections after one was put back.
pub open spec fn kept<T>(v: Seq<(Instant, T)>, x: T, cfg: PoolConfig, now: Instant) -> Seq<
    (Instant, T),
> {
    if v.len() < cfg.max_idle {
        v.push((now, x))
    } else {
        v
    }
}

impl<T> IdlePool<T> {
    /// No connections.
    pub fn new() -> (p: IdlePool<T>)
        ensures
            p.items@.len() == 0,
    {
        IdlePool { items: Vec::new() }
    }

    /// Takes the connection that was put back last. Where that one is too old, so
    /// are all, and they are dropped.
    pub fn take(&mut self, cfg: PoolConfig, now: Instant) -> (r: Option<T>)
        ensures
            (r, final(self).items@) == drawn(old(self).items@, cfg, now),
    {
        let n: usize = self.items.len();
        if n == 0 {
            assert(self.items@ =~= Seq::empty());
            return None;
        }
        if now.since(self.items[n - 1].0).nanos >= cfg.idle_timeout.nanos {
            self.items.clear();
            assert(self.items@ =~= Seq::empty());
            return None;
        }
        match self.items.pop() {
            Some((_, x)) => Some(x),
            None => None,
        }
    }

    /// Puts a connection back; where enough are kept it is dropped.
    pub fn put(&mut self, x: T, cfg: PoolConfig, now: Instant)
        ensures
            final(self).items@ == kept(old(self).items@, x, cfg, now),
    {
        if self.items.len() < cfg.max_idle {
            self.items.push((now, x));
        }
    }
}

/// What is put back is what is taken next, as long as it is not too old; and no more
/// are ever kept than the limit.
pub proof fn law_the_last_put_back_is_taken_first<T>(
    v: Seq<(Instant, T)>,
    x: T,
    cfg: PoolConfig,
    put_at: Instant,
    now: Instant,
)
    ensures
        v.len() < cfg.max_idle && !expired(put_at, cfg, now) ==> drawn(
            kept(v, x, cfg, put_at),
            cfg,
            now,
        ) == (Some(x), v),
        v.len() <= cfg.max_idle ==> kept(v, x, cfg, put_at).len() <= cfg.max_idle,
{
    assert(v.push((put_at, x)).drop_last() =~= v);
}

} // verus!
