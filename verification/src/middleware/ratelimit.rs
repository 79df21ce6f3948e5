//! The table of a token-bucket rate limiter.
//!
//! A bucket holds up to a burst of tokens and refills with time; a request spends
//! one or gets a 429. The amounts of tokens are kept as the program around the
//! library computes them; which buckets there are, which one is evicted, and when
//! a request is admitted because the table is full, is decided here.

use std::collections::hash_map::DefaultHasher;
use std::hash::Hasher;

use vstd::prelude::*;
use vstd::std_specs::hash::DefaultHasherAdditionalSpecFns;
use vstd::string::StringExecFns;

use super::{verdict, Decision, Rejection, RejectionView};

use crate::ip::IpAddr;
use crate::text::{decimal, decimal_of, own, pairs};
use crate::time::{elapsed, Instant};

verus! {

/// The parts of a table: clients with different parts do not meet.
pub const SHARDS: usize = 16;

/// The buckets of one part. Behind it full and idle buckets are evicted: a client
/// that cycles its addresses must not grow the table without bound.
pub const SHARD_CAP: usize = 4096;

/// How long a full bucket is untouched before it may be evicted: 60 seconds.
pub const IDLE_EVICT_NANOS: u64 = 60_000_000_000;

/// One client's bucket.
#[derive(Debug, Clone, Copy, PartialEq, Eq, Structural)]
pub struct Bucket {
    /// The amount of tokens, in the bits in which it was computed.
    pub tokens: u64,
    /// When the bucket holds its whole burst again, if nothing is spent until then.
    pub full_at: Instant,
    pub last_refill: Instant,
}

/// A bucket that is full again and was idle for long: it carries no information, as
/// it would admit a fresh request anyway.
pub open spec fn evictable(b: Bucket, now: Instant) -> bool {
    now.nanos >= b.full_at.nanos && elapsed(now, b.last_refill) >= IDLE_EVICT_NANOS
}

/// The bucket of an address in one part.
pub open spec fn bucket_in(v: Seq<(IpAddr, Bucket)>, ip: IpAddr) -> Option<Bucket>
    decreases v.len(),
{
    if v.len() == 0 {
        None
    } else if v[0].0 == ip {
        Some(v[0].1)
    } else {
        bucket_in(v.drop_first(), ip)
    }
}

/// One part with the bucket of an address written: in its old place, or behind the
/// others.
pub open spec fn with_bucket(v: Seq<(IpAddr, Bucket)>, ip: IpAddr, b: Bucket) -> Seq<
    (IpAddr, Bucket),
> {
    if bucket_in(v, ip) is Some {
        Seq::new(
            v.len(),
            |i: int|
                if v[i].0 == ip {
                    (ip, b)
                } else {
                    v[i]
                },
        )
    } else {
        v.push((ip, b))
    }
}

/// The buckets that stay when the evictable ones are dropped.
pub open spec fn kept(v: Seq<(IpAddr, Bucket)>, now: Instant) -> Seq<(IpAddr, Bucket)>
    decreases v.len(),
{
    if v.len() == 0 {
        v
    } else if evictable(v[0].1, now) {
        kept(v.drop_first(), now)
    } else {
        seq![v[0]] + kept(v.drop_first(), now)
    }
}

/// The bytes of an address, the kind first.
pub open spec fn address_bytes(ip: IpAddr) -> Seq<u8> {
    match ip {
        IpAddr::V4(a) => seq![4u8] + low_bytes(a as nat, 4),
        IpAddr::V6(a) => seq![6u8] + low_bytes(a as nat, 16),
    }
}

/// The lowest `count` bytes of a number, lowest first.
pub open spec fn low_bytes(n: nat, count: nat) -> Seq<u8>
    decreases count,
{
    if count == 0 {
        Seq::empty()
    } else {
        seq![(n % 256) as u8] + low_bytes(n / 256, (count - 1) as nat)
    }
}

/// The lowest `count` bytes of a number, lowest first.
pub fn bytes_of(n: u128, count: usize) -> (v: Vec<u8>)
    ensures
        v@ == low_bytes(n as nat, count as nat),
{
    let mut v: Vec<u8> = Vec::new();
    let mut rest: u128 = n;
    let mut i: usize = 0;
    assert(v@ + low_bytes(n as nat, count as nat) =~= low_bytes(n as nat, count as nat));
    while i < count
        invariant
            i <= count,
            v@ + low_bytes(rest as nat, (count - i) as nat) == low_bytes(n as nat, count as nat),
        decreases count - i,
    {
        let ghost sofar = v@;
        let ghost tail = low_bytes((rest / 256) as nat, (count - i - 1) as nat);
        let b: u8 = (rest % 256) as u8;
        v.push(b);
        assert(sofar + (seq![b] + tail) =~= v@ + tail);
        rest = rest / 256;
        i = i + 1;
    }
    assert(v@ + Seq::<u8>::empty() =~= v@);
    v
}

/// The part that an address belongs to: std's default hash of its bytes.
pub open spec fn shard_of(ip: IpAddr) -> int {
    DefaultHasher::spec_finish(seq![address_bytes(ip)]) as int % 16
}

fn shard_index(ip: IpAddr) -> (i: usize)
    ensures
        i == shard_of(ip),
        i < SHARDS,
{
    let mut bytes: Vec<u8> = Vec::new();
    match ip {
        IpAddr::V4(a) => {
            bytes.push(4);
            let mut rest = bytes_of(a as u128, 4);
            bytes.append(&mut rest);
        },
        IpAddr::V6(a) => {
            bytes.push(6);
            let mut rest = bytes_of(a, 16);
            bytes.append(&mut rest);
        },
    }
    assert(bytes@ =~= address_bytes(ip));
    let mut h = DefaultHasher::new();
    h.write(bytes.as_slice());
    assert(h@ =~= seq![address_bytes(ip)]);
    (h.finish() % 16) as usize
}

/// What the table has for an address.
#[derive(Debug, Clone, Copy, PartialEq, Eq, Structural)]
pub enum Slot {
    /// Its bucket.
    Known(Bucket),
    /// No bucket, and room for one.
    Fresh,
    /// No bucket and no room: the request is admitted, because a limit of memory
    /// must not become an outage.
    Full,
}

/// The buckets of all clients.
pub struct BucketTable {
    pub shards: Vec<Vec<(IpAddr, Bucket)>>,
}

/// No address has two buckets.
pub open spec fn one_each(v: Seq<(IpAddr, Bucket)>) -> bool {
    forall|i: int, j: int| 0 <= i < j < v.len() ==> (#[trigger] v[i]).0 != (#[trigger] v[j]).0
}

proof fn lemma_bucket_in(v: Seq<(IpAddr, Bucket)>, ip: IpAddr)
    ensures
        match bucket_in(v, ip) {
            Some(b) => exists|i: int| 0 <= i < v.len() && v[i] == (ip, b),
            None => forall|i: int| 0 <= i < v.len() ==> (#[trigger] v[i]).0 != ip,
        },
    decreases v.len(),
{
    if v.len() > 0 && v[0].0 != ip {
        let t = v.drop_first();
        lemma_bucket_in(t, ip);
        match bucket_in(t, ip) {
            Some(b) => {
                let i = choose|i: int| 0 <= i < t.len() && t[i] == (ip, b);
                assert(v[i + 1] == (ip, b));
            },
            None => {
                assert forall|i: int| 0 <= i < v.len() implies (#[trigger] v[i]).0 != ip by {
                    if i > 0 {
                        assert(t[i - 1] == v[i]);
                    }
                }
            },
        }
    } else if v.len() > 0 {
        assert(v[0] == (ip, v[0].1));
    }
}

proof fn lemma_kept(v: Seq<(IpAddr, Bucket)>, now: Instant)
    ensures
        kept(v, now).len() <= v.len(),
        forall|i: int|
            0 <= i < kept(v, now).len() ==> #[trigger] v.contains(kept(v, now)[i]) && !evictable(
                kept(v, now)[i].1,
                now,
            ),
        one_each(v) ==> one_each(kept(v, now)),
    decreases v.len(),
{
    if v.len() > 0 {
        let t = v.drop_first();
        let k = kept(v, now);
        lemma_kept(t, now);
        assert forall|x: (IpAddr, Bucket)| t.contains(x) implies v.contains(x) by {
            let i = choose|i: int| 0 <= i < t.len() && t[i] == x;
            assert(v[i + 1] == x);
        }
        if !evictable(v[0].1, now) {
            assert(v.contains(v[0]));
            assert forall|i: int| 0 <= i < k.len() implies #[trigger] v.contains(k[i]) && !evictable(
                k[i].1,
                now,
            ) by {
                if i > 0 {
                    assert(t.contains(kept(t, now)[i - 1]));
                }
            }
        } else {
            assert forall|i: int| 0 <= i < k.len() implies #[trigger] v.contains(k[i]) && !evictable(
                k[i].1,
                now,
            ) by {
                assert(t.contains(kept(t, now)[i]));
            }
        }
        if one_each(v) {
            assert(one_each(t)) by {
                assert forall|i: int, j: int| 0 <= i < j < t.len() implies (#[trigger] t[i]).0 != (
                #[trigger] t[j]).0 by {
                    assert(v[i + 1].0 != v[j + 1].0);
                }
            }
            if !evictable(v[0].1, now) {
                assert forall|i: int, j: int| 0 <= i < j < k.len() implies (#[trigger] k[i]).0 != (
                #[trigger] k[j]).0 by {
                    let kt = kept(t, now);
                    if i == 0 {
                        assert(t.contains(kt[j - 1]));
                        let m = choose|m: int| 0 <= m < t.len() && t[m] == kt[j - 1];
                        assert(v[0].0 != v[m + 1].0);
                    } else {
                        assert(kt[i - 1].0 != kt[j - 1].0);
                    }
                }
            }
        }
    }
}

impl BucketTable {
    /// Sixteen parts, none over its cap, and no address with two buckets in one.
    pub open spec fn wf(&self) -> bool {
        &&& self.shards@.len() == SHARDS
        &&& forall|s: int|
            0 <= s < SHARDS ==> (#[trigger] self.shards@[s])@.len() <= SHARD_CAP && one_each(
                self.shards@[s]@,
            )
    }

    /// The bucket of an address.
    pub open spec fn at(&self, ip: IpAddr) -> Option<Bucket> {
        bucket_in(self.shards@[shard_of(ip)]@, ip)
    }

    /// A table without buckets.
    pub fn new() -> (t: BucketTable)
        ensures
            t.wf(),
            forall|s: int| 0 <= s < SHARDS ==> (#[trigger] t.shards@[s])@.len() == 0,
            forall|ip: IpAddr| (#[trigger] t.at(ip)) is None,
    {
        let mut shards: Vec<Vec<(IpAddr, Bucket)>> = Vec::new();
        let mut i: usize = 0;
        while i < SHARDS
            invariant
                i <= SHARDS,
                shards@.len() == i,
                forall|s: int| 0 <= s < i ==> (#[trigger] shards@[s])@.len() == 0,
            decreases SHARDS - i,
        {
            shards.push(Vec::new());
            i = i + 1;
        }
        BucketTable { shards }
    }

    fn evict(v: &Vec<(IpAddr, Bucket)>, now: Instant) -> (r: Vec<(IpAddr, Bucket)>)
        ensures
            r@ == kept(v@, now),
    {
        let mut r: Vec<(IpAddr, Bucket)> = Vec::new();
        let mut i: usize = 0;
        assert(v@.skip(0) =~= v@);
        assert(r@ + kept(v@, now) =~= kept(v@, now));
        while i < v.len()
            invariant
                i <= v@.len(),
                r@ + kept(v@.skip(i as int), now) == kept(v@, now),
            decreases v.len() - i,
        {
            let ghost sofar = r@;
            let ghost tail = kept(v@.skip(i + 1), now);
            assert(v@.skip(i as int).drop_first() =~= v@.skip(i + 1));
            let (ip, b) = v[i];
            let idle = now.since(b.last_refill);
            if !(now.nanos >= b.full_at.nanos && idle.nanos >= IDLE_EVICT_NANOS as u128) {
                r.push((ip, b));
                assert(sofar + (seq![v@[i as int]] + tail) =~= r@ + tail);
            }
            i = i + 1;
        }
        assert(v@.skip(i as int) =~= Seq::<(IpAddr, Bucket)>::empty());
        assert(r@ + Seq::<(IpAddr, Bucket)>::empty() =~= r@);
        r
    }

    fn find(v: &Vec<(IpAddr, Bucket)>, ip: IpAddr) -> (r: Option<usize>)
        ensures
            match r {
                Some(i) => i < v@.len() && v@[i as int].0 == ip && bucket_in(v@, ip) == Some(
                    v@[i as int].1,
                ),
                None => bucket_in(v@, ip) is None,
            },
    {
        let mut i: usize = 0;
        assert(v@.skip(0) =~= v@);
        while i < v.len()
            invariant
                i <= v@.len(),
                bucket_in(v@, ip) == bucket_in(v@.skip(i as int), ip),
            decreases v.len() - i,
        {
            if v[i].0 == ip {
                return Some(i);
            }
            assert(v@.skip(i as int).drop_first() =~= v@.skip(i + 1));
            i = i + 1;
        }
        None
    }

    /// Looks for the bucket of an address. Where there is none and its part is at
    /// its cap, the evictable buckets of that part are dropped first.
    pub fn slot(&mut self, ip: IpAddr, now: Instant) -> (r: Slot)
        requires
            old(self).wf(),
        ensures
            final(self).wf(),
            ({
                let s = shard_of(ip);
                let part = old(self).shards@[s]@;
                let crowded = old(self).at(ip) is None && part.len() >= SHARD_CAP;
                let left = if crowded {
                    kept(part, now)
                } else {
                    part
                };
                &&& final(self).shards@[s]@ == left
                &&& forall|o: int|
                    0 <= o < SHARDS && o != s ==> #[trigger] final(self).shards@[o] == old(
                        self,
                    ).shards@[o]
                &&& match old(self).at(ip) {
                    Some(b) => r == Slot::Known(b),
                    None => if left.len() >= SHARD_CAP {
                        r == Slot::Full
                    } else {
                        r == Slot::Fresh
                    },
                }
            }),
    {
        let s: usize = shard_index(ip);
        if let Some(i) = Self::find(&self.shards[s], ip) {
            return Slot::Known(self.shards[s][i].1);
        }
        if self.shards[s].len() >= SHARD_CAP {
            let ghost was = self.shards@[s as int]@;
            proof {
                lemma_kept(was, now);
            }
            let left = Self::evict(&self.shards[s], now);
            let full = left.len() >= SHARD_CAP;
            self.shards[s] = left;
            if full {
                return Slot::Full;
            }
        }
        Slot::Fresh
    }

    /// Writes the bucket of an address that has one, or for which there is room. No
    /// other bucket changes, comes or goes.
    pub fn store(&mut self, ip: IpAddr, b: Bucket)
        requires
            old(self).wf(),
            old(self).at(ip) is Some || old(self).shards@[shard_of(ip)]@.len() < SHARD_CAP,
        ensures
            final(self).wf(),
            final(self).shards@[shard_of(ip)]@ == with_bucket(
                old(self).shards@[shard_of(ip)]@,
                ip,
                b,
            ),
            forall|s: int|
                0 <= s < SHARDS && s != shard_of(ip) ==> #[trigger] final(self).shards@[s] == old(
                    self,
                ).shards@[s],
            final(self).at(ip) == Some(b),
            forall|other: IpAddr|
                other != ip ==> #[trigger] final(self).at(other) == old(self).at(other),
    {
        let s: usize = shard_index(ip);
        let ghost was = self.shards@[s as int]@;
        proof {
            lemma_bucket_in(was, ip);
        }
        match Self::find(&self.shards[s], ip) {
            Some(i) => {
                self.shards[s][i] = (ip, b);
                let ghost now = self.shards@[s as int]@;
                assert(now =~= was.update(i as int, (ip, b)));
                assert(now =~= with_bucket(was, ip, b)) by {
                    assert forall|k: int| 0 <= k < now.len() implies #[trigger] now[k]
                        == with_bucket(was, ip, b)[k] by {
                        if k < i {
                            assert(was[k].0 != was[i as int].0);
                        } else if k > i {
                            assert(was[i as int].0 != was[k].0);
                        }
                    }
                }
                proof {
                    assert(one_each(now)) by {
                        assert forall|p: int, q: int| 0 <= p < q < now.len() implies (
                        #[trigger] now[p]).0 != (#[trigger] now[q]).0 by {
                            assert(was[p].0 != was[q].0);
                        }
                    }
                    lemma_update_reads(was, i as int, ip, b, ip);
                    assert forall|other: IpAddr| other != ip implies #[trigger] self.at(other)
                        == old(self).at(other) by {
                        if shard_of(other) == s {
                            lemma_update_reads(was, i as int, ip, b, other);
                        }
                    }
                }
            },
            None => {
                self.shards[s].push((ip, b));
                let ghost now = self.shards@[s as int]@;
                assert(now =~= was.push((ip, b)));
                proof {
                    assert(one_each(now)) by {
                        assert forall|p: int, q: int| 0 <= p < q < now.len() implies (
                        #[trigger] now[p]).0 != (#[trigger] now[q]).0 by {
                            if q < was.len() {
                                assert(was[p].0 != was[q].0);
                            }
                        }
                    }
                    lemma_push_reads(was, ip, b, ip);
                    assert forall|other: IpAddr| other != ip implies #[trigger] self.at(other)
                        == old(self).at(other) by {
                        if shard_of(other) == s {
                            lemma_push_reads(was, ip, b, other);
                        }
                    }
                }
            },
        }
    }
}

proof fn lemma_update_reads(
    v: Seq<(IpAddr, Bucket)>,
    i: int,
    ip: IpAddr,
    b: Bucket,
    other: IpAddr,
)
    requires
        0 <= i < v.len(),
        v[i].0 == ip,
        one_each(v),
    ensures
        bucket_in(v.update(i, (ip, b)), ip) == Some(b),
        other != ip ==> bucket_in(v.update(i, (ip, b)), other) == bucket_in(v, other),
    decreases v.len(),
{
    let u = v.update(i, (ip, b));
    let t = v.drop_first();
    if i == 0 {
        assert(u.drop_first() =~= t);
    } else {
        assert(v[0].0 != v[i].0);
        assert(u.drop_first() =~= t.update(i - 1, (ip, b)));
        assert(one_each(t)) by {
            assert forall|p: int, q: int| 0 <= p < q < t.len() implies (#[trigger] t[p]).0 != (
            #[trigger] t[q]).0 by {
                assert(v[p + 1].0 != v[q + 1].0);
            }
        }
        lemma_update_reads(t, i - 1, ip, b, other);
    }
}

proof fn lemma_push_reads(v: Seq<(IpAddr, Bucket)>, ip: IpAddr, b: Bucket, other: IpAddr)
    requires
        bucket_in(v, ip) is None,
    ensures
        bucket_in(v.push((ip, b)), ip) == Some(b),
        other != ip ==> bucket_in(v.push((ip, b)), other) == bucket_in(v, other),
    decreases v.len(),
{
    let u = v.push((ip, b));
    if v.len() == 0 {
        assert(u.drop_first() =~= v);
    } else {
        assert(u.drop_first() =~= v.drop_first().push((ip, b)));
        lemma_push_reads(v.drop_first(), ip, b, other);
    }
}

/// Making room costs nobody tokens: a bucket is dropped only if it is full again and was
/// idle for long, when a new one would be the same; every other bucket stays.
pub proof fn law_only_full_idle_buckets_are_dropped(
    v: Seq<(IpAddr, Bucket)>,
    now: Instant,
    ip: IpAddr,
)
    requires
        one_each(v),
    ensures
        bucket_in(kept(v, now), ip) == match bucket_in(v, ip) {
            Some(b) => if evictable(b, now) {
                None
            } else {
                Some(b)
            },
            None => None,
        },
    decreases v.len(),
{
    if v.len() > 0 {
        let t = v.drop_first();
        assert(one_each(t)) by {
            assert forall|p: int, q: int| 0 <= p < q < t.len() implies (#[trigger] t[p]).0 != (
            #[trigger] t[q]).0 by {
                assert(v[p + 1].0 != v[q + 1].0);
            }
        }
        law_only_full_idle_buckets_are_dropped(t, now, ip);
        if v[0].0 == ip {
            lemma_bucket_in(t, ip);
            assert(bucket_in(t, ip) is None) by {
                if let Some(b) = bucket_in(t, ip) {
                    let i = choose|i: int| 0 <= i < t.len() && t[i] == (ip, b);
                    assert(v[0].0 != v[i + 1].0);
                }
            }
        }
        if !evictable(v[0].1, now) {
            let k = seq![v[0]] + kept(t, now);
            assert(k.drop_first() =~= kept(t, now));
        }
    }
}

/// A table that clients have left does not stay full: room is made exactly where some
/// bucket is full again and was idle for long, and none of those stays. A bucket from
/// which tokens were spent is one of them as soon as it has refilled.
pub proof fn law_refilled_buckets_make_room(v: Seq<(IpAddr, Bucket)>, now: Instant)
    ensures
        kept(v, now).len() < v.len() <==> exists|i: int|
            0 <= i < v.len() && evictable((#[trigger] v[i]).1, now),
        forall|i: int|
            0 <= i < kept(v, now).len() ==> !evictable((#[trigger] kept(v, now)[i]).1, now),
    decreases v.len(),
{
    lemma_kept(v, now);
    assert forall|i: int| 0 <= i < kept(v, now).len() implies !evictable(
        (#[trigger] kept(v, now)[i]).1,
        now,
    ) by {
        assert(v.contains(kept(v, now)[i]));
    }
    if v.len() > 0 {
        let t = v.drop_first();
        lemma_kept(t, now);
        law_refilled_buckets_make_room(t, now);
        if kept(t, now).len() < t.len() {
            let i = choose|i: int| 0 <= i < t.len() && evictable((#[trigger] t[i]).1, now);
            assert(evictable(v[i + 1].1, now));
        } else {
            assert forall|i: int| 0 < i < v.len() implies !evictable((#[trigger] v[i]).1, now) by {
                assert(!evictable(t[i - 1].1, now));
            }
        }
    }
}

/// The refusal of a client without tokens: it says when to come again.
pub open spec fn too_many(retry: u64) -> RejectionView {
    RejectionView {
        status: 429,
        reason: "Too Many Requests"@,
        headers: seq![("Retry-After"@, decimal(retry as nat))],
        body: "429 Too Many Requests\n"@,
    }
}

/// The decision on a request that got a token, or that has to wait.
pub fn limit(answer: Result<(), u64>) -> (d: Decision)
    ensures
        verdict(d) == match answer {
            Ok(()) => None,
            Err(retry) => Some(too_many(retry)),
        },
{
    match answer {
        Ok(()) => Decision::Continue,
        Err(retry) => {
            let mut headers: Vec<(String, String)> = Vec::new();
            headers.push((own("Retry-After"), decimal_of(retry)));
            assert(pairs(headers@) =~= too_many(retry).headers);
            Decision::Reject(
                Rejection {
                    status: 429,
                    reason: "Too Many Requests",
                    headers,
                    body: own("429 Too Many Requests\n"),
                },
            )
        },
    }
}

} // verus!
