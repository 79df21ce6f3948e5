//! What keeps the listener alive: limits on connections, lists of address blocks,
//! and limits on the size of a request.

use vstd::arithmetic::div_mod::lemma_fundamental_div_mod;
use vstd::arithmetic::power2::{lemma_pow2_pos, lemma_pow2_strictly_increases, lemma_pow2_unfold, pow2};
use vstd::multiset::Multiset;
use vstd::prelude::*;
use vstd::string::StringExecFns;

use crate::ip::{IpAddr, IpTable};
use crate::text::{
    cut, debug_text, decimal, decimal_of, join, joined, lower, lowercase, own, parse_number,
    parse_u64, push_text, quoted, split_once, strip_suffix, texts, trim, trimmed, unsigned,
    without_suffix,
};

verus! {

/// The connections at a time, if nothing else is said.
pub const DEFAULT_MAX_CONNS: usize = 10_000;

/// The connections of one source at a time, if nothing else is said.
pub const DEFAULT_MAX_CONNS_PER_IP: usize = 64;

/// The bytes of a request's body, if nothing else is said.
pub const DEFAULT_MAX_BODY: u64 = 10_485_760;

/// The header fields of a request, if nothing else is said.
pub const DEFAULT_MAX_HEADERS: usize = 100;

// ---------------------------------------------------------------------------
// Connections
// ---------------------------------------------------------------------------

/// Why a connection was refused.
#[derive(Debug, Clone, Copy, PartialEq, Eq, Structural)]
pub enum Refusal {
    /// As many connections as the process takes are open.
    GlobalLimit,
    /// As many connections as one source may have are open.
    PerIpLimit,
}

/// The reason of a refusal in words.
pub open spec fn why_refused(r: Refusal) -> Seq<char> {
    match r {
        Refusal::GlobalLimit => "global connection limit"@,
        Refusal::PerIpLimit => "per-IP connection limit"@,
    }
}

impl Refusal {
    /// The reason in words.
    pub fn text(&self) -> (r: &'static str)
        ensures
            r@ == why_refused(*self),
    {
        match self {
            Refusal::GlobalLimit => "global connection limit",
            Refusal::PerIpLimit => "per-IP connection limit",
        }
    }
}

/// An admitted connection, which is to be released when it ends.
#[derive(Debug)]
pub struct ConnGuard {
    pub ip: IpAddr,
}

/// Counts the open connections, in all and of each source.
pub struct ConnLimiter {
    pub max_total: usize,
    pub max_per_ip: usize,
    pub total: usize,
    /// How many connections each source has; a source without any has no entry, so
    /// that the table does not grow with every source ever seen.
    pub per_ip: IpTable<usize>,
    /// The sources of the open connections, each as often as it has one.
    pub open: Ghost<Multiset<IpAddr>>,
}

/// What the counters say.
pub struct LimiterView {
    pub max_total: usize,
    pub max_per_ip: usize,
    pub open: Multiset<IpAddr>,
}

impl View for ConnLimiter {
    type V = LimiterView;

    open spec fn view(&self) -> LimiterView {
        LimiterView {
            max_total: self.max_total,
            max_per_ip: self.max_per_ip,
            open: self.open@,
        }
    }
}

/// What happens to a connection from that source, and the open connections then.
pub open spec fn admitted(l: LimiterView, ip: IpAddr) -> (LimiterView, Result<(), Refusal>) {
    if l.open.len() >= l.max_total {
        (l, Err(Refusal::GlobalLimit))
    } else if l.open.count(ip) >= l.max_per_ip {
        (l, Err(Refusal::PerIpLimit))
    } else {
        (LimiterView { open: l.open.insert(ip), ..l }, Ok(()))
    }
}

/// The open connections after one from that source was closed.
pub open spec fn released(l: LimiterView, ip: IpAddr) -> LimiterView {
    LimiterView { open: l.open.remove(ip), ..l }
}

/// Both limits hold.
pub open spec fn within_limits(l: LimiterView) -> bool {
    &&& l.open.len() <= l.max_total
    &&& forall|ip: IpAddr| #[trigger] l.open.count(ip) <= l.max_per_ip
}

impl ConnLimiter {
    /// The counters are those of the open connections, and both limits hold.
    pub open spec fn wf(&self) -> bool {
        &&& within_limits(self@)
        &&& self.total == self.open@.len()
        &&& forall|ip: IpAddr|
            #[trigger] self.per_ip.at(ip) == if self.open@.count(ip) == 0 {
                None
            } else {
                Some(self.open@.count(ip) as usize)
            }
    }

    /// Counters with those limits, and no open connection.
    pub fn new(max_total: usize, max_per_ip: usize) -> (l: ConnLimiter)
        ensures
            l.wf(),
            l@ == (LimiterView { max_total, max_per_ip, open: Multiset::empty() }),
    {
        broadcast use vstd::multiset::group_multiset_axioms;

        ConnLimiter {
            max_total,
            max_per_ip,
            total: 0,
            per_ip: IpTable::new(),
            open: Ghost(Multiset::empty()),
        }
    }

    /// Admits a connection, or says why it is refused. Whoever is admitted hands the
    /// guard to [`ConnLimiter::release`] when the connection ends.
    pub fn try_acquire(&mut self, ip: IpAddr) -> (r: Result<ConnGuard, Refusal>)
        requires
            old(self).wf(),
        ensures
            final(self).wf(),
            match r {
                Ok(g) => g.ip == ip && admitted(old(self)@, ip) == (
                    final(self)@,
                    Ok::<(), Refusal>(()),
                ) && final(self)@.open.count(ip) > 0,
                Err(why) => admitted(old(self)@, ip) == (final(self)@, Err::<(), Refusal>(why)),
            },
    {
        broadcast use vstd::multiset::group_multiset_axioms;

        if self.total >= self.max_total {
            return Err(Refusal::GlobalLimit);
        }
        assert(self.open@.count(ip) <= self.max_per_ip);
        let n: usize = match self.per_ip.get(ip) {
            Some(n) => *n,
            None => 0,
        };
        assert(n == self.open@.count(ip));
        if n >= self.max_per_ip {
            return Err(Refusal::PerIpLimit);
        }
        let ghost was = self.open@;
        self.total = self.total + 1;
        self.per_ip.put(ip, n + 1);
        self.open = Ghost(was.insert(ip));
        proof {
            assert forall|other: IpAddr| #[trigger] self.open@.count(other) <= self.max_per_ip by {
                assert(was.count(other) <= self.max_per_ip);
            }
            assert forall|other: IpAddr|
                #[trigger] self.per_ip.at(other) == if self.open@.count(other) == 0 {
                    None
                } else {
                    Some(self.open@.count(other) as usize)
                } by {
                if other != ip {
                    assert(self.open@.count(other) == was.count(other));
                }
            }
        }
        Ok(ConnGuard { ip })
    }

    /// The open connections.
    pub fn in_flight(&self) -> (n: usize)
        requires
            self.wf(),
        ensures
            n == self@.open.len(),
    {
        self.total
    }

    /// The open connections of one source.
    pub fn in_flight_for(&self, ip: IpAddr) -> (n: usize)
        requires
            self.wf(),
        ensures
            n == self@.open.count(ip),
    {
        assert(self.open@.count(ip) <= self.max_per_ip);
        match self.per_ip.get(ip) {
            Some(n) => *n,
            None => 0,
        }
    }

    /// Closes an admitted connection.
    pub fn release(&mut self, guard: ConnGuard)
        requires
            old(self).wf(),
            old(self)@.open.count(guard.ip) > 0,
        ensures
            final(self).wf(),
            final(self)@ == released(old(self)@, guard.ip),
    {
        broadcast use vstd::multiset::group_multiset_axioms;

        let ip = guard.ip;
        let ghost was = self.open@;
        assert(was.count(ip) <= self.max_per_ip);
        assert(was.remove(ip).len() == was.len() - 1);
        let n: usize = self.in_flight_for(ip);
        self.total = self.total - 1;
        if n > 1 {
            self.per_ip.put(ip, n - 1);
        } else {
            self.per_ip.delete(ip);
        }
        self.open = Ghost(was.remove(ip));
        proof {
            assert forall|other: IpAddr| #[trigger] self.open@.count(other) <= self.max_per_ip by {
                assert(was.count(other) <= self.max_per_ip);
            }
            assert forall|other: IpAddr|
                #[trigger] self.per_ip.at(other) == if self.open@.count(other) == 0 {
                    None
                } else {
                    Some(self.open@.count(other) as usize)
                } by {
                if other != ip {
                    assert(self.open@.count(other) == was.count(other));
                }
            }
        }
    }
}

/// Closing a connection gives back exactly what admitting it took.
pub proof fn law_a_release_undoes_an_admission(l: LimiterView, ip: IpAddr)
    requires
        admitted(l, ip).1 is Ok,
    ensures
        released(admitted(l, ip).0, ip) == l,
{
    broadcast use vstd::multiset::group_multiset_axioms;

    assert(l.open.insert(ip).remove(ip) =~= l.open);
}

/// A refused connection takes nothing.
pub proof fn law_a_refusal_takes_nothing(l: LimiterView, ip: IpAddr)
    requires
        admitted(l, ip).1 is Err,
    ensures
        admitted(l, ip).0 == l,
{
}

/// A connection of one source brings no other source nearer to its own limit.
pub proof fn law_sources_have_their_own_limit(l: LimiterView, busy: IpAddr, other: IpAddr)
    requires
        busy != other,
        l.open.count(other) < l.max_per_ip,
    ensures
        admitted(admitted(l, busy).0, other).1 != Err::<(), Refusal>(Refusal::PerIpLimit),
{
    broadcast use vstd::multiset::group_multiset_axioms;

    assert(admitted(l, busy).0.open.count(other) == l.open.count(other));
}

/// Neither limit is ever passed.
pub proof fn law_the_limits_hold(l: LimiterView, ip: IpAddr)
    requires
        within_limits(l),
    ensures
        within_limits(admitted(l, ip).0),
        l.open.count(ip) > 0 ==> within_limits(released(l, ip)),
{
    broadcast use vstd::multiset::group_multiset_axioms;

    assert forall|x: IpAddr| #[trigger] admitted(l, ip).0.open.count(x) <= l.max_per_ip by {
        assert(l.open.count(x) <= l.max_per_ip);
    }
    assert forall|x: IpAddr| #[trigger] released(l, ip).open.count(x) <= l.max_per_ip by {
        assert(l.open.count(x) <= l.max_per_ip);
    }
    if l.open.count(ip) > 0 {
        assert(l.open.remove(ip).len() == l.open.len() - 1);
    }
}

// ---------------------------------------------------------------------------
// Address blocks
// ---------------------------------------------------------------------------

/// A block of addresses: those with the same first bits.
#[derive(Debug, Clone, Copy, PartialEq, Eq, Structural)]
pub struct Cidr {
    /// The first address of the block.
    pub net: IpAddr,
    /// How many bits are the same.
    pub bits: u8,
}

/// The bits of an address.
pub open spec fn width(ip: IpAddr) -> nat {
    match ip {
        IpAddr::V4(_) => 32,
        IpAddr::V6(_) => 128,
    }
}

/// The number of an address.
pub open spec fn number_of(ip: IpAddr) -> nat {
    match ip {
        IpAddr::V4(a) => a as nat,
        IpAddr::V6(a) => a as nat,
    }
}

/// The first bits of an address.
pub open spec fn first_bits(ip: IpAddr, bits: u8) -> nat {
    number_of(ip) / pow2((width(ip) - bits) as nat)
}

/// The address with all but its first bits zero.
pub open spec fn masked(ip: IpAddr, bits: u8) -> IpAddr {
    let kept = first_bits(ip, bits) * pow2((width(ip) - bits) as nat);
    match ip {
        IpAddr::V4(_) => IpAddr::V4(kept as u32),
        IpAddr::V6(_) => IpAddr::V6(kept as u128),
    }
}

/// Both are of IPv4, or both of IPv6.
pub open spec fn same_family(a: IpAddr, b: IpAddr) -> bool {
    (a is V4) == (b is V4)
}

/// The block holds the address.
pub open spec fn holds(c: Cidr, ip: IpAddr) -> bool {
    same_family(c.net, ip) && masked(ip, c.bits) == c.net
}

fn power_of_two(d: u8) -> (r: u128)
    requires
        d < 128,
    ensures
        r == pow2(d as nat),
{
    let mut r: u128 = 1;
    let mut i: u8 = 0;
    proof {
        lemma_largest_power();
        vstd::arithmetic::power2::lemma2_to64();
    }
    while i < d
        invariant
            i <= d < 128,
            r == pow2(i as nat),
            pow2(127) == 0x8000_0000_0000_0000_0000_0000_0000_0000,
        decreases d - i,
    {
        proof {
            lemma_pow2_unfold((i + 1) as nat);
            if i + 1 < 127 {
                lemma_pow2_strictly_increases((i + 1) as nat, 127);
            }
        }
        r = r * 2;
        i = i + 1;
    }
    r
}

proof fn lemma_largest_power()
    ensures
        pow2(127) == 0x8000_0000_0000_0000_0000_0000_0000_0000,
        pow2(128) == 0x1_0000_0000_0000_0000_0000_0000_0000_0000,
        pow2(32) == 0x1_0000_0000,
{
    vstd::arithmetic::power2::lemma2_to64();
    vstd::arithmetic::power2::lemma2_to64_rest();
    vstd::arithmetic::power2::lemma_pow2_adds(64, 63);
    vstd::arithmetic::power2::lemma_pow2_adds(64, 64);
}

proof fn lemma_kept(a: nat, p: nat)
    requires
        p > 0,
    ensures
        (a / p) * p == a - a % p,
        (a / p) * p <= a,
{
    lemma_fundamental_div_mod(a as int, p as int);
    assert(p * (a / p) == (a / p) * p) by (nonlinear_arith);
    assert(0 <= a % p);
}

fn mask(ip: IpAddr, bits: u8) -> (r: IpAddr)
    requires
        bits <= width(ip),
    ensures
        r == masked(ip, bits),
{
    proof {
        lemma_largest_power();
        lemma_pow2_pos((width(ip) - bits) as nat);
        lemma_kept(number_of(ip), pow2((width(ip) - bits) as nat));
    }
    match ip {
        IpAddr::V4(a) => {
            let p: u128 = power_of_two(32 - bits);
            IpAddr::V4((a as u128 - a as u128 % p) as u32)
        },
        IpAddr::V6(a) => {
            if bits == 0 {
                assert((a as nat) / pow2(128) == 0) by {
                    vstd::arithmetic::div_mod::lemma_basic_div(a as int, pow2(128) as int);
                }
                return IpAddr::V6(0);
            }
            let p: u128 = power_of_two(128 - bits);
            IpAddr::V6(a - a % p)
        },
    }
}

/// What a block's text was read as, or the refusal. The part before the slash is
/// read by the caller: `addr` is the address that it stands for.
pub open spec fn block_of(s: Seq<char>, addr: Option<IpAddr>) -> Result<Cidr, Seq<char>> {
    let (shown, rest) = match cut(s, '/') {
        Some((a, b)) => (a, Some(b)),
        None => (s, None::<Seq<char>>),
    };
    match addr {
        None => Err("bad IP address "@ + debug_text(shown) + " in CIDR "@ + debug_text(s)),
        Some(ip) => match rest {
            None => Ok(Cidr { net: masked(ip, width(ip) as u8), bits: width(ip) as u8 }),
            Some(b) => match unsigned(trimmed(b), 10, 255) {
                None => Err("bad prefix length "@ + debug_text(b) + " in CIDR "@ + debug_text(s)),
                Some(n) => if n > width(ip) {
                    Err(
                        "prefix /"@ + decimal(n as nat) + " too long for "@ + family_name(ip)
                            + " address in CIDR "@ + debug_text(s) + " (max /"@ + decimal(
                            width(ip),
                        ) + ")"@,
                    )
                } else {
                    Ok(Cidr { net: masked(ip, n as u8), bits: n as u8 })
                },
            },
        },
    }
}

/// The name of an address's family.
pub open spec fn family_name(ip: IpAddr) -> Seq<char> {
    match ip {
        IpAddr::V4(_) => "IPv4"@,
        IpAddr::V6(_) => "IPv6"@,
    }
}

/// The part of a block's text that is an address.
pub open spec fn address_part(s: Seq<char>) -> Seq<char> {
    match cut(s, '/') {
        Some((a, _)) => trimmed(a),
        None => trimmed(s),
    }
}

/// A block as it is shown.
pub open spec fn block_text(net: Seq<char>, bits: u8) -> Seq<char> {
    net + "/"@ + decimal(bits as nat)
}

impl Cidr {
    /// The number of bits fits the family.
    pub open spec fn wf(&self) -> bool {
        self.bits <= width(self.net)
    }

    /// The part of a block's text that is an address.
    pub fn address_text(s: &str) -> (r: &str)
        ensures
            r@ == address_part(s@),
    {
        match split_once(s, '/') {
            Some((a, _)) => trim(a),
            None => trim(s),
        }
    }

    /// Parses `ADDRESS[/BITS]`; `addr` is what [`Cidr::address_text`] stands for,
    /// nothing where that is no address. Without bits the block is that one address.
    pub fn parse(s: &str, addr: Option<IpAddr>) -> (r: Result<Cidr, String>)
        ensures
            match r {
                Ok(c) => block_of(s@, addr) == Ok::<Cidr, Seq<char>>(c) && c.wf(),
                Err(e) => block_of(s@, addr) == Err::<Cidr, Seq<char>>(e@),
            },
    {
        let (shown, rest) = match split_once(s, '/') {
            Some((a, b)) => (a, Some(b)),
            None => (s, None),
        };
        let q = quoted(s);
        let ip = match addr {
            Some(ip) => ip,
            None => {
                let a = quoted(shown);
                return Err(
                    own("bad IP address ").concat(a.as_str()).concat(" in CIDR ").concat(
                        q.as_str(),
                    ),
                );
            },
        };
        let (max, family) = match ip {
            IpAddr::V4(_) => (32u8, "IPv4"),
            IpAddr::V6(_) => (128u8, "IPv6"),
        };
        let bits: u8 = match rest {
            None => max,
            Some(b) => match parse_number(trim(b), 10, 255) {
                None => {
                    let a = quoted(b);
                    return Err(
                        own("bad prefix length ").concat(a.as_str()).concat(" in CIDR ").concat(
                            q.as_str(),
                        ),
                    );
                },
                Some(n) => {
                    assert(n <= 255);
                    if n > max as u128 {
                        let a = decimal_of(n as u64);
                        let m = decimal_of(max as u64);
                        return Err(
                            own("prefix /").concat(a.as_str()).concat(" too long for ").concat(
                                family,
                            ).concat(" address in CIDR ").concat(q.as_str()).concat(
                                " (max /",
                            ).concat(m.as_str()).concat(")"),
                        );
                    }
                    n as u8
                },
            },
        };
        Ok(Cidr { net: mask(ip, bits), bits })
    }

    /// Does the block hold the address?
    pub fn contains(&self, ip: IpAddr) -> (r: bool)
        requires
            self.wf(),
        ensures
            r == holds(*self, ip),
    {
        match (self.net, ip) {
            (IpAddr::V4(_), IpAddr::V4(_)) => mask(ip, self.bits) == self.net,
            (IpAddr::V6(_), IpAddr::V6(_)) => mask(ip, self.bits) == self.net,
            _ => false,
        }
    }

    /// The block as it is shown; `net` is the shown form of its first address.
    pub fn text(&self, net: &str) -> (r: String)
        ensures
            r@ == block_text(net@, self.bits),
    {
        let n = decimal_of(self.bits as u64);
        own(net).concat("/").concat(n.as_str())
    }
}

/// A block that was read from an address holds exactly the addresses of its family
/// with the same first bits; with no bits all of the family, with all bits that one.
pub proof fn law_a_block_is_its_first_bits(addr: IpAddr, bits: u8, ip: IpAddr)
    requires
        bits <= width(addr),
    ensures
        holds((Cidr { net: masked(addr, bits), bits }), ip) <==> same_family(addr, ip)
            && first_bits(addr, bits) == first_bits(ip, bits),
        bits == 0 && same_family(addr, ip) ==> holds(
            (Cidr { net: masked(addr, bits), bits }),
            ip,
        ),
        bits == width(addr) ==> (holds((Cidr { net: masked(addr, bits), bits }), ip) <==> ip
            == addr),
{
    lemma_largest_power();
    vstd::arithmetic::power2::lemma2_to64();
    if same_family(addr, ip) {
        let p = pow2((width(addr) - bits) as nat);
        let a = number_of(addr);
        let b = number_of(ip);
        lemma_pow2_pos((width(addr) - bits) as nat);
        lemma_kept(a, p);
        lemma_kept(b, p);
        let x = a / p;
        let y = b / p;
        if x * p == y * p {
            assert(x == y) by (nonlinear_arith)
                requires
                    x * p == y * p,
                    p > 0,
            ;
        }
        if bits == 0 {
            vstd::arithmetic::div_mod::lemma_basic_div(a as int, p as int);
            vstd::arithmetic::div_mod::lemma_basic_div(b as int, p as int);
        }
        if bits == width(addr) {
            assert(p == 1);
            vstd::arithmetic::div_mod::lemma_div_basics_2(a as int);
            vstd::arithmetic::div_mod::lemma_div_basics_2(b as int);
        }
    }
}

/// An IPv4 address that is written as an IPv6 one stands for itself: a listener for
/// both families reports IPv4 peers so.
pub open spec fn plain_address(ip: IpAddr) -> IpAddr {
    match ip {
        IpAddr::V6(a) => if a / 0x1_0000_0000 == 0xffff {
            IpAddr::V4((a % 0x1_0000_0000) as u32)
        } else {
            ip
        },
        IpAddr::V4(_) => ip,
    }
}

/// The address of a peer, in IPv4 where it is an IPv4 address.
pub fn normalize_peer(ip: IpAddr) -> (r: IpAddr)
    ensures
        r == plain_address(ip),
{
    match ip {
        IpAddr::V6(a) => if a / 0x1_0000_0000 == 0xffff {
            IpAddr::V4((a % 0x1_0000_0000) as u32)
        } else {
            ip
        },
        IpAddr::V4(_) => ip,
    }
}

/// Blocks that are let in, and blocks that are kept out.
#[derive(Debug)]
pub struct CidrList {
    pub allow: Vec<Cidr>,
    pub deny: Vec<Cidr>,
}

/// A block of the list holds the address.
pub open spec fn listed(v: Seq<Cidr>, ip: IpAddr) -> bool {
    exists|i: int| 0 <= i < v.len() && holds(#[trigger] v[i], ip)
}

/// The address is let in: it is in no block that is kept out, and where there are
/// blocks that are let in, it is in one of them.
pub open spec fn lets_in(allow: Seq<Cidr>, deny: Seq<Cidr>, ip: IpAddr) -> bool {
    !listed(deny, ip) && (allow.len() == 0 || listed(allow, ip))
}

fn any_holds(v: &Vec<Cidr>, ip: IpAddr) -> (r: bool)
    requires
        forall|i: int| 0 <= i < v@.len() ==> (#[trigger] v@[i]).wf(),
    ensures
        r == listed(v@, ip),
{
    let mut i: usize = 0;
    while i < v.len()
        invariant
            i <= v@.len(),
            forall|k: int| 0 <= k < v@.len() ==> (#[trigger] v@[k]).wf(),
            forall|k: int| 0 <= k < i ==> !holds(#[trigger] v@[k], ip),
        decreases v.len() - i,
    {
        if v[i].contains(ip) {
            return true;
        }
        i = i + 1;
    }
    false
}

/// Blocks as they are shown, between commas.
pub open spec fn blocks_text(v: Seq<Cidr>, shown: Seq<Seq<char>>) -> Seq<char> {
    joined(
        Seq::new(v.len(), |i: int| shown[i] + "/"@ + decimal(v[i].bits as nat)),
        ","@,
    )
}

/// The rules of access, as they are shown.
pub open spec fn access_text(
    allow: Seq<Cidr>,
    deny: Seq<Cidr>,
    allowed: Seq<Seq<char>>,
    denied: Seq<Seq<char>>,
) -> Seq<char> {
    let a = blocks_text(allow, allowed);
    let d = blocks_text(deny, denied);
    if allow.len() == 0 {
        if deny.len() == 0 {
            "none"@
        } else {
            "deny "@ + d
        }
    } else if deny.len() == 0 {
        "allow "@ + a + " (default-deny)"@
    } else {
        "deny "@ + d + " then allow "@ + a + " (default-deny)"@
    }
}

fn show_blocks(v: &Vec<Cidr>, shown: &Vec<String>) -> (r: String)
    requires
        shown@.len() == v@.len(),
    ensures
        r@ == blocks_text(v@, texts(shown@)),
{
    let ghost want = Seq::new(
        v@.len(),
        |i: int| texts(shown@)[i] + "/"@ + decimal(v@[i].bits as nat),
    );
    let mut parts: Vec<String> = Vec::new();
    let mut i: usize = 0;
    assert(texts(parts@) =~= want.take(0));
    while i < v.len()
        invariant
            i <= v@.len() == shown@.len(),
            want == Seq::new(
                v@.len(),
                |i: int| texts(shown@)[i] + "/"@ + decimal(v@[i].bits as nat),
            ),
            texts(parts@) == want.take(i as int),
        decreases v.len() - i,
    {
        let t = v[i].text(shown[i].as_str());
        assert(want.take(i + 1) =~= want.take(i as int).push(t@));
        push_text(&mut parts, t);
        i = i + 1;
    }
    assert(want.take(i as int) =~= want);
    join(&parts, ",")
}

impl Default for CidrList {
    fn default() -> (l: CidrList)
        ensures
            l.allow@.len() == 0,
            l.deny@.len() == 0,
            l.wf(),
    {
        CidrList { allow: Vec::new(), deny: Vec::new() }
    }
}

impl CidrList {
    /// Every block is well formed.
    pub open spec fn wf(&self) -> bool {
        &&& forall|i: int| 0 <= i < self.allow@.len() ==> (#[trigger] self.allow@[i]).wf()
        &&& forall|i: int| 0 <= i < self.deny@.len() ==> (#[trigger] self.deny@[i]).wf()
    }

    /// Are there no blocks?
    pub fn is_empty(&self) -> (r: bool)
        ensures
            r == (self.allow@.len() == 0 && self.deny@.len() == 0),
    {
        self.allow.len() == 0 && self.deny.len() == 0
    }

    /// Lets a block in.
    pub fn push_allow(&mut self, c: Cidr)
        ensures
            final(self).allow@ == old(self).allow@.push(c),
            final(self).deny@ == old(self).deny@,
            old(self).wf() && c.wf() ==> final(self).wf(),
    {
        self.allow.push(c);
    }

    /// Keeps a block out.
    pub fn push_deny(&mut self, c: Cidr)
        ensures
            final(self).deny@ == old(self).deny@.push(c),
            final(self).allow@ == old(self).allow@,
            old(self).wf() && c.wf() ==> final(self).wf(),
    {
        self.deny.push(c);
    }

    /// Is the address let in? It is that of the socket's peer, never one that a
    /// client claims.
    pub fn permits(&self, ip: IpAddr) -> (r: bool)
        requires
            self.wf(),
        ensures
            r == lets_in(self.allow@, self.deny@, ip),
    {
        if any_holds(&self.deny, ip) {
            return false;
        }
        if self.allow.len() == 0 {
            return true;
        }
        any_holds(&self.allow, ip)
    }

    /// The lists for the startup banner; the arguments are the shown forms of the
    /// blocks' first addresses.
    pub fn describe(&self, allowed: &Vec<String>, denied: &Vec<String>) -> (r: String)
        requires
            allowed@.len() == self.allow@.len(),
            denied@.len() == self.deny@.len(),
        ensures
            r@ == access_text(self.allow@, self.deny@, texts(allowed@), texts(denied@)),
    {
        let a = show_blocks(&self.allow, allowed);
        let d = show_blocks(&self.deny, denied);
        if self.allow.len() == 0 {
            if self.deny.len() == 0 {
                own("none")
            } else {
                own("deny ").concat(d.as_str())
            }
        } else if self.deny.len() == 0 {
            own("allow ").concat(a.as_str()).concat(" (default-deny)")
        } else {
            own("deny ").concat(d.as_str()).concat(" then allow ").concat(a.as_str()).concat(
                " (default-deny)",
            )
        }
    }
}

/// An address that is kept out is never let in by another block.
pub proof fn law_denial_beats_permission(allow: Seq<Cidr>, deny: Seq<Cidr>, ip: IpAddr)
    requires
        listed(deny, ip),
    ensures
        !lets_in(allow, deny, ip),
{
}

/// As soon as a block is let in, everything outside such blocks is kept out.
pub proof fn law_a_permission_denies_the_rest(allow: Seq<Cidr>, deny: Seq<Cidr>, ip: IpAddr)
    requires
        allow.len() > 0,
        !listed(allow, ip),
    ensures
        !lets_in(allow, deny, ip),
{
}

/// A block for IPv4 reaches an IPv4 peer in whichever family it was reported.
pub proof fn law_mapped_peers_meet_the_same_blocks(a: u32, c: Cidr)
    ensures
        plain_address(IpAddr::V6((0xffff_0000_0000 + a) as u128)) == IpAddr::V4(a),
        holds(c, plain_address(IpAddr::V6((0xffff_0000_0000 + a) as u128))) == holds(
            c,
            IpAddr::V4(a),
        ),
{
}

// ---------------------------------------------------------------------------
// Sizes
// ---------------------------------------------------------------------------

/// The limits on one request.
#[derive(Debug, Clone, Copy, PartialEq, Eq, Structural)]
pub struct Limits {
    pub max_body: u64,
    pub max_headers: usize,
}

impl Default for Limits {
    fn default() -> (l: Limits)
        ensures
            l == (Limits { max_body: DEFAULT_MAX_BODY, max_headers: DEFAULT_MAX_HEADERS }),
    {
        Limits { max_body: DEFAULT_MAX_BODY, max_headers: DEFAULT_MAX_HEADERS }
    }
}

/// The digits of a size in lower case, and what its suffix multiplies them by.
pub open spec fn size_parts(t: Seq<char>) -> (Seq<char>, int) {
    let u = match without_suffix(t, "b"@) {
        Some(x) => x,
        None => t,
    };
    match without_suffix(u, "k"@) {
        Some(d) => (d, 1024),
        None => match without_suffix(u, "m"@) {
            Some(d) => (d, 1_048_576),
            None => match without_suffix(u, "g"@) {
                Some(d) => (d, 1_073_741_824),
                None => (u, 1),
            },
        },
    }
}

/// What a size is read as, or the refusal.
pub open spec fn size_of_text(s: Seq<char>) -> Result<u64, Seq<char>> {
    let (digits, mult) = size_parts(lower(trimmed(s)));
    match unsigned(trimmed(digits), 10, u64::MAX as int) {
        None => Err(
            "bad size "@ + debug_text(s) + " (expected e.g. 10m, 512k, or a byte count)"@,
        ),
        Some(n) => if n * mult > u64::MAX {
            Err("size "@ + debug_text(s) + " overflows"@)
        } else {
            Ok((n * mult) as u64)
        },
    }
}

/// Reads a size: a number with an optional `k`, `m` or `g` and an optional `b`
/// behind it, in any case.
pub fn parse_size(s: &str) -> (r: Result<u64, String>)
    ensures
        match r {
            Ok(n) => size_of_text(s@) == Ok::<u64, Seq<char>>(n),
            Err(e) => size_of_text(s@) == Err::<u64, Seq<char>>(e@),
        },
{
    let t = lowercase(trim(s));
    let u = match strip_suffix(t.as_str(), "b") {
        Some(x) => x,
        None => t.as_str(),
    };
    let (digits, mult) = match strip_suffix(u, "k") {
        Some(d) => (d, 1024u64),
        None => match strip_suffix(u, "m") {
            Some(d) => (d, 1_048_576u64),
            None => match strip_suffix(u, "g") {
                Some(d) => (d, 1_073_741_824u64),
                None => (u, 1u64),
            },
        },
    };
    let q = quoted(s);
    match parse_u64(trim(digits)) {
        None => Err(
            own("bad size ").concat(q.as_str()).concat(
                " (expected e.g. 10m, 512k, or a byte count)",
            ),
        ),
        Some(n) => match n.checked_mul(mult) {
            Some(x) => Ok(x),
            None => Err(own("size ").concat(q.as_str()).concat(" overflows")),
        },
    }
}

} // verus!
