//! The middleware options of one route, and the layers that they ask for.

use vstd::prelude::*;
use vstd::string::{StrSliceExecFns, StringExecFns};

use super::auth::{credentials, Auth, Authz, Credential, CredentialView};
use super::observe::AccessLog;
use crate::fault::{bad_input, Fault, FaultKind, Outcome};
use crate::text::{
    cut, debug_text, decimal, decimal_of, join, joined, own, parse_u32, pieces, push_text, quoted,
    same, slices, split, split_once, texts, trim, trimmed, unsigned,
};
use crate::waf::{mode_of, Waf, WafMode, DEFAULT_THRESHOLD};

verus! {

/// The option keys of this module; the router's partition sends each option to the
/// parser that owns its key.
pub const L6_KEYS: [&'static str; 7] = [
    "auth",
    "realm",
    "require-user",
    "rate",
    "burst",
    "waf",
    "waf-threshold",
];

/// A key of this module.
pub open spec fn is_l6_key(k: Seq<char>) -> bool {
    ||| k == "auth"@
    ||| k == "realm"@
    ||| k == "require-user"@
    ||| k == "rate"@
    ||| k == "burst"@
    ||| k == "waf"@
    ||| k == "waf-threshold"@
}

/// Whether a key is one of this module.
pub fn l6_key(k: &str) -> (r: bool)
    ensures
        r == is_l6_key(k@),
{
    same(k, "auth") || same(k, "realm") || same(k, "require-user") || same(k, "rate") || same(
        k,
        "burst",
    ) || same(k, "waf") || same(k, "waf-threshold")
}

/// A fractional number as the program around the library reads it: its bits, and
/// the two comparisons that the options need.
#[derive(Debug, Clone, Copy, PartialEq, Eq, Structural)]
pub struct Number {
    pub bits: u64,
    /// It is not zero or below.
    pub positive: bool,
    /// It is not below one.
    pub at_least_one: bool,
}

/// A rate: so many requests, in each second or in each minute.
#[derive(Debug, Clone, Copy, PartialEq, Eq, Structural)]
pub struct Rate {
    pub count: Number,
    pub per_minute: bool,
}

/// What the texts of numbers were read as.
pub open spec fn readings(t: Seq<(String, Option<Number>)>) -> Seq<(Seq<char>, Option<Number>)> {
    Seq::new(t.len(), |i: int| (t[i].0@, t[i].1))
}

/// What a text was read as; a text without a reading is no number.
pub open spec fn reading(t: Seq<(Seq<char>, Option<Number>)>, s: Seq<char>) -> Option<Number>
    decreases t.len(),
{
    if t.len() == 0 {
        None
    } else if t[0].0 == s {
        t[0].1
    } else {
        reading(t.drop_first(), s)
    }
}

fn read_number(t: &Vec<(String, Option<Number>)>, s: &str) -> (r: Option<Number>)
    ensures
        r == reading(readings(t@), s@),
{
    let mut i: usize = 0;
    assert(readings(t@).skip(0) =~= readings(t@));
    while i < t.len()
        invariant
            i <= t@.len(),
            reading(readings(t@), s@) == reading(readings(t@).skip(i as int), s@),
        decreases t.len() - i,
    {
        assert(readings(t@).skip(i as int)[0] == readings(t@)[i as int]);
        if same(t[i].0.as_str(), s) {
            return t[i].1;
        }
        assert(readings(t@).skip(i as int).drop_first() =~= readings(t@).skip(i + 1));
        i = i + 1;
    }
    None
}

/// The options of one route, parsed.
#[derive(Debug)]
pub struct MiddlewareConfig {
    pub creds: Vec<Credential>,
    pub realm: String,
    pub require_user: Vec<String>,
    pub rate: Option<Rate>,
    /// The bucket's capacity; where it is not given, one second of the rate.
    pub burst: Option<Number>,
    pub request_id: bool,
    pub access_log: bool,
    pub waf: Option<WafMode>,
    pub waf_threshold: Option<u32>,
}

/// What the options of a route say.
pub struct OptionsView {
    pub creds: Seq<CredentialView>,
    pub realm: Seq<char>,
    pub require_user: Seq<Seq<char>>,
    pub rate: Option<Rate>,
    pub burst: Option<Number>,
    pub request_id: bool,
    pub access_log: bool,
    pub waf: Option<WafMode>,
    pub waf_threshold: Option<u32>,
}

impl View for MiddlewareConfig {
    type V = OptionsView;

    open spec fn view(&self) -> OptionsView {
        OptionsView {
            creds: credentials(self.creds@),
            realm: self.realm@,
            require_user: texts(self.require_user@),
            rate: self.rate,
            burst: self.burst,
            request_id: self.request_id,
            access_log: self.access_log,
            waf: self.waf,
            waf_threshold: self.waf_threshold,
        }
    }
}

// ---------------------------------------------------------------------------
// Parsing
// ---------------------------------------------------------------------------

/// A refusal of an option.
pub open spec fn refused(m: Seq<char>) -> Seq<char> {
    "middleware option: "@ + m
}

fn err(m: &str) -> (e: Fault)
    ensures
        e.kind == FaultKind::InvalidInput,
        e.message@ == refused(m@),
{
    bad_input(own("middleware option: ").concat(m))
}

/// A refusal that quotes a value between two texts.
fn err_quoting(a: &str, value: &str, b: &str) -> (e: Fault)
    ensures
        e.kind == FaultKind::InvalidInput,
        e.message@ == refused(a@ + debug_text(value@) + b@),
{
    let q = quoted(value);
    let m = own(a).concat(q.as_str()).concat(b);
    err(m.as_str())
}

/// `basic:USER:PASS` or `bearer:TOKEN`. A password may hold colons.
pub open spec fn credential_of(value: Seq<char>) -> Outcome<CredentialView> {
    match cut(value, ':') {
        None => Err(refused("auth "@ + debug_text(value) + " must be scheme:..."@)),
        Some((scheme, rest)) => if scheme == "basic"@ {
            match cut(rest, ':') {
                None => Err(
                    refused("auth=basic needs user:pass, got "@ + debug_text(value) + ""@),
                ),
                Some((user, pass)) => if user.len() == 0 || pass.len() == 0 {
                    Err(
                        refused(
                            "auth=basic needs a non-empty user and pass, got "@ + debug_text(value)
                                + ""@,
                        ),
                    )
                } else {
                    Ok(CredentialView::Basic { user, pass })
                },
            }
        } else if scheme == "bearer"@ {
            if rest.len() == 0 {
                Err(refused("auth=bearer needs a token"@))
            } else {
                Ok(CredentialView::Bearer { token: rest, label: "bearer"@ })
            }
        } else {
            Err(
                refused("unknown auth scheme "@ + debug_text(scheme) + " (want basic or bearer)"@),
            )
        },
    }
}

fn parse_credential(value: &str) -> (r: Result<Credential, Fault>)
    ensures
        match r {
            Ok(c) => credential_of(value@) == Ok::<CredentialView, Seq<char>>(c@),
            Err(e) => e.kind == FaultKind::InvalidInput && credential_of(value@) == Err::<
                CredentialView,
                Seq<char>,
            >(e.message@),
        },
{
    match split_once(value, ':') {
        None => Err(err_quoting("auth ", value, " must be scheme:...")),
        Some((scheme, rest)) => if same(scheme, "basic") {
            match split_once(rest, ':') {
                None => Err(err_quoting("auth=basic needs user:pass, got ", value, "")),
                Some((user, pass)) => if user.unicode_len() == 0 || pass.unicode_len() == 0 {
                    Err(
                        err_quoting(
                            "auth=basic needs a non-empty user and pass, got ",
                            value,
                            "",
                        ),
                    )
                } else {
                    Ok(Credential::Basic { user: own(user), pass: own(pass) })
                },
            }
        } else if same(scheme, "bearer") {
            if rest.unicode_len() == 0 {
                Err(err("auth=bearer needs a token"))
            } else {
                Ok(Credential::Bearer { token: own(rest), label: own("bearer") })
            }
        } else {
            Err(err_quoting("unknown auth scheme ", scheme, " (want basic or bearer)"))
        },
    }
}

/// `N/s` or `N/m`. A rate of zero is refused: to admit nothing is not what it means.
pub open spec fn rate_of(value: Seq<char>, t: Seq<(Seq<char>, Option<Number>)>) -> Outcome<Rate> {
    match cut(value, '/') {
        None => Err(refused("rate "@ + debug_text(value) + " must be N/s or N/m"@)),
        Some((n, unit)) => match reading(t, trimmed(n)) {
            None => Err(refused("rate "@ + debug_text(value) + " has a non-numeric count"@)),
            Some(count) => if !count.positive {
                Err(refused("rate must be > 0, got "@ + debug_text(value) + ""@))
            } else if trimmed(unit) == "s"@ {
                Ok(Rate { count, per_minute: false })
            } else if trimmed(unit) == "m"@ {
                Ok(Rate { count, per_minute: true })
            } else {
                Err(refused("rate unit "@ + debug_text(trimmed(unit)) + " must be s or m"@))
            },
        },
    }
}

fn parse_rate(value: &str, t: &Vec<(String, Option<Number>)>) -> (r: Result<Rate, Fault>)
    ensures
        match r {
            Ok(c) => rate_of(value@, readings(t@)) == Ok::<Rate, Seq<char>>(c),
            Err(e) => e.kind == FaultKind::InvalidInput && rate_of(value@, readings(t@)) == Err::<
                Rate,
                Seq<char>,
            >(e.message@),
        },
{
    match split_once(value, '/') {
        None => Err(err_quoting("rate ", value, " must be N/s or N/m")),
        Some((n, unit)) => match read_number(t, trim(n)) {
            None => Err(err_quoting("rate ", value, " has a non-numeric count")),
            Some(count) => {
                let unit = trim(unit);
                if !count.positive {
                    Err(err_quoting("rate must be > 0, got ", value, ""))
                } else if same(unit, "s") {
                    Ok(Rate { count, per_minute: false })
                } else if same(unit, "m") {
                    Ok(Rate { count, per_minute: true })
                } else {
                    Err(err_quoting("rate unit ", unit, " must be s or m"))
                }
            },
        },
    }
}

/// The capacity of a bucket: a number, and at least 1.
pub open spec fn burst_of(value: Seq<char>, t: Seq<(Seq<char>, Option<Number>)>) -> Outcome<
    Number,
> {
    match reading(t, value) {
        None => Err(refused("burst "@ + debug_text(value) + " is not a number"@)),
        Some(b) => if !b.at_least_one {
            Err(refused("burst must be >= 1, got "@ + debug_text(value) + ""@))
        } else {
            Ok(b)
        },
    }
}

/// The score that convicts: a whole number, and at least 1.
pub open spec fn threshold_of(value: Seq<char>) -> Outcome<u32> {
    match unsigned(value, 10, u32::MAX as int) {
        None => Err(refused("waf-threshold "@ + debug_text(value) + " is not a number"@)),
        Some(n) => if n == 0 {
            Err(refused("waf-threshold must be >= 1"@))
        } else {
            Ok(n as u32)
        },
    }
}

/// What one option does.
pub open spec fn apply(
    c: OptionsView,
    key: Seq<char>,
    value: Seq<char>,
    t: Seq<(Seq<char>, Option<Number>)>,
) -> Outcome<OptionsView> {
    if key == "auth"@ {
        match credential_of(value) {
            Err(e) => Err(e),
            Ok(cred) => Ok(OptionsView { creds: c.creds.push(cred), ..c }),
        }
    } else if key == "realm"@ {
        Ok(OptionsView { realm: value, ..c })
    } else if key == "require-user"@ {
        Ok(OptionsView { require_user: c.require_user.push(value), ..c })
    } else if key == "rate"@ {
        match rate_of(value, t) {
            Err(e) => Err(e),
            Ok(r) => Ok(OptionsView { rate: Some(r), ..c }),
        }
    } else if key == "burst"@ {
        match burst_of(value, t) {
            Err(e) => Err(e),
            Ok(b) => Ok(OptionsView { burst: Some(b), ..c }),
        }
    } else if key == "waf"@ {
        match mode_of(value) {
            Err(e) => Err(refused(e)),
            Ok(m) => Ok(OptionsView { waf: Some(m), ..c }),
        }
    } else if key == "waf-threshold"@ {
        match threshold_of(value) {
            Err(e) => Err(e),
            Ok(n) => Ok(OptionsView { waf_threshold: Some(n), ..c }),
        }
    } else {
        Err(refused("unknown option "@ + debug_text(key) + ""@))
    }
}

/// What one segment between semicolons does; a blank one does nothing.
pub open spec fn step(
    c: OptionsView,
    seg: Seq<char>,
    t: Seq<(Seq<char>, Option<Number>)>,
) -> Outcome<OptionsView> {
    let opt = trimmed(seg);
    if opt.len() == 0 {
        Ok(c)
    } else {
        match cut(opt, '=') {
            None => Err(refused(""@ + debug_text(opt) + " must be name=value"@)),
            Some((k, v)) => if trimmed(v).len() == 0 {
                Err(refused(trimmed(k) + " needs a non-empty value"@))
            } else {
                apply(c, trimmed(k), trimmed(v), t)
            },
        }
    }
}

/// What segments do, one after the other.
pub open spec fn steps(
    c: OptionsView,
    segs: Seq<Seq<char>>,
    t: Seq<(Seq<char>, Option<Number>)>,
) -> Outcome<OptionsView>
    decreases segs.len(),
{
    if segs.len() == 0 {
        Ok(c)
    } else {
        match step(c, segs[0], t) {
            Err(e) => Err(e),
            Ok(next) => steps(next, segs.drop_first(), t),
        }
    }
}

/// Options that make no sense together are refused at the start: a required user
/// that nothing can establish, a capacity without a rate, a threshold without a
/// firewall.
pub open spec fn coherent(c: OptionsView) -> Outcome<OptionsView> {
    if c.require_user.len() > 0 && c.creds.len() == 0 {
        Err(
            refused(
                "require-user needs an auth= on the same route (nothing else can set the identity it checks)"@,
            ),
        )
    } else if c.burst is Some && c.rate is None {
        Err(refused("burst= needs a rate= on the same route"@))
    } else if c.waf_threshold is Some && c.waf is None {
        Err(refused("waf-threshold= needs a waf= on the same route"@))
    } else {
        Ok(c)
    }
}

/// Options of which none is given.
pub open spec fn no_options(request_id: bool, access_log: bool) -> OptionsView {
    OptionsView {
        creds: Seq::empty(),
        realm: "ferrum"@,
        require_user: Seq::empty(),
        rate: None,
        burst: None,
        request_id,
        access_log,
        waf: None,
        waf_threshold: None,
    }
}

/// The options that a text writes.
pub open spec fn options_of(
    opts: Seq<char>,
    request_id: bool,
    access_log: bool,
    t: Seq<(Seq<char>, Option<Number>)>,
) -> Outcome<OptionsView> {
    match steps(no_options(request_id, access_log), pieces(opts, ';'), t) {
        Err(e) => Err(e),
        Ok(c) => coherent(c),
    }
}

impl MiddlewareConfig {
    fn apply_option(
        &mut self,
        key: &str,
        value: &str,
        t: &Vec<(String, Option<Number>)>,
    ) -> (r: Result<(), Fault>)
        ensures
            match r {
                Ok(()) => apply(old(self)@, key@, value@, readings(t@)) == Ok::<
                    OptionsView,
                    Seq<char>,
                >(final(self)@),
                Err(e) => e.kind == FaultKind::InvalidInput && apply(
                    old(self)@,
                    key@,
                    value@,
                    readings(t@),
                ) == Err::<OptionsView, Seq<char>>(e.message@),
            },
    {
        if same(key, "auth") {
            match parse_credential(value) {
                Err(e) => {
                    return Err(e);
                },
                Ok(c) => {
                    self.creds.push(c);
                    assert(credentials(self.creds@) =~= credentials(old(self).creds@).push(c@));
                },
            }
        } else if same(key, "realm") {
            self.realm = own(value);
        } else if same(key, "require-user") {
            push_text(&mut self.require_user, own(value));
        } else if same(key, "rate") {
            match parse_rate(value, t) {
                Err(e) => {
                    return Err(e);
                },
                Ok(r) => {
                    self.rate = Some(r);
                },
            }
        } else if same(key, "burst") {
            match read_number(t, value) {
                None => {
                    return Err(err_quoting("burst ", value, " is not a number"));
                },
                Some(b) => {
                    if !b.at_least_one {
                        return Err(err_quoting("burst must be >= 1, got ", value, ""));
                    }
                    self.burst = Some(b);
                },
            }
        } else if same(key, "waf") {
            match WafMode::parse(value) {
                Err(m) => {
                    return Err(err(m.as_str()));
                },
                Ok(m) => {
                    self.waf = Some(m);
                },
            }
        } else if same(key, "waf-threshold") {
            match parse_u32(value) {
                None => {
                    return Err(err_quoting("waf-threshold ", value, " is not a number"));
                },
                Some(n) => {
                    if n == 0 {
                        return Err(err("waf-threshold must be >= 1"));
                    }
                    self.waf_threshold = Some(n);
                },
            }
        } else {
            return Err(err_quoting("unknown option ", key, ""));
        }
        Ok(())
    }

    /// The options of a route that gives none.
    pub fn plain(request_id: bool, access_log: bool) -> (cfg: MiddlewareConfig)
        ensures
            cfg@ == no_options(request_id, access_log),
    {
        let cfg = MiddlewareConfig {
            creds: Vec::new(),
            realm: own("ferrum"),
            require_user: Vec::new(),
            rate: None,
            burst: None,
            request_id,
            access_log,
            waf: None,
            waf_threshold: None,
        };
        assert(cfg@.creds =~= Seq::empty());
        assert(cfg@.require_user =~= Seq::empty());
        cfg
    }

    /// Parses the options of a route that this module owns. The two flags say
    /// whether ids and the access log are on; `numbers` says what the texts of
    /// [`number_texts`] were read as.
    pub fn from_options(
        opts: &str,
        request_id: bool,
        access_log: bool,
        numbers: &Vec<(String, Option<Number>)>,
    ) -> (r: Result<MiddlewareConfig, Fault>)
        ensures
            match r {
                Ok(c) => options_of(opts@, request_id, access_log, readings(numbers@)) == Ok::<
                    OptionsView,
                    Seq<char>,
                >(c@),
                Err(e) => e.kind == FaultKind::InvalidInput && options_of(
                    opts@,
                    request_id,
                    access_log,
                    readings(numbers@),
                ) == Err::<OptionsView, Seq<char>>(e.message@),
            },
    {
        let mut cfg = MiddlewareConfig::plain(request_id, access_log);
        let segs = split(opts, ';');
        let ghost t = readings(numbers@);
        let ghost all = steps(cfg@, pieces(opts@, ';'), t);
        let mut i: usize = 0;
        assert(slices(segs@).skip(0) =~= slices(segs@));
        while i < segs.len()
            invariant
                i <= segs@.len(),
                t == readings(numbers@),
                slices(segs@) == pieces(opts@, ';'),
                all == steps(no_options(request_id, access_log), pieces(opts@, ';'), t),
                all == steps(cfg@, slices(segs@).skip(i as int), t),
            decreases segs.len() - i,
        {
            let ghost rest = slices(segs@).skip(i as int);
            assert(rest[0] == segs@[i as int]@);
            assert(rest.drop_first() =~= slices(segs@).skip(i + 1));
            let opt = trim(segs[i]);
            if opt.unicode_len() != 0 {
                match split_once(opt, '=') {
                    None => {
                        return Err(err_quoting("", opt, " must be name=value"));
                    },
                    Some((k, v)) => {
                        let key = trim(k);
                        let value = trim(v);
                        if value.unicode_len() == 0 {
                            let m = own(key).concat(" needs a non-empty value");
                            return Err(err(m.as_str()));
                        }
                        match cfg.apply_option(key, value, numbers) {
                            Ok(()) => {},
                            Err(e) => {
                                return Err(e);
                            },
                        }
                    },
                }
            }
            i = i + 1;
        }
        assert(slices(segs@).skip(i as int) =~= Seq::<Seq<char>>::empty());
        if cfg.require_user.len() > 0 && cfg.creds.len() == 0 {
            return Err(
                err(
                    "require-user needs an auth= on the same route (nothing else can set the identity it checks)",
                ),
            );
        }
        if cfg.burst.is_some() && cfg.rate.is_none() {
            return Err(err("burst= needs a rate= on the same route"));
        }
        if cfg.waf_threshold.is_some() && cfg.waf.is_none() {
            return Err(err("waf-threshold= needs a waf= on the same route"));
        }
        Ok(cfg)
    }
}

// ---------------------------------------------------------------------------
// The numbers that options hold
// ---------------------------------------------------------------------------

/// The text of a number in one segment, if it has one.
pub open spec fn number_in(seg: Seq<char>) -> Option<Seq<char>> {
    match cut(trimmed(seg), '=') {
        None => None,
        Some((k, v)) => if trimmed(k) == "rate"@ {
            match cut(trimmed(v), '/') {
                None => None,
                Some((n, _)) => Some(trimmed(n)),
            }
        } else if trimmed(k) == "burst"@ {
            Some(trimmed(v))
        } else {
            None
        },
    }
}

/// The texts of the numbers in options, in order.
pub open spec fn numbers_in(segs: Seq<Seq<char>>) -> Seq<Seq<char>>
    decreases segs.len(),
{
    if segs.len() == 0 {
        Seq::empty()
    } else {
        match number_in(segs[0]) {
            Some(n) => seq![n] + numbers_in(segs.drop_first()),
            None => numbers_in(segs.drop_first()),
        }
    }
}

fn number_text(seg: &str) -> (r: Option<String>)
    ensures
        crate::text::maybe(r) == number_in(seg@),
{
    match split_once(trim(seg), '=') {
        None => None,
        Some((k, v)) => {
            let key = trim(k);
            let value = trim(v);
            if same(key, "rate") {
                match split_once(value, '/') {
                    None => None,
                    Some((n, _)) => Some(own(trim(n))),
                }
            } else if same(key, "burst") {
                Some(own(value))
            } else {
                None
            }
        },
    }
}

/// The texts that have to be read as numbers before the options can be parsed.
pub fn number_texts(opts: &str) -> (r: Vec<String>)
    ensures
        texts(r@) == numbers_in(pieces(opts@, ';')),
{
    let segs = split(opts, ';');
    let mut r: Vec<String> = Vec::new();
    let mut i: usize = 0;
    let ghost all = numbers_in(pieces(opts@, ';'));
    assert(slices(segs@).skip(0) =~= slices(segs@));
    assert(texts(r@) + all =~= all);
    while i < segs.len()
        invariant
            i <= segs@.len(),
            all == texts(r@) + numbers_in(slices(segs@).skip(i as int)),
        decreases segs.len() - i,
    {
        let ghost rest = slices(segs@).skip(i as int);
        let ghost sofar = texts(r@);
        assert(rest[0] == segs@[i as int]@);
        assert(rest.drop_first() =~= slices(segs@).skip(i + 1));
        if let Some(n) = number_text(segs[i]) {
            let ghost t = n@;
            push_text(&mut r, n);
            assert(sofar + (seq![t] + numbers_in(rest.drop_first())) =~= texts(r@) + numbers_in(
                rest.drop_first(),
            ));
        }
        i = i + 1;
    }
    assert(slices(segs@).skip(i as int) =~= Seq::<Seq<char>>::empty());
    assert(texts(r@) + Seq::<Seq<char>>::empty() =~= texts(r@));
    r
}

proof fn lemma_steps_agree(
    c: OptionsView,
    segs: Seq<Seq<char>>,
    t: Seq<(Seq<char>, Option<Number>)>,
    u: Seq<(Seq<char>, Option<Number>)>,
)
    requires
        forall|i: int|
            0 <= i < numbers_in(segs).len() ==> reading(t, #[trigger] numbers_in(segs)[i])
                == reading(u, numbers_in(segs)[i]),
    ensures
        steps(c, segs, t) == steps(c, segs, u),
    decreases segs.len(),
{
    if segs.len() > 0 {
        let rest = segs.drop_first();
        assert forall|i: int| 0 <= i < numbers_in(rest).len() implies reading(
            t,
            #[trigger] numbers_in(rest)[i],
        ) == reading(u, numbers_in(rest)[i]) by {
            if number_in(segs[0]) is Some {
                assert(numbers_in(segs)[i + 1] == numbers_in(rest)[i]);
            } else {
                assert(numbers_in(segs)[i] == numbers_in(rest)[i]);
            }
        }
        if number_in(segs[0]) is Some {
            assert(numbers_in(segs)[0] == number_in(segs[0])->Some_0);
        }
        assert(step(c, segs[0], t) == step(c, segs[0], u));
        match step(c, segs[0], t) {
            Ok(next) => {
                lemma_steps_agree(next, rest, t, u);
            },
            Err(_) => {},
        }
    }
}

/// The outcome depends on the readings of the listed texts alone.
pub proof fn law_only_the_listed_numbers_matter(
    opts: Seq<char>,
    request_id: bool,
    access_log: bool,
    t: Seq<(Seq<char>, Option<Number>)>,
    u: Seq<(Seq<char>, Option<Number>)>,
)
    requires
        forall|i: int|
            0 <= i < numbers_in(pieces(opts, ';')).len() ==> reading(
                t,
                #[trigger] numbers_in(pieces(opts, ';'))[i],
            ) == reading(u, numbers_in(pieces(opts, ';'))[i]),
    ensures
        options_of(opts, request_id, access_log, t) == options_of(opts, request_id, access_log, u),
{
    lemma_steps_agree(no_options(request_id, access_log), pieces(opts, ';'), t, u);
}

// ---------------------------------------------------------------------------
// The layers
// ---------------------------------------------------------------------------

/// One layer that the options ask for.
#[derive(Debug)]
pub enum Layer {
    AccessLog(AccessLog),
    RequestId,
    Waf(Waf),
    RateLimit { rate: Rate, burst: Option<Number> },
    Auth(Auth),
    Authz(Authz),
}

/// What a layer is.
pub enum LayerView {
    AccessLog { plain: bool },
    RequestId,
    Waf(Waf),
    RateLimit { rate: Rate, burst: Option<Number> },
    Auth { creds: Seq<CredentialView>, realm: Seq<char> },
    Authz { allowed: Seq<Seq<char>> },
}

impl View for Layer {
    type V = LayerView;

    open spec fn view(&self) -> LayerView {
        match self {
            Layer::AccessLog(l) => LayerView::AccessLog { plain: l.plain },
            Layer::RequestId => LayerView::RequestId,
            Layer::Waf(w) => LayerView::Waf(*w),
            Layer::RateLimit { rate, burst } => LayerView::RateLimit { rate: *rate, burst: *burst },
            Layer::Auth(a) => LayerView::Auth { creds: credentials(a.creds@), realm: a.realm@ },
            Layer::Authz(a) => LayerView::Authz { allowed: texts(a.allowed@) },
        }
    }
}

/// What layers are.
pub open spec fn layer_views(v: Seq<Layer>) -> Seq<LayerView> {
    Seq::new(v.len(), |i: int| v[i]@)
}

/// One layer where it is asked for, and else none.
pub open spec fn layer_if(on: bool, l: LayerView) -> Seq<LayerView> {
    if on {
        seq![l]
    } else {
        Seq::empty()
    }
}

/// The layers that options ask for, in their fixed order: log, request id,
/// firewall, rate limit, authentication, authorisation. The firewall stands before
/// the rate limit and authentication, so that an attack neither spends a token nor
/// starts a comparison; the rate limit stands before authentication, so that a
/// flood of guesses is refused before any comparison.
pub open spec fn layers_of(c: OptionsView, plain: bool) -> Seq<LayerView> {
    layer_if(c.access_log, LayerView::AccessLog { plain }) + layer_if(
        c.request_id,
        LayerView::RequestId,
    ) + layer_if(
        c.waf is Some,
        LayerView::Waf(
            Waf {
                mode: c.waf->Some_0,
                threshold: match c.waf_threshold {
                    Some(n) => n,
                    None => DEFAULT_THRESHOLD,
                },
            },
        ),
    ) + layer_if(
        c.rate is Some,
        LayerView::RateLimit { rate: c.rate->Some_0, burst: c.burst },
    ) + layer_if(
        c.creds.len() > 0,
        LayerView::Auth { creds: c.creds, realm: c.realm },
    ) + layer_if(
        c.require_user.len() > 0,
        LayerView::Authz { allowed: c.require_user },
    )
}

fn clone_credential(c: &Credential) -> (r: Credential)
    ensures
        r@ == c@,
{
    match c {
        Credential::Basic { user, pass } => Credential::Basic {
            user: own(user.as_str()),
            pass: own(pass.as_str()),
        },
        Credential::Bearer { token, label } => Credential::Bearer {
            token: own(token.as_str()),
            label: own(label.as_str()),
        },
    }
}

fn clone_credentials(v: &Vec<Credential>) -> (r: Vec<Credential>)
    ensures
        credentials(r@) == credentials(v@),
{
    let mut r: Vec<Credential> = Vec::new();
    let mut i: usize = 0;
    while i < v.len()
        invariant
            i <= v@.len(),
            credentials(r@) == credentials(v@).take(i as int),
        decreases v.len() - i,
    {
        let ghost sofar = r@;
        let c = clone_credential(&v[i]);
        r.push(c);
        assert(credentials(r@) =~= credentials(sofar).push(c@));
        assert(credentials(v@).take(i + 1) =~= credentials(v@).take(i as int).push(c@));
        i = i + 1;
    }
    assert(credentials(v@).take(i as int) =~= credentials(v@));
    r
}

/// Copies of texts.
pub fn clone_texts(v: &Vec<String>) -> (r: Vec<String>)
    ensures
        texts(r@) == texts(v@),
{
    let mut r: Vec<String> = Vec::new();
    let mut i: usize = 0;
    while i < v.len()
        invariant
            i <= v@.len(),
            texts(r@) == texts(v@).take(i as int),
        decreases v.len() - i,
    {
        push_text(&mut r, own(v[i].as_str()));
        assert(texts(v@).take(i + 1) =~= texts(v@).take(i as int).push(v@[i as int]@));
        i = i + 1;
    }
    assert(texts(v@).take(i as int) =~= texts(v@));
    r
}

fn push_layer(v: &mut Vec<Layer>, l: Layer)
    ensures
        layer_views(final(v)@) == layer_views(old(v)@) + seq![l@],
{
    v.push(l);
    assert(layer_views(v@) =~= layer_views(old(v)@) + seq![l@]);
}

impl MiddlewareConfig {
    /// The layers of the route, in their fixed order.
    pub fn build(&self, plain: bool) -> (r: Vec<Layer>)
        ensures
            layer_views(r@) == layers_of(self@, plain),
    {
        let mut mws: Vec<Layer> = Vec::new();
        let ghost c = self@;
        assert(c.creds.len() == self.creds@.len());
        assert(c.require_user.len() == self.require_user@.len());
        let ghost none = Seq::<LayerView>::empty();
        assert(layer_views(mws@) =~= none);
        if self.access_log {
            push_layer(&mut mws, Layer::AccessLog(AccessLog { plain }));
        }
        let ghost a = layer_if(c.access_log, LayerView::AccessLog { plain });
        assert(layer_views(mws@) =~= a);
        if self.request_id {
            push_layer(&mut mws, Layer::RequestId);
        }
        let ghost b = a + layer_if(c.request_id, LayerView::RequestId);
        assert(layer_views(mws@) =~= b);
        if let Some(mode) = self.waf {
            let threshold: u32 = match self.waf_threshold {
                Some(n) => n,
                None => DEFAULT_THRESHOLD,
            };
            push_layer(&mut mws, Layer::Waf(Waf { mode, threshold }));
        }
        let ghost w = b + layer_if(
            c.waf is Some,
            LayerView::Waf(
                Waf {
                    mode: c.waf->Some_0,
                    threshold: match c.waf_threshold {
                        Some(n) => n,
                        None => DEFAULT_THRESHOLD,
                    },
                },
            ),
        );
        assert(layer_views(mws@) =~= w);
        if let Some(rate) = self.rate {
            push_layer(&mut mws, Layer::RateLimit { rate, burst: self.burst });
        }
        let ghost l = w + layer_if(
            c.rate is Some,
            LayerView::RateLimit { rate: c.rate->Some_0, burst: c.burst },
        );
        assert(layer_views(mws@) =~= l);
        if self.creds.len() > 0 {
            let creds = clone_credentials(&self.creds);
            push_layer(&mut mws, Layer::Auth(Auth { creds, realm: own(self.realm.as_str()) }));
        }
        let ghost u = l + layer_if(
            c.creds.len() > 0,
            LayerView::Auth { creds: c.creds, realm: c.realm },
        );
        assert(layer_views(mws@) =~= u);
        if self.require_user.len() > 0 {
            let allowed = clone_texts(&self.require_user);
            push_layer(&mut mws, Layer::Authz(Authz { allowed }));
        }
        assert(layer_views(mws@) =~= layers_of(c, plain));
        mws
    }
}

/// The place of a layer in the fixed order.
pub open spec fn place(l: LayerView) -> int {
    match l {
        LayerView::AccessLog { .. } => 0,
        LayerView::RequestId => 1,
        LayerView::Waf(_) => 2,
        LayerView::RateLimit { .. } => 3,
        LayerView::Auth { .. } => 4,
        LayerView::Authz { .. } => 5,
    }
}

/// Layers stand in the fixed order, none twice, and all of them before the place `k`.
spec fn ordered_below(v: Seq<LayerView>, k: int) -> bool {
    &&& forall|i: int| 0 <= i < v.len() ==> place(#[trigger] v[i]) < k
    &&& forall|i: int, j: int|
        0 <= i < j < v.len() ==> place(#[trigger] v[i]) < place(#[trigger] v[j])
}

proof fn lemma_ordered_more(v: Seq<LayerView>, on: bool, l: LayerView)
    requires
        ordered_below(v, place(l)),
    ensures
        ordered_below(v + layer_if(on, l), place(l) + 1),
{
    let w = v + layer_if(on, l);
    assert forall|i: int| 0 <= i < w.len() implies place(#[trigger] w[i]) < place(l) + 1 by {
        if i < v.len() {
            assert(w[i] == v[i]);
        } else {
            assert(w[i] == l);
        }
    }
    assert forall|i: int, j: int| 0 <= i < j < w.len() implies place(#[trigger] w[i]) < place(
        #[trigger] w[j],
    ) by {
        assert(w[i] == v[i]);
        if j < v.len() {
            assert(w[j] == v[j]);
        } else {
            assert(w[j] == l);
        }
    }
}

/// Whatever the options, the layers stand in the fixed order and none stands twice.
pub proof fn law_layers_stand_in_order(c: OptionsView, plain: bool, i: int, j: int)
    requires
        0 <= i < j < layers_of(c, plain).len(),
    ensures
        place(layers_of(c, plain)[i]) < place(layers_of(c, plain)[j]),
{
    let log = LayerView::AccessLog { plain };
    let waf = LayerView::Waf(
        Waf {
            mode: c.waf->Some_0,
            threshold: match c.waf_threshold {
                Some(n) => n,
                None => DEFAULT_THRESHOLD,
            },
        },
    );
    let rate = LayerView::RateLimit { rate: c.rate->Some_0, burst: c.burst };
    let auth = LayerView::Auth { creds: c.creds, realm: c.realm };
    let authz = LayerView::Authz { allowed: c.require_user };
    let none = Seq::<LayerView>::empty();
    lemma_ordered_more(none, c.access_log, log);
    let v = layer_if(c.access_log, log);
    assert(none + v =~= v);
    lemma_ordered_more(v, c.request_id, LayerView::RequestId);
    let v = v + layer_if(c.request_id, LayerView::RequestId);
    lemma_ordered_more(v, c.waf is Some, waf);
    let v = v + layer_if(c.waf is Some, waf);
    lemma_ordered_more(v, c.rate is Some, rate);
    let v = v + layer_if(c.rate is Some, rate);
    lemma_ordered_more(v, c.creds.len() > 0, auth);
    let v = v + layer_if(c.creds.len() > 0, auth);
    lemma_ordered_more(v, c.require_user.len() > 0, authz);
}

/// A count in brackets behind a name.
pub open spec fn counted(name: Seq<char>, n: nat, what: Seq<char>) -> Seq<char> {
    name + "("@ + decimal(n) + " "@ + what + ")"@
}

/// The parts of the banner's summary.
pub open spec fn summary_parts(c: OptionsView, rate: Seq<char>, burst: Seq<char>) -> Seq<
    Seq<char>,
> {
    text_if(c.access_log, "log"@) + text_if(c.request_id, "request-id"@) + text_if(
        c.rate is Some,
        "ratelimit("@ + rate + "/s burst="@ + burst + ")"@,
    ) + text_if(c.creds.len() > 0, counted("auth"@, c.creds.len(), "cred"@)) + text_if(
        c.require_user.len() > 0,
        counted("authz"@, c.require_user.len(), "user"@),
    )
}

/// One text where it is asked for, and else none.
pub open spec fn text_if(on: bool, s: Seq<char>) -> Seq<Seq<char>> {
    if on {
        seq![s]
    } else {
        Seq::empty()
    }
}

fn push_part(v: &mut Vec<String>, on: bool, s: String)
    ensures
        texts(final(v)@) == texts(old(v)@) + text_if(on, s@),
{
    if on {
        let ghost t = s@;
        push_text(v, s);
        assert(texts(v@) =~= texts(old(v)@) + seq![t]);
    } else {
        assert(texts(v@) =~= texts(old(v)@) + Seq::<Seq<char>>::empty());
    }
}

impl MiddlewareConfig {
    /// A short text for the startup banner. `rate` and `burst` are the limiter's
    /// tokens per second and capacity, as they are shown.
    pub fn describe(&self, rate: &str, burst: &str) -> (r: String)
        ensures
            r@ == joined(summary_parts(self@, rate@, burst@), ", "@),
    {
        let ghost c = self@;
        assert(c.creds.len() == self.creds@.len());
        assert(c.require_user.len() == self.require_user@.len());
        let mut parts: Vec<String> = Vec::new();
        let creds = decimal_of(self.creds.len() as u64);
        let users = decimal_of(self.require_user.len() as u64);
        push_part(&mut parts, self.access_log, own("log"));
        push_part(&mut parts, self.request_id, own("request-id"));
        push_part(
            &mut parts,
            self.rate.is_some(),
            own("ratelimit(").concat(rate).concat("/s burst=").concat(burst).concat(")"),
        );
        push_part(
            &mut parts,
            self.creds.len() > 0,
            own("auth").concat("(").concat(creds.as_str()).concat(" ").concat("cred").concat(")"),
        );
        push_part(
            &mut parts,
            self.require_user.len() > 0,
            own("authz").concat("(").concat(users.as_str()).concat(" ").concat("user").concat(")"),
        );
        assert(texts(parts@) =~= summary_parts(c, rate@, burst@));
        join(&parts, ", ")
    }
}

} // verus!
