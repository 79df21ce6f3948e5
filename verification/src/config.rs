//! The configuration file: a small subset of TOML, lowered onto the command line.
//!
//! The file is the command-line vocabulary, persisted: `max-conns = 10000` is
//! `--max-conns 10000`, an `[upstreams]` entry is `--upstream NAME=SPEC`, an
//! element of `routes` is a positional route spec. The real arguments are
//! appended behind the lowered ones, so that the last write wins.
//!
//! The subset: `key = value` with quoted strings, integers and booleans; an
//! `[upstreams]` table; one `routes` array of strings, on one line or several;
//! `#` comments and blank lines. Everything else is an error with a line number.
//! A key that occurs twice is an error too.

use vstd::prelude::*;
use vstd::string::{StrSliceExecFns, StringExecFns};

use crate::fault::{bad_input, Fault, FaultKind, Outcome};
use crate::text::{
    chars_of, contains_char, cut, debug_text, decimal, decimal_of, digit, has_char, is_digit, lines,
    lines_of, list_has, maybe, own, push_text, quoted, same, slice, slices, split_once, starts,
    strip_prefix, strip_suffix, texts, trim, trimmed, without_prefix, without_suffix,
};

verus! {

/// Keys that only take effect at startup: a reload applies routes and upstreams,
/// and warns by name about a change of any of these.
pub const STARTUP_ONLY_KEYS: [&'static str; 14] = [
    "listen",
    "admin",
    "log-level",
    "log-plain",
    "tls-cert",
    "tls-key",
    "tls-client-ca",
    "tls-client-auth",
    "max-conns",
    "max-conns-per-ip",
    "cache-max-bytes",
    "cache-max-entries",
    "cache-max-body",
    "drain-timeout",
];

/// A parsed config file, lowered and ready to merge with the real arguments.
#[derive(Debug)]
pub struct FileConfig {
    /// The file's `listen` value, which is positional on the command line and
    /// applies only where the real arguments give no listen address.
    pub listen: Option<String>,
    /// Everything else: flags, then `--upstream` pairs, then route specs.
    pub args: Vec<String>,
}

/// What a lowered file says.
pub struct ConfigView {
    pub listen: Option<Seq<char>>,
    pub args: Seq<Seq<char>>,
}

impl View for FileConfig {
    type V = ConfigView;

    open spec fn view(&self) -> ConfigView {
        ConfigView { listen: maybe(self.listen), args: texts(self.args@) }
    }
}

// ---------------------------------------------------------------------------
// Keys
// ---------------------------------------------------------------------------

/// Keys whose flags take a value: `--key VALUE`.
pub open spec fn is_value_key(k: Seq<char>) -> bool {
    ||| k == "listen"@
    ||| k == "admin"@
    ||| k == "log-level"@
    ||| k == "backend-timeout"@
    ||| k == "pool-max-idle"@
    ||| k == "pool-idle-timeout"@
    ||| k == "hc-interval"@
    ||| k == "hc-timeout"@
    ||| k == "hc-backoff-base"@
    ||| k == "hc-backoff-max"@
    ||| k == "hc-fail"@
    ||| k == "hc-success"@
    ||| k == "tls-cert"@
    ||| k == "tls-key"@
    ||| k == "tls-client-ca"@
    ||| k == "tls-client-auth"@
    ||| k == "max-conns"@
    ||| k == "max-conns-per-ip"@
    ||| k == "max-body"@
    ||| k == "max-headers"@
    ||| k == "allow-cidr"@
    ||| k == "deny-cidr"@
    ||| k == "cache-max-bytes"@
    ||| k == "cache-max-entries"@
    ||| k == "cache-max-body"@
    ||| k == "drain-timeout"@
}

fn value_key(k: &str) -> (r: bool)
    ensures
        r == is_value_key(k@),
{
    same(k, "listen") || same(k, "admin") || same(k, "log-level") || same(k, "backend-timeout")
        || same(k, "pool-max-idle") || same(k, "pool-idle-timeout") || same(k, "hc-interval")
        || same(k, "hc-timeout") || same(k, "hc-backoff-base") || same(k, "hc-backoff-max") || same(
        k,
        "hc-fail",
    ) || same(k, "hc-success") || same(k, "tls-cert") || same(k, "tls-key") || same(
        k,
        "tls-client-ca",
    ) || same(k, "tls-client-auth") || same(k, "max-conns") || same(k, "max-conns-per-ip") || same(
        k,
        "max-body",
    ) || same(k, "max-headers") || same(k, "allow-cidr") || same(k, "deny-cidr") || same(
        k,
        "cache-max-bytes",
    ) || same(k, "cache-max-entries") || same(k, "cache-max-body") || same(k, "drain-timeout")
}

/// Keys whose flags are bare switches: `key = true` is `--key`.
pub open spec fn is_switch_key(k: Seq<char>) -> bool {
    ||| k == "no-forwarded"@
    ||| k == "no-request-id"@
    ||| k == "no-access-log"@
    ||| k == "log-plain"@
}

fn switch_key(k: &str) -> (r: bool)
    ensures
        r == is_switch_key(k@),
{
    same(k, "no-forwarded") || same(k, "no-request-id") || same(k, "no-access-log") || same(
        k,
        "log-plain",
    )
}

// ---------------------------------------------------------------------------
// Values
// ---------------------------------------------------------------------------

/// A refusal with the line that it is about.
pub open spec fn located(line_no: int, m: Seq<char>) -> Seq<char> {
    "config line "@ + decimal(line_no as nat) + ": "@ + m
}

fn err(line_no: usize, m: &str) -> (e: Fault)
    ensures
        e.kind == FaultKind::InvalidInput,
        e.message@ == located(line_no as int, m@),
{
    let d = decimal_of(line_no as u64);
    bad_input(own("config line ").concat(d.as_str()).concat(": ").concat(m))
}

/// A value in a specification, typed by its shape.
pub enum ValueView {
    Text(Seq<char>),
    Truth(bool),
    Digits(Seq<char>),
}

/// A value, typed by its shape: a quoted string, a boolean, or digits. Sizes and
/// durations are strings here; an integer is kept as text.
enum Value {
    Text(String),
    Truth(bool),
    Digits(String),
}

impl Value {
    spec fn view(&self) -> ValueView {
        match self {
            Value::Text(s) => ValueView::Text(s@),
            Value::Truth(b) => ValueView::Truth(*b),
            Value::Digits(s) => ValueView::Digits(s@),
        }
    }
}

/// Every character is an ASCII digit, and there is one.
pub open spec fn is_integer(s: Seq<char>) -> bool {
    s.len() > 0 && forall|i: int| 0 <= i < s.len() ==> is_digit(#[trigger] s[i])
}

fn integer(s: &str) -> (r: bool)
    ensures
        r == is_integer(s@),
{
    let v = chars_of(s);
    let mut i: usize = 0;
    while i < v.len()
        invariant
            i <= v@.len(),
            v@ == s@,
            forall|k: int| 0 <= k < i ==> is_digit(#[trigger] v@[k]),
        decreases v.len() - i,
    {
        if !digit(v[i]) {
            assert(!is_digit(s@[i as int]));
            return false;
        }
        i = i + 1;
    }
    v.len() > 0
}

/// The value that a text writes.
pub open spec fn value_of(text: Seq<char>, line_no: int) -> Outcome<ValueView> {
    let raw = trimmed(text);
    match without_prefix(raw, "\""@) {
        Some(rest) => match without_suffix(rest, "\""@) {
            None => Err(located(line_no, "unterminated string "@ + debug_text(raw))),
            Some(inner) => if has_char(inner, '"') {
                Err(
                    located(
                        line_no,
                        "escaped quotes are outside the subset; simplify the value"@,
                    ),
                )
            } else {
                Ok(ValueView::Text(inner))
            },
        },
        None => if raw == "true"@ {
            Ok(ValueView::Truth(true))
        } else if raw == "false"@ {
            Ok(ValueView::Truth(false))
        } else if is_integer(raw) {
            Ok(ValueView::Digits(raw))
        } else {
            Err(
                located(
                    line_no,
                    "value "@ + debug_text(raw) + " is not a quoted string, integer, or bool"@,
                ),
            )
        },
    }
}

fn parse_value(text: &str, line_no: usize) -> (r: Result<Value, Fault>)
    ensures
        match r {
            Ok(v) => value_of(text@, line_no as int) == Ok::<ValueView, Seq<char>>(v@),
            Err(e) => e.kind == FaultKind::InvalidInput && value_of(text@, line_no as int) == Err::<
                ValueView,
                Seq<char>,
            >(e.message@),
        },
{
    let raw = trim(text);
    if let Some(rest) = strip_prefix(raw, "\"") {
        match strip_suffix(rest, "\"") {
            None => {
                let q = quoted(raw);
                let m = own("unterminated string ").concat(q.as_str());
                return Err(err(line_no, m.as_str()));
            },
            Some(inner) => {
                if contains_char(inner, '"') {
                    return Err(
                        err(
                            line_no,
                            "escaped quotes are outside the subset; simplify the value",
                        ),
                    );
                }
                return Ok(Value::Text(own(inner)));
            },
        }
    }
    if same(raw, "true") {
        Ok(Value::Truth(true))
    } else if same(raw, "false") {
        Ok(Value::Truth(false))
    } else if integer(raw) {
        Ok(Value::Digits(own(raw)))
    } else {
        let q = quoted(raw);
        let m = own("value ").concat(q.as_str()).concat(
            " is not a quoted string, integer, or bool",
        );
        Err(err(line_no, m.as_str()))
    }
}

// ---------------------------------------------------------------------------
// Comments and array items
// ---------------------------------------------------------------------------

/// Where a comment starts: the first `#` outside quotes, or the end.
pub open spec fn comment_start(s: Seq<char>, in_str: bool) -> int
    decreases s.len(),
{
    if s.len() == 0 {
        0
    } else if s[0] == '"' {
        1 + comment_start(s.drop_first(), !in_str)
    } else if s[0] == '#' && !in_str {
        0
    } else {
        1 + comment_start(s.drop_first(), in_str)
    }
}

/// A line without its comment.
pub open spec fn uncommented(s: Seq<char>) -> Seq<char> {
    s.take(comment_start(s, false))
}

fn strip_comment<'a>(line: &'a str) -> (r: &'a str)
    ensures
        r@ == uncommented(line@),
{
    let v = chars_of(line);
    let n: usize = v.len();
    let mut in_str: bool = false;
    let mut i: usize = 0;
    assert(v@.skip(0) =~= v@);
    while i < n && !(v[i] == '#' && !in_str)
        invariant
            i <= n == v@.len(),
            v@ == line@,
            comment_start(v@, false) == i + comment_start(v@.skip(i as int), in_str),
        decreases n - i,
    {
        assert(v@.skip(i as int).drop_first() =~= v@.skip(i + 1));
        if v[i] == '"' {
            in_str = !in_str;
        }
        i = i + 1;
    }
    let r = line.substring_char(0, i);
    assert(r@ =~= line@.take(i as int));
    r
}

/// The items of an array, split at the commas outside quotes; `cur` is the item
/// that is being read. A last item of white space alone is dropped.
pub open spec fn items_from(s: Seq<char>, cur: Seq<char>, in_str: bool) -> Seq<Seq<char>>
    decreases s.len(),
{
    if s.len() == 0 {
        if trimmed(cur).len() == 0 {
            Seq::empty()
        } else {
            seq![cur]
        }
    } else if s[0] == '"' {
        items_from(s.drop_first(), cur.push(s[0]), !in_str)
    } else if s[0] == ',' && !in_str {
        seq![cur] + items_from(s.drop_first(), Seq::empty(), in_str)
    } else {
        items_from(s.drop_first(), cur.push(s[0]), in_str)
    }
}

fn split_array_items(inner: &str) -> (r: Vec<String>)
    ensures
        texts(r@) == items_from(inner@, Seq::empty(), false),
{
    let v = chars_of(inner);
    let mut items: Vec<String> = Vec::new();
    let mut current = String::new();
    let mut in_str: bool = false;
    let mut i: usize = 0;
    let ghost all = items_from(inner@, Seq::empty(), false);
    assert(v@.skip(0) =~= v@);
    assert(texts(items@) + all =~= all);
    while i < v.len()
        invariant
            i <= v@.len(),
            all == texts(items@) + items_from(v@.skip(i as int), current@, in_str),
        decreases v.len() - i,
    {
        let c = v[i];
        let ghost rest = v@.skip(i as int);
        assert(rest.drop_first() =~= v@.skip(i + 1));
        if c == '"' {
            in_str = !in_str;
            current.push(c);
        } else if c == ',' && !in_str {
            let ghost sofar = texts(items@);
            let ghost tail = items_from(v@.skip(i + 1), Seq::empty(), in_str);
            let ghost item = current@;
            push_text(&mut items, current);
            current = String::new();
            assert(sofar + (seq![item] + tail) =~= texts(items@) + tail);
        } else {
            current.push(c);
        }
        i = i + 1;
    }
    assert(v@.skip(i as int) =~= Seq::<char>::empty());
    let blank = trim(current.as_str()).unicode_len() == 0;
    if !blank {
        let ghost sofar = texts(items@);
        let ghost item = current@;
        push_text(&mut items, current);
        assert(sofar + seq![item] =~= texts(items@));
    } else {
        assert(texts(items@) + Seq::empty() =~= texts(items@));
    }
    items
}

// ---------------------------------------------------------------------------
// The file, line by line
// ---------------------------------------------------------------------------

/// What has been read so far.
pub struct DraftView {
    pub in_upstreams: bool,
    pub in_array: bool,
    pub listen: Option<Seq<char>>,
    pub flags: Seq<Seq<char>>,
    pub upstreams: Seq<Seq<char>>,
    pub routes: Seq<Seq<char>>,
    pub seen: Seq<Seq<char>>,
}

struct Draft {
    in_upstreams: bool,
    in_array: bool,
    listen: Option<String>,
    flags: Vec<String>,
    upstreams: Vec<String>,
    routes: Vec<String>,
    seen: Vec<String>,
}

impl Draft {
    spec fn view(&self) -> DraftView {
        DraftView {
            in_upstreams: self.in_upstreams,
            in_array: self.in_array,
            listen: maybe(self.listen),
            flags: texts(self.flags@),
            upstreams: texts(self.upstreams@),
            routes: texts(self.routes@),
            seen: texts(self.seen@),
        }
    }
}

/// A file of which nothing has been read.
pub open spec fn blank_draft() -> DraftView {
    DraftView {
        in_upstreams: false,
        in_array: false,
        listen: None,
        flags: Seq::empty(),
        upstreams: Seq::empty(),
        routes: Seq::empty(),
        seen: Seq::empty(),
    }
}

/// A route spec of the array: a quoted string.
pub open spec fn route_item(item: Seq<char>, line_no: int) -> Outcome<Seq<char>> {
    match value_of(item, line_no) {
        Err(e) => Err(e),
        Ok(ValueView::Text(s)) => Ok(s),
        Ok(_) => Err(located(line_no, "routes array elements must be quoted strings"@)),
    }
}

fn parse_route_item(item: &str, line_no: usize) -> (r: Result<String, Fault>)
    ensures
        match r {
            Ok(s) => route_item(item@, line_no as int) == Ok::<Seq<char>, Seq<char>>(s@),
            Err(e) => e.kind == FaultKind::InvalidInput && route_item(item@, line_no as int)
                == Err::<Seq<char>, Seq<char>>(e.message@),
        },
{
    match parse_value(item, line_no) {
        Err(e) => Err(e),
        Ok(Value::Text(s)) => Ok(s),
        Ok(_) => Err(err(line_no, "routes array elements must be quoted strings")),
    }
}

/// The route specs of a single-line array; blank items are skipped.
pub open spec fn route_items(items: Seq<Seq<char>>, line_no: int) -> Outcome<Seq<Seq<char>>>
    decreases items.len(),
{
    if items.len() == 0 {
        Ok(Seq::empty())
    } else if trimmed(items[0]).len() == 0 {
        route_items(items.drop_first(), line_no)
    } else {
        match route_item(trimmed(items[0]), line_no) {
            Err(e) => Err(e),
            Ok(s) => match route_items(items.drop_first(), line_no) {
                Err(e) => Err(e),
                Ok(rest) => Ok(seq![s] + rest),
            },
        }
    }
}

/// Texts put before those of an outcome.
pub open spec fn led_by(a: Seq<Seq<char>>, r: Outcome<Seq<Seq<char>>>) -> Outcome<Seq<Seq<char>>> {
    match r {
        Ok(b) => Ok(a + b),
        Err(e) => Err(e),
    }
}

/// A line of a multi-line array: `]`, or an item with or without a comma.
pub open spec fn array_line(d: DraftView, line_no: int, line: Seq<char>) -> Outcome<DraftView> {
    if line == "]"@ {
        Ok(DraftView { in_array: false, ..d })
    } else {
        let item = match without_suffix(line, ","@) {
            Some(i) => trimmed(i),
            None => trimmed(line),
        };
        match route_item(item, line_no) {
            Err(e) => Err(e),
            Ok(s) => Ok(DraftView { routes: d.routes.push(s), ..d }),
        }
    }
}

/// `NAME = "SPEC"` under `[upstreams]`.
pub open spec fn upstream_line(
    d: DraftView,
    line_no: int,
    key: Seq<char>,
    value: Seq<char>,
) -> Outcome<DraftView> {
    let mark = "upstream:"@ + key;
    if d.seen.contains(mark) {
        Err(located(line_no, "duplicate upstream "@ + debug_text(key)))
    } else {
        match value_of(value, line_no) {
            Err(e) => Err(e),
            Ok(ValueView::Text(s)) => Ok(
                DraftView {
                    upstreams: d.upstreams.push("--upstream"@).push(key + "="@ + s),
                    seen: d.seen.push(mark),
                    ..d
                },
            ),
            Ok(_) => Err(located(line_no, "upstream specs must be quoted strings"@)),
        }
    }
}

/// `routes = [`, or `routes = ["a", "b"]`, wherever it stands.
pub open spec fn routes_line(d: DraftView, line_no: int, value: Seq<char>) -> Outcome<DraftView> {
    if d.seen.contains("routes"@) {
        Err(located(line_no, "duplicate key \"routes\""@))
    } else if value == "["@ {
        Ok(DraftView { in_array: true, seen: d.seen.push("routes"@), ..d })
    } else {
        match bracketed(value) {
            None => Err(located(line_no, "routes must be an array: routes = [ ... ]"@)),
            Some(inner) => match route_items(items_from(inner, Seq::empty(), false), line_no) {
                Err(e) => Err(e),
                Ok(specs) => Ok(
                    DraftView { routes: d.routes + specs, seen: d.seen.push("routes"@), ..d },
                ),
            },
        }
    }
}

/// What stands between square brackets.
pub open spec fn bracketed(s: Seq<char>) -> Option<Seq<char>> {
    match without_prefix(s, "["@) {
        None => None,
        Some(t) => without_suffix(t, "]"@),
    }
}

fn inside_brackets<'a>(s: &'a str) -> (r: Option<&'a str>)
    ensures
        slice(r) == bracketed(s@),
{
    match strip_prefix(s, "[") {
        None => None,
        Some(t) => strip_suffix(t, "]"),
    }
}

/// `key = value` at the top level.
pub open spec fn setting_line(
    d: DraftView,
    line_no: int,
    key: Seq<char>,
    value: Seq<char>,
) -> Outcome<DraftView> {
    let next = DraftView { seen: d.seen.push(key), ..d };
    if d.seen.contains(key) {
        Err(
            located(
                line_no,
                "duplicate key "@ + debug_text(key)
                    + " (last-wins hides config drift; remove one)"@,
            ),
        )
    } else if key == "listen"@ {
        match value_of(value, line_no) {
            Err(e) => Err(e),
            Ok(ValueView::Text(s)) => Ok(DraftView { listen: Some(s), ..next }),
            Ok(_) => Err(located(line_no, "listen must be a quoted string"@)),
        }
    } else if is_value_key(key) {
        match value_of(value, line_no) {
            Err(e) => Err(e),
            Ok(ValueView::Truth(_)) => Err(
                located(line_no, key + " takes a value, not a boolean"@),
            ),
            Ok(ValueView::Text(s)) => Ok(
                DraftView { flags: d.flags.push("--"@ + key).push(s), ..next },
            ),
            Ok(ValueView::Digits(s)) => Ok(
                DraftView { flags: d.flags.push("--"@ + key).push(s), ..next },
            ),
        }
    } else if is_switch_key(key) {
        match value_of(value, line_no) {
            Err(e) => Err(e),
            Ok(ValueView::Truth(true)) => Ok(DraftView { flags: d.flags.push("--"@ + key), ..next }),
            Ok(ValueView::Truth(false)) => Ok(next),
            Ok(_) => Err(located(line_no, key + " is a switch: true or false"@)),
        }
    } else {
        Err(located(line_no, "unknown key "@ + debug_text(key)))
    }
}

/// What one line of the file does.
pub open spec fn step(d: DraftView, line_no: int, raw: Seq<char>) -> Outcome<DraftView> {
    let line = trimmed(uncommented(raw));
    if line.len() == 0 {
        Ok(d)
    } else if d.in_array {
        array_line(d, line_no, line)
    } else {
        match bracketed(line) {
            Some(name) => if trimmed(name) == "upstreams"@ {
                Ok(DraftView { in_upstreams: true, ..d })
            } else {
                Err(
                    located(
                        line_no,
                        "unknown section ["@ + trimmed(name) + "] (only [upstreams] exists)"@,
                    ),
                )
            },
            None => match cut(line, '=') {
                None => Err(located(line_no, "expected key = value, got "@ + debug_text(line))),
                Some((k, v)) => if trimmed(k) == "routes"@ {
                    routes_line(d, line_no, trimmed(v))
                } else if d.in_upstreams {
                    upstream_line(d, line_no, trimmed(k), trimmed(v))
                } else {
                    setting_line(d, line_no, trimmed(k), trimmed(v))
                },
            },
        }
    }
}

/// What the lines from number `at` on do.
pub open spec fn read_from(d: DraftView, ls: Seq<Seq<char>>, at: int) -> Outcome<DraftView>
    decreases ls.len() - at,
{
    if at < 0 || at >= ls.len() {
        Ok(d)
    } else {
        match step(d, at + 1, ls[at]) {
            Err(e) => Err(e),
            Ok(next) => read_from(next, ls, at + 1),
        }
    }
}

/// The arguments of a file that was read: flags, upstreams, then routes.
pub open spec fn assembled(d: DraftView) -> ConfigView {
    ConfigView { listen: d.listen, args: d.flags + d.upstreams + d.routes }
}

/// The arguments that a config file stands for.
pub open spec fn lowered(text: Seq<char>) -> Outcome<ConfigView> {
    match read_from(blank_draft(), lines(text), 0) {
        Err(e) => Err(e),
        Ok(d) => if d.in_array {
            Err(located(lines(text).len() as int, "routes array is never closed (missing ])"@))
        } else {
            Ok(assembled(d))
        },
    }
}

impl Draft {
    fn take_array_line(&mut self, line_no: usize, line: &str) -> (r: Result<(), Fault>)
        ensures
            match r {
                Ok(()) => array_line(old(self)@, line_no as int, line@) == Ok::<
                    DraftView,
                    Seq<char>,
                >(final(self)@),
                Err(e) => e.kind == FaultKind::InvalidInput && array_line(
                    old(self)@,
                    line_no as int,
                    line@,
                ) == Err::<DraftView, Seq<char>>(e.message@),
            },
    {
        if same(line, "]") {
            self.in_array = false;
            return Ok(());
        }
        let item = match strip_suffix(line, ",") {
            Some(i) => trim(i),
            None => trim(line),
        };
        match parse_route_item(item, line_no) {
            Err(e) => Err(e),
            Ok(s) => {
                push_text(&mut self.routes, s);
                Ok(())
            },
        }
    }

    fn take_upstream(&mut self, line_no: usize, key: &str, value: &str) -> (r: Result<(), Fault>)
        ensures
            match r {
                Ok(()) => upstream_line(old(self)@, line_no as int, key@, value@) == Ok::<
                    DraftView,
                    Seq<char>,
                >(final(self)@),
                Err(e) => e.kind == FaultKind::InvalidInput && upstream_line(
                    old(self)@,
                    line_no as int,
                    key@,
                    value@,
                ) == Err::<DraftView, Seq<char>>(e.message@),
            },
    {
        let mark = own("upstream:").concat(key);
        if list_has(&self.seen, mark.as_str()) {
            let q = quoted(key);
            let m = own("duplicate upstream ").concat(q.as_str());
            return Err(err(line_no, m.as_str()));
        }
        push_text(&mut self.seen, mark);
        match parse_value(value, line_no) {
            Err(e) => Err(e),
            Ok(Value::Text(s)) => {
                push_text(&mut self.upstreams, own("--upstream"));
                push_text(&mut self.upstreams, own(key).concat("=").concat(s.as_str()));
                Ok(())
            },
            Ok(_) => Err(err(line_no, "upstream specs must be quoted strings")),
        }
    }

    fn take_items(&mut self, items: &Vec<String>, line_no: usize) -> (r: Result<(), Fault>)
        ensures
            match r {
                Ok(()) => route_items(texts(items@), line_no as int) is Ok && final(self)@ == (
                DraftView {
                    routes: old(self)@.routes + route_items(texts(items@), line_no as int)->Ok_0,
                    ..old(self)@
                }),
                Err(e) => e.kind == FaultKind::InvalidInput && route_items(
                    texts(items@),
                    line_no as int,
                ) == Err::<Seq<Seq<char>>, Seq<char>>(e.message@),
            },
    {
        let mut i: usize = 0;
        let ghost before = self@.routes;
        let ghost all = led_by(before, route_items(texts(items@), line_no as int));
        assert(texts(items@).skip(0) =~= texts(items@));
        while i < items.len()
            invariant
                i <= items@.len(),
                all == led_by(before, route_items(texts(items@), line_no as int)),
                all == led_by(
                    self@.routes,
                    route_items(texts(items@).skip(i as int), line_no as int),
                ),
                self@ == (DraftView { routes: self@.routes, ..old(self)@ }),
            decreases items.len() - i,
        {
            let ghost rest = texts(items@).skip(i as int);
            let ghost sofar = self@.routes;
            assert(rest.drop_first() =~= texts(items@).skip(i + 1));
            let item = trim(items[i].as_str());
            if item.unicode_len() != 0 {
                match parse_route_item(item, line_no) {
                    Err(e) => {
                        return Err(e);
                    },
                    Ok(s) => {
                        let ghost tail = route_items(rest.drop_first(), line_no as int);
                        let ghost t = s@;
                        push_text(&mut self.routes, s);
                        assert(tail is Ok ==> sofar + (seq![t] + tail->Ok_0) =~= self@.routes
                            + tail->Ok_0);
                    },
                }
            }
            i = i + 1;
        }
        assert(texts(items@).skip(i as int) =~= Seq::<Seq<char>>::empty());
        assert(self@.routes + Seq::empty() =~= self@.routes);
        Ok(())
    }

    fn take_routes(&mut self, line_no: usize, value: &str) -> (r: Result<(), Fault>)
        ensures
            match r {
                Ok(()) => routes_line(old(self)@, line_no as int, value@) == Ok::<
                    DraftView,
                    Seq<char>,
                >(final(self)@),
                Err(e) => e.kind == FaultKind::InvalidInput && routes_line(
                    old(self)@,
                    line_no as int,
                    value@,
                ) == Err::<DraftView, Seq<char>>(e.message@),
            },
    {
        if list_has(&self.seen, "routes") {
            return Err(err(line_no, "duplicate key \"routes\""));
        }
        push_text(&mut self.seen, own("routes"));
        if same(value, "[") {
            self.in_array = true;
            return Ok(());
        }
        match inside_brackets(value) {
            None => Err(err(line_no, "routes must be an array: routes = [ ... ]")),
            Some(inner) => {
                let items = split_array_items(inner);
                self.take_items(&items, line_no)
            },
        }
    }

    fn take_setting(&mut self, line_no: usize, key: &str, value: &str) -> (r: Result<(), Fault>)
        ensures
            match r {
                Ok(()) => setting_line(old(self)@, line_no as int, key@, value@) == Ok::<
                    DraftView,
                    Seq<char>,
                >(final(self)@),
                Err(e) => e.kind == FaultKind::InvalidInput && setting_line(
                    old(self)@,
                    line_no as int,
                    key@,
                    value@,
                ) == Err::<DraftView, Seq<char>>(e.message@),
            },
    {
        if list_has(&self.seen, key) {
            let q = quoted(key);
            let m = own("duplicate key ").concat(q.as_str()).concat(
                " (last-wins hides config drift; remove one)",
            );
            return Err(err(line_no, m.as_str()));
        }
        push_text(&mut self.seen, own(key));
        if same(key, "listen") {
            match parse_value(value, line_no) {
                Err(e) => Err(e),
                Ok(Value::Text(s)) => {
                    self.listen = Some(s);
                    Ok(())
                },
                Ok(_) => Err(err(line_no, "listen must be a quoted string")),
            }
        } else if value_key(key) {
            match parse_value(value, line_no) {
                Err(e) => Err(e),
                Ok(Value::Truth(_)) => {
                    let m = own(key).concat(" takes a value, not a boolean");
                    Err(err(line_no, m.as_str()))
                },
                Ok(Value::Text(s)) => {
                    push_text(&mut self.flags, own("--").concat(key));
                    push_text(&mut self.flags, s);
                    Ok(())
                },
                Ok(Value::Digits(s)) => {
                    push_text(&mut self.flags, own("--").concat(key));
                    push_text(&mut self.flags, s);
                    Ok(())
                },
            }
        } else if switch_key(key) {
            match parse_value(value, line_no) {
                Err(e) => Err(e),
                Ok(Value::Truth(on)) => {
                    if on {
                        push_text(&mut self.flags, own("--").concat(key));
                    }
                    Ok(())
                },
                Ok(_) => {
                    let m = own(key).concat(" is a switch: true or false");
                    Err(err(line_no, m.as_str()))
                },
            }
        } else {
            let q = quoted(key);
            let m = own("unknown key ").concat(q.as_str());
            Err(err(line_no, m.as_str()))
        }
    }

    fn take_line(&mut self, line_no: usize, raw: &str) -> (r: Result<(), Fault>)
        ensures
            match r {
                Ok(()) => step(old(self)@, line_no as int, raw@) == Ok::<DraftView, Seq<char>>(
                    final(self)@,
                ),
                Err(e) => e.kind == FaultKind::InvalidInput && step(
                    old(self)@,
                    line_no as int,
                    raw@,
                ) == Err::<DraftView, Seq<char>>(e.message@),
            },
    {
        let line = trim(strip_comment(raw));
        if line.unicode_len() == 0 {
            return Ok(());
        }
        if self.in_array {
            return self.take_array_line(line_no, line);
        }
        if let Some(name) = inside_brackets(line) {
            let name = trim(name);
            if same(name, "upstreams") {
                self.in_upstreams = true;
                return Ok(());
            }
            let m = own("unknown section [").concat(name).concat("] (only [upstreams] exists)");
            return Err(err(line_no, m.as_str()));
        }
        match split_once(line, '=') {
            None => {
                let q = quoted(line);
                let m = own("expected key = value, got ").concat(q.as_str());
                Err(err(line_no, m.as_str()))
            },
            Some((k, v)) => {
                let key = trim(k);
                let value = trim(v);
                if same(key, "routes") {
                    self.take_routes(line_no, value)
                } else if self.in_upstreams {
                    self.take_upstream(line_no, key, value)
                } else {
                    self.take_setting(line_no, key, value)
                }
            },
        }
    }
}

/// Lowers a config file. A refusal carries the line number, counted from 1.
pub fn parse(text: &str) -> (r: Result<FileConfig, Fault>)
    ensures
        match r {
            Ok(c) => lowered(text@) == Ok::<ConfigView, Seq<char>>(c@),
            Err(e) => e.kind == FaultKind::InvalidInput && lowered(text@) == Err::<
                ConfigView,
                Seq<char>,
            >(e.message@),
        },
{
    let ls = lines_of(text);
    assert(slices(ls@).len() == ls@.len());
    let mut d = Draft {
        in_upstreams: false,
        in_array: false,
        listen: None,
        flags: Vec::new(),
        upstreams: Vec::new(),
        routes: Vec::new(),
        seen: Vec::new(),
    };
    assert(d@.flags =~= Seq::empty());
    assert(d@.upstreams =~= Seq::empty());
    assert(d@.routes =~= Seq::empty());
    assert(d@.seen =~= Seq::empty());
    let mut i: usize = 0;
    while i < ls.len()
        invariant
            i <= ls@.len(),
            slices(ls@) == lines(text@),
            read_from(blank_draft(), lines(text@), 0) == read_from(d@, lines(text@), i as int),
        decreases ls.len() - i,
    {
        assert(lines(text@)[i as int] == ls@[i as int]@);
        match d.take_line(i + 1, ls[i]) {
            Ok(()) => {},
            Err(e) => {
                return Err(e);
            },
        }
        i = i + 1;
    }
    if d.in_array {
        return Err(err(ls.len(), "routes array is never closed (missing ])"));
    }
    let ghost done = d@;
    let mut args = d.flags;
    let mut ups = d.upstreams;
    let mut routes = d.routes;
    let ghost flags = args@;
    let ghost upstreams = ups@;
    args.append(&mut ups);
    args.append(&mut routes);
    assert(texts(args@) =~= done.flags + done.upstreams + done.routes);
    Ok(FileConfig { listen: d.listen, args })
}

// ---------------------------------------------------------------------------
// Laws
// ---------------------------------------------------------------------------

/// A blank line, or one that only holds a comment, changes nothing.
pub proof fn law_blank_lines_change_nothing(d: DraftView, line_no: int, raw: Seq<char>)
    requires
        trimmed(uncommented(raw)).len() == 0,
    ensures
        step(d, line_no, raw) == Ok::<DraftView, Seq<char>>(d),
{
}

proof fn lemma_step_keeps_keys_distinct(d: DraftView, line_no: int, raw: Seq<char>)
    requires
        d.seen.no_duplicates(),
        step(d, line_no, raw) is Ok,
    ensures
        step(d, line_no, raw)->Ok_0.seen.no_duplicates(),
{
    let next = step(d, line_no, raw)->Ok_0;
    if next.seen != d.seen {
        let key = next.seen.last();
        assert(next.seen == d.seen.push(key));
        assert(!d.seen.contains(key));
        assert forall|i: int, j: int|
            0 <= i < next.seen.len() && 0 <= j < next.seen.len() && i
                != j implies next.seen[i] != next.seen[j] by {
            if i == d.seen.len() {
                assert(d.seen.contains(d.seen[j]));
            } else if j == d.seen.len() {
                assert(d.seen.contains(d.seen[i]));
            }
        }
    }
}

/// No key, no upstream name and no `routes` is accepted twice: of a file that is
/// read to its end, the keys that were taken are all different.
pub proof fn law_no_key_is_taken_twice(d: DraftView, ls: Seq<Seq<char>>, at: int)
    requires
        d.seen.no_duplicates(),
        read_from(d, ls, at) is Ok,
    ensures
        read_from(d, ls, at)->Ok_0.seen.no_duplicates(),
    decreases ls.len() - at,
{
    if 0 <= at < ls.len() {
        lemma_step_keeps_keys_distinct(d, at + 1, ls[at]);
        law_no_key_is_taken_twice(step(d, at + 1, ls[at])->Ok_0, ls, at + 1);
    }
}

/// A message that says which of the file's lines it is about.
pub open spec fn names_a_line(m: Seq<char>, count: int) -> bool {
    exists|k: int| #![auto] 0 <= k <= count && starts(m, located(k, Seq::empty()))
}

proof fn lemma_located(k: int, m: Seq<char>, count: int)
    requires
        0 <= k <= count,
    ensures
        names_a_line(located(k, m), count),
{
    let p = located(k, Seq::empty());
    assert(located(k, m).take(p.len() as int) =~= p);
    assert(starts(located(k, m), p));
}

proof fn lemma_value_refusal(text: Seq<char>, k: int, count: int)
    requires
        0 <= k <= count,
        value_of(text, k) is Err,
    ensures
        names_a_line(value_of(text, k)->Err_0, count),
{
    let raw = trimmed(text);
    lemma_located(k, "unterminated string "@ + debug_text(raw), count);
    lemma_located(k, "escaped quotes are outside the subset; simplify the value"@, count);
    lemma_located(
        k,
        "value "@ + debug_text(raw) + " is not a quoted string, integer, or bool"@,
        count,
    );
}

proof fn lemma_item_refusal(item: Seq<char>, k: int, count: int)
    requires
        0 <= k <= count,
        route_item(item, k) is Err,
    ensures
        names_a_line(route_item(item, k)->Err_0, count),
{
    if value_of(item, k) is Err {
        lemma_value_refusal(item, k, count);
    }
    lemma_located(k, "routes array elements must be quoted strings"@, count);
}

proof fn lemma_items_refusal(items: Seq<Seq<char>>, k: int, count: int)
    requires
        0 <= k <= count,
        route_items(items, k) is Err,
    ensures
        names_a_line(route_items(items, k)->Err_0, count),
    decreases items.len(),
{
    if items.len() > 0 {
        if trimmed(items[0]).len() == 0 {
            lemma_items_refusal(items.drop_first(), k, count);
        } else if route_item(trimmed(items[0]), k) is Err {
            lemma_item_refusal(trimmed(items[0]), k, count);
        } else {
            lemma_items_refusal(items.drop_first(), k, count);
        }
    }
}

proof fn lemma_step_refusal(d: DraftView, k: int, raw: Seq<char>, count: int)
    requires
        0 <= k <= count,
        step(d, k, raw) is Err,
    ensures
        names_a_line(step(d, k, raw)->Err_0, count),
{
    let line = trimmed(uncommented(raw));
    let m = step(d, k, raw)->Err_0;
    if d.in_array {
        let item = match without_suffix(line, ","@) {
            Some(i) => trimmed(i),
            None => trimmed(line),
        };
        lemma_item_refusal(item, k, count);
    } else if bracketed(line) is Some {
        lemma_located(
            k,
            "unknown section ["@ + trimmed(bracketed(line)->Some_0)
                + "] (only [upstreams] exists)"@,
            count,
        );
    } else if cut(line, '=') is None {
        lemma_located(k, "expected key = value, got "@ + debug_text(line), count);
    } else {
        let key = trimmed(cut(line, '=')->Some_0.0);
        let value = trimmed(cut(line, '=')->Some_0.1);
        if value_of(value, k) is Err {
            lemma_value_refusal(value, k, count);
        }
        if key == "routes"@ {
            lemma_located(k, "duplicate key \"routes\""@, count);
            lemma_located(k, "routes must be an array: routes = [ ... ]"@, count);
            if bracketed(value) is Some {
                let items = items_from(bracketed(value)->Some_0, Seq::empty(), false);
                if route_items(items, k) is Err {
                    lemma_items_refusal(items, k, count);
                }
            }
        } else if d.in_upstreams {
            lemma_located(k, "duplicate upstream "@ + debug_text(key), count);
            lemma_located(k, "upstream specs must be quoted strings"@, count);
        } else {
            lemma_located(
                k,
                "duplicate key "@ + debug_text(key)
                    + " (last-wins hides config drift; remove one)"@,
                count,
            );
            lemma_located(k, "listen must be a quoted string"@, count);
            lemma_located(k, key + " takes a value, not a boolean"@, count);
            lemma_located(k, key + " is a switch: true or false"@, count);
            lemma_located(k, "unknown key "@ + debug_text(key), count);
        }
    }
}

proof fn lemma_read_refusal(d: DraftView, ls: Seq<Seq<char>>, at: int)
    requires
        0 <= at,
        read_from(d, ls, at) is Err,
    ensures
        names_a_line(read_from(d, ls, at)->Err_0, ls.len() as int),
    decreases ls.len() - at,
{
    if at < ls.len() {
        if step(d, at + 1, ls[at]) is Err {
            lemma_step_refusal(d, at + 1, ls[at], ls.len() as int);
        } else {
            lemma_read_refusal(step(d, at + 1, ls[at])->Ok_0, ls, at + 1);
        }
    }
}

/// Every refusal of a file says which line it is about.
pub proof fn law_refusals_name_a_line(text: Seq<char>)
    requires
        lowered(text) is Err,
    ensures
        names_a_line(lowered(text)->Err_0, lines(text).len() as int),
{
    let ls = lines(text);
    if read_from(blank_draft(), ls, 0) is Err {
        lemma_read_refusal(blank_draft(), ls, 0);
    } else {
        lemma_located(
            ls.len() as int,
            "routes array is never closed (missing ])"@,
            ls.len() as int,
        );
    }
}

} // verus!
