//! The application's request handling: routing, the `/config` query and report, and the
//! strict decimal reading used for configuration values.

use vstd::prelude::*;
use vstd::string::StringSliceAdditionalSpecFns;

pub use crate::text::{append_bytes, format_u64, parse_param};

use crate::config::Config;
use crate::text::{
    all_digits, bytes_eq, decimal_digits, decimal_value, find_byte, is_digit,
    lemma_ascii_boundaries, lemma_decimal_prefix_le, lemma_decimal_take_step, lemma_seg_len_bound,
    param_value, seg_len, substr, AMPERSAND, ZERO,
};
use crate::types::Response;

verus! {

/// `s` is a non-empty run of digits whose value fits in a `u64`; its value.
pub open spec fn strict_decimal(s: Seq<u8>) -> Option<nat> {
    if s.len() > 0 && all_digits(s) && decimal_value(s) <= u64::MAX {
        Some(decimal_value(s))
    } else {
        None
    }
}

/// Reading `s` digit by digit reaches a digit whose addition, after a multiplication by ten
/// that still fits, carries the value past `u64::MAX`: the unchecked addition of the strict
/// reader overflows there.
pub open spec fn strict_overflows(s: Seq<u8>) -> bool {
    exists|k: int|
        0 < k <= s.len() && all_digits(#[trigger] s.take(k)) && decimal_value(s.take(k - 1)) * 10
            <= u64::MAX && decimal_value(s.take(k)) > u64::MAX
}

proof fn lemma_take_all_digits(s: Seq<u8>, k: int, j: int)
    requires
        0 <= j <= k <= s.len(),
        all_digits(s.take(k)),
    ensures
        all_digits(s.take(j)),
{
    assert forall|i: int| 0 <= i < j implies is_digit(#[trigger] s.take(j)[i]) by {
        assert(s.take(j)[i] == s.take(k)[i]);
    }
}

proof fn lemma_take_take(s: Seq<u8>, k: int, j: int)
    requires
        0 <= j <= k <= s.len(),
    ensures
        s.take(k).take(j) == s.take(j),
{
    assert(s.take(k).take(j) =~= s.take(j));
}

/// Once the running value of a digit prefix exceeds `bound / 10`, no longer digit prefix has a
/// value at most `bound`.
proof fn lemma_no_later_fit(s: Seq<u8>, i: int, k: int)
    requires
        0 <= i,
        i + 1 < k <= s.len(),
        all_digits(s.take(k)),
    ensures
        decimal_value(s.take(k)) >= decimal_value(s.take(i + 1)),
        decimal_value(s.take(k - 1)) >= decimal_value(s.take(i)) * 10,
{
    lemma_decimal_prefix_le(s.take(k), i + 1);
    lemma_take_take(s, k, i + 1);
    lemma_decimal_take_step(s, i);
    assert(s.take(k)[i] == s[i]);
    lemma_take_all_digits(s, k, k - 1);
    lemma_decimal_prefix_le(s.take(k - 1), i + 1);
    lemma_take_take(s, k - 1, i + 1);
}

/// Reads `s` as a non-empty unsigned decimal number that fits in a `u64`.
///
/// The multiplication by ten is checked; the addition of each digit is not, so inputs on which
/// that addition would overflow are excluded.
pub fn parse_u64(s: &str) -> (res: Result<u64, ()>)
    requires
        !strict_overflows(s.spec_bytes()),
    ensures
        res is Ok <==> strict_decimal(s.spec_bytes()) is Some,
        res matches Ok(v) ==> v == strict_decimal(s.spec_bytes())->0,
{
    let bytes = s.as_bytes();
    let ghost b = bytes@;
    if bytes.len() == 0 {
        return Err(());
    }
    let mut n: u64 = 0;
    let mut i: usize = 0;
    assert(b.take(0) =~= Seq::<u8>::empty());
    while i < bytes.len()
        invariant
            b == bytes@,
            b == s.spec_bytes(),
            !strict_overflows(b),
            i <= b.len(),
            all_digits(b.take(i as int)),
            n == decimal_value(b.take(i as int)),
        decreases b.len() - i,
    {
        let c = bytes[i];
        if c < ZERO || c > 57 {
            assert(!all_digits(b)) by {
                assert(!is_digit(b[i as int]));
            }
            return Err(());
        }
        proof {
            lemma_decimal_take_step(b, i as int);
            assert(all_digits(b.take(i + 1))) by {
                assert forall|k: int| 0 <= k < i + 1 implies is_digit(#[trigger] b.take(i + 1)[k]) by {
                    if k < i {
                        assert(b.take(i + 1)[k] == b.take(i as int)[k]);
                    }
                }
            }
        }
        match n.checked_mul(10) {
            None => {
                proof {
                    if all_digits(b) {
                        lemma_decimal_prefix_le(b, i + 1);
                    }
                }
                return Err(());
            },
            Some(m) => {
                proof {
                    if decimal_value(b.take(i + 1)) > u64::MAX {
                        assert(strict_overflows(b));
                    }
                }
                n = m + (c - ZERO) as u64;
            },
        }
        i = i + 1;
    }
    assert(b.take(i as int) =~= b);
    Ok(n)
}

/// Whether `parse_u64` would overflow on its unchecked addition when reading `s`.
pub fn parse_u64_overflows(s: &str) -> (r: bool)
    ensures
        r == strict_overflows(s.spec_bytes()),
{
    let bytes = s.as_bytes();
    let ghost b = bytes@;
    let mut n: u64 = 0;
    let mut i: usize = 0;
    assert(b.take(0) =~= Seq::<u8>::empty());
    while i < bytes.len()
        invariant
            b == bytes@,
            b == s.spec_bytes(),
            i <= b.len(),
            all_digits(b.take(i as int)),
            n == decimal_value(b.take(i as int)),
            forall|k: int| 0 < k <= i ==> decimal_value(#[trigger] b.take(k)) <= u64::MAX,
        decreases b.len() - i,
    {
        let c = bytes[i];
        if c < ZERO || c > 57 {
            proof {
                assert forall|k: int|
                    0 < k <= b.len() && all_digits(#[trigger] b.take(k)) implies decimal_value(b.take(k))
                    <= u64::MAX by {
                    if k > i {
                        assert(b.take(k)[i as int] == b[i as int]);
                    }
                }
            }
            return false;
        }
        proof {
            lemma_decimal_take_step(b, i as int);
            assert(all_digits(b.take(i + 1))) by {
                assert forall|k: int| 0 <= k < i + 1 implies is_digit(#[trigger] b.take(i + 1)[k]) by {
                    if k < i {
                        assert(b.take(i + 1)[k] == b.take(i as int)[k]);
                    }
                }
            }
        }
        match n.checked_mul(10) {
            None => {
                proof {
                    assert forall|k: int|
                        0 < k <= b.len() && all_digits(#[trigger] b.take(k)) && decimal_value(b.take(k - 1)) * 10
                            <= u64::MAX implies decimal_value(b.take(k)) <= u64::MAX by {
                        if k > i + 1 {
                            lemma_no_later_fit(b, i as int, k);
                        } else if k == i + 1 {
                            lemma_take_take(b, i + 1, i as int);
                        }
                    }
                }
                return false;
            },
            Some(m) => match m.checked_add((c - ZERO) as u64) {
                None => {
                    assert(b.take(i + 1 - 1) =~= b.take(i as int));
                    assert(strict_overflows(b));
                    return true;
                },
                Some(v) => {
                    n = v;
                },
            },
        }
        i = i + 1;
    }
    proof {
        assert forall|k: int|
            0 < k <= b.len() && all_digits(#[trigger] b.take(k)) implies decimal_value(b.take(k))
            <= u64::MAX by {
        }
    }
    false
}

/// ASCII `'?'`, which starts the query part of a path.
pub const QUESTION: u8 = 63;

/// The path without its query part.
pub open spec fn path_base(p: Seq<u8>) -> Seq<u8> {
    p.take(seg_len(p, QUESTION) as int)
}

/// The query part of a path (what follows the first `'?'`), if it has one.
pub open spec fn path_query(p: Seq<u8>) -> Option<Seq<u8>> {
    let e = seg_len(p, QUESTION) as int;
    if e < p.len() {
        Some(p.skip(e + 1))
    } else {
        None
    }
}

/// The pages the application serves.
pub enum Route<'a> {
    /// `/`: the status page, showing the relay state with ON and OFF buttons.
    Root,
    /// `/on`: switches the relay on (the valve opens).
    On,
    /// `/off`: switches the relay off (the valve closes).
    Off,
    /// `/status`: a liveness answer.
    Status,
    /// `/float`: the level of the float switch.
    Float,
    /// `/config`: reports the configuration, after applying the query if there is one.
    Config(Option<&'a str>),
    /// `/water`: runs the pump once.
    Water,
    /// `/ota`: how to upload firmware.
    Ota,
    /// Anything else.
    NotFound,
}

/// A `200 OK` plain-text reply whose body is `body`.
pub open spec fn is_text_reply(r: Response, body: Seq<u8>) -> bool {
    &&& r.status@ == "200 OK"@
    &&& r.content_type@ == "text/plain"@
    &&& r.body@ == body
}

/// The `interval` query key.
pub open spec fn interval_key() -> Seq<u8> {
    "interval".spec_bytes()
}

/// The `duration` query key.
pub open spec fn duration_key() -> Seq<u8> {
    "duration".spec_bytes()
}

/// The number a configuration query gives for `key`: its first `key=` value, read strictly.
pub open spec fn query_setting(q: Seq<u8>, key: Seq<u8>) -> Option<nat> {
    match param_value(q, key) {
        Some(v) => strict_decimal(v),
        None => None,
    }
}

/// Reading the `interval` and `duration` values of the query does not overflow.
pub open spec fn config_query_safe(q: Seq<u8>) -> bool {
    &&& (param_value(q, interval_key()) matches Some(v) ==> !strict_overflows(v))
    &&& (param_value(q, duration_key()) matches Some(v) ==> !strict_overflows(v))
}

/// A configuration value after a query: the query's number for `key` if it gives one.
pub open spec fn updated_setting(old: u64, query: Option<Seq<u8>>, key: Seq<u8>) -> nat {
    match query {
        Some(q) => match query_setting(q, key) {
            Some(v) => v,
            None => old as nat,
        },
        None => old as nat,
    }
}

/// How a configuration query changes one setting: without a query, or when the query has no
/// `key=` parameter, or when its first `key=` value is not a non-empty run of digits fitting
/// in a `u64`, the setting keeps its old value; otherwise it becomes that value.
pub proof fn lemma_setting_update_rules(old: u64, q: Seq<u8>, key: Seq<u8>)
    ensures
        updated_setting(old, None, key) == old,
        param_value(q, key) is None ==> updated_setting(old, Some(q), key) == old,
        param_value(q, key) matches Some(v) ==> {
            if v.len() > 0 && all_digits(v) && decimal_value(v) <= u64::MAX {
                updated_setting(old, Some(q), key) == decimal_value(v)
            } else {
                updated_setting(old, Some(q), key) == old
            }
        },
{
}

/// The `/config` report: `interval=<secs>&duration=<secs>`.
pub open spec fn config_text(interval: u64, duration: u64) -> Seq<u8> {
    "interval=".spec_bytes() + decimal_digits(interval as nat) + seq![AMPERSAND]
        + "duration=".spec_bytes() + decimal_digits(duration as nat)
}

/// What `format_u64` writes for `n` is read back as `n` by the strict `parse_u64`, without
/// overflow, and holds no `'&'`.
pub proof fn lemma_digit_value_safe(n: u64)
    ensures
        strict_decimal(decimal_digits(n as nat)) == Some(n as nat),
        !strict_overflows(decimal_digits(n as nat)),
        forall|i: int| 0 <= i < decimal_digits(n as nat).len() ==> decimal_digits(n as nat)[i] != AMPERSAND,
{
    let d = decimal_digits(n as nat);
    crate::text::lemma_decimal_digits_roundtrip(n as nat);
    assert forall|k: int| 0 < k <= d.len() && all_digits(#[trigger] d.take(k)) implies decimal_value(d.take(k)) <= u64::MAX by {
        lemma_decimal_prefix_le(d, k);
    }
    assert forall|i: int| 0 <= i < d.len() implies d[i] != AMPERSAND by {
        assert(is_digit(d[i]));
    }
}

/// Feeding the `/config` report back as the query of `/config` reads back exactly the reported
/// interval and duration, without overflow: applying the report leaves the configuration
/// unchanged.
#[verifier::spinoff_prover]
#[verifier::rlimit(40)]
pub proof fn lemma_config_report_roundtrip(interval: u64, duration: u64)
    ensures
        config_query_safe(config_text(interval, duration)),
        query_setting(config_text(interval, duration), interval_key()) == Some(interval as nat),
        query_setting(config_text(interval, duration), duration_key()) == Some(duration as nat),
{
    reveal_strlit("interval=");
    reveal_strlit("duration=");
    reveal_strlit("interval");
    reveal_strlit("duration");
    vstd::string::is_ascii_spec_bytes("interval=");
    vstd::string::is_ascii_spec_bytes("duration=");
    vstd::string::is_ascii_spec_bytes("interval");
    vstd::string::is_ascii_spec_bytes("duration");
    let ik = "interval=".spec_bytes();
    let dk = "duration=".spec_bytes();
    let di = decimal_digits(interval as nat);
    let dd = decimal_digits(duration as nat);
    lemma_digit_value_safe(interval);
    lemma_digit_value_safe(duration);
    let q = config_text(interval, duration);
    let e = 9 + di.len();
    assert(q.len() == 9 + di.len() + 1 + 9 + dd.len());
    assert forall|i: int| 0 <= i < e implies q[i] != AMPERSAND by {
        if i >= 9 {
            assert(q[i] == di[i - 9]);
        }
    }
    assert(q[e as int] == AMPERSAND);
    crate::text::lemma_seg_len(q, AMPERSAND, e as int);
    let seg1 = q.take(e as int);
    assert(seg1 =~= ik + di);
    assert(seg1.take(8) =~= interval_key());
    assert(seg1.skip(9) =~= di);
    assert(param_value(q, interval_key()) == Some(di));
    assert(seg1.take(8)[0] != duration_key()[0]);
    let rest = q.skip(e as int + 1);
    assert(rest =~= dk + dd);
    assert forall|i: int| 0 <= i < rest.len() implies rest[i] != AMPERSAND by {
        if i >= 9 {
            assert(rest[i] == dd[i - 9]);
        }
    }
    crate::text::lemma_seg_len(rest, AMPERSAND, rest.len() as int);
    assert(rest.take(rest.len() as int) =~= rest);
    assert(rest.take(8) =~= duration_key());
    assert(rest.skip(9) =~= dd);
    assert(param_value(rest, duration_key()) == Some(dd));
    assert(param_value(q, duration_key()) == Some(dd));
}

/// The strict reader used for configuration values and the general decimal reader agree on
/// every non-empty text: both accept exactly the digit runs whose value fits in a `u64`, and
/// read the same value.
pub proof fn lemma_strict_agrees_with_general(s: Seq<u8>)
    requires
        s.len() > 0,
    ensures
        strict_decimal(s) is Some <==> all_digits(s) && decimal_value(s) <= u64::MAX,
        strict_decimal(s) matches Some(v) ==> v == decimal_value(s),
{
}

/// The status page while the relay is on.
pub const STATUS_PAGE_ON: &'static str = "<!DOCTYPE html><html><head><title>auto-water</title></head><body><h1>auto-water</h1><p>Relay: ON</p><p><a href=\"/on\"><button>ON</button></a> <a href=\"/off\"><button>OFF</button></a></p></body></html>";

/// The status page while the relay is off.
pub const STATUS_PAGE_OFF: &'static str = "<!DOCTYPE html><html><head><title>auto-water</title></head><body><h1>auto-water</h1><p>Relay: OFF</p><p><a href=\"/on\"><button>ON</button></a> <a href=\"/off\"><button>OFF</button></a></p></body></html>";

/// A `200 OK` HTML reply holding the status page for the relay state `relay_on`.
pub open spec fn is_status_page(r: Response, relay_on: bool) -> bool {
    &&& r.status@ == "200 OK"@
    &&& r.content_type@ == "text/html"@
    &&& r.body@ == if relay_on { STATUS_PAGE_ON.spec_bytes() } else { STATUS_PAGE_OFF.spec_bytes() }
}

/// The application's request handler.
pub struct App;

impl App {
    /// The page that `path` asks for, with the query string of `/config`.
    pub fn route<'a>(&self, path: &'a str) -> (r: Route<'a>)
        ensures
            (r is Root) == (path_base(path.spec_bytes()) == "/".spec_bytes()),
            (r is On) == (path_base(path.spec_bytes()) == "/on".spec_bytes()),
            (r is Off) == (path_base(path.spec_bytes()) == "/off".spec_bytes()),
            (r is Status) == (path_base(path.spec_bytes()) == "/status".spec_bytes()),
            (r is Float) == (path_base(path.spec_bytes()) == "/float".spec_bytes()),
            (r is Config) == (path_base(path.spec_bytes()) == "/config".spec_bytes()),
            (r is Water) == (path_base(path.spec_bytes()) == "/water".spec_bytes()),
            (r is Ota) == (path_base(path.spec_bytes()) == "/ota".spec_bytes()),
            r matches Route::Config(q) ==> {
                &&& (q is Some <==> path_query(path.spec_bytes()) is Some)
                &&& (q matches Some(s) ==> s.spec_bytes() == path_query(path.spec_bytes())->0)
            },
    {
        let p = path.as_bytes();
        let ghost pb = p@;
        proof {
            vstd::utf8::encode_utf8_valid_utf8(path@);
            lemma_seg_len_bound(pb, QUESTION);
            reveal_strlit("/");
            reveal_strlit("/status");
            reveal_strlit("/float");
            reveal_strlit("/config");
            reveal_strlit("/water");
            reveal_strlit("/ota");
            reveal_strlit("/on");
            reveal_strlit("/off");
            vstd::string::is_ascii_spec_bytes("/on");
            vstd::string::is_ascii_spec_bytes("/off");
            vstd::string::is_ascii_spec_bytes("/");
            vstd::string::is_ascii_spec_bytes("/status");
            vstd::string::is_ascii_spec_bytes("/float");
            vstd::string::is_ascii_spec_bytes("/config");
            vstd::string::is_ascii_spec_bytes("/water");
            vstd::string::is_ascii_spec_bytes("/ota");
            assert("/status".spec_bytes()[1] != "/config".spec_bytes()[1]);
            assert("/float".spec_bytes()[1] != "/water".spec_bytes()[1]);
            assert("/off".spec_bytes()[2] != "/ota".spec_bytes()[2]);
        }
        assert(pb.skip(0) =~= pb);
        let e = find_byte(p, 0, QUESTION);
        let base = vstd::slice::slice_subrange(p, 0, e);
        assert(base@ =~= path_base(pb));
        if bytes_eq(base, "/".as_bytes()) {
            Route::Root
        } else if bytes_eq(base, "/on".as_bytes()) {
            Route::On
        } else if bytes_eq(base, "/off".as_bytes()) {
            Route::Off
        } else if bytes_eq(base, "/status".as_bytes()) {
            Route::Status
        } else if bytes_eq(base, "/float".as_bytes()) {
            Route::Float
        } else if bytes_eq(base, "/config".as_bytes()) {
            if e < p.len() {
                proof {
                    lemma_ascii_boundaries(pb, e as int);
                    vstd::utf8::is_char_boundary_start_end_of_seq(pb);
                    assert(pb.subrange(e + 1, pb.len() as int) =~= pb.skip(e + 1));
                }
                Route::Config(Some(substr(path, e + 1, p.len())))
            } else {
                Route::Config(None)
            }
        } else if bytes_eq(base, "/water".as_bytes()) {
            Route::Water
        } else if bytes_eq(base, "/ota".as_bytes()) {
            Route::Ota
        } else {
            Route::NotFound
        }
    }

    /// The level `route` sets the relay to: high for `/on`, low for `/off`; other pages leave
    /// the relay alone.
    pub fn relay_command<'b>(&self, route: &Route<'b>) -> (level: Option<bool>)
        ensures
            level == match *route {
                Route::On => Some(true),
                Route::Off => Some(false),
                _ => None::<bool>,
            },
    {
        match route {
            Route::On => Some(true),
            Route::Off => Some(false),
            _ => None,
        }
    }

    /// The reply to `route`, once its work is done: `relay_on` is the relay state shown by the
    /// status page at `/`, `float_high` the float switch level read for `/float`, and
    /// `config_body` the configuration report written for `/config`. `/on` and `/off` answer
    /// with the status page for the state they set.
    pub fn respond<'a, 'b>(
        &self,
        route: &Route<'b>,
        relay_on: bool,
        float_high: bool,
        config_body: &'a [u8],
    ) -> (r: Response<'a>)
        ensures
            match *route {
                Route::Root => is_status_page(r, relay_on),
                Route::On => is_status_page(r, true),
                Route::Off => is_status_page(r, false),
                Route::Status => is_text_reply(r, "OK".spec_bytes()),
                Route::Float => is_text_reply(r, if float_high { "high".spec_bytes() } else { "low".spec_bytes() }),
                Route::Config(_) => is_text_reply(r, config_body@),
                Route::Water => is_text_reply(r, "Watered".spec_bytes()),
                Route::Ota => is_text_reply(
                    r,
                    "POST firmware binary to /ota with Authorization: Bearer header".spec_bytes(),
                ),
                Route::NotFound => {
                    &&& r.status@ == "404 Not Found"@
                    &&& r.content_type@ == "text/plain"@
                    &&& r.body@ == "Not Found".spec_bytes()
                },
            },
    {
        match route {
            Route::Root => {
                if relay_on {
                    Response::ok("text/html", STATUS_PAGE_ON.as_bytes())
                } else {
                    Response::ok("text/html", STATUS_PAGE_OFF.as_bytes())
                }
            },
            Route::On => Response::ok("text/html", STATUS_PAGE_ON.as_bytes()),
            Route::Off => Response::ok("text/html", STATUS_PAGE_OFF.as_bytes()),
            Route::Status => Response::ok("text/plain", "OK".as_bytes()),
            Route::Float => {
                if float_high {
                    Response::ok("text/plain", "high".as_bytes())
                } else {
                    Response::ok("text/plain", "low".as_bytes())
                }
            },
            Route::Config(_) => Response::ok("text/plain", config_body),
            Route::Water => Response::ok("text/plain", "Watered".as_bytes()),
            Route::Ota => Response::ok(
                "text/plain",
                "POST firmware binary to /ota with Authorization: Bearer header".as_bytes(),
            ),
            Route::NotFound => Response::not_found(),
        }
    }

    /// Whether applying `query` to the configuration would overflow while reading a value.
    pub fn config_query_overflows(&self, query: &str) -> (r: bool)
        ensures
            r == !config_query_safe(query.spec_bytes()),
    {
        let a = match parse_param(query, "interval") {
            Some(v) => parse_u64_overflows(v),
            None => false,
        };
        let b = match parse_param(query, "duration") {
            Some(v) => parse_u64_overflows(v),
            None => false,
        };
        a || b
    }

    /// Applies the `interval` and `duration` values of `query` to `cfg`; a value that is missing
    /// or not a number leaves the setting as it was. Returns whether the configuration is to
    /// be stored, which is whenever a query was given.
    pub fn handle_config(&self, query: Option<&str>, cfg: &mut Config) -> (save: bool)
        requires
            query matches Some(q) ==> config_query_safe(q.spec_bytes()),
        ensures
            save == query is Some,
            final(cfg).watering_interval_secs == updated_setting(
                old(cfg).watering_interval_secs,
                match query { Some(q) => Some(q.spec_bytes()), None => None },
                interval_key(),
            ),
            final(cfg).pump_duration_secs == updated_setting(
                old(cfg).pump_duration_secs,
                match query { Some(q) => Some(q.spec_bytes()), None => None },
                duration_key(),
            ),
            query is None ==> *final(cfg) == *old(cfg),
            query matches Some(q) && param_value(q.spec_bytes(), interval_key()) is None
                ==> final(cfg).watering_interval_secs == old(cfg).watering_interval_secs,
            query matches Some(q) && param_value(q.spec_bytes(), duration_key()) is None
                ==> final(cfg).pump_duration_secs == old(cfg).pump_duration_secs,
    {
        match query {
            Some(q) => {
                if let Some(val) = parse_param(q, "interval") {
                    if let Ok(secs) = parse_u64(val) {
                        cfg.watering_interval_secs = secs;
                    }
                }
                if let Some(val) = parse_param(q, "duration") {
                    if let Ok(secs) = parse_u64(val) {
                        cfg.pump_duration_secs = secs;
                    }
                }
                true
            },
            None => false,
        }
    }

    /// Writes the configuration report of `cfg` to the front of `buf`, followed by a zero byte,
    /// and returns the report.
    pub fn write_config_body<'a>(&self, cfg: &Config, buf: &'a mut [u8; 80]) -> (body: &'a [u8])
        ensures
            body@ == config_text(cfg.watering_interval_secs, cfg.pump_duration_secs),
            final(buf)@ == body@ + seq![0u8] + old(buf)@.skip(body@.len() as int + 1),
    {
        let ghost di = decimal_digits(cfg.watering_interval_secs as nat);
        let ghost dd = decimal_digits(cfg.pump_duration_secs as nat);
        proof {
            crate::text::lemma_u64_digits_len(cfg.watering_interval_secs);
            crate::text::lemma_u64_digits_len(cfg.pump_duration_secs);
            reveal_strlit("interval=");
            reveal_strlit("duration=");
            vstd::string::is_ascii_spec_bytes("interval=");
            vstd::string::is_ascii_spec_bytes("duration=");
        }
        let ikey = "interval=".as_bytes();
        let dkey = "duration=".as_bytes();
        assert(ikey@.len() == 9);
        assert(dkey@.len() == 9);
        let mut num_buf = [0u8; 20];
        let ghost b0 = buf@;
        let mut pos: usize = append_bytes(buf, 0, ikey);
        let n = format_u64(cfg.watering_interval_secs, &mut num_buf);
        let digits = vstd::slice::slice_subrange(num_buf.as_slice(), 0, n);
        assert(digits@ == di);
        pos = append_bytes(buf, pos, digits);
        buf[pos] = AMPERSAND;
        pos = pos + 1;
        pos = append_bytes(buf, pos, dkey);
        let n = format_u64(cfg.pump_duration_secs, &mut num_buf);
        let digits = vstd::slice::slice_subrange(num_buf.as_slice(), 0, n);
        assert(digits@ == dd);
        pos = append_bytes(buf, pos, digits);
        buf[pos] = 0;
        let ghost text = config_text(cfg.watering_interval_secs, cfg.pump_duration_secs);
        assert(pos == text.len());
        assert(buf@ =~= text + seq![0u8] + b0.skip(text.len() as int + 1));
        assert(buf@.subrange(0, pos as int) =~= text);
        vstd::slice::slice_subrange(buf.as_slice(), 0, pos)
    }
}

} // verus!
