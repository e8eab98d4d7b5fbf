use auto_water::config::Config;
use auto_water::handler::{
    append_bytes, format_u64, parse_param, parse_u64, parse_u64_overflows, App, Route, STATUS_PAGE_OFF,
    STATUS_PAGE_ON,
};

#[test]
fn handler_parse_param_basic() {
    assert_eq!(parse_param("interval=86400", "interval"), Some("86400"));
    assert_eq!(parse_param("duration=10", "duration"), Some("10"));
}

#[test]
fn parse_param_multiple() {
    assert_eq!(
        parse_param("interval=86400&duration=10", "interval"),
        Some("86400")
    );
    assert_eq!(
        parse_param("interval=86400&duration=10", "duration"),
        Some("10")
    );
}

#[test]
fn handler_parse_param_missing() {
    assert_eq!(parse_param("foo=bar", "interval"), None);
    assert_eq!(parse_param("", "interval"), None);
}

#[test]
fn parse_param_wrong_key() {
    assert_eq!(parse_param("foo=bar", "foo="), None);
    assert_eq!(parse_param("foobar=baz", "foo"), None);
}

#[test]
fn parse_u64_valid() {
    assert_eq!(parse_u64("0"), Ok(0));
    assert_eq!(parse_u64("5"), Ok(5));
    assert_eq!(parse_u64("86400"), Ok(86400));
    assert_eq!(parse_u64("172800"), Ok(172800));
}

#[test]
fn parse_u64_invalid() {
    assert_eq!(parse_u64(""), Err(()));
    assert_eq!(parse_u64("abc"), Err(()));
    assert_eq!(parse_u64("12.34"), Err(()));
    assert_eq!(parse_u64("-1"), Err(()));
}

#[test]
fn handler_parse_u64_overflow() {
    assert_eq!(parse_u64("99999999999999999999"), Err(()));
}

#[test]
fn format_u64_values() {
    let mut buf = [0u8; 20];
    assert_eq!(format_u64(0, &mut buf), 1);
    assert_eq!(&buf[..1], b"0");

    assert_eq!(format_u64(5, &mut buf), 1);
    assert_eq!(&buf[..1], b"5");

    assert_eq!(format_u64(86400, &mut buf), 5);
    assert_eq!(&buf[..5], b"86400");

    assert_eq!(format_u64(172800, &mut buf), 6);
    assert_eq!(&buf[..6], b"172800");
}

#[test]
fn handler_append_bytes_basic() {
    let mut buf = [0u8; 20];
    let pos = append_bytes(&mut buf, 0, b"hello");
    assert_eq!(pos, 5);
    assert_eq!(&buf[..5], b"hello");

    let pos = append_bytes(&mut buf, pos, b" world");
    assert_eq!(pos, 11);
    assert_eq!(&buf[..11], b"hello world");
}

#[test]
fn strict_parse_max_and_overflow_detection() {
    assert_eq!(parse_u64("18446744073709551615"), Ok(u64::MAX));
    assert!(parse_u64_overflows("18446744073709551616"));
    assert!(!parse_u64_overflows("99999999999999999999"));
    assert!(!parse_u64_overflows("18446744073709551615"));
    assert!(!parse_u64_overflows("1x8446744073709551616"));
}

#[test]
fn route_pages() {
    let app = App;
    assert!(matches!(app.route("/"), Route::Root));
    assert!(matches!(app.route("/on"), Route::On));
    assert!(matches!(app.route("/off?x"), Route::Off));
    assert!(matches!(app.route("/of"), Route::NotFound));
    assert!(matches!(app.route("/status"), Route::Status));
    assert!(matches!(app.route("/float?x=1"), Route::Float));
    assert!(matches!(app.route("/water"), Route::Water));
    assert!(matches!(app.route("/ota"), Route::Ota));
    assert!(matches!(app.route("/config"), Route::Config(None)));
    assert!(matches!(app.route("/config?"), Route::Config(Some(""))));
    assert!(matches!(app.route("/config?interval=5"), Route::Config(Some("interval=5"))));
    assert!(matches!(app.route("/nope"), Route::NotFound));
    assert!(matches!(app.route("/status/"), Route::NotFound));
}

#[test]
fn respond_bodies() {
    let app = App;
    let r = app.respond(&Route::Root, false, false, b"");
    assert_eq!(r.status, "200 OK");
    assert_eq!(r.content_type, "text/html");
    assert_eq!(r.body, STATUS_PAGE_OFF.as_bytes());
    assert_eq!(app.respond(&Route::Root, true, false, b"").body, STATUS_PAGE_ON.as_bytes());
    assert_eq!(app.respond(&Route::Float, false, true, b"").body, b"high");
    assert_eq!(app.respond(&Route::Float, false, false, b"").body, b"low");
    assert_eq!(app.respond(&Route::Config(None), false, false, b"cfg").body, b"cfg");
    assert_eq!(app.respond(&Route::Water, false, false, b"").body, b"Watered");
    assert_eq!(app.respond(&Route::Status, false, false, b"").body, b"OK");
    let nf = app.respond(&Route::NotFound, false, false, b"");
    assert_eq!(nf.status, "404 Not Found");
    assert_eq!(nf.body, b"Not Found");
}

#[test]
fn relay_switching_pages() {
    let app = App;
    assert_eq!(app.relay_command(&app.route("/on")), Some(true));
    assert_eq!(app.relay_command(&app.route("/off")), Some(false));
    assert_eq!(app.relay_command(&app.route("/")), None);
    assert_eq!(app.relay_command(&app.route("/water")), None);
    let on = app.respond(&Route::On, false, false, b"");
    assert_eq!(on.status, "200 OK");
    assert_eq!(on.body, STATUS_PAGE_ON.as_bytes());
    let off = app.respond(&Route::Off, true, false, b"");
    assert_eq!(off.status, "200 OK");
    assert_eq!(off.body, STATUS_PAGE_OFF.as_bytes());
    assert!(STATUS_PAGE_ON.contains("href=\"/on\"><button>ON</button>"));
    assert!(STATUS_PAGE_OFF.contains("href=\"/off\"><button>OFF</button>"));
    assert!(STATUS_PAGE_ON.contains("Relay: ON"));
    assert!(STATUS_PAGE_OFF.contains("Relay: OFF"));
}

#[test]
fn handle_config_applies_query() {
    let app = App;
    let mut cfg = Config::default();
    assert!(app.handle_config(Some("interval=60&duration=7"), &mut cfg));
    assert_eq!(cfg.watering_interval_secs, 60);
    assert_eq!(cfg.pump_duration_secs, 7);

    assert!(app.handle_config(Some("interval=&duration=x"), &mut cfg));
    assert_eq!(cfg.watering_interval_secs, 60);
    assert_eq!(cfg.pump_duration_secs, 7);

    assert!(!app.handle_config(None, &mut cfg));
    assert_eq!(cfg.watering_interval_secs, 60);
}

#[test]
fn config_query_overflow_check() {
    let app = App;
    assert!(app.config_query_overflows("duration=18446744073709551619"));
    assert!(!app.config_query_overflows("duration=18446744073709551615&interval=1"));
}

#[test]
fn config_body_and_roundtrip() {
    let app = App;
    let cfg = Config { watering_interval_secs: 172800, pump_duration_secs: 5 };
    let mut buf = [7u8; 80];
    let body = app.write_config_body(&cfg, &mut buf).to_vec();
    assert_eq!(body, b"interval=172800&duration=5");
    assert_eq!(buf[body.len()], 0);
    assert_eq!(buf[body.len() + 1], 7);

    let query = core::str::from_utf8(&body).unwrap();
    let mut other = Config { watering_interval_secs: 1, pump_duration_secs: 1 };
    app.handle_config(Some(query), &mut other);
    assert_eq!(other.watering_interval_secs, 172800);
    assert_eq!(other.pump_duration_secs, 5);
}

#[test]
fn config_body_extremes() {
    let app = App;
    let cfg = Config { watering_interval_secs: u64::MAX, pump_duration_secs: 0 };
    let mut buf = [0u8; 80];
    let body = app.write_config_body(&cfg, &mut buf);
    assert_eq!(body, b"interval=18446744073709551615&duration=0");
}
