use byoh_core::calculator::{resolve_color, Levels};
use byoh_core::client::{unique_endpoints, url_of_endpoint, Client, Error, FetchMode, FixtureHttpClient, Gate, SyncState};
use byoh_core::defs::{FieldDef, IndicatorDef, Threshold, WindowDef};
use byoh_core::expression::{is_short, read_expression, Op, MOST_MARKS};
use byoh_core::formula::eval_formula;
use byoh_core::http::{keeps_connection, next_attempt, request, Attempt, Peek, Reply, Stage, Want};
use byoh_core::json::{parse_document, JsonDoc};
use byoh_core::num::Num;
use byoh_core::polling::{host_port, Pace};
use byoh_core::syntax::{accept_windows, find_fault, find_text_fault};
use byoh_core::table::{RawFrame, StringFrame, Table};

fn n(x: f64) -> Num {
    Num { bits: x.to_bits() }
}

fn line(reply: &mut Reply, text: &str) {
    assert_eq!(reply.want(), Want::Line);
    reply.take_line(text).unwrap();
}

#[test]
fn a_reply_with_a_length() {
    let mut r = Reply::new();
    line(&mut r, "HTTP/1.1 200 OK\r\n");
    line(&mut r, "CONTENT-Length:  5 \r\n");
    line(&mut r, "Connection: Close\r\n");
    line(&mut r, "\r\n");
    assert_eq!(r.want(), Want::Bytes(5));
    r.take_bytes("h\u{e9}y!".as_bytes().to_vec()).unwrap();
    assert_eq!(r.want(), Want::Nothing);
    assert_eq!(r.finish().unwrap(), "h\u{e9}y!");
    assert!(r.server_close);
}

#[test]
fn a_reply_in_chunks() {
    let mut r = Reply::new();
    line(&mut r, "HTTP/1.1 200 OK\r\n");
    line(&mut r, "Transfer-Encoding: Chunked\r\n");
    line(&mut r, "\r\n");
    line(&mut r, "3\r\n");
    assert_eq!(r.want(), Want::Bytes(3));
    r.take_bytes(b"abc".to_vec()).unwrap();
    line(&mut r, "\r\n");
    line(&mut r, " A \r\n");
    assert_eq!(r.want(), Want::Bytes(10));
    r.take_bytes(b"0123456789".to_vec()).unwrap();
    line(&mut r, "\r\n");
    line(&mut r, "0\r\n");
    line(&mut r, "\r\n");
    assert_eq!(r.finish().unwrap(), "abc0123456789");
    assert!(!r.server_close);
}

#[test]
fn a_reply_to_the_end_of_the_connection() {
    let mut r = Reply::new();
    line(&mut r, "HTTP/1.0 200 OK\n");
    line(&mut r, "Content-Length: nonsense\n");
    line(&mut r, "");
    assert_eq!(r.want(), Want::Rest);
    assert!(r.finish().is_none());
    r.take_text("all");
    assert_eq!(r.finish().unwrap(), "all");
    assert!(r.server_close);
}

#[test]
fn replies_that_fail() {
    let mut r = Reply::new();
    assert!(matches!(r.take_line(""), Err(Error::Io(_))));
    let mut r = Reply::new();
    r.stage = Stage::ChunkSize;
    let mut complaint = |line: &str| match r.take_line(line) {
        Err(Error::Other(m)) => m,
        _ => panic!("a chunk needs a size"),
    };
    assert_eq!(complaint(" xyz\r\n"), "bad chunk size \"xyz\": invalid digit found in string");
    assert_eq!(complaint("\r\n"), "bad chunk size \"\": cannot parse integer from empty string");
    for line in ["+", "-1", "1z", "ffffffffffffffffff", "fffffffffffffffffz", "z\"\u{7}"] {
        let e = usize::from_str_radix(line, 16).unwrap_err();
        assert_eq!(complaint(line), format!("bad chunk size {:?}: {e}", line));
    }
    r.stage = Stage::Body(2);
    assert!(matches!(r.take_bytes(vec![0xff, 0xfe]), Err(Error::Other(_))));
}

#[test]
fn requests_and_connections() {
    assert_eq!(
        request("/state", "127.0.0.1:8111"),
        "GET /state HTTP/1.1\r\nHost: 127.0.0.1:8111\r\nConnection: keep-alive\r\n\r\n"
    );
    assert!(keeps_connection(false, Peek::Waiting));
    assert!(keeps_connection(false, Peek::Unknown));
    assert!(!keeps_connection(false, Peek::End));
    assert!(!keeps_connection(false, Peek::Broken));
    assert!(!keeps_connection(true, Peek::Data));
    assert_eq!(next_attempt(false, false), Attempt::Accept);
    assert_eq!(next_attempt(true, false), Attempt::Reconnect);
    assert_eq!(next_attempt(true, true), Attempt::GiveUp);
}

#[test]
fn hosts_and_urls() {
    assert_eq!(host_port(None), "127.0.0.1:8111");
    assert_eq!(host_port(Some("https://localhost:80//")), "127.0.0.1:80");
    assert_eq!(host_port(Some("http://10.0.0.1:8111/")), "10.0.0.1:8111");
    assert_eq!(host_port(Some("localhost")), "localhost");
    assert_eq!(url_of_endpoint("http://x//", "state"), "http://x/state");
    assert_eq!(url_of_endpoint("http://x", "/state"), "http://x/state");
}

#[test]
fn readers_report_every_hundredth_round() {
    let mut p = Pace::new();
    for i in 1..=100u64 {
        let step = p.end_round(if i % 2 == 0 { 60_000_000 } else { 40_000_000 });
        assert_eq!(step.wait_ms, if i % 2 == 0 { 0 } else { 200 });
        assert_eq!(step.report, if i == 100 { Some(50) } else { None });
    }
    assert_eq!(p.total_ms, 0);
}

fn field(id: &str, endpoint: &str) -> FieldDef {
    FieldDef {
        id: id.to_string(),
        endpoint: endpoint.to_string(),
        api_key: id.to_string(),
        label: String::new(),
        unit: String::new(),
        field_type: "f64".to_string(),
    }
}

#[test]
fn endpoints_are_asked_once() {
    let fields =
        vec![field("a", "/state"), field("b", "__virtual__"), field("c", "/x"), field("d", "/state")];
    assert_eq!(unique_endpoints(&fields), ["/state", "/x"]);
}

fn sync_state() -> SyncState {
    SyncState {
        base_url: String::new(),
        cache: Table::new(),
        last_request: Table::new(),
        min_interval: 16_000_000,
        consecutive_failures: 0,
        failed_until: None,
        failure_threshold: 10,
        failure_backoff: 5_000_000_000,
        retry_limit: 0,
    }
}

#[test]
fn the_breaker_opens_and_closes() {
    let mut s = sync_state();
    for i in 0..9 {
        s.note_failure(i);
        assert!(matches!(s.gate("/state", i, i), Gate::Ask));
    }
    s.note_failure(100);
    assert!(matches!(s.gate("/state", 5_000_000_099, 0), Gate::Closed));
    assert!(matches!(s.gate("/state", 5_000_000_100, 0), Gate::Ask));
    let doc = parse_document("{}").unwrap();
    s.note_success("/state", &doc, 200);
    assert!(matches!(s.gate("/state", 0, 300), Gate::Cached(_)));
    assert!(matches!(s.gate("/state", 0, 200 + 16_000_000), Gate::Ask));
    assert!(matches!(s.gate("/other", 0, 300), Gate::Ask));
    assert_eq!(s.consecutive_failures, 0);
}

#[test]
fn ten_failures_open_the_breaker_of_a_client() {
    let http = FixtureHttpClient::new(StringFrame::new());
    let mut c = Client::with_windows(http, "http://localhost:8111".to_string(), vec![], vec![], String::new(), String::new());
    for _ in 0..10 {
        match c.fetch_json("state") {
            Err(Error::Other(m)) => {
                assert_eq!(m, "fixture not found: http://localhost:8111/state")
            }
            _ => panic!("nothing to be had"),
        }
    }
    assert!(matches!(c.fetch_json("state"), Err(Error::CircuitOpen)));
    assert_eq!(c.http.calls.get("/state").copied(), Some(10));
}

#[test]
fn a_success_lets_the_breaker_count_anew() {
    let mut fixtures = StringFrame::new();
    fixtures.insert("/good".to_string(), "{}".to_string());
    let http = FixtureHttpClient::new(fixtures);
    let mut c = Client::with_windows(
        http,
        "http://h".to_string(),
        vec![],
        vec![],
        String::new(),
        String::new(),
    );
    for _ in 0..9 {
        assert!(matches!(c.fetch_json("bad"), Err(Error::Other(_))));
    }
    assert!(c.fetch_json("good").is_ok());
    for _ in 0..10 {
        assert!(matches!(c.fetch_json("bad"), Err(Error::Other(_))));
    }
    assert!(matches!(c.fetch_json("bad"), Err(Error::CircuitOpen)));
    assert!(matches!(c.fetch_json("good"), Err(Error::CircuitOpen)));
    assert_eq!(c.http.calls.get("/bad").copied(), Some(19));
    assert_eq!(c.http.calls.get("/good").copied(), Some(1));
}

#[test]
fn replies_that_are_no_json() {
    let mut fixtures = StringFrame::new();
    fixtures.insert("http://h/state".to_string(), "nonsense".to_string());
    fixtures.insert("plain".to_string(), "{}".to_string());
    let mut http = FixtureHttpClient::new(fixtures);
    assert_eq!(http.reply("plain").unwrap(), "{}");
    assert!(matches!(http.reply("http://h"), Err(Error::Other(_))));
    assert_eq!(http.calls.get("/").copied(), Some(1));
    let mut c = Client::with_windows(http, "http://h".to_string(), vec![], vec![], String::new(), String::new());
    assert!(matches!(c.fetch_json("state"), Err(Error::Parse(_))));
}

fn stored_client() -> Client<FixtureHttpClient> {
    Client::new_with_windows(
        FixtureHttpClient::new(StringFrame::new()),
        vec![field("a", "/state")],
        vec![],
        Table::new(),
        "v1".to_string(),
        "/cfg".to_string(),
        "/fm".to_string(),
    )
    .unwrap_or_else(|e| panic!("{e:?}"))
}

#[test]
fn stored_documents_are_read_without_requests() {
    let mut c = stored_client();
    assert!(matches!(c.fetch_json("/state"), Err(Error::Other(_))));
    c.store_document("/state", parse_document(r#"{"a": 1.5, "a2": "x"}"#).unwrap());
    c.store_document("/indicators", parse_document(r#"{"type": "spitfire"}"#).unwrap());
    let (frame, texts) = c.fetch_raw();
    assert_eq!(frame.number("a"), Some(n(1.5)));
    assert_eq!(frame.number("fm_loaded"), Some(n(0.0)));
    assert_eq!(texts.get("vehicle_name").unwrap(), "spitfire");
    assert_eq!(texts.get("config_dir").unwrap(), "/cfg");
    assert_eq!(texts.get("fm_dir").unwrap(), "/fm");
    assert!(c.http.calls.is_empty());
}

#[test]
fn windows_without_rows_wait() {
    let mut c = stored_client();
    let w = WindowDef {
        id: "w".to_string(),
        x: 1,
        y: 2,
        width: Some(9),
        height: Some(8),
        indicators: vec![],
        style: None,
    };
    assert!(c.reload_window_defs(Err("broken".to_string())).is_err());
    assert!(c.windows.is_empty());
    assert_eq!(c.reload_window_defs(Ok(vec![w])).unwrap().len(), 1);
    let shown = c.fetch_display_windows();
    assert_eq!(shown[0].rows[0].value_str, "offline");
    c.store_document("/state", parse_document(r#"{"a": 1}"#).unwrap());
    let shown = c.fetch_display_windows();
    assert_eq!(shown[0].rows[0].value_str, "waiting");
    assert_eq!(shown[0].rows[0].color, "unit");
    assert_eq!((shown[0].width, shown[0].height), (9, 8));
}

#[test]
fn documents_hold_numbers_truth_and_text() {
    let doc: JsonDoc = parse_document(r#"{"n": -2, "t": true, "s": "x", "l": [1]}"#).unwrap();
    assert_eq!(doc.number("n"), Some(n(-2.0)));
    assert_eq!(doc.number("t"), None);
    assert_eq!(doc.truth("t"), Some(true));
    assert_eq!(doc.text("s"), Some("x".to_string()));
    assert_eq!(doc.text("l"), None);
    assert!(doc.get("missing").is_none());
}

fn vars() -> RawFrame {
    let mut f = RawFrame::new();
    f.insert("x".to_string(), n(2.0));
    f.insert("fm_rpm_max".to_string(), n(3000.0));
    f
}

#[test]
fn formulas_give_numbers_integers_and_truth() {
    let at = |t: &str| eval_formula(t, &vars());
    assert_eq!(at("x"), Some(n(2.0)));
    assert_eq!(at("x * 1.5"), Some(n(3.0)));
    assert_eq!(at("7 / 2"), Some(n(3.0)));
    assert_eq!(at("x > 1.0"), Some(n(1.0)));
    assert_eq!(at("x < 1.0"), Some(n(0.0)));
    assert_eq!(at("missing"), None);
    assert_eq!(at("\"text\""), None);
    assert_eq!(at("fm_rpm_max / 2"), Some(n(1500.0)));
    assert_eq!(at("math::abs(-x)"), Some(n(2.0)));
    assert_eq!(at("2 ^ 3"), Some(n(8.0)));
    assert_eq!(at("shl(3, 2) // bits"), Some(n(12.0)));
    assert_eq!(at("x /* twice */ * 2"), Some(n(4.0)));
    assert_eq!(at("2 ^ ("), None);
    assert_eq!(at("math::sin(x"), None);
}

#[test]
fn formulas_round_and_limit_their_values() {
    let at = |t: &str| eval_formula(t, &vars());
    assert_eq!(at("math::floor(x)"), Some(n(2.0)));
    assert_eq!(at("math::floor(0 - x / 4.0)"), Some(n(-1.0)));
    assert_eq!(at("math::ceil(x / 4.0)"), Some(n(1.0)));
    assert_eq!(at("math::ceil(2.5) + math::floor(7)"), Some(n(10.0)));
    assert_eq!(at("math::min(x, 1)"), Some(n(1.0)));
    assert_eq!(at("math::max(x, fm_rpm_max)"), Some(n(3000.0)));
    assert_eq!(at("math::clamp(fm_rpm_max, 0, 2500.5)"), Some(n(2500.5)));
    assert_eq!(at("math::clamp(-3, x, 9)"), Some(n(2.0)));
    assert_eq!(at("math::min(x)"), None);
    assert_eq!(at("math::floor(x, x)"), None);
    assert_eq!(at("math::floor(\"x\")"), None);
    assert_eq!(at("math::clamp(x, 1)"), None);
    assert_eq!(at("math::floor()"), None);
    assert_eq!(at("math::sqrt(x * 2)"), Some(n(2.0)));
}

#[test]
fn a_field_that_is_not_there_leaves_no_value() {
    let at = |t: &str| eval_formula(t, &vars());
    for text in [
        "missing + 1",
        "Missing + x",
        "feld_\u{e4} * 0",
        "2 ^ N1",
        "if(true, 1, missing)",
        "missing; 1",
        "false && missing",
        "math::max(x, missing)",
        "x = 1",
        "missing == missing",
        "(1, missing)",
        "max 3",
    ] {
        assert_eq!(at(text), None, "{text}");
    }
    assert_eq!(at("if(true, 1, x)"), Some(n(1.0)));
    assert_eq!(at("\"missing\" == \"missing\""), Some(n(1.0)));
    assert_eq!(at("1 // missing"), Some(n(1.0)));
}

#[test]
fn every_function_returns() {
    let at = |t: &str| eval_formula(t, &vars());
    assert_eq!(at("shl(1, 3)"), Some(n(8.0)));
    assert_eq!(at("shl(-1, 63)"), Some(n(-9223372036854775808.0)));
    assert_eq!(at("shl(1, 64)"), None);
    assert_eq!(at("shl(1, 70)"), None);
    assert_eq!(at("shl(1, -1)"), None);
    assert_eq!(at("shl(1, x)"), None);
    assert_eq!(at("shl(1, 1 + 2)"), Some(n(8.0)));
    assert_eq!(at("shl if(true, (1, 4), 0)"), Some(n(16.0)));
    assert_eq!(at("shr (-9, 1)"), Some(n(-5.0)));
    assert_eq!(at("1 + shr (1, 70)"), None);
    assert_eq!(at("math::abs(-9223372036854775807)"), Some(n(9223372036854775807.0)));
    assert_eq!(at("math::abs(-9223372036854775807 - 1)"), None);
    assert_eq!(at("math::abs(bitnot(0x7fffffffffffffff))"), None);
    assert_eq!(at("math::abs(max(x, fm_rpm_max))"), Some(n(3000.0)));
    assert_eq!(at("math::abs(len(\"text\") - 9)"), Some(n(5.0)));
    assert_eq!(at("math::abs(0 - x)"), Some(n(2.0)));
    assert_eq!(at("math::abs(\"x\")"), None);
    assert_eq!(at("str::substring(\"t\u{e9}xt\", 0, 3) == \"t\u{e9}\""), Some(n(1.0)));
    assert_eq!(at("str::substring(\"t\u{e9}xt\", 3) == \"xt\""), Some(n(1.0)));
    assert_eq!(at("str::substring(\"t\u{e9}xt\", 5) == \"\""), Some(n(1.0)));
    assert_eq!(at("str::substring(\"t\u{e9}xt\", 2) == \"\""), None);
    assert_eq!(at("str::substring(\"text\", 3, 2) == \"\""), None);
    assert_eq!(at("str::substring(\"text\", 2, 5) == \"\""), None);
    assert_eq!(at("str::substring(\"text\", -1) == \"\""), None);
    assert_eq!(at("str::substring(\"text\") == \"\""), None);
}

#[test]
fn comments_that_never_end_are_no_expressions() {
    let at = |t: &str| eval_formula(t, &vars());
    for text in ["math::floor(x)/*", "x/*", "x /* y * /", "math::min(x, x) /*/"] {
        assert_eq!(at(text), None, "{text}");
        assert_eq!(find_text_fault(text).as_deref(), Some("Error: unmatched inline comment"));
    }
    assert_eq!(at("math::floor(x)/**/"), Some(n(2.0)));
    assert_eq!(at("math::floor(x)//"), Some(n(2.0)));
}

#[test]
fn the_smallest_and_the_largest() {
    let mut f = vars();
    f.insert("big".to_string(), n(1e300));
    f.insert("small".to_string(), n(-1e300));
    f.insert("none".to_string(), n(f64::NAN));
    let at = |t: &str| eval_formula(t, &f);
    assert_eq!(at("min(x, big)"), Some(n(2.0)));
    assert_eq!(at("max(x, big, small)"), Some(n(1e300)));
    assert_eq!(at("min(none, x)"), Some(n(2.0)));
    assert_eq!(at("min(big, big)"), Some(n(9223372036854775807.0)));
    assert_eq!(at("max(small, none)"), Some(n(-9223372036854775808.0)));
    assert_eq!(at("min(none, none)"), Some(n(9223372036854775807.0)));
    // powers and functions of numbers have a value
    for text in ["x ^ x", "x ^ 2", "-x ^ (x / 3) * math::sin(small)", "math::pow(big, 2) % x"] {
        assert!(at(text).is_some(), "{text}");
    }
    assert_eq!(at("2 ^ 3"), Some(n(8.0)));
}

#[test]
fn expressions_are_trees() {
    let e = read_expression("(a) + math::pow(2, 1.5) /* b */").unwrap();
    assert!(matches!(e.op, Op::Root));
    let sum = &e.parts[0];
    assert!(matches!(sum.op, Op::Arithmetic));
    assert!(matches!(&sum.parts[0].op, Op::Root));
    assert!(matches!(&sum.parts[0].parts[0].op, Op::Variable(v) if v == "a"));
    assert!(matches!(&sum.parts[1].op, Op::Function(f) if f == "math::pow"));
    let pair = &sum.parts[1].parts[0].parts[0];
    assert!(matches!(pair.op, Op::Tuple));
    assert!(matches!(pair.parts[0].parts[0].op, Op::Integer(2)));
    assert!(matches!(pair.parts[1].parts[0].op, Op::Float(b) if b == 1.5f64.to_bits()));
    let other = read_expression("-\"t\" ^ (1 < 2)").unwrap();
    let neg = &other.parts[0];
    assert!(matches!(neg.op, Op::Negation));
    assert!(matches!(neg.parts[0].op, Op::Power));
    assert!(matches!(&neg.parts[0].parts[0].op, Op::Text(t) if t == "t"));
    assert!(matches!(neg.parts[0].parts[1].parts[0].op, Op::Other));
    let name = read_expression("ias_kmh").unwrap();
    assert!(matches!(&name.parts[0].op, Op::Variable(v) if v == "ias_kmh"));
    assert!(read_expression("(a").is_err());
}

/// A text of `n` words and signs, nested as deep as that allows.
fn deep(shape: usize, n: usize) -> String {
    match shape {
        0 => "(".repeat((n - 1) / 2) + "1" + &")".repeat((n - 1) / 2),
        1 => "-".repeat(n - 1) + "1",
        2 => "1".to_string() + &"+1".repeat((n - 1) / 2),
        3 => "!".repeat(n - 1) + "true",
        4 => "1".to_string() + &"=1".repeat((n - 1) / 2),
        5 => "(1,".repeat((n - 1) / 4) + "1" + &")".repeat((n - 1) / 4),
        6 => "(1;1,".repeat((n - 1) / 6) + "1" + &")".repeat((n - 1) / 6),
        _ => "math::abs ".repeat(n - 1) + "x",
    }
}

#[test]
fn long_formulas_have_no_value() {
    for shape in 0..8 {
        let longest = deep(shape, MOST_MARKS);
        assert!(is_short(&longest), "{longest}");
        let fault = find_text_fault(&longest);
        assert_ne!(fault.as_deref(), Some("the expression is too long"));
        eval_formula(&longest, &vars());
        let longer = deep(shape, 100_000);
        assert!(!is_short(&longer));
        assert_eq!(find_text_fault(&longer).as_deref(), Some("the expression is too long"));
        assert_eq!(eval_formula(&longer, &vars()), None);
    }
    let sum = deep(2, MOST_MARKS - 1);
    assert_eq!(eval_formula(&sum, &vars()), Some(n((MOST_MARKS / 2) as f64)));
    assert!(is_short(&"x ".repeat(MOST_MARKS)) && !is_short(&"x ".repeat(MOST_MARKS + 1)));
    assert!(is_short(&(" ".repeat(10_000) + &"x".repeat(10_000))));

    let mut c = stored_client();
    let long = c.reload_window_defs(Ok(vec![window(vec![row_def(&deep(0, 100_000))])]));
    assert_eq!(
        long.err().as_deref(),
        Some("expression error in w/i: the expression is too long")
    );
    assert!(c.reload_window_defs(Ok(vec![window(vec![row_def("shl(1, 70)")])])).is_ok());
    assert_eq!((c.fm_version_tag.as_str(), c.config_dir.as_str()), ("v1", "/cfg"));
}

#[test]
fn clients_are_made_with_any_formulas() {
    let long = deep(0, 100_000);
    for formula in ["a", "(a", "shl(1, 70)", "math::abs(max(a, a))", long.as_str()] {
        let made = Client::new_with_windows(
            FixtureHttpClient::new(StringFrame::new()),
            vec![field("a", "/state")],
            vec![window(vec![row_def(formula)])],
            Table::new(),
            String::new(),
            String::new(),
            String::new(),
        );
        let mut c = made.unwrap_or_else(|e| panic!("{e:?}"));
        c.store_document("/state", parse_document(r#"{"a": 7}"#).unwrap());
        let rows = c.fetch_display_rows();
        let shown = if formula.ends_with('a') && formula.len() == 1 || formula.contains("abs") {
            "7"
        } else {
            "waiting"
        };
        assert_eq!(rows.len(), 1);
        assert_eq!(rows[0].value_str, shown);
    }
}

#[test]
fn levels_come_in_their_order() {
    let ind = IndicatorDef {
        id: String::new(),
        label: String::new(),
        unit: String::new(),
        formula: String::new(),
        format: String::new(),
        color: None,
        warn_below: None,
        warn_above: None,
        good_above: None,
        good_below: None,
        crit_above: None,
        crit_below: None,
        show_when: None,
        style: None,
    };
    let levels = Levels {
        crit_above: Some(n(90.0)),
        crit_below: Some(n(5.0)),
        warn_below: Some(n(10.0)),
        warn_above: Some(n(80.0)),
        good_above: Some(n(60.0)),
        good_below: Some(n(20.0)),
    };
    let at = |v: f64| resolve_color(n(v), &ind, &levels);
    assert_eq!(at(95.0), "crit");
    assert_eq!(at(1.0), "crit");
    assert_eq!(at(85.0), "warn");
    assert_eq!(at(7.0), "warn");
    assert_eq!(at(70.0), "good");
    assert_eq!(at(15.0), "good");
    assert_eq!(at(40.0), "value");
    assert_eq!(at(f64::NAN), "value");
    let mut fixed = ind.clone();
    fixed.color = Some("info".to_string());
    assert_eq!(resolve_color(n(95.0), &fixed, &levels), "info");
    assert_eq!(Threshold::Formula("x * 10".to_string()).eval(&vars()), Some(n(20.0)));
    assert_eq!(Threshold::Fixed(n(4.0)).eval(&vars()), Some(n(4.0)));
}

fn row_def(formula: &str) -> IndicatorDef {
    IndicatorDef {
        id: "i".to_string(),
        label: "L".to_string(),
        unit: String::new(),
        formula: formula.to_string(),
        format: "integer".to_string(),
        color: None,
        warn_below: None,
        warn_above: None,
        good_above: None,
        good_below: None,
        crit_above: None,
        crit_below: None,
        show_when: None,
        style: None,
    }
}

fn window(inds: Vec<IndicatorDef>) -> WindowDef {
    WindowDef {
        id: "w".to_string(),
        x: 0,
        y: 0,
        width: None,
        height: None,
        indicators: inds,
        style: None,
    }
}

#[test]
fn expressions_that_cannot_be_read_are_refused() {
    let unmatched = "expression error in w/i: Found an unmatched opening parenthesis '('.";
    assert_eq!(find_fault(&vec![window(vec![row_def("a + 1")])]), None);
    assert_eq!(
        find_fault(&vec![window(vec![row_def("a"), row_def("(a + 1"), row_def("b)")])]).as_deref(),
        Some(unmatched)
    );
    let mut hidden = row_def("a");
    hidden.show_when = Some("(a".to_string());
    assert_eq!(find_fault(&vec![window(vec![hidden])]).as_deref(), Some(unmatched));
    let mut levels = row_def("a");
    levels.warn_above = Some(Threshold::Fixed(n(1.0)));
    levels.crit_below = Some(Threshold::Formula("(a".to_string()));
    assert_eq!(find_fault(&vec![window(vec![levels])]).as_deref(), Some(unmatched));
    assert!(accept_windows(vec![], Some("no".to_string())).is_err());
    assert!(accept_windows(vec![], None).is_ok());

    let mut c = stored_client();
    assert!(c.reload_window_defs(Ok(vec![window(vec![row_def("a")])])).is_ok());
    let refused = c.reload_window_defs(Ok(vec![window(vec![]), window(vec![row_def("(a + 1")])]));
    assert_eq!(refused.err().as_deref(), Some(unmatched));
    assert_eq!(c.windows.len(), 1);
}

#[test]
fn readings_stay_in_the_frame() {
    let mut c = stored_client();
    c.fields.push(field("vy_ms", "/state"));
    c.fields.push(field("tas_kmh", "/state"));
    c.fields.push(field("other", "/elsewhere"));
    c.store_document("/state", parse_document(r#"{"a": 7, "vy_ms": 3, "tas_kmh": 360}"#).unwrap());
    let (frame, _) = c.fetch_raw();
    assert_eq!(frame.number("a"), Some(n(7.0)));
    assert_eq!(frame.number("sep"), Some(n(3.0)));
    assert_eq!(frame.number("other"), None);
}

#[test]
fn a_repeated_question_is_answered_from_memory() {
    let mut fixtures = StringFrame::new();
    fixtures.insert("/state".to_string(), r#"{"a": 1}"#.to_string());
    let http = FixtureHttpClient::new(fixtures);
    let mut c = Client::with_windows(http, "http://h".to_string(), vec![], vec![], String::new(), String::new());
    let first = c.fetch_json("state").unwrap();
    assert_eq!(first.number("a"), Some(n(1.0)));
    if let FetchMode::Sync { state } = &mut c.mode {
        state.min_interval = u64::MAX;
    }
    assert!(c.fetch_json("state").is_ok());
    assert_eq!(c.http.calls.get("/state").copied(), Some(1));
}

#[test]
fn failed_requests_are_repeated_to_the_limit() {
    let http = FixtureHttpClient::new(StringFrame::new());
    let mut c = Client::with_windows(http, "http://h".to_string(), vec![], vec![], String::new(), String::new());
    if let FetchMode::Sync { state } = &mut c.mode {
        state.retry_limit = 2;
    }
    assert!(c.fetch_json("state").is_err());
    assert_eq!(c.http.calls.get("/state").copied(), Some(3));
    if let FetchMode::Sync { state } = &c.mode {
        assert_eq!(state.consecutive_failures, 1);
    }
}
