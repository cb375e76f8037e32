use byoh_core::calculator::{format_value, Calculator};
use byoh_core::client::{Client, FixtureHttpClient};
use byoh_core::defs::{FieldDef, IndicatorDef, Threshold, WindowDef};
use byoh_core::derived::{inject_derived_fields, DerivedState};
use byoh_core::fm::{compute_named_flaps_current, FmRecord};
use byoh_core::num::Num;
use byoh_core::table::{RawFrame, StringFrame};

fn n(x: f64) -> Num {
    Num { bits: x.to_bits() }
}

fn f(x: Num) -> f64 {
    f64::from_bits(x.bits)
}

fn field(id: &str, key: &str, label: &str, unit: &str, kind: &str) -> FieldDef {
    FieldDef {
        id: id.to_string(),
        endpoint: "/state".to_string(),
        api_key: key.to_string(),
        label: label.to_string(),
        unit: unit.to_string(),
        field_type: kind.to_string(),
    }
}

fn make_fields() -> Vec<FieldDef> {
    vec![
        field("altitude_m", "H, m", "ALT", "m", "f64"),
        field("tas_kmh", "TAS, km/h", "TAS", "km/h", "f64"),
        field("fuel_kg", "Mfuel, kg", "FUEL", "kg", "f64"),
        field("valid", "valid", "VALID", "", "bool"),
    ]
}

fn indicator(id: &str, label: &str, unit: &str, formula: &str, format: &str) -> IndicatorDef {
    IndicatorDef {
        id: id.to_string(),
        label: label.to_string(),
        unit: unit.to_string(),
        formula: formula.to_string(),
        format: format.to_string(),
        color: None,
        warn_below: None,
        warn_above: None,
        good_above: None,
        good_below: None,
        crit_above: None,
        crit_below: None,
        show_when: None,
        style: None,
    }
}

fn make_indicators() -> Vec<IndicatorDef> {
    let mut alt = indicator("alt", "ALT", "m", "altitude_m", "integer");
    alt.show_when = Some("valid".to_string());
    let mut fuel = indicator("fuel", "FUEL", "kg", "fuel_kg", "integer");
    fuel.show_when = Some("valid".to_string());
    fuel.warn_below = Some(Threshold::Fixed(n(100.0)));
    vec![alt, fuel]
}

fn state_fixture() -> &'static str {
    r#"{"valid": true, "H, m": 4936, "TAS, km/h": 237, "Mfuel, kg": 750}"#
}

fn fixture(path: &str, body: &str) -> FixtureHttpClient {
    let mut fixtures = StringFrame::new();
    fixtures.insert(path.to_string(), body.to_string());
    FixtureHttpClient::new(fixtures)
}

fn make_client(body: &str) -> Client<FixtureHttpClient> {
    Client::with_config(
        fixture("/state", body),
        "http://localhost:8111".to_string(),
        make_fields(),
        make_indicators(),
        "/cfg".to_string(),
        "/fm".to_string(),
    )
}

fn frame(pairs: &[(&str, f64)]) -> RawFrame {
    let mut r = RawFrame::new();
    for (k, v) in pairs {
        r.insert(k.to_string(), n(*v));
    }
    r
}

fn get(r: &RawFrame, key: &str) -> Option<f64> {
    r.number(key).map(f)
}

const MS: u64 = 1_000_000;
const S: u64 = 1_000_000_000;

#[test]
fn test_fetch_raw_from_fixtures() {
    let mut client = make_client(state_fixture());
    let (frame, _sframe) = client.fetch_raw();
    assert_eq!(get(&frame, "altitude_m"), Some(4936.0));
    assert_eq!(get(&frame, "tas_kmh"), Some(237.0));
    assert_eq!(get(&frame, "valid"), Some(1.0));
}

#[test]
fn test_display_rows_from_fixtures() {
    let mut client = make_client(state_fixture());
    let rows = client.fetch_display_rows();
    assert_eq!(rows.len(), 2);
    assert_eq!(rows[0].label, "ALT");
    assert_eq!(rows[0].value_str, "4936");
    assert_eq!(rows[0].unit, "m");
    assert_eq!(rows[0].color, "value");
    assert_eq!(rows[1].label, "FUEL");
    assert_eq!(rows[1].value_str, "750");
    assert_eq!(rows[1].color, "value");
}

#[test]
fn test_warn_color_when_fuel_low() {
    let mut client =
        make_client(r#"{"valid": true, "H, m": 100, "TAS, km/h": 200, "Mfuel, kg": 50}"#);
    let rows = client.fetch_display_rows();
    let fuel = rows.iter().find(|r| r.label == "FUEL").unwrap();
    assert_eq!(fuel.color, "warn");
}

#[test]
fn test_offline_returns_fallback_row() {
    let http = FixtureHttpClient::new(StringFrame::new());
    let mut client = Client::with_config(
        http,
        "http://localhost:8111".to_string(),
        make_fields(),
        make_indicators(),
        "/cfg".to_string(),
        "/fm".to_string(),
    );
    let rows = client.fetch_display_rows();
    assert_eq!(rows.len(), 1);
    assert_eq!(rows[0].value_str, "offline");
}

#[test]
fn test_show_when_hides_row() {
    let mut client =
        make_client(r#"{"valid": false, "H, m": 0, "TAS, km/h": 0, "Mfuel, kg": 0}"#);
    let rows = client.fetch_display_rows();
    assert!(rows.iter().all(|r| r.label != "ALT" && r.label != "FUEL"));
}

#[test]
fn test_show_when_expression() {
    let mut ind = indicator("gspd", "GSPD", "%", "ias / crit * 100", "integer");
    ind.show_when = Some("valid != 0.0 && gear_pct > 0.0".to_string());
    let calc = Calculator::new(vec![ind]);

    let up = frame(&[("valid", 1.0), ("gear_pct", 0.0), ("ias", 150.0), ("crit", 300.0)]);
    assert!(
        calc.evaluate(&up, &StringFrame::new()).is_empty(),
        "should be hidden when gear up"
    );

    let down = frame(&[("valid", 1.0), ("gear_pct", 100.0), ("ias", 150.0), ("crit", 300.0)]);
    let rows = calc.evaluate(&down, &StringFrame::new());
    assert_eq!(rows.len(), 1, "should be visible when gear down");
    assert_eq!(rows[0].value_str, "50");
}

#[test]
fn test_calculator_arithmetic_formula() {
    let mut ind = indicator("fuel_pct", "FUEL", "%", "fuel_kg / fuel_kg0 * 100", "decimal1");
    ind.warn_below = Some(Threshold::Fixed(n(20.0)));
    let calc = Calculator::new(vec![ind]);
    let fr = frame(&[("fuel_kg", 150.0), ("fuel_kg0", 500.0)]);
    let rows = calc.evaluate(&fr, &StringFrame::new());
    assert_eq!(rows.len(), 1);
    assert_eq!(rows[0].value_str, "30.0");
    assert_eq!(rows[0].color, "value");
}

#[test]
fn test_rate_limit_uses_cache() {
    let mut client = make_client(state_fixture());
    let _ = client.fetch_json("/state").unwrap();
    let _ = client.fetch_json("/state").unwrap();
    let count = client.http.calls.get("/state").copied().unwrap_or(0);
    assert_eq!(count, 1, "expected only 1 HTTP call due to rate-limit cache");
}

#[test]
fn test_multi_window_fetch() {
    let window = |id: &str, x: i32, ind: IndicatorDef| WindowDef {
        id: id.to_string(),
        x,
        y: 100,
        width: None,
        height: None,
        indicators: vec![ind],
        style: None,
    };
    let window_defs = vec![
        window("flight", 100, make_indicators()[0].clone()),
        window("engine", 400, make_indicators()[1].clone()),
    ];
    let mut client = Client::with_windows(
        fixture("/state", state_fixture()),
        "http://localhost:8111".to_string(),
        make_fields(),
        window_defs,
        String::new(),
        String::new(),
    );
    let windows = client.fetch_display_windows();
    assert_eq!(windows.len(), 2);
    assert_eq!(windows[0].id, "flight");
    assert_eq!(windows[0].rows[0].label, "ALT");
    assert_eq!(windows[1].id, "engine");
    assert_eq!(windows[1].rows[0].label, "FUEL");
    assert_eq!((windows[0].width, windows[0].height), (240, 56));
}

#[test]
fn test_format_time() {
    assert_eq!(format_value(n(0.0), "time"), "0:00");
    assert_eq!(format_value(n(59.0), "time"), "0:59");
    assert_eq!(format_value(n(60.0), "time"), "1:00");
    assert_eq!(format_value(n(90.0), "time"), "1:30");
    assert_eq!(format_value(n(3599.0), "time"), "59:59");
    assert_eq!(format_value(n(3600.0), "time"), "1:00:00");
    assert_eq!(format_value(n(3661.0), "time"), "1:01:01");
    assert_eq!(format_value(n(-1.0), "time"), "--:--");
    assert_eq!(format_value(n(f64::INFINITY), "time"), "--:--");
}

#[test]
fn test_named_flaps_a2d() {
    let rec = FmRecord {
        combat_flaps_ratio: Some(n(0.21)),
        combatflaps_crit_speed: Some(n(420.0)),
        takeoff_flaps_ratio: Some(n(0.33)),
        takeoffflaps_crit_speed: Some(n(351.0)),
        landing_flaps_ratio: Some(n(1.0)),
        landingflaps_crit_speed: Some(n(301.0)),
        ..Default::default()
    };
    let at = |p: f64| compute_named_flaps_current(n(p), &rec).map(f);
    assert_eq!(at(0.0), None);
    assert_eq!(at(10.0), Some(420.0));
    assert_eq!(at(21.0), Some(420.0));
    assert_eq!(at(25.0), Some(351.0));
    assert_eq!(at(33.0), Some(351.0));
    assert_eq!(at(50.0), Some(301.0));
    assert_eq!(at(100.0), Some(301.0));
}

#[test]
fn test_named_flaps_a10a_no_combat() {
    let rec = FmRecord {
        combat_flaps_ratio: None,
        combatflaps_crit_speed: None,
        takeoff_flaps_ratio: Some(n(0.33)),
        takeoffflaps_crit_speed: Some(n(740.0)),
        landing_flaps_ratio: Some(n(1.0)),
        landingflaps_crit_speed: Some(n(370.4)),
        ..Default::default()
    };
    let at = |p: f64| compute_named_flaps_current(n(p), &rec).map(f);
    assert_eq!(at(0.0), None);
    assert_eq!(at(10.0), Some(740.0));
    assert_eq!(at(33.0), Some(740.0));
    assert_eq!(at(50.0), Some(370.4));
    assert_eq!(at(100.0), Some(370.4));
}

#[test]
fn test_named_flaps_a20g_no_takeoff() {
    let rec = FmRecord {
        combat_flaps_ratio: Some(n(0.1)),
        combatflaps_crit_speed: Some(n(445.0)),
        takeoff_flaps_ratio: None,
        takeoffflaps_crit_speed: None,
        landing_flaps_ratio: Some(n(1.0)),
        landingflaps_crit_speed: Some(n(296.0)),
        ..Default::default()
    };
    let at = |p: f64| compute_named_flaps_current(n(p), &rec).map(f);
    assert_eq!(at(0.0), None);
    assert_eq!(at(5.0), Some(445.0));
    assert_eq!(at(10.0), Some(445.0));
    assert_eq!(at(20.0), Some(296.0));
    assert_eq!(at(100.0), Some(296.0));
}

#[test]
fn test_named_flaps_no_data() {
    let rec = FmRecord::default();
    assert_eq!(compute_named_flaps_current(n(50.0), &rec), None);
    assert_eq!(compute_named_flaps_current(n(0.0), &rec), None);
    // takeoff flaps alone give no limit
    let takeoff = FmRecord {
        takeoff_flaps_ratio: Some(n(0.33)),
        takeoffflaps_crit_speed: Some(n(351.0)),
        ..FmRecord::default()
    };
    assert_eq!(compute_named_flaps_current(n(20.0), &takeoff), None);
}

#[test]
fn test_sep_first_call_equals_vy() {
    let mut state = DerivedState::new();
    let mut fr = frame(&[("vy_ms", 7.0), ("tas_kmh", 360.0)]);
    inject_derived_fields(&mut fr, &mut state, 5 * S);
    assert_eq!(get(&fr, "sep"), Some(7.0));
}

#[test]
fn test_sep_zero_accel_equals_vy() {
    let mut state = DerivedState::new();
    let t0 = 7 * S;
    for i in 0..4u64 {
        let mut fr = frame(&[("vy_ms", 5.0), ("tas_kmh", 360.0)]);
        inject_derived_fields(&mut fr, &mut state, t0 + 170 * i * MS);
    }
    let mut last = frame(&[("vy_ms", 5.0), ("tas_kmh", 360.0)]);
    inject_derived_fields(&mut last, &mut state, t0 + 680 * MS);
    let sep = get(&last, "sep").unwrap();
    assert!((sep - 5.0).abs() < 0.5, "expected sep≈5.0, got {sep}");
}

#[test]
fn test_sep_positive_accel() {
    let mut state = DerivedState::new();
    let t0 = 3 * S;
    let accel_ms2 = 10.0_f64;
    let v0_ms = 200.0_f64;
    for i in 0..5u64 {
        let dt_s = 0.17 * i as f64;
        let tas_ms = v0_ms + accel_ms2 * dt_s;
        let mut fr = frame(&[("vy_ms", 0.0), ("tas_kmh", tas_ms * 3.6)]);
        inject_derived_fields(&mut fr, &mut state, t0 + 170 * i * MS);
    }
    let dt_s = 0.17 * 5.0_f64;
    let tas_ms_final = v0_ms + accel_ms2 * dt_s;
    let mut last = frame(&[("vy_ms", 0.0), ("tas_kmh", tas_ms_final * 3.6)]);
    inject_derived_fields(&mut last, &mut state, t0 + 850 * MS);
    let sep = get(&last, "sep").unwrap();
    let expected = tas_ms_final / 9.81 * accel_ms2;
    assert!((sep - expected).abs() < 5.0, "expected sep≈{expected:.1}, got {sep:.1}");
}

#[test]
fn test_sep_clamp() {
    let mut state = DerivedState::new();
    let t0 = S;
    let mut f0 = frame(&[("vy_ms", 0.0), ("tas_kmh", 360.0)]);
    inject_derived_fields(&mut f0, &mut state, t0);
    let mut f1 = frame(&[("vy_ms", 0.0), ("tas_kmh", 36000.0)]);
    inject_derived_fields(&mut f1, &mut state, t0 + 200 * MS);
    let sep = get(&f1, "sep").unwrap();
    assert!(sep <= 300.0 && sep >= -300.0, "sep out of clamp range: {sep}");
    assert_eq!(sep, 300.0);
}

#[test]
fn sep_is_within_its_limits_on_every_path() {
    let sep = |vy: f64, tas: f64| {
        let mut fr = frame(&[("vy_ms", vy), ("tas_kmh", tas)]);
        inject_derived_fields(&mut fr, &mut DerivedState::new(), S);
        get(&fr, "sep").unwrap()
    };
    assert_eq!(sep(500.0, 360.0), 300.0);
    assert_eq!(sep(-500.0, 360.0), -300.0);
    assert_eq!(sep(12.5, 0.0), 12.5);
    // a speed that leaps to the largest number and back
    let mut state = DerivedState::new();
    for (i, tas) in [f64::MAX, 360.0, f64::MAX, 0.0].iter().enumerate() {
        let mut fr = frame(&[("vy_ms", -1000.0), ("tas_kmh", *tas)]);
        inject_derived_fields(&mut fr, &mut state, S + 200 * i as u64 * MS);
        let got = get(&fr, "sep").unwrap();
        assert!((-300.0..=300.0).contains(&got), "{got}");
    }
}

#[test]
fn rows_of_two_lists_are_joined() {
    let fr = frame(&[("a", 1.0), ("b", 2.0)]);
    let texts = StringFrame::new();
    let ind = |formula: &str| indicator("i", formula, "", formula, "integer");
    let rows = |list: &[&str]| -> Vec<String> {
        let inds = list.iter().map(|t| ind(t)).collect();
        Calculator::new(inds).evaluate(&fr, &texts).into_iter().map(|r| r.value_str).collect()
    };
    let (first, second) = (["a", "(", "b"], ["missing", "a + b"]);
    let mut joined = rows(&first);
    joined.extend(rows(&second));
    let both: Vec<&str> = first.iter().chain(&second).copied().collect();
    assert_eq!(rows(&both), joined);
    assert_eq!(joined, ["1", "2", "3"]);
    // a text that is no expression has no row, whatever else is in it
    assert!(rows(&["2 ^ ("]).is_empty());
}

#[test]
fn test_sep_thrust_computed() {
    let mut state = DerivedState::new();
    let mut fr = frame(&[
        ("vy_ms", 0.0),
        ("tas_kmh", 720.0),
        ("thrust_1_kgs", 5000.0),
        ("mfuel_kg", 2000.0),
        ("fm_empty_mass_kg", 8000.0),
    ]);
    inject_derived_fields(&mut fr, &mut state, S);
    let sep_thrust = get(&fr, "sep_thrust").unwrap();
    let expected = 5000.0_f64 * 200.0 / 10000.0;
    assert!((sep_thrust - expected).abs() < 0.01, "expected {expected}, got {sep_thrust}");
}

#[test]
fn test_sep_thrust_absent_without_mass() {
    let mut state = DerivedState::new();
    let mut fr = frame(&[
        ("vy_ms", 0.0),
        ("tas_kmh", 720.0),
        ("thrust_1_kgs", 5000.0),
        ("mfuel_kg", 2000.0),
    ]);
    inject_derived_fields(&mut fr, &mut state, S);
    assert!(
        get(&fr, "sep_thrust").is_none(),
        "sep_thrust should be absent without fm_empty_mass_kg"
    );
}

#[test]
fn test_crit_g_pos_matches_wtrti() {
    let mut state = DerivedState::new();
    let mut fr = frame(&[
        ("vy_ms", 0.0),
        ("tas_kmh", 720.0),
        ("fm_empty_mass_kg", 13190.0),
        ("mfuel_kg", 5768.271973),
        ("fm_crit_wing_overload_pos", 1.105e6),
    ]);
    inject_derived_fields(&mut fr, &mut state, S);
    let crit_g = get(&fr, "crit_g_pos").expect("crit_g_pos should be present");
    let expected = 2.0 * 1.105e6_f64 / ((13190.0 + 5768.271973) * 9.81);
    assert!((crit_g - expected).abs() < 0.001, "expected {expected:.4}, got {crit_g:.4}");
    assert_eq!(crit_g, expected);
    assert!(crit_g > 11.0 && crit_g < 13.0, "crit_g_pos out of expected range: {crit_g}");
}

#[test]
fn test_crit_g_pos_absent_without_overload() {
    let mut state = DerivedState::new();
    let mut fr = frame(&[
        ("vy_ms", 0.0),
        ("tas_kmh", 720.0),
        ("fm_empty_mass_kg", 13190.0),
        ("mfuel_kg", 5768.0),
    ]);
    inject_derived_fields(&mut fr, &mut state, S);
    assert!(
        get(&fr, "crit_g_pos").is_none(),
        "crit_g_pos should be absent without fm_crit_wing_overload_pos"
    );
}

fn fuel_frame(kg: f64) -> RawFrame {
    frame(&[("vy_ms", 0.0), ("tas_kmh", 400.0), ("mfuel_kg", kg)])
}

#[test]
fn test_fuel_consume_calc_basic() {
    let t0 = 9 * S;
    let mut state = DerivedState::new();
    let mut f0 = fuel_frame(500.0);
    inject_derived_fields(&mut f0, &mut state, t0);
    assert!(get(&f0, "fuel_consume_calc").is_none());
    let mut f1 = fuel_frame(499.0);
    inject_derived_fields(&mut f1, &mut state, t0 + S);
    let rate = get(&f1, "fuel_consume_calc").expect("fuel_consume_calc should be present");
    assert!((rate - 3600.0).abs() < 1.0, "expected ~3600 kg/h, got {rate}");
}

#[test]
fn test_fuel_consume_calc_absent_when_native_present() {
    let t0 = S;
    let mut state = DerivedState::new();
    let mut f0 = fuel_frame(500.0);
    f0.insert("fuel_consume".to_string(), n(250.0));
    inject_derived_fields(&mut f0, &mut state, t0);
    let mut f1 = fuel_frame(499.0);
    f1.insert("fuel_consume".to_string(), n(250.0));
    inject_derived_fields(&mut f1, &mut state, t0 + S);
    assert!(
        get(&f1, "fuel_consume_calc").is_none(),
        "should not emit calc when native present"
    );
    assert_eq!(get(&f1, "fuel_flow"), Some(250.0));
}

#[test]
fn test_fuel_consume_calc_resets_on_refuel() {
    let t0 = S;
    let mut state = DerivedState::new();
    let mut f0 = fuel_frame(500.0);
    inject_derived_fields(&mut f0, &mut state, t0);
    let mut f1 = fuel_frame(499.0);
    inject_derived_fields(&mut f1, &mut state, t0 + S);
    assert!(get(&f1, "fuel_consume_calc").is_some());
    let mut f2 = fuel_frame(600.0);
    inject_derived_fields(&mut f2, &mut state, t0 + 2 * S);
    assert!(get(&f2, "fuel_consume_calc").is_none(), "should reset EMA on refuel");
}

#[test]
fn fuel_flow_is_smoothed() {
    let mut state = DerivedState::new();
    for (i, kg) in [500.0, 499.0, 497.0].iter().enumerate() {
        let mut fr = fuel_frame(*kg);
        inject_derived_fields(&mut fr, &mut state, S * (i as u64 + 1));
        if i == 2 {
            // 3600, then 3600 + 0.25 * (7200 - 3600)
            assert_eq!(get(&fr, "fuel_flow"), Some(4500.0));
            assert_eq!(get(&fr, "fuel_consume_calc"), Some(4500.0));
        }
    }
}

#[test]
fn samples_are_pruned_by_number_and_age() {
    let mut state = DerivedState::new();
    for i in 0..20u64 {
        let mut fr = frame(&[("vy_ms", 0.0), ("tas_kmh", 300.0 + i as f64)]);
        inject_derived_fields(&mut fr, &mut state, S + i * 10 * MS);
    }
    assert_eq!(state.tas_history.len(), 8);
    let mut fr = frame(&[("vy_ms", 0.0), ("tas_kmh", 900.0)]);
    inject_derived_fields(&mut fr, &mut state, 60 * S);
    assert_eq!(state.tas_history.len(), 1);
    // the same speed is no new sample
    inject_derived_fields(&mut fr, &mut state, 61 * S);
    assert_eq!(state.tas_history.len(), 1);
}

/// The regression, written out with hardware arithmetic.
fn plain_sep(samples: &[(u64, f64)], vy: f64, now: u64) -> f64 {
    let t0 = samples[0].0;
    let secs = |ns: u64| std::time::Duration::from_nanos(ns).as_secs_f64();
    if samples.len() < 2 || secs(now - t0) < 0.05 {
        return vy;
    }
    let count = samples.len() as f64;
    let (mut st, mut sv, mut stt, mut stv) = (0.0_f64, 0.0_f64, 0.0_f64, 0.0_f64);
    for (t, v) in samples {
        let t = secs(t - t0);
        st += t;
        sv += v;
        stt += t * t;
        stv += t * v;
    }
    let denom = count * stt - st * st;
    if denom.abs() <= 1e-12 {
        return vy;
    }
    let a = (count * stv - st * sv) / denom;
    let speed = samples[samples.len() - 1].1;
    (vy + (speed / 9.81) * a).clamp(-300.0, 300.0)
}

#[test]
fn sep_agrees_with_hardware_to_the_bit() {
    let mut state = DerivedState::new();
    let mut samples: Vec<(u64, f64)> = Vec::new();
    for i in 0..6u64 {
        let now = S + i * 171 * MS + i * i * 1234;
        let kmh = 512.0 + 3.7 * i as f64 - 0.4 * (i * i) as f64;
        samples.push((now, kmh / 3.6));
        let vy = 1.0 / (i as f64 + 3.0);
        let mut fr = frame(&[("vy_ms", vy), ("tas_kmh", kmh)]);
        inject_derived_fields(&mut fr, &mut state, now);
        assert_eq!(get(&fr, "sep"), Some(plain_sep(&samples, vy, now)));
    }
}

#[test]
fn the_vehicle_brings_its_limits() {
    let mut data = String::from("header\n");
    data.push_str("a2d;1;2;3;5000;1500;800;0.75;350;20;33;0,500,1,301,0.21,420,0.33,351;-100,200000;1;800,2700,2900;x;y;15,-10\n");
    let fields = vec![
        FieldDef {
            id: "flaps_pct".to_string(),
            endpoint: "/indicators".to_string(),
            api_key: "flaps".to_string(),
            label: String::new(),
            unit: String::new(),
            field_type: "f64".to_string(),
        },
    ];
    let http = fixture("/indicators", r#"{"type": "a2d", "flaps": 25}"#);
    let mut client = Client::with_windows(
        http,
        "http://localhost:8111/".to_string(),
        fields,
        vec![],
        "/etc/byoh".to_string(),
        "/var/fm".to_string(),
    );
    assert_eq!(client.reload_fm_db(Some(&data), None, Some(" v1.2.3 \n")), "v1.2.3");
    let (fr, texts) = client.fetch_raw();
    assert_eq!(get(&fr, "fm_loaded"), Some(1.0));
    assert_eq!(get(&fr, "fm_crit_ias"), Some(800.0));
    assert_eq!(get(&fr, "fm_crit_flaps_current"), Some(351.0));
    assert_eq!(texts.get("vehicle_name").map(|s| s.as_str()), Some("a2d"));
    assert_eq!(texts.get("fm_name").map(|s| s.as_str()), Some("a2d"));
    assert_eq!(texts.get("config_dir").map(|s| s.as_str()), Some("/etc/byoh"));
    assert_eq!(texts.get("fm_dir").map(|s| s.as_str()), Some("/var/fm"));

    client.reload_fm_db(None, None, None);
    assert_eq!((client.config_dir.as_str(), client.fm_dir.as_str()), ("/etc/byoh", "/var/fm"));
    let (fr, texts) = client.fetch_raw();
    assert_eq!(get(&fr, "fm_loaded"), Some(0.0));
    assert_eq!(texts.get("fm_name").map(|s| s.as_str()), Some("(none)"));
}

#[test]
fn unknown_names_hide_their_rows() {
    let texts = StringFrame::new();
    let with = |pairs: &[(&str, f64)]| {
        let mut ind = indicator("i", "L", "", "a", "integer");
        ind.show_when = Some("b".to_string());
        Calculator::new(vec![ind]).evaluate(&frame(pairs), &texts).len()
    };
    assert_eq!(with(&[("a", 1.0), ("b", 1.0)]), 1);
    assert_eq!(with(&[("a", 1.0), ("b", 0.0)]), 0);
    assert_eq!(with(&[("a", 1.0)]), 0);
    assert_eq!(with(&[("b", 1.0)]), 0);
}
