use byoh_core::catalog::{collect_fields, default_label, infer_unit, key_to_id, merge_fields, FieldEntry};
use byoh_core::fm_update::{check_and_update_fm, check_fm_update_available, is_no_later, parse_quad, read_fm_version_tag, release_of};
use byoh_core::json::{parse_document, parse_json, poll_mission_running, strip_comments};

#[test]
fn parse_quad_strips_v_prefix() {
    assert_eq!(parse_quad("v2.55.1.88"), Some((2, 55, 1, 88)));
    assert_eq!(parse_quad("2.55.1.88"), Some((2, 55, 1, 88)));
}

#[test]
fn parse_quad_three_part() {
    assert_eq!(parse_quad("v1.2.3"), Some((1, 2, 3, 0)));
}

#[test]
fn parse_quad_comparison() {
    let old = parse_quad("v2.55.1.62").unwrap();
    let new = parse_quad("v2.55.1.88").unwrap();
    assert!(new > old);
    assert!(!is_no_later(new, old));
}

#[test]
fn parse_quad_equal() {
    let a = parse_quad("v2.55.1.88").unwrap();
    let b = parse_quad("v2.55.1.88").unwrap();
    assert!(b <= a);
    assert!(is_no_later(b, a));
}

#[test]
fn parse_quad_bad_input() {
    assert_eq!(parse_quad("not-a-version"), None);
    assert_eq!(parse_quad(""), None);
}

#[test]
fn parse_quad_two_parts_and_noise() {
    assert_eq!(parse_quad(" vv3.4 "), Some((3, 4, 0, 0)));
    assert_eq!(parse_quad("1.x.2.+3"), Some((1, 2, 3, 0)));
    assert_eq!(parse_quad("1.2.3.4.5"), None);
    assert_eq!(parse_quad("1.4294967296.2"), Some((1, 2, 0, 0)));
}

#[test]
fn version_order_is_that_of_tuples() {
    let all = [(0, 0, 0, 1), (0, 0, 1, 0), (1, 0, 0, 0), (1, 2, 3, 4), (1, 2, 4, 0), (1, 2, 3, 5)];
    for a in all {
        for b in all {
            assert_eq!(is_no_later(a, b), a <= b);
        }
    }
}

#[test]
fn test_key_to_id_simple() {
    assert_eq!(key_to_id("/state", "H, m"), "h_m");
    assert_eq!(key_to_id("/state", "TAS, km/h"), "tas_kmh");
    assert_eq!(key_to_id("/state", "throttle 1, %"), "throttle_1_pct");
    assert_eq!(key_to_id("/state", "Mfuel, kg"), "mfuel_kg");
    assert_eq!(key_to_id("/state", "RPM 1"), "rpm_1");
}

#[test]
fn ids_of_other_endpoints_begin_with_their_name() {
    assert_eq!(key_to_id("/indicators", "speed"), "indicators_speed");
    assert_eq!(key_to_id("/mission.json", "Status"), "mission_status");
    assert_eq!(key_to_id("//a/b", "__x..(y)__"), "x_y");
}

#[test]
fn test_infer_unit() {
    assert_eq!(infer_unit("H, m"), "m");
    assert_eq!(infer_unit("TAS, km/h"), "km/h");
    assert_eq!(infer_unit("throttle 1, %"), "%");
    assert_eq!(infer_unit("Mfuel, kg"), "kg");
}

#[test]
fn units_of_every_kind() {
    assert_eq!(infer_unit("Vy, m/s"), "m/s");
    assert_eq!(infer_unit("power 1, hp"), "hp");
    assert_eq!(infer_unit("oil, C"), "°C");
    assert_eq!(infer_unit("AoA, deg"), "°");
    assert_eq!(infer_unit("load, g"), "g");
    assert_eq!(infer_unit("speed, rpm"), "rpm");
    assert_eq!(infer_unit("valid"), "");
}

#[test]
fn labels_are_the_first_three_letters_in_capitals() {
    assert_eq!(default_label("altitude_m"), "ALT");
    assert_eq!(default_label("ias_kmh"), "IAS");
    assert_eq!(default_label("straße_1"), "STR");
    assert_eq!(default_label("aße_1"), "ASSE");
    assert_eq!(default_label("vy_ms"), "VY");
    assert_eq!(default_label("_x"), "");
}

#[test]
fn test_collect_fields() {
    let doc = parse_document(r#"{"H, m": 100.0, "valid": true, "name": "test"}"#).unwrap();
    let mut fields = Vec::new();
    collect_fields("/state", &doc, &mut fields);
    assert_eq!(fields.len(), 3);
    let ids: Vec<_> = fields.iter().map(|f| f.id.as_str()).collect();
    assert!(ids.contains(&"h_m"));
    assert!(ids.contains(&"valid"));
    assert!(ids.contains(&"name"));
}

#[test]
fn lists_objects_and_nothing_are_not_collected() {
    let doc = parse_document(r#"{"a": [1], "b": {}, "c": null}"#).unwrap();
    let mut fields = Vec::new();
    collect_fields("/state", &doc, &mut fields);
    assert!(fields.is_empty());
    let doc = parse_document("[1, 2]").unwrap();
    collect_fields("/state", &doc, &mut fields);
    assert!(fields.is_empty());
    assert!(parse_document("{").is_err());
}

fn entry(id: &str, endpoint: &str, key: &str, label: &str) -> FieldEntry {
    FieldEntry {
        id: id.to_string(),
        endpoint: endpoint.to_string(),
        api_key: key.to_string(),
        label: label.to_string(),
        unit: "u".to_string(),
        field_type: "f64".to_string(),
    }
}

#[test]
fn merging_keeps_edits_and_sorts() {
    let known = vec![entry("b", "/state", "old", "MINE"), entry("gone", "/zzz", "k", "G")];
    let mut found = vec![entry("a", "/state", "z", "A"), entry("b", "/indicators", "new", "AUTO")];
    found[1].field_type = "bool".to_string();
    let all = merge_fields(&known, &found);
    let order: Vec<_> = all.iter().map(|e| e.id.as_str()).collect();
    assert_eq!(order, ["b", "a", "gone"]);
    assert_eq!(all[0].label, "MINE");
    assert_eq!(all[0].api_key, "new");
    assert_eq!(all[0].field_type, "bool");
}

fn parsed(src: &str) -> serde_json::Value {
    serde_json::from_str(&strip_comments(src).expect("strip")).expect("parse")
}

#[test]
fn test_strip_jsonc_line_comment() {
    let src = r#"{ "a": 1 // comment
, "b": 2 }"#;
    let v = parsed(src);
    assert_eq!(v["a"], 1);
    assert_eq!(v["b"], 2);
}

#[test]
fn test_strip_jsonc_block_comment() {
    let v = parsed(r#"{ "a": /* ignore this */ 42 }"#);
    assert_eq!(v["a"], 42);
}

#[test]
fn test_strip_jsonc_preserves_url_in_string() {
    let v = parsed(r#"{ "url": "http://exmple.com" }"#);
    assert_eq!(v["url"], "http://exmple.com");
}

#[test]
fn comments_that_are_cut_short_are_errors() {
    assert!(strip_comments("{ /* never closed").is_err());
    assert!(strip_comments("{ \"never closed").is_err());
}

#[test]
fn the_mission_is_running_only_when_it_says_so() {
    assert!(poll_mission_running(Some(r#"{"status": "running"}"#)));
    assert!(!poll_mission_running(Some(r#"{"status": "fail"}"#)));
    assert!(!poll_mission_running(Some(r#"{"status": 1}"#)));
    assert!(!poll_mission_running(Some("nonsense")));
    assert!(!poll_mission_running(None));
}

fn release(tag: &str) -> String {
    format!(
        r#"{{"tag_name": "{tag}", "assets": [
            {{"name": "readme.txt", "browser_download_url": "http://x/readme"}},
            {{"name": "fm.zip", "browser_download_url": "http://x/fm.zip"}},
            {{"name": "other.zip", "browser_download_url": "http://x/other.zip"}}]}}"#
    )
}

#[test]
fn only_later_releases_are_updates() {
    let update = check_fm_update_available(Some("v2.55.1.62\n"), Some(&release("v2.55.1.88")));
    assert_eq!(update, Some(("v2.55.1.88".to_string(), "http://x/fm.zip".to_string())));
    assert_eq!(check_fm_update_available(Some("v2.55.1.88"), Some(&release("v2.55.1.88"))), None);
    assert_eq!(check_fm_update_available(Some("v3.0"), Some(&release("v2.55.1.88"))), None);
    assert!(check_fm_update_available(None, Some(&release("v0.0.1"))).is_some());
    assert_eq!(check_fm_update_available(None, Some("{}")), None);
    assert_eq!(check_fm_update_available(None, Some("nonsense")), None);
    assert_eq!(check_fm_update_available(None, None), None);
}

#[test]
fn releases_are_read_from_their_members() {
    let read = |text: &str| release_of(&parse_json(text).unwrap());
    let r = read(&release("v1"));
    assert_eq!(r.tag.as_deref(), Some("v1"));
    let assets = r.assets.unwrap();
    assert_eq!(assets.len(), 3);
    assert_eq!(assets[1].0.as_deref(), Some("fm.zip"));
    assert_eq!(assets[1].1.as_deref(), Some("http://x/fm.zip"));
    let odd = read(r#"{"tag_name": 7, "assets": [1, {"name": "a.zip"}, {"name": null}]}"#);
    assert_eq!(odd.tag, None);
    assert_eq!(odd.assets.unwrap(), [(None, None), (Some("a.zip".to_string()), None), (None, None)]);
    assert!(read(r#"{"assets": {}}"#).assets.is_none());
    assert!(read("[]").tag.is_none());
    // the last of two members counts
    assert_eq!(read(r#"{"tag_name": "a", "tag_name": "b"}"#).tag.as_deref(), Some("b"));
    assert!(parse_json("{").is_err());
}

#[test]
fn the_release_after_an_update() {
    let local = || "v1.0".to_string();
    assert_eq!(check_and_update_fm(local(), None), "v1.0");
    assert_eq!(check_and_update_fm(local(), Some(Err("no".to_string()))), "v1.0");
    assert_eq!(check_and_update_fm(local(), Some(Ok("v2.0".to_string()))), "v2.0");
    assert_eq!(read_fm_version_tag(Some("  \n")), None);
}
