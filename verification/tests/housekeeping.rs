use byoh_core::defs::{default_format, AppConfig};
use byoh_core::fm::load_fm_db;
use byoh_core::install::{download_fm_data, download_progress, extract_progress, install_fm_update, install_result, is_stale_backup, wants_backup};
use byoh_core::num::Num;
use byoh_core::paths::{check_setup_needs, config_candidates, config_dir, find_config, fm_dir, fm_root_dir, seeds_from_example, set_config_dir, set_fm_root, Exe, Overrides, Place, Platform, SetupNeeds, Surroundings};
use byoh_core::platform::{click_through_style, is_process_of_game, is_warthunder_foreground, is_warthunder_image, is_warthunder_name, needs_process_names, unlisted_style};
use byoh_core::progress::InstallRun;
use byoh_core::settings::{config_dir_line, FmStatus, SettingsClick, SettingsEffect, SettingsState, SettingsTab, UpdateLine};
use byoh_core::setup::{ConfigSection, DownloadStatus, FmSection, SetupClick, SetupEffect, SetupWizard};
use byoh_core::single::Px;
use std::io::Write;

fn archive(entries: &[(&str, &[u8])]) -> Vec<u8> {
    let mut w = zip::ZipWriter::new(std::io::Cursor::new(Vec::new()));
    let opts = zip::write::SimpleFileOptions::default();
    for (name, data) in entries {
        if name.ends_with('/') {
            w.add_directory(*name, opts).unwrap();
        } else {
            w.start_file(*name, opts).unwrap();
            w.write_all(data).unwrap();
        }
    }
    w.finish().unwrap().into_inner()
}

#[test]
fn archives_are_installed_inside_their_directory() {
    let bytes = archive(&[
        ("fm/", b""),
        ("./fm/fm_data_db.csv", b"data"),
        ("../evil", b"x"),
        ("/abs", b"x"),
        ("version_tag", b"v1"),
    ]);
    let plan = install_fm_update(&bytes).unwrap();
    assert_eq!(plan.total, 5);
    let steps = plan.steps;
    let seen: Vec<_> = steps.iter().map(|s| (s.index, s.path.as_str(), s.directory)).collect();
    assert_eq!(seen, [(0, "fm/", true), (1, "fm/fm_data_db.csv", false), (4, "version_tag", false)]);
    assert_eq!(steps[1].data.as_deref(), Some(&b"data"[..]));
    assert!(steps[0].data.is_none());
    assert!(plan.unopened.is_empty());
    assert!(install_fm_update(&b"nonsense".to_vec()).is_err());
}

#[test]
fn an_installation_fails_with_its_first_fault() {
    let fault = |m: &str| Some(m.to_string());
    assert_eq!(install_result("v2", &vec![]), Ok("v2".to_string()));
    assert_eq!(install_result("v2", &vec![None, None]), Ok("v2".to_string()));
    assert_eq!(install_result("v2", &vec![None, fault("a"), fault("b")]), Err("a".to_string()));
}

#[test]
fn progress_is_complete_exactly_where_nothing_went_wrong() {
    let f = |p: Option<Px>| p.map(|p| f32::from_bits(p.bits));
    for fails in [false, true] {
        let (mut run, first) = InstallRun::begin("v2".to_string());
        let mut ps = vec![f32::from_bits(first.bits)];
        run.set_length(100);
        run.set_length(7);
        ps.extend(f(run.received(40)));
        ps.extend(f(run.received(60)));
        assert_eq!(f(run.written(0)), None);
        ps.extend(f(run.downloaded()));
        assert_eq!(f(run.downloaded()), None);
        assert_eq!(f(run.received(1)), None);
        run.set_total(3);
        run.note(None);
        ps.extend(f(run.written(0)));
        if fails {
            run.note(Some("disk full".to_string()));
            run.note(Some("late".to_string()));
        }
        ps.extend(f(run.written(2)));
        assert_eq!(f(run.written(1)), None);
        let (last, result) = run.finish();
        ps.extend(f(last));
        let mut want = vec![0.0, (0.4f64 * 0.9) as f32, 0.89, 0.9, 0.9 + 1.0 / 3.0f32 * 0.1, 0.99];
        if fails {
            assert_eq!(result, Err("disk full".to_string()));
        } else {
            assert_eq!(result, Ok("v2".to_string()));
            want.push(1.0);
        }
        assert_eq!(ps, want);
    }
    let (mut run, _) = InstallRun::begin("v2".to_string());
    assert_eq!(f(run.received(5)), None);
}

#[test]
fn window_styles_change_only_their_bits() {
    assert_eq!(click_through_style(0b1000, 0b0010, true), 0b1010);
    assert_eq!(click_through_style(0b1010, 0b0010, true), 0b1010);
    assert_eq!(click_through_style(0b1110, 0b0010, false), 0b1100);
    assert_eq!(unlisted_style(0b1100, 0b0001, 0b0100), 0b1001);
}

#[test]
fn first_downloads_pass_over_names_that_lead_out() {
    let bytes = archive(&[
        ("fm/", b""),
        ("../evil", b"x"),
        ("fm/a", b"1"),
        ("fm/../../b", b"x"),
        ("fm/../c", b"2"),
    ]);
    let plan = download_fm_data(&bytes).unwrap();
    let seen: Vec<_> = plan.steps.iter().map(|s| s.path.as_str()).collect();
    assert_eq!(seen, ["fm/", "fm/a", "fm/../c"]);
    assert_eq!(plan.failed, None);
    assert!(download_fm_data(&vec![1, 2, 3]).is_err());
}

#[test]
fn installations_report_their_progress() {
    let f = |p: Px| f32::from_bits(p.bits);
    assert_eq!(download_progress(5, 0), None);
    assert_eq!(f(download_progress(50, 100).unwrap()), (50f64 / 100f64 * 0.9) as f32);
    assert_eq!(f(download_progress(100, 100).unwrap()), 0.89);
    assert_eq!(f(extract_progress(0, 3)), 0.9 + (0.0f32 + 1.0) / 3.0 * 0.1);
    assert_eq!(f(extract_progress(2, 3)), 0.99);
    let shares = |of: u64| -> Vec<f32> {
        (0..=of + 2).map(|i| f(download_progress(i * i, of * of).unwrap())).collect()
    };
    for of in [1, 7, 1_000] {
        let d = shares(of);
        assert!(d.windows(2).all(|w| w[0] <= w[1]) && d.iter().all(|p| (0.0..0.9).contains(p)));
        let e: Vec<f32> = (0..of).map(|i| f(extract_progress(i, of))).collect();
        assert!(e.windows(2).all(|w| w[0] <= w[1]) && e.iter().all(|p| (0.9..1.0).contains(p)));
    }
    assert!(wants_backup("v1", true) && !wants_backup("", true) && !wants_backup("v1", false));
    assert!(is_stale_backup("v1.2.3") && !is_stale_backup("fm"));
}

fn n(x: f64) -> Option<Num> {
    Some(Num { bits: x.to_bits() })
}

#[test]
fn the_database_is_read_from_its_tables() {
    let data = "Name;...\r\n\
        a2d;1;2;3;5000;1500;800;0.75;350;20;33;0,500,1,301,0.21,420,0.33,351;-100,200000;2;800,2700,2900;x;y;15,-10\r\n\
        short;1;2\n\
        ;1;2;3;4;5;6;7;8;9;10;11;12;13;14;15;16;17\n\
        plain;1;2;3;;x;800;;350;0;0;;;;;;;\n\
        a20;1;2;3;1;1;1;1;1;20;33;0.1,445,1.0,296;;;;;;";
    let names = "Name;FmName\nunit;a2d;x\nplain;a2d\nother;missing\nsame;same\nchain;unit";
    let db = load_fm_db(Some(data), Some(names));
    let a = db.get("a2d").unwrap();
    assert_eq!(a.empty_mass_kg, n(5000.0));
    assert_eq!(a.max_fuel_kg, n(1500.0));
    assert_eq!(a.crit_mach, n(0.75));
    assert_eq!(a.crit_flaps_min_kmh, n(301.0));
    assert_eq!(a.crit_flaps_combat_kmh, n(420.0));
    assert_eq!((a.combat_flaps_ratio, a.combatflaps_crit_speed), (n(0.21), n(420.0)));
    assert_eq!((a.takeoff_flaps_ratio, a.takeoffflaps_crit_speed), (n(0.33), n(351.0)));
    assert_eq!((a.landing_flaps_ratio, a.landingflaps_crit_speed), (n(1.0), n(301.0)));
    assert_eq!((a.crit_wing_overload_neg, a.crit_wing_overload_pos), (n(-100.0), n(200000.0)));
    assert_eq!((a.rpm_normal, a.rpm_max), (n(2700.0), n(2900.0)));
    assert_eq!((a.crit_aoa_pos, a.crit_aoa_neg), (n(15.0), n(-10.0)));
    assert_eq!(a.num_engines, n(2.0));
    let p = db.get("plain").unwrap();
    assert_eq!(p.crit_ias_kmh, n(800.0));
    assert_eq!((p.max_fuel_kg, p.empty_mass_kg, p.landingflaps_crit_speed), (None, None, None));
    let g = db.get("a20").unwrap();
    assert_eq!((g.combat_flaps_ratio, g.takeoff_flaps_ratio), (n(0.1), None));
    assert_eq!(g.landingflaps_crit_speed, n(296.0));
    assert_eq!(db.get("unit").unwrap().crit_mach, n(0.75));
    assert_eq!(db.get("chain").unwrap().crit_mach, n(0.75));
    assert!(db.get("other").is_none() && db.get("same").is_none() && db.get("short").is_none());
    assert!(load_fm_db(None, Some(names)).is_empty());
    assert!(load_fm_db(Some(""), None).is_empty());
}

fn on(platform: Platform) -> Surroundings<String> {
    Surroundings {
        platform,
        xdg_config_home: None,
        home: Some("/home/u".to_string()),
        exe: Some(Exe { dir: Some("/opt/byoh".to_string()), in_target: false }),
    }
}

fn text(p: &Place<String>) -> String {
    let mut parts: Vec<&str> = Vec::new();
    if let Some(b) = p.base {
        parts.push(b);
    }
    for x in &p.names {
        parts.push(x);
    }
    parts.join("/")
}

#[test]
fn directories_by_platform() {
    let o: Overrides<String> = Overrides::new();
    let mut linux = on(Platform::Linux);
    assert_eq!(text(&config_dir(&o, &linux)), "/home/u/.config/warthunder-byoh");
    linux.xdg_config_home = Some("/xdg".to_string());
    let dir = config_dir(&o, &linux);
    assert_eq!(text(&dir), "/xdg/warthunder-byoh");
    assert!(dir.create);
    assert_eq!(text(&fm_root_dir(&o, &linux)), "/opt/byoh/fm");
    assert_eq!(text(&fm_dir(&o, &linux)), "/opt/byoh/fm/fm");
    let mac = on(Platform::MacOs);
    assert_eq!(
        text(&config_dir(&o, &mac)),
        "/home/u/Library/Application Support/warthunder-byoh"
    );
    assert_eq!(
        text(&fm_root_dir(&o, &mac)),
        "/home/u/Library/Application Support/warthunder-byoh"
    );
    let windows = on(Platform::Windows);
    assert_eq!(text(&config_dir(&o, &windows)), "/opt/byoh");
    let mut dev = on(Platform::Other);
    dev.exe = Some(Exe { dir: None, in_target: true });
    assert_eq!(text(&config_dir(&o, &dev)), ".");
    assert_eq!(text(&fm_dir(&o, &dev)), "data/fm/fm");
}

#[test]
fn the_first_override_counts() {
    let mut o: Overrides<String> = Overrides::new();
    set_config_dir(&mut o, "/one".to_string());
    set_config_dir(&mut o, "/two".to_string());
    set_fm_root(&mut o, "/fm1".to_string());
    set_fm_root(&mut o, "/fm2".to_string());
    let s = on(Platform::Linux);
    assert_eq!(text(&config_dir(&o, &s)), "/one");
    assert_eq!(text(&fm_dir(&o, &s)), "/fm1/fm");
    let all: Vec<String> = config_candidates(&o, &s, "x.json").iter().map(text).collect();
    assert_eq!(all, ["/one/x.json", "/opt/byoh/data/x.json", "/opt/byoh/x.json", "data/x.json"]);
    assert_eq!(find_config(&vec![false, true, true]), Some(1));
    assert_eq!(find_config(&vec![false]), None);
}

#[test]
fn setup_needs() {
    let needs = check_setup_needs(true, false, true);
    assert_eq!(needs, SetupNeeds { needs_fm: false, needs_config: true, has_example: true });
    assert!(needs.any());
    assert!(!check_setup_needs(true, true, false).any());
    assert!(seeds_from_example(false, false, true));
    assert!(!seeds_from_example(true, false, true));
    assert_eq!(default_format(), "integer");
}

#[test]
fn the_setup_runs_through() {
    let mut w = SetupWizard::new(check_setup_needs(false, false, true));
    assert!(!w.all_done());
    assert!(matches!(w.fm_section(), FmSection::Offer));
    assert_eq!(w.config_section(), ConfigSection::Offer);
    assert_eq!(w.click(SetupClick::Download), SetupEffect::StartDownload);
    assert_eq!(w.click(SetupClick::Download), SetupEffect::Nothing);
    assert!(matches!(w.fm_section(), FmSection::Busy));
    w.poll(DownloadStatus::Failed("no net".to_string()));
    match w.fm_section() {
        FmSection::Failed(m) => assert_eq!(m, "no net"),
        _ => panic!("a failure is shown"),
    }
    assert_eq!(w.click(SetupClick::Retry), SetupEffect::StartDownload);
    w.poll(DownloadStatus::Done);
    assert!(matches!(w.fm_section(), FmSection::Ready));
    assert_eq!(w.click(SetupClick::UseExample), SetupEffect::SeedConfig);
    w.seeded(false);
    assert!(!w.all_done());
    w.seeded(true);
    assert!(w.all_done());
    assert_eq!(w.click(SetupClick::Start), SetupEffect::Nothing);
    assert!(w.done && !w.exit_requested);
    w.click(SetupClick::Exit);
    assert!(w.exit_requested);
    let none = SetupWizard::new(check_setup_needs(true, false, false));
    assert!(none.all_done());
    assert_eq!(none.config_section(), ConfigSection::Ready);
    assert!(matches!(none.fm_section(), FmSection::Hidden));
}

#[test]
fn the_settings_window_says_what_is_installed() {
    let mut s = FmStatus { tag: String::new(), pending: None, progress: None };
    assert_eq!(s.line(), "FM database: Unknown");
    assert!(matches!(s.update_line(), UpdateLine::Nothing));
    s.pending = Some(("v2".to_string(), "http://x".to_string()));
    match s.update_line() {
        UpdateLine::Available(t) => assert_eq!(t, "FM update available: v2"),
        _ => panic!("there is an update"),
    }
    s.tag = "v1".to_string();
    match s.update_line() {
        UpdateLine::Available(t) => assert_eq!(t, "FM update available: v1 → v2"),
        _ => panic!("there is an update"),
    }
    s.note_progress(Px { bits: 0.456f32.to_bits() });
    match s.update_line() {
        UpdateLine::Installing(_, t) => assert_eq!(t, "Installing FM update... 45%"),
        _ => panic!("it is being installed"),
    }
    s.finish_install(Err("no".to_string()));
    assert!(s.pending.is_some() && s.progress.is_none());
    s.finish_install(Ok("v2".to_string()));
    assert_eq!(s.line(), "FM database: v2");
    assert!(s.pending.is_none());
    assert_eq!(config_dir_line("/c"), "Config dir:  /c");
}

#[test]
fn the_settings_window_does_what_is_clicked() {
    let mut s = SettingsState::new(AppConfig::default());
    let none = FmStatus { tag: "v1".to_string(), pending: None, progress: None };
    let offered = FmStatus {
        tag: "v1".to_string(),
        pending: Some(("v2".to_string(), "http://x".to_string())),
        progress: None,
    };
    assert_eq!(s.click(SettingsClick::Tab(SettingsTab::Settings), &none), SettingsEffect::Nothing);
    assert_eq!(s.active_tab, SettingsTab::Settings);
    match s.click(SettingsClick::AlwaysShow(true), &none) {
        SettingsEffect::Save(c) => assert!(c.always_show && !c.show_when_byoh_foreground),
        _ => panic!("settings are saved"),
    }
    assert_eq!(s.click(SettingsClick::Install, &none), SettingsEffect::Nothing);
    assert_eq!(s.click(SettingsClick::Install, &offered), SettingsEffect::Install);
    let busy = FmStatus { progress: Some(Px { bits: 0 }), ..offered };
    assert_eq!(s.click(SettingsClick::Install, &busy), SettingsEffect::Nothing);
    assert_eq!(s.click(SettingsClick::Reload, &none), SettingsEffect::Reload);
    s.latch_error(Some("bad".to_string()));
    s.latch_error(None);
    assert_eq!(s.displayed_error.as_deref(), Some("bad"));
    s.click(SettingsClick::DismissError, &none);
    assert_eq!(s.displayed_error, None);
    s.click(SettingsClick::About, &none);
    assert!(s.show_about);
    s.click(SettingsClick::CloseAbout, &none);
    assert!(!s.show_about);
    s.click(SettingsClick::Exit, &none);
    assert!(s.exit_requested);
}

#[test]
fn the_game_is_known_by_its_name() {
    assert!(is_warthunder_name("aces"));
    assert!(is_warthunder_name("ACES.exe"));
    assert!(is_warthunder_name("my-WarThunder-launcher"));
    assert!(!is_warthunder_name("acesulfame"));
    assert!(is_process_of_game(" aces\n"));
    assert!(is_warthunder_image("C:\\Games\\Aces.EXE"));
    assert!(!is_warthunder_image("aces.exe.bak"));
    let running = vec!["bash\n".to_string(), "aces\n".to_string()];
    let idle = vec!["bash\n".to_string()];
    assert!(!is_warthunder_foreground(false, true, Some(false), &running));
    assert!(is_warthunder_foreground(true, false, Some(false), &running));
    assert!(is_warthunder_foreground(false, true, None, &running));
    assert!(!is_warthunder_foreground(false, true, None, &idle));
    assert!(is_warthunder_foreground(false, false, None, &idle));
    assert!(needs_process_names(true, false, None));
    assert!(!needs_process_names(true, true, Some(true)));
    assert!(!needs_process_names(false, false, None));
}
