use byoh_core::build_version::{build_timestamp, build_version, SourceState};

#[test]
fn times_are_written_as_dates() {
    assert_eq!(build_timestamp(0), "19700101-000000");
    assert_eq!(build_timestamp(86_399), "19700101-235959");
    assert_eq!(build_timestamp(951_782_400), "20000229-000000");
    assert_eq!(build_timestamp(1_709_164_800), "20240229-000000");
    assert_eq!(build_timestamp(1_709_254_861), "20240301-010101");
    assert_eq!(build_timestamp(4_102_444_799), "20991231-235959");
    assert_eq!(build_timestamp(4_107_542_400), "21000301-000000");
}

#[test]
fn every_day_follows_the_one_before() {
    let (mut y, mut m, mut d) = (1970u64, 1u64, 1u64);
    for day in 0..200_000u64 {
        assert_eq!(build_timestamp(day * 86_400 + 43_200), format!("{y:04}{m:02}{d:02}-120000"));
        let leap = y % 4 == 0 && (y % 100 != 0 || y % 400 == 0);
        let length = match m {
            2 if leap => 29,
            2 => 28,
            4 | 6 | 9 | 11 => 30,
            _ => 31,
        };
        d += 1;
        if d > length {
            d = 1;
            m += 1;
        }
        if m > 12 {
            m = 1;
            y += 1;
        }
    }
}

fn state() -> SourceState {
    SourceState {
        given: None,
        tag: None,
        repository: true,
        commit: Some("abc1234\n".to_string()),
        changes: Some("\n".to_string()),
        branch: Some("main\n".to_string()),
    }
}

#[test]
fn versions_come_from_the_sources() {
    let text = |t: &str| Some(t.to_string());
    assert_eq!(build_version(&state(), 0), "abc1234");
    assert_eq!(build_version(&SourceState { changes: text(" M a"), ..state() }, 0), "abc1234+dirty");
    let s = SourceState { branch: text("fix"), changes: text("M a"), ..state() };
    assert_eq!(build_version(&s, 0), "fix-abc1234+dirty");
    assert_eq!(build_version(&SourceState { branch: text("HEAD"), ..state() }, 0), "abc1234");
    assert_eq!(build_version(&SourceState { branch: None, changes: None, ..state() }, 0), "abc1234");
    assert_eq!(build_version(&SourceState { tag: text("v1.0\n"), ..state() }, 0), "v1.0");
    let s = SourceState { given: text(" v2 "), tag: text("v1.0"), ..state() };
    assert_eq!(build_version(&s, 0), "v2");
    assert_eq!(build_version(&SourceState { given: text("  "), ..state() }, 0), "abc1234");
    assert_eq!(build_version(&SourceState { commit: text(""), ..state() }, 0), "19700101-000000");
    assert_eq!(build_version(&SourceState { repository: false, ..state() }, 60), "19700101-000100");
}
