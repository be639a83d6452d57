use report_bot::report::{
    clean_diagnostic_tail, clean_notes, scrub, AudioPolicySeen, DurationBucket, SessionOutcome,
    SessionReport, StatusSeen, MAX_DIAGNOSTIC_CHARS, MAX_NOTES_CHARS,
};
use report_bot::speed::SpeedKey;

fn speed_key(f: f64) -> SpeedKey {
    let bits = f.to_bits() as i64;
    bits ^ ((((bits >> 63) as u64) >> 1) as i64)
}

fn sample() -> SessionReport {
    SessionReport {
        store: String::new(),
        store_id: String::new(),
        exe: "a.exe".into(),
        game_name: "A".into(),
        app_version: "0.1.0".into(),
        status_seen: StatusSeen::Unknown,
        factor_min: speed_key(1.0),
        factor_common: speed_key(1.0),
        factor_max: speed_key(1.0),
        codec_events: 0,
        cutscene_speed_applied: None,
        audio_policy: AudioPolicySeen::NoPolicy,
        outcome: SessionOutcome::CleanUnload,
        duration: DurationBucket::UnderFiveMin,
        notes: None,
        diagnostic_tail: None,
    }
}

#[test]
fn scrub_redacts_windows_and_linux_profile_segments() {
    assert_eq!(
        scrub(r"crash in C:\Users\Giovanni Bianchi\Documents\save.dat"),
        r"crash in C:\<redacted-path>\Documents\save.dat"
    );
    assert_eq!(
        scrub("/home/billy/projects/foo"),
        "/<redacted-path>/projects/foo"
    );
}

#[test]
fn scrub_leaves_ordinary_prose_untouched() {
    assert_eq!(
        scrub("Many Users play this slowly"),
        "Many Users play this slowly"
    );
}

#[test]
fn identity_key_prefers_store_over_exe() {
    let mut r = sample();
    r.store = "steam".into();
    r.store_id = "42".into();
    r.exe = "Foo.exe".into();
    assert_eq!(r.identity_key(), "steam:42");
    r.store.clear();
    r.store_id.clear();
    assert_eq!(r.identity_key(), "exe:Foo.exe");
}

#[test]
fn a_store_without_an_id_falls_back_to_the_executable() {
    let mut r = sample();
    r.store = "steam".into();
    assert_eq!(r.identity_key(), "exe:a.exe");
}

#[test]
fn scrub_only_redacts_a_whole_profile_segment() {
    // The word must open a segment and be followed by a separator.
    assert_eq!(scrub("C:\\USERS\\Bob\\x"), "C:\\<redacted-path>\\x");
    assert_eq!(scrub("/homes/x/y"), "/homes/x/y");
    assert_eq!(scrub("/home"), "/home");
    assert_eq!(scrub("/home/"), "/<redacted-path>");
    assert_eq!(scrub("a/home/b"), "a/<redacted-path>");
    assert_eq!(scrub("xhome/b/c"), "xhome/b/c");
    assert_eq!(scrub("home\\me\\and\\home\\you"), "<redacted-path>\\and\\<redacted-path>");
}

#[test]
fn a_free_text_field_is_trimmed_scrubbed_and_bounded() {
    assert_eq!(clean_notes("   "), None);
    assert_eq!(clean_notes(""), None);
    assert_eq!(
        clean_notes("  saved in /home/me/x  "),
        Some("saved in /<redacted-path>/x".into())
    );
    let long = "é".repeat(MAX_NOTES_CHARS + 7);
    let kept = clean_notes(&long).unwrap();
    assert_eq!(kept.chars().count(), MAX_NOTES_CHARS);
    let tail = "z".repeat(MAX_DIAGNOSTIC_CHARS + 1);
    assert_eq!(
        clean_diagnostic_tail(&tail).unwrap().len(),
        MAX_DIAGNOSTIC_CHARS
    );
    assert_eq!(clean_diagnostic_tail("\n\tok\n"), Some("ok".into()));
}

#[test]
fn scrubbing_twice_changes_nothing() {
    for text in [
        r"C:\Users\Bob\home\x\y",
        "/home/home/users/x/y",
        "/home//x",
        "users/a/home/b",
        "a /HOME/x",
    ] {
        let once = scrub(text);
        assert_eq!(scrub(&once), once, "{text:?}");
    }
    assert_eq!(scrub("/home/home/users/x/y"), "/<redacted-path>/<redacted-path>/y");
    let kept = clean_notes("  see /home/me/notes  ").unwrap();
    assert_eq!(scrub(&kept), kept);
}
