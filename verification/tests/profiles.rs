use report_bot::profiles_lite::{Db, Profile};
use report_bot::speed::SpeedKey;

fn speed_key(f: f64) -> SpeedKey {
    let bits = f.to_bits() as i64;
    bits ^ ((((bits >> 63) as u64) >> 1) as i64)
}

/// An entry with every optional field at its default.
fn entry(exe_name: &str, status: &str) -> Profile {
    Profile {
        exe_name: exe_name.into(),
        steam_appid: 0,
        epic_catalog_item_id: String::new(),
        gog_product_id: 0,
        gdk_package_id: String::new(),
        status: status.into(),
        max_recommended_speed: speed_key(0.0),
        anti_cheat_detected: false,
        launch_argument: None,
    }
}

fn sample() -> Db {
    let mut blocked = entry("blocked.exe", "BLOCKED");
    blocked.anti_cheat_detected = true;
    let mut verified = entry("verified.exe", "VERIFIED");
    verified.steam_appid = 42;
    verified.max_recommended_speed = speed_key(3.0);
    let mut partial = entry("partial.exe", "PARTIAL");
    partial.max_recommended_speed = speed_key(2.0);
    Db::new(vec![blocked, verified, partial])
}

#[test]
fn blocked_by_exe_or_store_id() {
    let db = sample();
    assert!(db.lookup("", "", "blocked.exe").blocked);
    assert!(!db.lookup("", "", "unknown.exe").blocked);
}

#[test]
fn verified_only_through_a_non_blocked_match() {
    let db = sample();
    assert!(db.lookup("steam", "42", "anything.exe").verified);
    assert!(db.lookup("", "", "verified.exe").verified);
    assert!(!db.lookup("", "", "blocked.exe").verified);
}

#[test]
fn existing_ceiling_defaults_to_one_when_unknown() {
    let db = sample();
    assert_eq!(db.lookup("", "", "unknown.exe").existing_ceiling, speed_key(1.0));
    assert_eq!(db.lookup("", "", "partial.exe").existing_ceiling, speed_key(2.0));
}

#[test]
fn malformed_json_degrades_to_an_empty_catalogue_not_a_crash() {
    // A catalogue that could not be read is the empty one.
    let db = Db::default();
    let l = db.lookup("steam", "1", "a.exe");
    assert!(!l.blocked && !l.verified);
    assert_eq!(l.existing_ceiling, speed_key(1.0));
}

#[test]
fn a_store_id_is_read_as_the_number_it_spells() {
    let mut steam = entry("", "VERIFIED");
    steam.steam_appid = 42;
    let mut gog = entry("", "VERIFIED");
    gog.gog_product_id = 7;
    let db = Db::new(vec![steam, gog]);
    assert!(db.lookup("steam", "+42", "").verified);
    assert!(db.lookup("steam", "0042", "").verified);
    assert!(!db.lookup("steam", "42a", "").verified);
    assert!(!db.lookup("steam", "-42", "").verified);
    assert!(!db.lookup("steam", "18446744073709551658", "").verified);
    assert!(db.lookup("gog", "7", "").verified);
    assert!(!db.lookup("epic", "7", "").verified);
    assert!(!db.lookup("steam", "", "").verified);
}

#[test]
fn an_executable_matches_without_ascii_case() {
    let db = sample();
    assert!(db.lookup("", "", "PARTIAL.EXE").existing_ceiling == speed_key(2.0));
    assert!(db.lookup("", "", "Blocked.Exe").blocked);
    assert!(!db.lookup("", "", "").blocked);
}

#[test]
fn epic_and_microsoft_store_ids_match_as_written() {
    let mut epic = entry("", "VERIFIED");
    epic.epic_catalog_item_id = "abc".into();
    let mut gdk = entry("", "PARTIAL");
    gdk.gdk_package_id = "Pub.Title".into();
    gdk.max_recommended_speed = speed_key(4.0);
    let db = Db::new(vec![epic, gdk]);
    assert!(db.lookup("epic", "abc", "").verified);
    assert!(!db.lookup("epic", "ABC", "").verified);
    assert_eq!(db.lookup("gdk", "Pub.Title", "").existing_ceiling, speed_key(4.0));
    assert_eq!(db.lookup("gdk", "pub.title", "").existing_ceiling, speed_key(1.0));
}

#[test]
fn the_signed_option_is_the_first_unblocked_match_that_carries_one() {
    let mut blocked = entry("a.exe", "BLOCKED");
    blocked.launch_argument = Some("-blocked".into());
    let plain = entry("a.exe", "PARTIAL");
    let mut first = entry("a.exe", "PARTIAL");
    first.launch_argument = Some("-first".into());
    let mut second = entry("a.exe", "VERIFIED");
    second.launch_argument = Some("-second".into());
    let db = Db::new(vec![blocked, plain, first, second]);
    let l = db.lookup("", "", "a.exe");
    assert_eq!(l.signed_launch_argument.as_deref(), Some("-first"));
    assert!(l.blocked && l.verified);
    assert_eq!(db.lookup("", "", "b.exe").signed_launch_argument, None);
}

#[test]
fn a_ceiling_below_one_never_lowers_the_default() {
    let mut slow = entry("slow.exe", "PARTIAL");
    slow.max_recommended_speed = speed_key(0.5);
    let db = Db::new(vec![slow]);
    assert_eq!(db.lookup("", "", "slow.exe").existing_ceiling, speed_key(1.0));
}
