use report_bot::form::{
    SessionOutcome, FIELD_FACTOR_COMMON, FIELD_FACTOR_MAX, FIELD_FACTOR_MIN, FIELD_GAME_IDENTITY,
    FIELD_GAME_NAME, FIELD_LAUNCH_ARGUMENT, FIELD_NOTES, FIELD_SESSION_OUTCOME,
};
use report_bot::parse::{parse_issue_body, NO_RESPONSE};

fn body(fields: &[(&str, &str)]) -> String {
    fields
        .iter()
        .map(|(k, v)| format!("### {k}\n\n{v}\n\n"))
        .collect()
}

/// A factor field's text read as a finite number, else the default, as the
/// bot reads it before handing the report to the aggregation.
fn number(s: &Option<String>, default: f64) -> f64 {
    s.as_deref()
        .and_then(|s| s.trim().parse::<f64>().ok())
        .filter(|f| f.is_finite())
        .unwrap_or(default)
}

#[test]
fn reads_what_the_form_renders() {
    let r = parse_issue_body(&body(&[
        (FIELD_GAME_IDENTITY, "steam:1091500"),
        (FIELD_GAME_NAME, "Cyberpunk 2077"),
        (FIELD_FACTOR_MIN, "1.5"),
        (FIELD_FACTOR_COMMON, "2"),
        (FIELD_FACTOR_MAX, "3"),
        (FIELD_SESSION_OUTCOME, "clean_unload"),
        (FIELD_LAUNCH_ARGUMENT, "-NoStartupMovies"),
        (FIELD_NOTES, NO_RESPONSE),
    ]))
    .unwrap();
    assert_eq!(r.identity, "steam:1091500");
    assert_eq!(
        (r.store.as_str(), r.store_id.as_str()),
        ("steam", "1091500")
    );
    assert_eq!(r.game_name, "Cyberpunk 2077");
    assert_eq!(
        (
            number(&r.factor_min, 1.0),
            number(&r.factor_common, 1.0),
            number(&r.factor_max, 1.0)
        ),
        (1.5, 2.0, 3.0)
    );
    assert_eq!(r.outcome, SessionOutcome::CleanUnload);
    assert_eq!(r.launch_argument.as_deref(), Some("-NoStartupMovies"));
}

#[test]
fn a_report_that_names_no_title_the_form_could_write_is_none() {
    assert!(parse_issue_body("").is_none());
    assert!(parse_issue_body("garbage with no headings at all").is_none());
    assert!(parse_issue_body(&body(&[(FIELD_GAME_NAME, "Foo")])).is_none());
    for raw in [
        "itch:1",
        "local:x.exe",
        "steam:[approved](https://evil.example)",
        "exe:../x.exe",
    ] {
        assert!(
            parse_issue_body(&body(&[(FIELD_GAME_IDENTITY, raw)])).is_none(),
            "{raw}"
        );
    }
    let gdk = parse_issue_body(&body(&[(FIELD_GAME_IDENTITY, "gdk:Pub.Title")])).unwrap();
    assert_eq!(gdk.identity, "gdk:Pub.Title");
}

#[test]
fn a_malformed_value_degrades_and_never_counts_as_clean() {
    let r = parse_issue_body(&body(&[
        (FIELD_GAME_IDENTITY, "exe:Foo.exe"),
        (FIELD_FACTOR_MIN, "not-a-number"),
        (FIELD_SESSION_OUTCOME, "weird"),
    ]))
    .unwrap();
    assert_eq!(number(&r.factor_min, 1.0), 1.0);
    assert_eq!(r.outcome, SessionOutcome::CrashOrKill);
}

#[test]
fn a_launch_option_that_is_not_a_single_switch_is_dropped_not_repaired() {
    for attack in [
        "-a;calc",
        "-nologo & powershell -enc AAAA",
        "+exec autoexec.cfg",
        "-ExecCmds=quit",
        "[-nologo](https://evil.example)",
        "`-nologo`",
        "-a\u{202E}b",
        NO_RESPONSE,
    ] {
        let r = parse_issue_body(&body(&[
            (FIELD_GAME_IDENTITY, "exe:a.exe"),
            (FIELD_LAUNCH_ARGUMENT, attack),
        ]))
        .unwrap();
        assert_eq!(r.launch_argument, None, "{attack:?}");
        assert_eq!(r.exe, "a.exe", "the rest of the report still counts");
    }
}

#[test]
fn handles_crlf_and_a_trailing_heading_with_no_value() {
    let r = parse_issue_body("\r\n### game_identity\r\n\r\nexe:a.exe\r\n\r\n### notes\r\n")
        .unwrap();
    assert_eq!(r.exe, "a.exe");
}

#[test]
fn a_field_is_handed_over_as_written_and_an_empty_one_as_nothing_said() {
    let r = parse_issue_body(&body(&[
        (FIELD_GAME_IDENTITY, "exe:Foo.exe"),
        (FIELD_FACTOR_MIN, "  0.25  "),
        (FIELD_FACTOR_MAX, NO_RESPONSE),
    ]))
    .unwrap();
    assert_eq!(r.factor_min.as_deref(), Some("0.25"));
    assert_eq!(r.factor_common, None);
    assert_eq!(r.factor_max.as_deref(), Some(""));
    assert_eq!(r.game_name, "");
    assert_eq!(r.identity, "exe:Foo.exe");
    assert_eq!((r.store.as_str(), r.store_id.as_str()), ("", ""));
}

#[test]
fn the_first_heading_of_a_name_is_the_one_read() {
    let text = format!(
        "{}{}",
        body(&[(FIELD_GAME_IDENTITY, "exe:First.exe")]),
        body(&[(FIELD_GAME_IDENTITY, "exe:Second.exe")])
    );
    let r = parse_issue_body(&text).unwrap();
    assert_eq!(r.exe, "First.exe");
    let spaced = parse_issue_body("### game_identity\n\n  steam:7  \n").unwrap();
    assert_eq!(spaced.identity, "steam:7");
}
