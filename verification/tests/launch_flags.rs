use report_bot::launch_flags::{clean_launch_argument, is_safe_launch_arg, MAX_LEN};

#[test]
fn a_switch_from_any_engine_is_accepted() {
    assert!(is_safe_launch_arg("-NoStartupMovies"));
    assert!(is_safe_launch_arg("-nologo"));
    assert!(is_safe_launch_arg("-skip_intro"));
    assert!(is_safe_launch_arg("--skip-intro"));
    assert!(is_safe_launch_arg("-intro=0"));
    assert!(is_safe_launch_arg(&format!("-{}", "a".repeat(MAX_LEN - 1))));
}

#[test]
fn anything_the_shell_would_read_as_a_command_is_refused() {
    assert!(!is_safe_launch_arg("-a b"));
    assert!(!is_safe_launch_arg("-a;b"));
    assert!(!is_safe_launch_arg("-a&b"));
    assert!(!is_safe_launch_arg("-a|b"));
    assert!(!is_safe_launch_arg("-a$(b)"));
    assert!(!is_safe_launch_arg("-a%b%"));
    assert!(!is_safe_launch_arg("-a^b"));
    assert!(!is_safe_launch_arg("-a\"b"));
    assert!(!is_safe_launch_arg("-a\nb"));
}

#[test]
fn anything_the_game_would_read_as_a_command_or_a_place_is_refused() {
    assert!(!is_safe_launch_arg("+quit"));
    assert!(!is_safe_launch_arg("+com_skipIntroVideo=1"));
    assert!(!is_safe_launch_arg("-ExecCmds=quit"));
    assert!(!is_safe_launch_arg("-log=../../x"));
    assert!(!is_safe_launch_arg("-exec=C:\\evil.exe"));
    assert!(!is_safe_launch_arg("/skipintro"));
    assert!(!is_safe_launch_arg("-connect=1.2.3.4:27015"));
    assert!(!is_safe_launch_arg("-a.b"));
    assert!(!is_safe_launch_arg("-intro="));
    assert!(!is_safe_launch_arg("-intro=1=2"));
    assert!(!is_safe_launch_arg("-intro=-1"));
}

#[test]
fn a_proposal_is_trimmed_or_dropped_never_repaired() {
    assert_eq!(clean_launch_argument("  -nologo "), Some("-nologo".into()));
    assert_eq!(clean_launch_argument("-a;calc"), None);
    assert_eq!(clean_launch_argument("-a calc"), None);
    assert_eq!(clean_launch_argument("   "), None);
}

#[test]
fn what_is_not_a_switch_is_refused() {
    assert!(!is_safe_launch_arg(""));
    assert!(!is_safe_launch_arg("nointro"));
    assert!(!is_safe_launch_arg("-"));
    assert!(!is_safe_launch_arg("--"));
    assert!(!is_safe_launch_arg("---x"));
    assert!(!is_safe_launch_arg("-1080p"));
    assert!(!is_safe_launch_arg("-=1"));
    assert!(!is_safe_launch_arg("-nologö"));
    assert!(!is_safe_launch_arg(&format!("-{}", "a".repeat(MAX_LEN))));
}

#[test]
fn a_cleaned_switch_cleans_to_itself() {
    let once = clean_launch_argument("\t--skip-intro=1\n").unwrap();
    assert_eq!(once, "--skip-intro=1");
    assert_eq!(clean_launch_argument(&once), Some(once.clone()));
    assert!(is_safe_launch_arg(&once));
    // The length limit counts the dashes too.
    assert!(is_safe_launch_arg(&format!("--{}", "a".repeat(MAX_LEN - 2))));
    assert!(!is_safe_launch_arg(&format!("--{}", "a".repeat(MAX_LEN - 1))));
}
