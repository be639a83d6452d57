use report_bot::aggregate::LaunchArgumentProposal;
use report_bot::review::{inert, is_format, launch_arg_line, MAX_SHOWN};

#[test]
fn a_reporter_s_text_reaches_the_pull_request_inert() {
    // A link, an image, a mention and a heading stay literal inside a code span.
    assert_eq!(
        inert("[approved by maintainer](https://evil.example)"),
        "`[approved by maintainer](https://evil.example)`"
    );
    // Nothing can close the span early, start a new line or turn the text around.
    assert_eq!(inert("a`[x](y)`b"), "`a[x](y)b`");
    assert_eq!(
        inert("Game\n## Signed by the maintainer"),
        "`Game## Signed by the maintainer`"
    );
    assert_eq!(inert("\u{202E}exe.gnp"), "`exe.gnp`");
    assert_eq!(inert("a\u{200B}b"), "`ab`");
    // Bounded, and never empty.
    assert_eq!(inert(&"x".repeat(500)).len(), MAX_SHOWN + 2);
    assert_eq!(inert(" \u{200B} "), "`(unnamed)`");
    // Positive control: an ordinary name is shown as it is.
    assert_eq!(inert("Cyberpunk 2077"), "`Cyberpunk 2077`");
}

#[test]
fn a_launch_option_line_shows_every_reporter_value_inert() {
    let p = LaunchArgumentProposal {
        identity: "steam:42".into(),
        game_name: "[Signed](https://evil.example) @maintainer".into(),
        launch_argument: "-nologo".into(),
        reporter_count: 12,
        signed: None,
    };
    assert_eq!(
        launch_arg_line(&p),
        "- `[Signed](https://evil.example) @maintainer` (`steam:42`) — 12 reporters \
         propose `-nologo`; signed today: none\n"
    );
    let p = LaunchArgumentProposal {
        signed: Some("-skipintro".into()),
        ..p
    };
    assert!(launch_arg_line(&p).ends_with("signed today: `-skipintro`\n"));
}

#[test]
fn the_bound_is_taken_before_the_trim() {
    // 64 characters are kept, then the trailing spaces among them go.
    let text = format!("{}{}", "y".repeat(60), " ".repeat(10));
    assert_eq!(inert(&text), format!("`{}`", "y".repeat(60)));
    // Characters taken out do not count toward the bound.
    let hidden = format!("{}{}", "\u{200B}".repeat(100), "z".repeat(3));
    assert_eq!(inert(&hidden), "`zzz`");
    assert_eq!(inert(""), "`(unnamed)`");
}

#[test]
fn only_the_listed_invisible_characters_are_format_characters() {
    for c in ['\u{AD}', '\u{61C}', '\u{180E}', '\u{200B}', '\u{200F}', '\u{202A}', '\u{202E}',
              '\u{2060}', '\u{2064}', '\u{2066}', '\u{206F}', '\u{FEFF}'] {
        assert!(is_format(c), "{c:?}");
    }
    for c in ['a', ' ', '\u{2065}', '\u{2010}', '\u{2029}', '\u{FEFE}', 'é'] {
        assert!(!is_format(c), "{c:?}");
    }
}

#[test]
fn a_count_is_written_in_decimal() {
    let p = LaunchArgumentProposal {
        identity: "exe:a.exe".into(),
        game_name: String::new(),
        launch_argument: "-x".into(),
        reporter_count: 1005,
        signed: None,
    };
    assert_eq!(
        launch_arg_line(&p),
        "- `(unnamed)` (`exe:a.exe`) — 1005 reporters propose `-x`; signed today: none\n"
    );
}
