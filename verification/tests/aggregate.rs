use report_bot::aggregate::{
    aggregate, parse_all, propose_launch_arguments, proposal_file_name, read_issues, Author,
    EvidenceStrength, ParsedReport, RawIssue,
};
use report_bot::parse::{parse_issue_body, ReportFields};
use std::cell::RefCell;
use report_bot::form::SessionOutcome;
use report_bot::parse::Report;
use report_bot::profiles_lite::{Db, Profile};
use report_bot::speed::SpeedKey;

fn speed_key(f: f64) -> SpeedKey {
    let bits = f.to_bits() as i64;
    bits ^ ((((bits >> 63) as u64) >> 1) as i64)
}

fn report(exe: &str, outcome: SessionOutcome, common: f64) -> Report {
    Report {
        identity: format!("exe:{exe}"),
        store: String::new(),
        store_id: String::new(),
        exe: exe.into(),
        game_name: "Test Game".into(),
        factor_min: speed_key(common - 0.5),
        factor_common: speed_key(common),
        factor_max: speed_key(common + 0.5),
        outcome,
        launch_argument: None,
    }
}

/// `n` distinct reporters (`u1`..), each proposing `arg` for `exe`.
fn proposing(exe: &str, arg: &str, n: u64, first_issue: u64) -> Vec<ParsedReport> {
    (0..n)
        .map(|i| {
            let mut r = report(exe, SessionOutcome::CleanUnload, 2.0);
            r.launch_argument = Some(arg.into());
            parsed(&format!("u{}", i + 1), first_issue + i, r)
        })
        .collect()
}

fn parsed(author: &str, issue: u64, r: Report) -> ParsedReport {
    ParsedReport {
        author: author.into(),
        issue_number: issue,
        report: r,
    }
}

/// A catalogue entry with every optional field at its default.
fn entry(exe_name: &str, status: &str) -> Profile {
    Profile {
        exe_name: exe_name.into(),
        steam_appid: 0,
        epic_catalog_item_id: String::new(),
        gog_product_id: 0,
        gdk_package_id: String::new(),
        status: status.into(),
        max_recommended_speed: speed_key(0.0),
        anti_cheat_detected: false,
        launch_argument: None,
    }
}

#[test]
fn strong_consistent_evidence_proposes_partial() {
    let reports: Vec<ParsedReport> = (1..=5)
        .map(|n| {
            parsed(
                &format!("user{n}"),
                n,
                report("a.exe", SessionOutcome::CleanUnload, 2.0),
            )
        })
        .collect();
    let proposals = aggregate(&reports, &Db::default());
    assert_eq!(proposals.len(), 1);
    assert_eq!(proposals[0].evidence, EvidenceStrength::Strong);
}

#[test]
fn flooding_a_single_account_does_not_manufacture_evidence() {
    let reports: Vec<ParsedReport> = (1..=10)
        .map(|n| {
            parsed(
                "flooder",
                n,
                report("a.exe", SessionOutcome::CleanUnload, 2.0),
            )
        })
        .collect();
    assert!(aggregate(&reports, &Db::default()).is_empty());
}

#[test]
fn blocked_profile_is_never_proposed() {
    let db = Db::new(vec![entry("a.exe", "BLOCKED")]);
    let reports: Vec<ParsedReport> = (1..=5)
        .map(|n| {
            parsed(
                &format!("u{n}"),
                n,
                report("a.exe", SessionOutcome::CleanUnload, 3.0),
            )
        })
        .collect();
    assert!(aggregate(&reports, &db).is_empty());
}

#[test]
fn suggested_ceiling_never_regresses_below_an_existing_partial_profile() {
    let mut partial = entry("a.exe", "PARTIAL");
    partial.max_recommended_speed = speed_key(3.0);
    let db = Db::new(vec![partial]);
    let reports: Vec<ParsedReport> = (1..=5)
        .map(|n| {
            parsed(
                &format!("u{n}"),
                n,
                report("a.exe", SessionOutcome::CleanUnload, 2.0),
            )
        })
        .collect();
    let proposals = aggregate(&reports, &db);
    assert_eq!(proposals.len(), 1);
    assert_eq!(proposals[0].suggested_max_speed, speed_key(3.0));
}

#[test]
fn a_launch_option_needs_ten_distinct_reporters() {
    let nine = proposing("a.exe", "-nologo", 9, 1);
    assert!(propose_launch_arguments(&nine, &Db::default()).is_empty());
    let p = propose_launch_arguments(&proposing("a.exe", "-nologo", 10, 1), &Db::default());
    assert_eq!(p.len(), 1);
    assert_eq!(p[0].launch_argument, "-nologo");
    assert_eq!(p[0].reporter_count, 10);
    assert_eq!(p[0].signed, None);
}

#[test]
fn one_account_cannot_vote_a_launch_option_in() {
    let mut flood = proposing("a.exe", "-nologo", 1, 1);
    for n in 2..=30 {
        let mut r = report("a.exe", SessionOutcome::CleanUnload, 2.0);
        r.launch_argument = Some("-nologo".into());
        flood.push(parsed("u1", n, r));
    }
    assert!(propose_launch_arguments(&flood, &Db::default()).is_empty());
}

#[test]
fn a_later_report_without_a_proposal_keeps_the_account_s_vote() {
    let mut reports = proposing("a.exe", "-nologo", 10, 1);
    reports.push(parsed(
        "u1",
        99,
        report("a.exe", SessionOutcome::CleanUnload, 2.0),
    ));
    assert_eq!(propose_launch_arguments(&reports, &Db::default()).len(), 1);
}

#[test]
fn two_spellings_are_two_proposals_and_only_the_one_with_ten_goes_through() {
    let mut reports = proposing("a.exe", "-nologo", 10, 1);
    for i in 0..9 {
        let mut r = report("a.exe", SessionOutcome::CleanUnload, 2.0);
        r.launch_argument = Some("-NoLogo".into());
        reports.push(parsed(&format!("v{i}"), 100 + i, r));
    }
    let p = propose_launch_arguments(&reports, &Db::default());
    assert_eq!(p.len(), 1);
    assert_eq!(p[0].launch_argument, "-nologo");
}

#[test]
fn a_launch_option_that_is_not_a_switch_is_never_counted() {
    let reports = proposing("a.exe", "-a;calc", 20, 1);
    assert!(propose_launch_arguments(&reports, &Db::default()).is_empty());
}

#[test]
fn launch_options_skip_blocked_titles_but_not_verified_ones() {
    let blocked = Db::new(vec![entry("a.exe", "BLOCKED")]);
    assert!(
        propose_launch_arguments(&proposing("a.exe", "-nologo", 20, 1), &blocked).is_empty()
    );
    let mut v = entry("a.exe", "VERIFIED");
    v.max_recommended_speed = speed_key(3.0);
    let verified = Db::new(vec![v]);
    assert_eq!(
        propose_launch_arguments(&proposing("a.exe", "-nologo", 10, 1), &verified).len(),
        1,
        "a VERIFIED title can still lack its flag"
    );
}

#[test]
fn a_microsoft_store_title_is_matched_by_its_package() {
    let mut g = entry("g.exe", "BLOCKED");
    g.gdk_package_id = "Pub.Title".into();
    let db = Db::new(vec![g]);
    let mut base = report("", SessionOutcome::CleanUnload, 2.0);
    base.identity = "gdk:Pub.Title".into();
    base.store = "gdk".into();
    base.store_id = "Pub.Title".into();
    base.launch_argument = Some("-nologo".into());
    let reports: Vec<ParsedReport> = (1..=10)
        .map(|n| parsed(&format!("u{n}"), n, base.clone()))
        .collect();
    assert!(propose_launch_arguments(&reports, &db).is_empty());
    assert_eq!(propose_launch_arguments(&reports, &Db::default()).len(), 1);
}

#[test]
fn the_signed_flag_is_not_news_and_a_different_one_says_what_it_replaces() {
    let mut signed = entry("a.exe", "PARTIAL");
    signed.launch_argument = Some("-nologo".into());
    let db = Db::new(vec![signed]);
    assert!(propose_launch_arguments(&proposing("a.exe", "-nologo", 10, 1), &db).is_empty());
    let p = propose_launch_arguments(&proposing("a.exe", "-skipintro", 10, 1), &db);
    assert_eq!(p.len(), 1);
    assert_eq!(p[0].signed.as_deref(), Some("-nologo"));
}

#[test]
fn a_proposal_carries_the_spread_the_median_and_the_share_of_clean_runs() {
    let reports = vec![
        parsed("a", 1, report("g.exe", SessionOutcome::CleanUnload, 1.5)),
        parsed("b", 2, report("g.exe", SessionOutcome::CleanUnload, 2.0)),
        parsed("c", 3, report("g.exe", SessionOutcome::CleanUnload, 4.0)),
        parsed("d", 4, report("g.exe", SessionOutcome::CrashOrKill, 3.0)),
    ];
    let p = aggregate(&reports, &Db::default());
    assert_eq!(p.len(), 1);
    assert_eq!(p[0].identity, "exe:g.exe");
    assert_eq!(p[0].game_name, "Test Game");
    assert_eq!(p[0].reporter_count, 4);
    assert_eq!(p[0].clean_count, 3);
    assert_eq!(p[0].factor_low, speed_key(1.0));
    assert_eq!(p[0].factor_high, speed_key(4.5));
    // Sorted commons 1.5, 2, 3, 4: the one at index 4 / 2.
    assert_eq!(p[0].suggested_max_speed, speed_key(3.0));
    // 3 of 4 clean is at least seven tenths, and four reporters are not five.
    assert_eq!(p[0].evidence, EvidenceStrength::Moderate);
}

#[test]
fn too_few_reporters_or_too_many_crashes_is_no_proposal() {
    let two = vec![
        parsed("a", 1, report("g.exe", SessionOutcome::CleanUnload, 2.0)),
        parsed("b", 2, report("g.exe", SessionOutcome::CleanUnload, 2.0)),
    ];
    assert!(aggregate(&two, &Db::default()).is_empty());
    let crashy = vec![
        parsed("a", 1, report("g.exe", SessionOutcome::CleanUnload, 2.0)),
        parsed("b", 2, report("g.exe", SessionOutcome::CrashOrKill, 2.0)),
        parsed("c", 3, report("g.exe", SessionOutcome::CleanUnload, 2.0)),
    ];
    // Two of three is under seven tenths.
    assert!(aggregate(&crashy, &Db::default()).is_empty());
}

#[test]
fn only_a_reporter_s_newest_report_counts() {
    // The newest report of "a" crashed; its older clean run is not counted.
    let reports = vec![
        parsed("a", 9, report("g.exe", SessionOutcome::CrashOrKill, 2.0)),
        parsed("a", 1, report("g.exe", SessionOutcome::CleanUnload, 2.0)),
        parsed("b", 2, report("g.exe", SessionOutcome::CleanUnload, 2.0)),
        parsed("c", 3, report("g.exe", SessionOutcome::CleanUnload, 2.0)),
        parsed("d", 4, report("g.exe", SessionOutcome::CleanUnload, 2.0)),
    ];
    let p = aggregate(&reports, &Db::default());
    assert_eq!(p.len(), 1);
    assert_eq!(p[0].reporter_count, 4);
    assert_eq!(p[0].clean_count, 3);
    assert_eq!(p[0].evidence, EvidenceStrength::Moderate);
}

#[test]
fn proposals_come_out_in_identity_order_and_speeds_are_clamped() {
    let mut reports = Vec::new();
    for (i, who) in ["a", "b", "c"].iter().enumerate() {
        reports.push(parsed(who, i as u64, report("z.exe", SessionOutcome::CleanUnload, 40.0)));
        reports.push(parsed(who, 10 + i as u64, report("b.exe", SessionOutcome::CleanUnload, 0.01)));
    }
    let p = aggregate(&reports, &Db::default());
    assert_eq!(p.len(), 2);
    assert_eq!(p[0].identity, "exe:b.exe");
    assert_eq!(p[1].identity, "exe:z.exe");
    // The existing ceiling of an unknown title is 1.0, which lifts 0.01.
    assert_eq!(p[0].suggested_max_speed, speed_key(1.0));
    assert_eq!(p[1].suggested_max_speed, speed_key(10.0));
}

#[test]
fn a_verified_title_keeps_its_speed() {
    let db = Db::new(vec![entry("a.exe", "VERIFIED")]);
    let reports: Vec<ParsedReport> = (1..=5)
        .map(|n| parsed(&format!("u{n}"), n, report("a.exe", SessionOutcome::CleanUnload, 2.0)))
        .collect();
    assert!(aggregate(&reports, &db).is_empty());
}

#[test]
fn issues_by_bots_or_naming_no_title_are_not_reports() {
    let issue = |number: u64, login: &str, is_bot: bool, body: &str| RawIssue {
        number,
        author: Author {
            login: login.into(),
            is_bot,
        },
        body: body.into(),
    };
    let raw = vec![
        issue(1, "alice", false, "### game_identity\n\nexe:a.exe\n"),
        issue(2, "dependabot", true, "### game_identity\n\nexe:a.exe\n"),
        issue(3, "bob", false, "no headings"),
        issue(4, "carol", false, "### game_identity\n\nsteam:42\n\n### factor_min\n\n0.5\n"),
    ];
    let parsed = parse_all(&raw, parse_issue_body);
    assert_eq!(read_issues(&raw).len(), 2);
    assert_eq!(parsed.len(), 2);
    assert_eq!(parsed[0].author, "alice");
    assert_eq!(parsed[0].issue_number, 1);
    assert_eq!(parsed[0].fields.exe, "a.exe");
    assert_eq!(parsed[1].author, "carol");
    assert_eq!(parsed[1].fields.identity, "steam:42");
    assert_eq!(parsed[1].fields.factor_min.as_deref(), Some("0.5"));
}

#[test]
fn a_proposal_file_is_named_by_its_title() {
    assert_eq!(proposal_file_name("steam:42", ".json"), "steam_42.json");
    assert_eq!(proposal_file_name("exe:a/b.exe", ".launch.json"), "exe_a_b.exe.launch.json");
    assert_eq!(proposal_file_name("gdk:Pub.Title", ""), "gdk_Pub.Title");
}

#[test]
fn every_issue_but_a_bot_s_is_read_once_in_order() {
    let issue = |number: u64, login: &str, is_bot: bool, body: &str| RawIssue {
        number,
        author: Author {
            login: login.into(),
            is_bot,
        },
        body: body.into(),
    };
    let raw = vec![
        issue(7, "alice", false, "first"),
        issue(8, "bot", true, "second"),
        issue(9, "bob", false, "third"),
        issue(10, "carol", false, "fourth"),
    ];
    let seen: RefCell<Vec<String>> = RefCell::new(Vec::new());
    let parser = |body: &str| -> Option<ReportFields> {
        seen.borrow_mut().push(body.to_string());
        if body == "third" {
            None
        } else {
            parse_issue_body("### game_identity\n\nexe:a.exe\n")
        }
    };
    let parsed = parse_all(&raw, parser);
    assert_eq!(*seen.borrow(), vec!["first", "third", "fourth"]);
    let kept: Vec<(String, u64)> = parsed
        .iter()
        .map(|p| (p.author.clone(), p.issue_number))
        .collect();
    assert_eq!(kept, vec![("alice".to_string(), 7), ("carol".to_string(), 10)]);
    assert!(parsed.iter().all(|p| p.fields.exe == "a.exe"));
}
