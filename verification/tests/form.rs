use report_bot::form::{
    identity_key, parse_identity, AudioPolicySeen, DurationBucket, IdentityError, SessionOutcome,
    StatusSeen,
};

#[test]
fn a_title_is_named_by_a_portable_store_s_id_else_by_its_executable() {
    assert_eq!(
        identity_key("steam", "1091500", "x.exe"),
        Ok("steam:1091500".into())
    );
    assert_eq!(
        identity_key("gdk", "Pub.Title", ""),
        Ok("gdk:Pub.Title".into())
    );
    assert_eq!(
        identity_key("local", r"c:\games\my game\game.exe", "Game.exe"),
        Ok("exe:Game.exe".into())
    );
    assert_eq!(identity_key("", "", "Game.exe"), Ok("exe:Game.exe".into()));
    assert_eq!(
        identity_key("local", "x", ""),
        Err(IdentityError::NoIdentity)
    );
    assert_eq!(identity_key("", "", ""), Err(IdentityError::NoIdentity));
    assert_eq!(
        identity_key("itch", "1", "a.exe"),
        Err(IdentityError::Malformed)
    );
    assert_eq!(
        identity_key("steam", "1;drop", ""),
        Err(IdentityError::Malformed)
    );
    assert_eq!(
        identity_key("", "", "../a.exe"),
        Err(IdentityError::Malformed)
    );
}

#[test]
fn what_is_read_back_is_only_what_could_have_been_written() {
    for (store, id, exe) in [
        ("steam", "42", ""),
        ("gdk", "Pub.Title", ""),
        ("", "", "Game.exe"),
    ] {
        let key = identity_key(store, id, exe).unwrap();
        assert_eq!(
            parse_identity(&key),
            Some((store.into(), id.into(), exe.into())),
            "{key}"
        );
    }
    for raw in [
        "itch:123",
        "steam:",
        ":123",
        "randomtext",
        "local:x.exe",
        "steam:[approved](https://evil.example)",
        "steam:42 extra",
        "epic:<img src=x>",
        "exe:../../.github/workflows/x.yml",
        "exe:C:\\x.exe",
        "exe:a\"b.exe",
        "exe:..",
    ] {
        assert_eq!(parse_identity(raw), None, "{raw}");
    }
}

#[test]
fn duration_bucket_from_secs_covers_every_edge() {
    assert_eq!(DurationBucket::from_secs(0), DurationBucket::UnderFiveMin);
    assert_eq!(DurationBucket::from_secs(299), DurationBucket::UnderFiveMin);
    assert_eq!(
        DurationBucket::from_secs(300),
        DurationBucket::FiveToFifteenMin
    );
    assert_eq!(
        DurationBucket::from_secs(899),
        DurationBucket::FiveToFifteenMin
    );
    assert_eq!(
        DurationBucket::from_secs(900),
        DurationBucket::FifteenToSixtyMin
    );
    assert_eq!(
        DurationBucket::from_secs(3599),
        DurationBucket::FifteenToSixtyMin
    );
    assert_eq!(
        DurationBucket::from_secs(3600),
        DurationBucket::OverSixtyMin
    );
    assert_eq!(
        DurationBucket::from_secs(u64::MAX),
        DurationBucket::OverSixtyMin
    );
}

#[test]
fn every_word_a_field_holds_is_read_back_as_itself() {
    for s in [
        StatusSeen::Verified,
        StatusSeen::Partial,
        StatusSeen::Blocked,
        StatusSeen::Unknown,
    ] {
        assert_eq!(StatusSeen::parse(s.as_str()), s);
    }
    for a in [
        AudioPolicySeen::NoPolicy,
        AudioPolicySeen::Mute,
        AudioPolicySeen::Duck,
    ] {
        assert_eq!(AudioPolicySeen::parse(a.as_str()), a);
    }
    for o in [SessionOutcome::CleanUnload, SessionOutcome::CrashOrKill] {
        assert_eq!(SessionOutcome::parse(o.as_str()), o);
    }
    for d in [
        DurationBucket::UnderFiveMin,
        DurationBucket::FiveToFifteenMin,
        DurationBucket::FifteenToSixtyMin,
        DurationBucket::OverSixtyMin,
    ] {
        assert_eq!(DurationBucket::parse(d.as_str()), d);
    }
    assert_eq!(
        StatusSeen::parse("verified"),
        StatusSeen::Unknown,
        "never a guess"
    );
    assert_eq!(
        SessionOutcome::parse("clean"),
        SessionOutcome::CrashOrKill,
        "never counted clean"
    );
}

#[test]
fn the_words_are_the_ones_the_form_writes() {
    assert_eq!(StatusSeen::Verified.as_str(), "VERIFIED");
    assert_eq!(AudioPolicySeen::NoPolicy.as_str(), "none");
    assert_eq!(SessionOutcome::CleanUnload.as_str(), "clean_unload");
    assert_eq!(DurationBucket::FiveToFifteenMin.as_str(), "5_15m");
    assert_eq!(AudioPolicySeen::parse("loud"), AudioPolicySeen::NoPolicy);
    assert_eq!(DurationBucket::parse("forever"), DurationBucket::FifteenToSixtyMin);
}

#[test]
fn a_local_store_id_is_never_written_even_when_valid() {
    assert_eq!(
        identity_key("local", "123", "Game.exe"),
        Ok("exe:Game.exe".into())
    );
    assert_eq!(identity_key("epic", "", "a.exe"), Ok("exe:a.exe".into()));
    assert_eq!(
        identity_key("", "", " a.exe"),
        Ok("exe: a.exe".into())
    );
    assert_eq!(
        parse_identity("exe:a.exe"),
        Some((String::new(), String::new(), "a.exe".into()))
    );
    assert_eq!(
        parse_identity("gog:12"),
        Some(("gog".into(), "12".into(), String::new()))
    );
    assert_eq!(parse_identity("steam: 42"), None);
}

#[test]
fn a_key_reads_back_exactly_as_it_was_written() {
    for exe in [" a.exe", "   ", "a.exe ", "My Game.exe"] {
        let key = identity_key("", "", exe).unwrap();
        assert_eq!(key, format!("exe:{exe}"));
        assert_eq!(
            parse_identity(&key),
            Some((String::new(), String::new(), exe.into())),
            "{key:?}"
        );
    }
    assert_eq!(
        parse_identity("exe: a.exe"),
        Some((String::new(), String::new(), " a.exe".into()))
    );
}
