use report_bot::store_kind::Store;

#[test]
fn every_store_is_spelled_back_to_itself() {
    for s in Store::ALL {
        assert_eq!(Store::parse(s.as_str()), Some(s));
    }
    assert_eq!(Store::parse("itch"), None);
    assert_eq!(Store::parse("Steam"), None, "one spelling, the one written");
    assert_eq!(Store::parse(""), None);
}

#[test]
fn only_a_machine_local_id_is_not_portable() {
    let portable: Vec<Store> = Store::ALL.into_iter().filter(|s| s.is_portable()).collect();
    assert_eq!(
        portable,
        [Store::Steam, Store::Epic, Store::Gog, Store::Gdk]
    );
}

#[test]
fn each_store_has_its_lower_case_spelling() {
    assert_eq!(Store::Steam.as_str(), "steam");
    assert_eq!(Store::Epic.as_str(), "epic");
    assert_eq!(Store::Gog.as_str(), "gog");
    assert_eq!(Store::Gdk.as_str(), "gdk");
    assert_eq!(Store::Local.as_str(), "local");
    assert_eq!(Store::parse("gdk"), Some(Store::Gdk));
    assert_eq!(Store::parse(" steam"), None);
}
