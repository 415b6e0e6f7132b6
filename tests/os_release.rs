use decker::os_release::{os_release_value, status_from_os_release};

const SAMPLE: &str = "NAME=\"SteamOS\"\nPRETTY_NAME=\"SteamOS\"\nVERSION_CODENAME=holo\nID=steamos\nID_LIKE=arch\nVARIANT_ID=steamdeck\nVERSION_ID=3.4.6\nBUILD_ID=20230313.1\n";

#[test]
fn reads_values() {
    assert_eq!(os_release_value(SAMPLE, "ID"), Some("steamos".to_string()));
    assert_eq!(os_release_value(SAMPLE, "NAME"), Some("SteamOS".to_string()));
    assert_eq!(os_release_value(SAMPLE, "HOME_URL"), None);
}

#[test]
fn later_line_wins_and_value_stops_at_equals() {
    assert_eq!(os_release_value("A=1\nA=2\nB=x=y", "A"), Some("2".to_string()));
    assert_eq!(os_release_value("A=1\nA=2\nB=x=y", "B"), Some("x".to_string()));
    assert_eq!(os_release_value("\n\nA=\"\"\n", "A"), Some(String::new()));
}

#[test]
fn status_report() {
    let s = status_from_os_release(SAMPLE).unwrap();
    assert_eq!(s.id, "steamos");
    assert_eq!(s.pretty_name, "SteamOS");
    assert_eq!(s.build_id, "20230313.1");
    assert_eq!(s.variant_id, "steamdeck");
    assert_eq!(s.version_id, "3.4.6");
    assert_eq!(s.version_codename, "holo");
}

#[test]
fn status_missing_key() {
    assert_eq!(status_from_os_release("ID=x\nNAME=y\n").err(), Some("PRETTY_NAME".to_string()));
}
