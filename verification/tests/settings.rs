use dt_lib::parse::{parse_settings, try_parse_settings};
use dt_lib::registry::Settings;

#[test]
fn settings_are_read_in_order() {
    let doc = "[Game]\nmax_troops=12\nlocale=Eng\nfullscreen=True\n[Net]\nport=4000\nip=10.0.0.2\nlocale=Rus\n";
    let s = parse_settings(doc);
    assert_eq!(s.locale, "Rus");
    assert_eq!(s.additional_locale, "");
    assert!(s.fullscreen);
    assert_eq!(s.port, 4000);
    assert_eq!(s.ip, "10.0.0.2");
}

#[test]
fn settings_start_values() {
    let s = parse_settings("[Game]\nunknown=1\n");
    assert_eq!(s.locale, "");
    assert!(!s.fullscreen);
    assert_eq!(s.ip, "127.0.0.1");
    assert_eq!(s.port, 0);
    let s = parse_settings("[Game]\nFullscreen=no\nAdditional_Locale=Eng\n");
    assert!(!s.fullscreen);
    assert_eq!(s.additional_locale, "Eng");
}

#[test]
fn unreadable_settings_are_refused() {
    assert!(try_parse_settings("[Game]\nmax_troops=many\n").is_none());
    assert!(try_parse_settings("[Game]\nport=-1\n").is_none());
    assert!(try_parse_settings("[Game]\nport=+80\n").map(|s| s.port) == Some(80));
}

#[test]
fn default_settings() {
    let s = Settings::default();
    assert_eq!(s.locale, "Rus");
    assert_eq!(s.additional_locale, "Eng");
    assert!(s.fullscreen);
    assert_eq!(s.ip, "127.0.0.1");
    assert_eq!(s.port, 0);
}
