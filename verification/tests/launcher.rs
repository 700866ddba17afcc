use dt_lib::launcher::{
    parse_for_sections_localised, parse_locale, parse_map_locale, process_locale, register_locale,
    scan_is_ok, Locale,
};

fn sample() -> Locale {
    let mut locale = Locale::new("Rus".into(), "Eng".into());
    locale.insert("key", "value", &"Rus".into());
    locale.insert("key1", "value1", &"Eng".into());
    locale
}

#[test]
fn launcher_resolves_single_reference() {
    let mut locale = sample();
    assert_eq!(process_locale("$key", &mut locale), "value");
    assert_eq!(process_locale("$key1", &mut locale), "value1");
    assert_eq!(process_locale("$key2", &mut locale), "key2");
    assert_eq!(process_locale("plain text", &mut locale), "plain text");
}

#[test]
fn launcher_key_takes_the_char_after_the_run() {
    let mut locale = sample();
    locale.insert("key ", "spaced", &"Rus".into());
    // the key of a reference that stops before the end includes one more character
    assert_eq!(process_locale("$key is", &mut locale), "spacedis");
}

#[test]
fn launcher_scan_failure_is_detected() {
    assert!(scan_is_ok("$key"));
    assert!(scan_is_ok("no references"));
    assert!(!scan_is_ok("ab$cd"));
    assert!(!scan_is_ok("$key $key1"));
}

#[test]
fn launcher_fallback_and_switch() {
    let mut locale = sample();
    assert_eq!(locale.get("key1"), "value1");
    locale.switch_lang();
    assert_eq!(locale.main_lang, "Eng");
    assert_eq!(locale.get("key"), "value");
    locale.set_lang((&"Deu".to_string(), &"Rus".to_string()));
    assert_eq!(locale.get("key"), "key");
    locale.set_lang((&"Rus".to_string(), &"Eng".to_string()));
    assert_eq!(locale.get("key"), "value");
}

#[test]
fn launcher_register_and_parse() {
    let mut locale = sample();
    register_locale("greeting", "$key", "Rus".into(), &mut locale);
    assert_eq!(locale.get("greeting"), "value");
    parse_locale("A=$key\nb = two", &"Rus".into(), &mut locale);
    assert_eq!(locale.get("a"), "$key");
    assert_eq!(locale.get("b"), "two");
}

#[test]
fn launcher_map_locale_takes_listed_sections() {
    let mut locale = sample();
    let rus = "Rus".to_string();
    parse_map_locale("[Rus]\nhello=$key\n[Deu]\nhello=hallo", &[&rus], &mut locale);
    assert_eq!(locale.get("hello"), "value");
    assert_eq!(locale.get("hallo"), "hallo");
}

#[test]
fn launcher_sections_localised() {
    let mut locale = sample();
    let secs = parse_for_sections_localised("[unit]\nName=$key\nother=x", &mut locale);
    assert_eq!(secs.len(), 1);
    assert_eq!(secs[0].0, "unit");
    assert_eq!(secs[0].1.get("name").map(|s| s.as_str()), Some("value"));
    assert_eq!(secs[0].1.get("other").map(|s| s.as_str()), Some("x"));
}

#[test]
fn mod_language_file_sets_base_language_and_texts() {
    let doc = "[Global]\nbase_language=Eng\n[Locale]\nhello=Привет\n[Other]\nx=y\n";
    let locale = dt_lib::launcher::parse_mod_lang(doc, "Rus".to_string());
    assert_eq!(locale.main_lang, "Rus");
    assert_eq!(locale.additional_lang, "Eng");
    assert_eq!(locale.get("hello"), "Привет");
    assert_eq!(locale.get("x"), "x");
    assert!(dt_lib::launcher::try_parse_mod_lang("[Global\n", "Rus".to_string()).is_none());
}

#[test]
fn base_language_falls_back_to_russian() {
    let mut listed = Locale::new("Rus".to_string(), "Eng".to_string());
    assert!(dt_lib::launcher::try_parse_base_lang(vec!["Eng".to_string()], &mut listed));
    assert_eq!(listed.additional_lang, "Eng");
    let mut unlisted = Locale::new("Rus".to_string(), "Fra".to_string());
    assert!(dt_lib::launcher::try_parse_base_lang(vec!["Eng".to_string()], &mut unlisted));
    assert_eq!(unlisted.additional_lang, "Russian");
    assert_eq!(unlisted.main_lang, "Rus");
}
