use dt_lib::locale::{find_all_matches_in_string, parse_locale_doc, process_locale, register_locale, try_parse_locale_doc, Locale};

#[test]
fn manual_locale() {
    let mut locale = Locale::new("Rus".into(), "Eng".into());
    locale.insert("key", "value", &"Rus".into());
    locale.insert("key1", "value1", &"Eng".into());
    assert!(process_locale("$key", &mut locale) == "value".to_string());
    assert!(process_locale("$key1", &mut locale) == "value1".to_string());
    assert!(process_locale("$key2", &mut locale) == "key2".to_string());
    assert!(process_locale("$key $key1", &mut locale) == "value value1".to_string());
}

#[test]
fn locale_parsing() {
    let mut locale = Locale::new("Rus".into(), "Eng".into());
    let doc = r#"
a=test
dggdgdd=adddlk
b = test
c = 
test"#;
    parse_locale_doc(doc.to_string(), &"Rus".into(), &mut locale);
    assert!(process_locale("$a", &mut locale) == "test".to_string());
    assert!(process_locale("$b", &mut locale) == "test".to_string());
    assert!(process_locale("$c", &mut locale) == "test".to_string());
    assert_eq!(locale.get("dggdgdd"), "adddlk".to_string())
}

#[test]
fn get_falls_back_to_additional_then_key() {
    let mut locale = Locale::new("Rus".into(), "Eng".into());
    assert_eq!(locale.get("x"), "x");
    locale.insert("x", "икс", &"Rus".into());
    locale.insert("y", "why", &"Eng".into());
    assert_eq!(locale.get("x"), "икс");
    assert_eq!(locale.get("y"), "why");
    assert_eq!(locale.get("z"), "z");
    locale.switch_lang();
    assert_eq!(locale.get("x"), "икс");
    assert_eq!(locale.main_lang, "Eng");
    locale.set_lang((&"Rus".to_string(), &"Eng".to_string()));
    assert_eq!(locale.main_lang, "Rus");
}

#[test]
fn main_language_without_table_gives_key() {
    let mut locale = Locale::new("Rus".into(), "Eng".into());
    locale.insert("y", "why", &"Eng".into());
    assert_eq!(locale.get("y"), "y");
}

#[test]
fn insert_overwrites_and_keys_lack() {
    let mut locale = Locale::new("Rus".into(), "Eng".into());
    assert!(locale.keys_lack().is_empty());
    locale.insert("a", "1", &"Rus".into());
    locale.insert("b", "2", &"Rus".into());
    locale.insert("a", "3", &"Rus".into());
    locale.insert("b", "x", &"Eng".into());
    assert_eq!(locale.get("a"), "3");
    assert_eq!(locale.keys_lack(), vec!["a".to_string()]);
}

#[test]
fn references_are_resolved_when_registered() {
    let mut locale = Locale::new("Rus".into(), "Eng".into());
    register_locale("gold", "золото", "Rus".into(), &mut locale);
    register_locale("price", "10 $gold", "Rus".into(), &mut locale);
    assert_eq!(locale.get("price"), "10 золото");
}

#[test]
fn dollar_runs_by_char_index() {
    let found = find_all_matches_in_string("a $bc $ $д", |c: char| c.is_alphabetic());
    assert_eq!(found, vec![(2, 3), (8, 2)]);
}

#[test]
fn malformed_document_is_refused() {
    let mut locale = Locale::new("Rus".into(), "Eng".into());
    assert!(!try_parse_locale_doc("[broken\na=b".to_string(), &"Rus".into(), &mut locale));
    assert_eq!(locale.get("a"), "a");
    assert!(try_parse_locale_doc("[ok]\na=b".to_string(), &"Rus".into(), &mut locale));
    assert_eq!(locale.get("a"), "b");
}
