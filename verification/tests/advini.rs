use dt_lib::advini::{parse_for_props, parse_for_sections, section_pairs, try_parse_for_props, Ini, IniParseError};
use dt_lib::time::Time;

#[test]
fn test_string_parsing() {
    for quote in ["'", "\""] {
        for i in 0..=10 {
            let term = quote.repeat(i);
            let input = &format!("{term}хихишки{term}");
            assert_eq!(String::eat(input, ()), Ok(("", "хихишки".to_owned())));
        }
    }
    for i in 1..=10 {
        let input = &",тест".repeat(i);
        let output: &str = &input[1..];
        assert_eq!(String::eat(input, ()), Ok((output, String::new())));
    }
    assert_eq!(String::eat("тест", ()), Ok(("", "тест".to_owned())));
    assert_eq!(String::eat("тест,", ()), Ok(("", "тест".to_owned())));
    assert_eq!(String::eat(",", ()), Ok(("", "".to_owned())));
}

#[test]
fn test_vec() {
    let v = vec![1; 10];
    let output = "1,".repeat(10);
    assert_eq!(v.vomit(()), output);
}

#[test]
fn string_vomit_wraps_in_quotes() {
    assert_eq!("abc".to_string().vomit(()), "\"abc\"");
    assert_eq!("a\"\"b".to_string().vomit(()), "\"\"\"a\"\"b\"\"\"");
    assert_eq!("ab\"".to_string().vomit(()), "\"ab\"\"");
}

#[test]
fn quoted_string_keeps_text_after_quotes() {
    assert_eq!(String::eat("\"a,b\",c", ()), Ok((",c", "a,b".to_owned())));
    assert_eq!(String::eat("'x", ()), Ok(("", "x".to_owned())));
}

#[test]
fn bools_read_by_first_letter() {
    assert_eq!(bool::eat("Yes,1", ()), Ok((",1", true)));
    assert_eq!(bool::eat("no", ()), Ok(("", false)));
    assert_eq!(bool::eat(",x", ()), Ok(("x", false)));
    assert!(matches!(bool::eat("maybe", ()), Err(IniParseError::Error(_))));
    assert_eq!(true.vomit(()), "true");
    assert_eq!(false.vomit(()), "false");
}

#[test]
fn numbers_read_digits_and_check_range() {
    assert_eq!(u8::eat("255,", ()), Ok((",", 255u8)));
    assert_eq!(u8::eat("256", ()), Err(IniParseError::Empty));
    assert_eq!(i64::eat(",7", ()), Ok(("7", 0i64)));
    assert!(matches!(u32::eat("-1", ()), Err(IniParseError::Error(_))));
    assert_eq!((-12i32).vomit(()), "-12");
    assert_eq!(u128::MAX.vomit(()), u128::MAX.to_string());
    assert_eq!(IniParseError::Empty.message(), "just no chars");
}

#[test]
fn options_and_lists() {
    assert_eq!(Option::<u8>::eat(",5", ()), Ok(("5", None)));
    assert_eq!(Option::<u8>::eat("5", ()), Ok(("", Some(5u8))));
    assert_eq!(Vec::<u8>::eat("1,2,3,", ()), Ok(("", vec![1u8, 2, 3])));
    assert!(matches!(Vec::<u8>::eat("1,2", ()), Err(IniParseError::Error(_))));
    assert_eq!(Some(3u8).vomit(()), "3");
    assert_eq!(None::<u8>.vomit(()), "");
}

#[test]
fn props_lowercase_keys_and_continue_values() {
    let props = parse_for_props("[S]\nKey=Value\n;c\nmore\nX = y");
    assert_eq!(
        props,
        vec![("key".to_string(), "Valuemore".to_string()), ("x".to_string(), "y".to_string())]
    );
    assert!(try_parse_for_props("[bad").is_none());
}

#[test]
fn sections_keep_order_and_lowercase_keys() {
    let secs = parse_for_sections("[a]\nX=1\ny = 2\n[b]\nz=3");
    assert_eq!(secs.len(), 2);
    assert_eq!(secs[0].0, "a");
    assert_eq!(section_pairs(&secs[0].1), vec![("x".to_string(), "1".to_string()), ("y".to_string(), "2".to_string())]);
    assert_eq!(secs[1].0, "b");
    assert_eq!(section_pairs(&secs[1].1), vec![("z".to_string(), "3".to_string())]);
}

#[test]
fn properties_before_first_header_join_it() {
    let secs = parse_for_sections("x=1\n[a]\ny=2");
    assert_eq!(secs.len(), 1);
    assert_eq!(secs[0].0, "a");
    assert_eq!(section_pairs(&secs[0].1).len(), 2);
}

#[test]
fn continuation_line_extends_last_value() {
    let secs = parse_for_sections("[a]\nx=1\nmore\nx=2");
    assert_eq!(section_pairs(&secs[0].1), vec![("x".to_string(), "2".to_string())]);
    let secs = parse_for_sections("[a]\nx=1\nmore");
    assert_eq!(section_pairs(&secs[0].1), vec![("x".to_string(), "1more".to_string())]);
    let secs = parse_for_sections("");
    assert_eq!(secs.len(), 1);
    assert_eq!(secs[0].0, "");
}

#[test]
fn time_codec_reads_weighted_fields() {
    use_time_codec();
}

fn use_time_codec() {
    let (rest, t) = <Time as Ini>::eat("1:2:3:4:", ()).unwrap();
    assert_eq!(rest, "");
    assert_eq!(t.minutes, 535680 + 2 * 44640 + 3 * 1440 + 4 * 60);
    let (rest, t) = <Time as Ini>::eat("12:30", ()).unwrap();
    assert_eq!(rest, "30");
    assert_eq!(t.minutes, 12 * 60);
    let (rest, t) = <Time as Ini>::eat("abc", ()).unwrap();
    assert_eq!(rest, "abc");
    assert_eq!(t.minutes, 0);
    let (_, t) = <Time as Ini>::eat("1:2:3:4:5:6:", ()).unwrap();
    assert_eq!(t.minutes, 2 * 535680 + 3 * 44640 + 4 * 1440 + 5 * 60);
}

#[test]
fn time_codec_writes_largest_units() {
    assert_eq!(Time::new(535680 + 2 * 44640 + 3 * 1440 + 4 * 60).vomit(()), "1:2:3:4");
    assert_eq!(Time::new(0).vomit(()), "0");
    assert_eq!(Time::new(2 * 1440 + 5 * 60).vomit(()), "2:5");
    assert_eq!(Time::new(44640 + 60).vomit(()), "1:0:1");
}
