use dt_lib::battlefield::BattleUnit;
use dt_lib::bonus::{AbilityCondition, AbilityUnit, ListenTo, RelativeUnit, MAX_ABILITY};
use dt_lib::advini::Ini;
use dt_lib::events::{cmp_to_i16, Cmp, Location};
use dt_lib::items::MagicVariants;
use dt_lib::parse::{collect_errors, match_magic_variants, match_magictype, parse_duo_tuple, split_and_parse, str_bool};
use dt_lib::units::{MagicDirection, MagicType};

#[test]
fn collect_errors_keeps_value_or_records_error() {
    let mut errors = Vec::new();
    assert_eq!(collect_errors(Ok::<u8, String>(5), &mut errors, "x"), Some(5));
    assert!(errors.is_empty());
    assert_eq!(collect_errors(Err::<u8, String>("bad".into()), &mut errors, "field"), None);
    assert_eq!(errors, vec!["Error: bad; additional: field".to_string()]);
}

#[test]
fn magic_type_names() {
    let mut errors = Vec::new();
    assert_eq!(match_magictype(&mut errors, "LifeMagic", MagicDirection::ToAll), Some(MagicType::Life));
    assert_eq!(match_magictype(&mut errors, "ElementalMagic", MagicDirection::ToAll), Some(MagicType::Elemental));
    assert_eq!(match_magictype(&mut errors, "DeathMagic", MagicDirection::ToAll), Some(MagicType::Death));
    assert_eq!(match_magictype(&mut errors, "NoMagic", MagicDirection::ToAll), None);
    assert_eq!(match_magictype(&mut errors, "", MagicDirection::ToAll), None);
    assert!(errors.is_empty());
    assert_eq!(match_magictype(&mut errors, "Fire", MagicDirection::ToAll), None);
    assert_eq!(
        errors,
        vec!["Error: parse.rs: cant match field;; additional: Field MagicType is invalid: Fire".to_string()]
    );
}

#[test]
fn ability_conditions_are_numbered() {
    assert_eq!(AbilityCondition::BattleStart.index(), 0);
    assert_eq!(AbilityCondition::Skips.index(), 7);
    assert_eq!(MAX_ABILITY, 8);
    assert_eq!(ListenTo::default(), ListenTo::Myself);
}

#[test]
fn relative_units_pick_targets() {
    let mine: Vec<Option<usize>> = vec![Some(0), None, Some(1), None, None, None, Some(2), None, None, None, None, None];
    let theirs: Vec<Option<usize>> = vec![None, Some(0), Some(5)];
    let maps = [&mine, &theirs];
    let counts = [3usize, 2usize];
    let units = vec![BattleUnit { army: 0, index: 2 }, BattleUnit { army: 1, index: 4 }];
    assert_eq!(
        RelativeUnit::ByAbilityUnit(AbilityUnit::Myself).get(0, maps, counts, &units),
        vec![BattleUnit { army: 0, index: 2 }]
    );
    // the acting troop is past the end of its army
    assert!(RelativeUnit::ByAbilityUnit(AbilityUnit::Actor).get(0, maps, counts, &units).is_empty());
    assert!(RelativeUnit::ByAbilityUnit(AbilityUnit::Affected).get(0, maps, counts, &units).is_empty());
    assert_eq!(
        RelativeUnit::Absolute { index: 1, my_army: false }.get(0, maps, counts, &units),
        vec![BattleUnit { army: 1, index: 1 }]
    );
    assert!(RelativeUnit::Absolute { index: 2, my_army: false }.get(0, maps, counts, &units).is_empty());
    // the place is taken modulo 2: 3 + 0 + 2 = 5 reads place 1
    assert_eq!(
        RelativeUnit::ByRelativePosition { pos: 0, my_army: false }.get(3, maps, counts, &units),
        vec![BattleUnit { army: 1, index: 0 }]
    );
    assert!(RelativeUnit::ByRelativePosition { pos: 1, my_army: false }.get(3, maps, counts, &units).is_empty());
    assert_eq!(
        RelativeUnit::ByRow { my_army: true, row: 0 }.get(0, maps, counts, &units),
        vec![BattleUnit { army: 0, index: 0 }, BattleUnit { army: 0, index: 1 }]
    );
    assert_eq!(
        RelativeUnit::ByRow { my_army: true, row: 1 }.get(0, maps, counts, &units),
        vec![BattleUnit { army: 0, index: 2 }]
    );
    // troop 5 of the other army does not exist
    assert_eq!(
        RelativeUnit::ByArmy { my_army: false }.get(0, maps, counts, &units),
        vec![BattleUnit { army: 1, index: 0 }]
    );
}

#[test]
fn comparisons_check_and_codec() {
    assert!(Cmp::L(5).check(4));
    assert!(!Cmp::L(5).check(5));
    assert!(Cmp::G(5).check(6));
    assert!(Cmp::E(5).check(5));
    // the bound read is always 0
    assert_eq!(Cmp::eat("=5", ()), Ok(("", Cmp::E(0))));
    assert_eq!(Cmp::eat(">12,x", ()), Ok((",x", Cmp::G(0))));
    assert_eq!(Cmp::eat("<7", ()), Ok(("", Cmp::L(0))));
    assert!(Cmp::eat("5", ()).is_err());
    assert!(Cmp::eat("=", ()).is_err());
    assert_eq!(Cmp::E(3).vomit(()), "=3");
    assert_eq!(Cmp::G(40).vomit(()), ">40");
    assert_eq!(Location::eat("Global", ()), Ok(("", Location::Global)));
    assert_eq!(Location::eat("Local,5", ()), Ok(("", Location::Local)));
    assert_eq!(Location::eat("Talks,7,x", ()), Ok((",x", Location::Talks)));
    assert!(Location::eat("Place", ()).is_err());
    assert!(Location::eat("Local,x", ()).is_err());
    assert_eq!(Location::Place.vomit(()), "Place");
    assert_eq!(cmp_to_i16(&None), Some(0));
    assert_eq!(cmp_to_i16(&Some(Cmp::G(12))), Some(12));
    assert_eq!(cmp_to_i16(&Some(Cmp::G(u64::MAX))), Some(-1));
    assert_eq!(cmp_to_i16(&Some(Cmp::G(u64::MAX - 32767))), Some(-32768));
    assert_eq!(cmp_to_i16(&Some(Cmp::G(40000))), None);
    assert_eq!(cmp_to_i16(&Some(Cmp::L(40000))), Some(0));
}

#[test]
fn small_readers_of_game_data() {
    assert_eq!(match_magic_variants("LifeMagic".into()), MagicVariants::Life);
    assert_eq!(match_magic_variants("DeathMagic".into()), MagicVariants::Death);
    assert_eq!(match_magic_variants("ElementalMagic".into()), MagicVariants::Elemental);
    assert_eq!(match_magic_variants("NoMagic".into()), MagicVariants::Any);
    assert_eq!(match_magic_variants("whatever".into()), MagicVariants::Any);
    assert!(str_bool("TRUE".into()));
    assert!(str_bool("y".into()));
    assert!(str_bool("1".into()));
    assert!(!str_bool("yes".into()));
    assert!(!str_bool("0".into()));
    assert_eq!(split_and_parse("12:5".into()), vec![12, 5]);
    assert_eq!(split_and_parse("1,,2".into()), vec![1, 0, 2]);
    assert_eq!(split_and_parse("99999999999999999999 3".into()), vec![0, 3]);
    assert_eq!(split_and_parse("".into()), vec![0]);
    assert_eq!(parse_duo_tuple("3x4"), Ok((3, 4)));
    assert_eq!(parse_duo_tuple("3x4x5"), Ok((3, 4)));
    assert_eq!(parse_duo_tuple("3"), Err(""));
    assert_eq!(parse_duo_tuple("x4"), Err("Couldn't parse given string"));
    assert_eq!(parse_duo_tuple("3,"), Err("Couldn't parse given string"));
}
