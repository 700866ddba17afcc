use dt_lib::battlefield::{field_type, possible_movement, BattleUnit, BattleUnitInfo, BattleUnitPos, Field};
use dt_lib::board::{Move, Pos, Side};
use dt_lib::dtm::{decode_rle, encode_rle};
use dt_lib::editor::{EditorState, MapProject};
use dt_lib::effects::EffectLifetime;
use dt_lib::hotel::Hotel;
use dt_lib::hwid::{get_id, HwIdError};
use dt_lib::items::{magic_relates, MagicVariants};
use dt_lib::map::{isqrt, HitboxTile, TileMap};
use dt_lib::registry::Registry;
use dt_lib::time::{Data, Time};
use dt_lib::units::{MagicType, UnitPos};

#[test]
fn state_is_read_only_from_outside() {
    let state = EditorState::new(MapProject::new(4, 0));
    assert_eq!(state.project().tile((1, 1)), Some(0));
    assert_eq!(state.active_tile(), 0);
}

#[test]
fn field_type_check() {
    let mut fields = vec![];
    for i in 0..12 {
        fields.push(field_type(i, 12));
    }
    assert_eq!(
        fields,
        vec![Field::Reserve, Field::Back, Field::Back, Field::Back, Field::Back, Field::Reserve, Field::Reserve, Field::Front, Field::Front, Field::Front, Field::Front, Field::Reserve]
    );
}

#[test]
fn field_type_distribution_is_correct() {
    let fields: Vec<Field> = (0..12).map(|index| field_type(index, 12)).collect();
    assert_eq!(
        fields,
        vec![Field::Reserve, Field::Back, Field::Back, Field::Back, Field::Back, Field::Reserve, Field::Reserve, Field::Front, Field::Front, Field::Front, Field::Front, Field::Reserve,],
    );
}

#[test]
fn possible_movement_returns_non_empty_list() {
    assert!(!possible_movement(3, 6).is_empty(), "Possible moves should not be empty");
}

#[test]
fn possible_movement_exact_places() {
    assert_eq!(possible_movement(3, 6), vec![0, 5, 6, 11, 2, 3, 2, 8, 9, 8]);
    assert_eq!(possible_movement(7, 6), vec![0, 5, 6, 11, 0, 1, 0, 6, 7, 6]);
    assert_eq!(possible_movement(0, 1), vec![0, 1, 0, 1, 2, 1, 2]);
}

#[derive(Clone)]
struct Bitboard(pub u16);
#[derive(Clone)]
struct Pieces(pub Bitboard, pub Bitboard);
#[derive(Clone)]
struct MovementGame {
    pub board: Pieces,
}
impl MovementGame {
    fn new(board: Pieces) -> Self {
        Self { board }
    }
}

#[test]
fn test_movement_game() {
    let game = MovementGame::new(Pieces(Bitboard(0b1111000000000000), Bitboard(0b0000000000001111)));
    let _ = game.board.0 .0 & 0b0000000000001111;
}

#[test]
fn board_positions_roundtrip() {
    let p = Pos::from_xy((4, 4), (3, 2));
    assert_eq!(p, Pos(11));
    assert_eq!(p.into_xy((4, 4)), (3, 2));
    let m = Move(Pos(0), Pos(1));
    assert_eq!(m.1, Pos(1));
    assert_ne!(Side::First, Side::Second);
}

#[test]
fn time_units_and_text() {
    let t = Time::new(((2 * 12 + 3) * 31 + 4) * 24 * 60 + 5 * 60 + 6);
    assert_eq!(t.get_years(), 2);
    assert_eq!(t.get_month(), 3);
    assert_eq!(t.get_day(), 4);
    assert_eq!(t.get_hour(), 5);
    assert_eq!(t.get_minute(), 6);
    assert_eq!(t.to_data(&[Data::YEAR, Data::MONTH, Data::DAY, Data::HOUR], ":"), "2:3:4:5");
    assert_eq!(t.to_data(&[Data::HOUR], ""), "");
    assert_eq!(Time::from_data("1:2", &[Data::DAY, Data::HOUR]).minutes, 1440 + 120);
    assert_eq!(Time::from_data("3", &[Data::HOUR, Data::DAY]).minutes, 180);
}

#[test]
fn rle_roundtrip_and_long_runs() {
    let map: Vec<u8> = [vec![7u8; 300], vec![1u8, 1, 2]].concat();
    let enc = encode_rle(&map);
    assert_eq!(enc, vec![7, 255, 7, 43, 1, 1, 2, 0]);
    assert_eq!(decode_rle(&enc), map);
    assert!(encode_rle(&[]).is_empty());
}

#[test]
fn hwid_first_line_of_first_readable_file() {
    assert_eq!(get_id(&[None, Some("abc\r\nrest".to_string())]), Ok("abc".to_string()));
    assert_eq!(get_id(&[Some("x\r".to_string()), None]), Ok("x\r".to_string()));
    assert_eq!(get_id(&[Some(String::new())]), Err(HwIdError::Malformed(String::new())));
    assert_eq!(get_id(&[None, None]), Err(HwIdError::NotFound));
}

#[test]
fn hotel_pairs_two_sockets() {
    let mut hotel: Hotel<u32> = Hotel::new();
    assert_eq!(hotel.put_socket(&"r".to_string(), 1), Err((1, "Room doesn't exist")));
    hotel.create_room("r".to_string());
    assert_eq!(hotel.put_socket(&"r".to_string(), 1), Ok(None));
    assert_eq!(hotel.put_socket(&"r".to_string(), 2), Ok(Some((1, 2))));
    assert_eq!(hotel.put_socket(&"r".to_string(), 3), Err((3, "Room is full")));
}

#[test]
fn registry_ids_and_names() {
    let mut reg: Registry<u32> = Registry::new();
    assert_eq!(reg.register(10, "a"), Some(0));
    assert_eq!(reg.register(10, "b"), None);
    assert_eq!(reg.register(11, "a"), Some(1));
    assert_eq!(reg.str_to_id(&"a".to_string()), Some(1));
    assert_eq!(reg.str_to_id(&"b".to_string()), None);
}

#[test]
fn magic_requirements() {
    assert!(magic_relates(None, MagicVariants::Any));
    assert!(!magic_relates(None, MagicVariants::Life));
    assert!(magic_relates(Some(MagicType::Death), MagicVariants::Death));
    assert!(!magic_relates(Some(MagicType::Death), MagicVariants::Life));
    assert!(magic_relates(Some(MagicType::Elemental), MagicVariants::Any));
}

#[test]
fn unit_positions_on_the_grid() {
    assert_eq!(UnitPos::from_index(8), UnitPos(2, 1));
    assert_eq!(UnitPos(2, 1).whole(), 8);
}

#[test]
fn effect_lifetime_ticks() {
    let mut l = EffectLifetime { lifetime: Some(5), decay: 2, remove_on_battle_end: false };
    l.tick();
    assert_eq!(l.lifetime, Some(3));
    let mut forever = EffectLifetime { lifetime: None, decay: 2, remove_on_battle_end: true };
    forever.tick();
    assert_eq!(forever.lifetime, None);
}

#[test]
fn map_helpers() {
    assert_eq!(isqrt(0), 0);
    assert_eq!(isqrt(15), 3);
    assert_eq!(isqrt(16), 4);
    let m = TileMap::new(vec![0u8; 10]);
    assert_eq!(m.size, 3);
    let t = HitboxTile { passable: true, deco_blocked: false, need_transport: false, building: None, army: Some(1) };
    assert!(!t.passable());
    assert!(HitboxTile { army: None, ..t }.passable());
}

#[test]
fn battle_unit_references() {
    let hitmap = vec![None, Some(4), Some(2)];
    assert_eq!(BattleUnitInfo::from(BattleUnit { army: 0, index: 2 }).pos(&hitmap), Some(2));
    assert_eq!(BattleUnitInfo::from(BattleUnitPos { army: 0, pos: 1 }).index(&hitmap), Some(4));
    assert_eq!(BattleUnitInfo::Pos(0).to_index(&hitmap, 1), None);
    assert_eq!(BattleUnitInfo::Index(9).to_pos(&hitmap, 1), BattleUnitPos { army: 1, pos: 0 });
}

#[test]
fn chat_lines_carry_the_given_time() {
    let u = dt_lib::room::ChatMsg::user_at("Ann", "hi", 1234);
    assert_eq!((u.from.as_str(), u.text.as_str(), u.at, u.system), ("Ann", "hi", 1234, false));
    let s = dt_lib::room::ChatMsg::system_at("started", 99);
    assert_eq!((s.from.as_str(), s.text.as_str(), s.at, s.system), ("", "started", 99, true));
}

#[test]
fn time_arithmetic() {
    let a = dt_lib::time::Time::new(50);
    let b = dt_lib::time::Time::new(20);
    assert_eq!(a.add(b).minutes, 70);
    assert_eq!(a.sub(b).minutes, 0);
    let mut c = a;
    c.sub_assign(b);
    assert_eq!(c.minutes, 30);
    c.sub_assign(a);
    assert_eq!(c.minutes, 0);
    c.add_assign(b);
    assert_eq!(c.minutes, 20);
}

#[test]
fn time_text_round_trip_drops_minutes() {
    let repr = [Data::YEAR, Data::MONTH, Data::DAY, Data::HOUR];
    let t = dt_lib::time::Time::new(3 * 535680 + 5 * 44640 + 7 * 1440 + 9 * 60 + 41);
    let text = t.to_data(&repr, ":");
    assert_eq!(text, "3:5:7:9");
    assert_eq!(dt_lib::time::Time::from_data(&text, &repr).minutes, t.minutes - 41);
}
