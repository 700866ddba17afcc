use dt_lib::army::Control;
use dt_lib::locale::Locale;
use dt_lib::map::MapDeco;
use dt_lib::mapdata::{parse_mapdata, split_char, split_once_at};
use dt_lib::object::{HireTerms, ObjectInfo, ObjectType, RecruitUnit};

fn objects() -> Vec<ObjectInfo> {
    let obj = |name: &str, index: usize| ObjectInfo {
        name: name.into(),
        path: format!("{name}.png"),
        category: String::new(),
        obj_type: ObjectType::Building { group: 0, variant: 0 },
        index,
        size: (1, 1),
    };
    vec![obj("Tree0", 0), obj("Town0", 500)]
}

fn units() -> Vec<HireTerms> {
    vec![HireTerms { cost_hire: 10, size: (1, 1) }, HireTerms { cost_hire: 20, size: (1, 1) }]
}

fn locale() -> Locale {
    Locale::new("Rus".to_string(), "Eng".to_string())
}

const DOC: &str = "[Tilemaps]\ntilemap=4,4,4,4\ndecomap=1,2,3,,4,5,6,,\n\
[Building2]\nid=5\nobject=Town0\nname=Town\npos=3,4\nitems=1,2\nrecruit=0;2,1;3\n\
[Building1]\nid=1\nobject=Tree0\n\
[Army1]\nid=2\nname=Red\ngold=100\nmain=0 Hero\ntroops=1;1,0;-2\npos=5,6\nplayer=1\n\
[Army0]\nid=0\nmain=1 Boss\n";

#[test]
fn map_data_is_read_and_sorted_by_id() {
    let (tiles, decos, buildings, armies) = parse_mapdata(DOC, &locale(), &objects(), &units()).unwrap();
    assert_eq!(tiles.inner, vec![4, 4, 4, 4]);
    assert_eq!(tiles.size, 2);
    assert_eq!(decos, vec![MapDeco { index: 1, x: 2, y: 3 }, MapDeco { index: 4, x: 5, y: 6 }]);
    assert_eq!(buildings.len(), 2);
    assert_eq!(buildings[0].id, 0);
    assert!(buildings[0].market.is_none());
    let town = &buildings[1];
    assert_eq!(town.id, 1);
    assert_eq!(town.name, "Town");
    assert_eq!(town.pos, (3, 4));
    let market = town.market.as_ref().unwrap();
    assert_eq!(market.items.iter().map(|i| i.index).collect::<Vec<_>>(), vec![1, 2]);
    assert_eq!(market.max_items, 5);
    assert_eq!(market.itemcost_range, (0, 1000));
    assert_eq!(
        town.recruitment.as_ref().unwrap().units,
        vec![RecruitUnit { unit: 0, count: 2 }, RecruitUnit { unit: 1, count: 3 }]
    );
    assert_eq!(armies.len(), 2);
    assert_eq!(armies[0].troops.len(), 1);
    let red = &armies[1];
    assert_eq!(red.stats.army_name, "Red");
    assert_eq!(red.stats.gold, 100);
    assert_eq!(red.pos, (5, 6));
    assert_eq!(red.control, Control::Player(1));
    assert_eq!(red.troops.len(), 3);
    assert!(red.active);
}

#[test]
fn unreadable_map_data_is_refused() {
    let (l, o, u) = (locale(), objects(), units());
    assert!(parse_mapdata("[Army0]\nid=0\nmain=0 A\n", &l, &o, &u).is_none());
    assert!(parse_mapdata("[Tilemaps]\ntilemap=1,,2\n", &l, &o, &u).is_none());
    assert!(parse_mapdata("[Tilemaps]\ntilemap=1\n[Army0]\nid=0\n", &l, &o, &u).is_none());
    assert!(parse_mapdata("[Tilemaps]\ntilemap=1\n[Army0]\nmain=0 A\n", &l, &o, &u).is_none());
    assert!(parse_mapdata("[Tilemaps]\ntilemap=1\n[Army0]\nid=0\nmain=0 A\ntroops=1;x\n", &l, &o, &u).is_none());
    assert!(parse_mapdata("[Tilemaps]\ntilemap=1\n[Army0]\nid=0\nmain=7 A\n", &l, &o, &u).is_none());
    assert!(parse_mapdata("[Tilemaps]\ntilemap=1\n[Building0]\nobject=Castle\n", &l, &o, &u).is_none());
    assert!(parse_mapdata("[Tilemaps]\ntilemap=1\ndecomap=1,2,3,\n", &l, &o, &u).is_none());
    assert!(parse_mapdata("[Tilemaps]\ntilemap=1\n[Other]\nx=y\n", &l, &o, &u).is_some());
}

#[test]
fn text_cutting() {
    assert_eq!(split_char("a,,b", ','), vec!["a".to_string(), "".to_string(), "b".to_string()]);
    assert_eq!(split_char("", ','), vec!["".to_string()]);
    assert_eq!(split_once_at("12x34", ' ', true), Some(("12".to_string(), "34".to_string())));
    assert_eq!(split_once_at("a;b;c", ';', false), Some(("a".to_string(), "b;c".to_string())));
    assert_eq!(split_once_at("123", ' ', true), None);
}
