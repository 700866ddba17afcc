use dt_lib::army::{Army, ArmyStats, Control, Relations, TroopSlot};
use dt_lib::map::{GameMap, HitboxTile, MapLantern, TileMap};
use dt_lib::object::{BuildingVariant, MapBuildingdata, ObjectInfo, ObjectType};
use dt_lib::units::UnitPos;

fn test_objects() -> Vec<ObjectInfo> {
    vec![
        ObjectInfo {
            name: "Tree0".into(),
            path: "Tree000.png".into(),
            category: String::new(),
            obj_type: ObjectType::MapDeco { id: 0 },
            index: 0,
            size: (1, 1),
        },
        ObjectInfo {
            name: "Town0".into(),
            path: "Town000.png".into(),
            category: String::new(),
            obj_type: ObjectType::Building { group: 6, variant: 0 },
            index: 500,
            size: (2, 2),
        },
        ObjectInfo {
            name: "Village4".into(),
            path: "Village004.png".into(),
            category: String::new(),
            obj_type: ObjectType::Building { group: 6, variant: 4 },
            index: 515,
            size: (3, 2),
        },
    ]
}

fn test_map() -> GameMap {
    let size = 8usize;
    let mut m = GameMap::default();
    m.tilemap = TileMap::new(vec![4usize; size * size]);
    m.hitmap = TileMap::new(vec![HitboxTile::default(); size * size]);
    m
}

fn render_span(pos: (usize, usize), size: (u8, u8)) -> Vec<(usize, usize)> {
    let (w, h) = (size.0 as isize, size.1 as isize);
    let mut tiles = vec![];
    for tx in (pos.0 as isize - w + 1)..=(pos.0 as isize) {
        for ty in (pos.1 as isize - h + 1)..=(pos.1 as isize) {
            tiles.push((tx as usize, ty as usize));
        }
    }
    tiles
}

fn building(id: usize, pos: (usize, usize)) -> MapBuildingdata {
    MapBuildingdata {
        name: String::new(),
        desc: String::new(),
        owner_name: String::new(),
        id,
        events: vec![],
        variant: BuildingVariant::Town,
        market: None,
        recruitment: None,
        pos,
        owner: None,
        garrison: vec![],
        additional_defense: 0,
        gold_income: 0,
        mana_income: 0,
        spells_to_learn: vec![],
        relations: Relations::default(),
        group: 0,
    }
}

#[test]
fn hitbox_matches_render_span_and_object_index() {
    let objects = test_objects();
    let mut m = test_map();
    m.buildings = vec![building(500, (4, 4)), building(515, (7, 7))];
    m.calc_hitboxes(&objects);

    for (bi, b) in m.buildings.iter().enumerate() {
        let size = objects
            .iter()
            .find(|o| o.index == b.id)
            .map(|o| o.size)
            .expect("building id must be an ObjectInfo index");
        for tile in render_span(b.pos, size) {
            assert_eq!(m.hitmap.index(tile).building, Some(bi), "tile {:?} of building {}", tile, bi);
        }
    }
    assert_eq!(m.hitmap.index((0, 0)).building, None);
    assert_eq!(m.hitmap.index((7, 0)).building, None);
}

#[test]
fn hitbox_of_missing_id_falls_back_to_nothing() {
    let objects = test_objects();
    let mut m = test_map();
    m.buildings = vec![building(9999, (4, 4))];
    m.calc_hitboxes(&objects);
    for (tx, ty) in render_span((4, 4), (1, 1)) {
        assert_eq!(m.hitmap.index((tx, ty)).building, None);
    }
}

#[test]
fn hitbox_cut_at_map_edge_and_ground_kinds() {
    let objects = test_objects();
    let mut m = test_map();
    m.tilemap.inner[0] = 2;
    m.tilemap.inner[1] = 0;
    m.buildings = vec![building(515, (1, 0))];
    m.calc_hitboxes(&objects);
    assert_eq!(m.hitmap.index((0, 0)).building, Some(0));
    assert_eq!(m.hitmap.index((1, 0)).building, Some(0));
    assert_eq!(m.hitmap.index((2, 0)).building, None);
    assert!(!m.hitmap.inner[0].passable);
    assert!(m.hitmap.inner[1].passable);
    assert!(m.hitmap.inner[1].need_transport);
    assert!(!m.hitmap.inner[2].need_transport);
}

#[test]
fn armies_are_marked_on_their_tiles() {
    let mut m = test_map();
    let stats = ArmyStats { gold: 0, mana: 0, army_name: "A".into() };
    let slot = TroopSlot { size: (1, 1), pos: UnitPos(0, 0), dead: false };
    m.armys = vec![
        Army::new(vec![slot], stats.clone(), vec![], (2, 3), true, Control::PC),
        Army::new(vec![slot], stats, vec![], (5, 1), true, Control::Player(0)),
    ];
    m.hitmap.inner[0].army = Some(7);
    m.recalc_armies_hitboxes();
    assert_eq!(m.hitmap.index((2, 3)).army, Some(0));
    assert_eq!(m.hitmap.index((5, 1)).army, Some(1));
    assert_eq!(m.hitmap.inner[0].army, None);
    assert!(!m.hitmap.index((2, 3)).passable());
}

#[test]
fn events_of_a_tile_come_from_its_first_lantern() {
    let mut m = GameMap::default();
    let lantern = |x: usize, y: usize, events: Vec<usize>| MapLantern {
        x,
        y,
        id: 0,
        map_model: 9,
        light_radius: 3,
        active_from_start: false,
        events,
    };
    m.lanterns = vec![lantern(1, 1, vec![4, 5]), lantern(1, 1, vec![9]), lantern(2, 0, vec![])];
    assert_eq!(m.events_at(1, 1), &[4, 5]);
    assert_eq!(m.events_at(2, 0), &[] as &[usize]);
    assert_eq!(m.events_at(3, 3), &[] as &[usize]);
}
