use dt_lib::army::{Army, ArmyStats, Control, TroopSlot};
use dt_lib::battlefield::BattleUnitPos;
use dt_lib::items::Item;
use dt_lib::object::{HireTerms, RecruitUnit, Recruitment};
use dt_lib::units::UnitPos;

fn slot(w: usize, h: usize) -> TroopSlot {
    TroopSlot { size: (w, h), pos: UnitPos(0, 0), dead: false }
}

fn stats() -> ArmyStats {
    ArmyStats { gold: 100, mana: 0, army_name: "Test".into() }
}

#[test]
fn hitmap_solo_marks_rectangle() {
    let mut h: Vec<Option<usize>> = vec![None; 12];
    Army::recalc_hitmap_solo(&mut h, (2, 1), UnitPos(1, 0), 3, 6);
    assert_eq!(h[1], Some(3));
    assert_eq!(h[2], Some(3));
    assert_eq!(h.iter().filter(|x| x.is_some()).count(), 2);
    Army::recalc_hitmap_solo(&mut h, (1, 2), UnitPos(4, 0), 7, 6);
    assert_eq!(h[4], Some(7));
    assert_eq!(h[10], Some(7));
}

#[test]
fn fit_respects_zones() {
    let h: Vec<Option<usize>> = vec![None; 12];
    assert_eq!(Army::fit(&h, (1, 1), 2, 6), (0..12).collect::<Vec<usize>>());
    assert_eq!(Army::fit(&h, (2, 1), 2, 6), vec![1, 2, 3, 7, 8, 9]);
    assert_eq!(Army::fit(&h, (1, 2), 2, 6), vec![0, 1, 2, 3, 4, 5]);
    assert!(!Army::fit_to(&h, (2, 1), 6, 2, 0, 0));
    assert!(Army::fit_to(&h, (2, 1), 6, 2, 0, 1));
    let mut taken = h.clone();
    taken[2] = Some(0);
    assert_eq!(Army::fit(&taken, (2, 1), 2, 6), vec![3, 7, 8, 9]);
}

#[test]
fn new_army_places_troops_in_order() {
    let army = Army::new(
        vec![slot(1, 1), slot(1, 1), slot(2, 2)],
        stats(),
        vec![Some(Item { index: 5 })],
        (3, 4),
        true,
        Control::PC,
    );
    assert_eq!(army.troops.len(), 3);
    assert_eq!(army.troops[0].pos, UnitPos(0, 0));
    assert_eq!(army.troops[1].pos, UnitPos(1, 0));
    assert_eq!(army.troops[2].pos, UnitPos(2, 0));
    assert_eq!(army.hitmap[0], Some(0));
    assert_eq!(army.hitmap[1], Some(1));
    assert_eq!(army.hitmap[2], Some(2));
    assert_eq!(army.hitmap[3], Some(2));
    assert_eq!(army.hitmap[8], Some(2));
    assert_eq!(army.hitmap[9], Some(2));
    assert_eq!(army.inventory, vec![Some(Item { index: 5 }), None, None, None]);
    assert_eq!(army.get_troop(9), Some(army.troops[2]));
    assert_eq!(army.get_troop(11), None);
}

#[test]
fn troop_that_fits_nowhere_is_refused() {
    let mut army = Army::new(vec![], stats(), vec![], (0, 0), true, Control::Player(1));
    assert!(army.add_troop(slot(6, 2)).is_err());
    assert!(army.troops.is_empty());
    assert!(army.add_troop(slot(4, 2)).is_ok());
    assert_eq!(army.troops[0].pos, UnitPos(1, 0));
    assert!(army.add_troop(slot(4, 2)).is_err());
}

#[test]
fn inventory_add_and_remove() {
    let mut army = Army::new(vec![], stats(), vec![Some(Item { index: 1 }), None, Some(Item { index: 2 })], (0, 0), true, Control::PC);
    army.add_item(Item { index: 9 });
    assert_eq!(army.inventory, vec![Some(Item { index: 1 }), Some(Item { index: 9 }), Some(Item { index: 2 }), None]);
    army.remove_item(9);
    assert_eq!(army.inventory, vec![Some(Item { index: 1 }), Some(Item { index: 2 }), None]);
    army.remove_item(42);
    assert_eq!(army.inventory.len(), 3);
}

fn item_registry() -> dt_lib::registry::Registry<dt_lib::items::ItemInfo> {
    let mut reg = dt_lib::registry::Registry::new();
    reg.register(
        dt_lib::items::ItemInfo {
            name: "Sword".into(),
            description: String::new(),
            cost: 100,
            icon: String::new(),
            sells: true,
            itemtype: dt_lib::items::ArtifactType::Item,
            magic_req: dt_lib::items::MagicVariants::Any,
            bonus: None,
        },
        "sword",
    );
    reg
}

#[test]
fn market_buy_takes_item_and_gold() {
    let registry = item_registry();
    let mut army = Army::new(vec![slot(1, 1)], stats(), vec![], (0, 0), true, Control::PC);
    army.stats.gold = 150;
    let mut market = dt_lib::object::Market::new((0, 1000), vec![Item { index: 0 }], 5);
    market.buy(&mut army, 0, &registry);
    assert_eq!(army.stats.gold, 50);
    assert_eq!(market.items.len(), 0);
    assert!(army.inventory.iter().any(|it| it.is_some()));
}

#[test]
fn market_sell_pays_half_and_refills() {
    let registry = item_registry();
    let mut army = Army::new(vec![slot(1, 1)], stats(), vec![], (0, 0), true, Control::PC);
    army.stats.gold = 0;
    army.add_item(Item { index: 0 });
    let mut market = dt_lib::object::Market::new((0, 1000), vec![], 5);
    let revenue = market.sell(&mut army, 0, &registry).unwrap();
    assert_eq!(revenue, 50);
    assert_eq!(army.stats.gold, 50);
    assert!(army.inventory[0].is_none());
    assert_eq!(market.items.len(), 1);
    assert!(market.sell(&mut army, 0, &registry).is_err());
}

#[test]
fn market_refuses_poor_buyer() {
    let registry = item_registry();
    let mut army = Army::new(vec![], stats(), vec![], (0, 0), true, Control::PC);
    army.stats.gold = 99;
    let mut market = dt_lib::object::Market::new((0, 1000), vec![Item { index: 0 }], 5);
    assert!(!market.can_buy(&army, 0, &registry));
    market.buy(&mut army, 0, &registry);
    assert_eq!(army.stats.gold, 99);
    assert_eq!(market.items.len(), 1);
    assert_eq!(market.get_item_cost(0, &registry), 100);
    market.update(&registry);
    assert_eq!(market.items.len(), 1);
}

#[test]
fn recruitment_buy_spends_gold_and_adds_troop() {
    let units = vec![HireTerms { cost_hire: 50, size: (1, 1) }];
    let mut army = Army::new(vec![slot(1, 1)], stats(), vec![], (0, 0), true, Control::PC);
    army.stats.gold = 200;
    let mut rec = Recruitment::new(vec![RecruitUnit { unit: 0, count: 2 }]);
    assert!(rec.buy(&mut army, 0, &units).is_ok());
    assert_eq!(army.stats.gold, 150);
    assert_eq!(rec.units[0].count, 1);
    assert_eq!(army.troops.len(), 2);
    assert!(rec.buy(&mut army, 0, &units).is_ok());
    assert_eq!(rec.units[0].count, 0);
    let gold = army.stats.gold;
    assert!(rec.buy(&mut army, 0, &units).is_err());
    assert_eq!(army.stats.gold, gold);
}

#[test]
fn recruitment_needs_gold_and_room() {
    let units = vec![HireTerms { cost_hire: 50, size: (1, 1) }, HireTerms { cost_hire: 10, size: (6, 2) }];
    let mut army = Army::new(vec![slot(1, 1)], stats(), vec![], (0, 0), true, Control::PC);
    army.stats.gold = 40;
    let mut rec = Recruitment::new(vec![RecruitUnit { unit: 0, count: 3 }, RecruitUnit { unit: 1, count: 1 }]);
    assert!(!rec.can_buy(&army, 0, &units));
    assert!(rec.buy(&mut army, 0, &units).is_err());
    assert_eq!(rec.units[0].count, 3);
    assert!(rec.can_buy(&army, 1, &units));
    assert_eq!(rec.buy(&mut army, 1, &units), Err(()));
    assert_eq!(army.stats.gold, 30);
    assert_eq!(rec.units[1].count, 0);
    assert_eq!(army.troops.len(), 1);
    let mut army2 = Army::new(vec![slot(1, 1)], stats(), vec![], (0, 0), true, Control::PC);
    let mut rec2 = Recruitment::new(vec![RecruitUnit { unit: 0, count: 1 }]);
    assert_eq!(rec2.buy(&mut army2, 0, &units), Ok(1));
    assert_eq!(army2.troops[1].pos, UnitPos(1, 0));
}

#[test]
fn set_unit_at_places_and_removes() {
    let units = vec![HireTerms { cost_hire: 5, size: (1, 1) }, HireTerms { cost_hire: 5, size: (2, 1) }];
    let mut army = Army::new(vec![slot(1, 1)], stats(), vec![], (0, 0), true, Control::PC);
    army.set_unit_at(Some(0), BattleUnitPos { army: 0, pos: 3 }, &units);
    assert_eq!(army.troops.len(), 2);
    assert_eq!(army.troops[1].pos, UnitPos(3, 0));
    assert_eq!(army.hitmap[3], Some(1));
    army.set_unit_at(None, BattleUnitPos { army: 0, pos: 0 }, &units);
    assert_eq!(army.troops.len(), 1);
    assert_eq!(army.hitmap[0], None);
    assert_eq!(army.hitmap[3], Some(0));
    army.set_unit_at(Some(1), BattleUnitPos { army: 0, pos: 7 }, &units);
    assert_eq!(army.troops.len(), 2);
    assert_eq!(army.hitmap[7], Some(1));
    assert_eq!(army.hitmap[8], Some(1));
}

#[test]
fn set_unit_at_checks_the_old_hitmap() {
    let units = vec![HireTerms { cost_hire: 5, size: (1, 1) }];
    let mut army = Army::new(vec![slot(1, 1)], stats(), vec![], (0, 0), true, Control::PC);
    army.set_unit_at(Some(0), BattleUnitPos { army: 0, pos: 0 }, &units);
    assert_eq!(army.troops.len(), 0);
    assert_eq!(army.hitmap[0], Some(0));
}
