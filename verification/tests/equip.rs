use dt_lib::items::{ArtifactType, Item, ItemInfo, MagicVariants, WeaponType};
use dt_lib::registry::Registry;
use dt_lib::units::{MagicType, Power, UnitInventory, UnitType};

fn info(name: &str, itemtype: ArtifactType, magic_req: MagicVariants) -> ItemInfo {
    ItemInfo {
        name: name.to_string(),
        description: String::new(),
        cost: 10,
        icon: String::new(),
        sells: true,
        itemtype,
        magic_req,
        bonus: None,
    }
}

fn registry() -> Registry<ItemInfo> {
    let mut reg = Registry::new();
    reg.register(info("Sword", ArtifactType::Weapon(WeaponType::Hand), MagicVariants::Any), "Sword");
    reg.register(info("Bow", ArtifactType::Weapon(WeaponType::Ranged), MagicVariants::Any), "Bow");
    reg.register(info("Mail", ArtifactType::Armor, MagicVariants::Any), "Mail");
    reg.register(info("Elixir", ArtifactType::Potion, MagicVariants::Any), "Elixir");
    reg.register(info("Trinket", ArtifactType::Item, MagicVariants::Any), "Trinket");
    reg.register(info("Staff", ArtifactType::Weapon(WeaponType::Magic), MagicVariants::Life), "Staff");
    reg.register(info("Ring", ArtifactType::Ring, MagicVariants::Any), "Ring");
    reg
}

fn inv(items: &[Option<usize>]) -> UnitInventory {
    UnitInventory { items: items.iter().map(|i| i.map(|index| Item { index })).collect() }
}

#[test]
fn machines_take_nothing() {
    let reg = registry();
    let elixir = &reg.inner[3];
    assert!(!elixir.can_equip(UnitType::Mecha, None, Power::new(0, 0, 5), &inv(&[]), &reg));
    assert!(elixir.can_equip(UnitType::People, None, Power::new(0, 0, 5), &inv(&[]), &reg));
}

#[test]
fn magic_must_fit() {
    let reg = registry();
    let staff = &reg.inner[5];
    assert!(!staff.can_equip(UnitType::People, None, Power::new(3, 0, 0), &inv(&[]), &reg));
    assert!(!staff.can_equip(UnitType::People, Some(MagicType::Death), Power::new(3, 0, 0), &inv(&[]), &reg));
    assert!(staff.can_equip(UnitType::People, Some(MagicType::Life), Power::new(3, 0, 0), &inv(&[]), &reg));
}

#[test]
fn plain_items_never_equip() {
    let reg = registry();
    assert!(!reg.inner[4].can_equip(UnitType::Hero, None, Power::new(1, 1, 1), &inv(&[]), &reg));
}

#[test]
fn one_item_of_a_kind() {
    let reg = registry();
    let mail = &reg.inner[2];
    assert!(mail.can_equip(UnitType::People, None, Power::default(), &inv(&[None, Some(6)]), &reg));
    assert!(!mail.can_equip(UnitType::People, None, Power::default(), &inv(&[Some(6), None, Some(2)]), &reg));
}

#[test]
fn weapons_need_power_and_a_free_hand() {
    let reg = registry();
    let sword = &reg.inner[0];
    assert!(!sword.can_equip(UnitType::People, None, Power::new(0, 4, 0), &inv(&[]), &reg));
    assert!(sword.can_equip(UnitType::People, None, Power::new(0, 0, 4), &inv(&[Some(2), None]), &reg));
    assert!(!sword.can_equip(UnitType::People, None, Power::new(0, 0, 4), &inv(&[Some(1)]), &reg));
}

#[test]
fn item_checks_through_registry() {
    let reg = registry();
    let bow = Item { index: 1 };
    assert!(bow.can_equip(UnitType::Rogue, None, Power::new(0, 2, 0), &inv(&[Some(3)]), &reg));
    assert!(!bow.can_equip(UnitType::Rogue, None, Power::new(0, 2, 0), &inv(&[Some(0)]), &reg));
}
