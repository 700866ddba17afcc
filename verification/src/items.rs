//! Items and the magic schools they ask for.
use crate::registry::{BonusId, Registry};
use crate::units::{MagicType, Power, UnitInventory, UnitType};
use vstd::prelude::*;

verus! {

#[derive(Clone, Copy, Debug, PartialEq, Eq, Structural)]
pub enum ItemType {
    Artifact,
    Potion,
}

#[derive(Clone, Copy, Debug, PartialEq, Eq, Structural)]
pub enum WeaponType {
    Hand,
    Ranged,
    Magic,
}

/// Slot kind of an artifact.
#[derive(Clone, Copy, Debug, PartialEq, Eq, Structural)]
pub enum ArtifactType {
    Weapon(WeaponType),
    Armor,
    Shield,
    Helmet,
    Ring,
    Amulet,
    Item,
    Potion,
}

/// An item, by its index in the items registry.
#[derive(Clone, Copy, Debug, PartialEq, Eq, Structural)]
pub struct Item {
    pub index: usize,
}

/// What the game knows of a kind of item: its texts, price, slot, the
/// magic it asks for and its bonus.
#[derive(Debug, Clone, PartialEq, Eq)]
pub struct ItemInfo {
    pub name: String,
    pub description: String,
    pub cost: u64,
    pub icon: String,
    pub sells: bool,
    pub itemtype: ArtifactType,
    pub magic_req: MagicVariants,
    pub bonus: Option<BonusId>,
}

impl Item {
    /// The registry entry of this item.
    pub fn get_info<'a>(&self, registry: &'a Registry<ItemInfo>) -> (r: &'a ItemInfo)
        requires
            self.index < registry.entries().len(),
        ensures
            *r == registry.entries()[self.index as int],
    {
        registry.get_entry(self.index)
    }
}

/// The magic school an item asks of its bearer.
#[derive(Clone, Copy, Debug, PartialEq, Eq, Structural)]
pub enum MagicVariants {
    Any,
    Death,
    Life,
    Elemental,
}

/// Whether a unit of magic school `magic_type` (`None`: no magic) meets
/// the requirement `magic_variant`.
pub open spec fn magic_fits(magic_type: Option<MagicType>, magic_variant: MagicVariants) -> bool {
    match magic_type {
        None => magic_variant == MagicVariants::Any,
        Some(t) => magic_variant == MagicVariants::Any || (t == MagicType::Death && magic_variant
            == MagicVariants::Death) || (t == MagicType::Life && magic_variant
            == MagicVariants::Life) || (t == MagicType::Elemental && magic_variant
            == MagicVariants::Elemental),
    }
}

/// The requirement that names the magic school `t`.
pub open spec fn school_requirement(t: MagicType) -> MagicVariants {
    match t {
        MagicType::Life => MagicVariants::Life,
        MagicType::Death => MagicVariants::Death,
        MagicType::Elemental => MagicVariants::Elemental,
    }
}

/// Who meets which magic requirement: a mage of any school meets the
/// requirement of its own school, and `Any`; a unit without magic meets
/// `Any` only; nobody meets the requirement of another school.
pub proof fn lemma_magic_requirements(t: MagicType, v: MagicVariants)
    ensures
        magic_fits(Some(t), school_requirement(t)),
        magic_fits(Some(t), MagicVariants::Any),
        magic_fits(None, MagicVariants::Any),
        v != MagicVariants::Any ==> !magic_fits(None, v),
        v != MagicVariants::Any && v != school_requirement(t) ==> !magic_fits(Some(t), v),
{
}

/// Whether a unit of magic school `magic_type` may use an item asking
/// for `magic_variant`: `Any` suits everybody, a school suits its mages only.
pub fn magic_relates(magic_type: Option<MagicType>, magic_variant: MagicVariants) -> (r: bool)
    ensures
        r == magic_fits(magic_type, magic_variant),
{
    let magic_type = match magic_type {
        Some(t) => t,
        None => {
            return match magic_variant {
                MagicVariants::Any => true,
                _ => false,
            };
        },
    };
    match (magic_type, magic_variant) {
        (MagicType::Death, MagicVariants::Death) => true,
        (MagicType::Life, MagicVariants::Life) => true,
        (MagicType::Elemental, MagicVariants::Elemental) => true,
        (_, MagicVariants::Any) => true,
        (_, _) => false,
    }
}

/// The attack power of the kind a weapon uses.
pub open spec fn weapon_power(damage: Power, w: WeaponType) -> u64 {
    match w {
        WeaponType::Hand => damage.hand,
        WeaponType::Ranged => damage.ranged,
        WeaponType::Magic => damage.magic,
    }
}

/// Whether an inventory slot holds an item of kind `t`.
pub open spec fn slot_of_kind(slot: Option<Item>, items: Seq<ItemInfo>, t: ArtifactType) -> bool {
    match slot {
        Some(it) => items[it.index as int].itemtype == t,
        None => false,
    }
}

/// Whether an inventory slot holds a weapon.
pub open spec fn slot_weapon(slot: Option<Item>, items: Seq<ItemInfo>) -> bool {
    match slot {
        Some(it) => items[it.index as int].itemtype is Weapon,
        None => false,
    }
}

/// Whether some carried item is of kind `t`.
pub open spec fn holds_kind(inv: Seq<Option<Item>>, items: Seq<ItemInfo>, t: ArtifactType) -> bool {
    exists|i: int| 0 <= i < inv.len() && #[trigger] slot_of_kind(inv[i], items, t)
}

/// Whether some carried item is a weapon.
pub open spec fn holds_weapon(inv: Seq<Option<Item>>, items: Seq<ItemInfo>) -> bool {
    exists|i: int| 0 <= i < inv.len() && #[trigger] slot_weapon(inv[i], items)
}

/// Every carried item is registered.
pub open spec fn all_registered(inv: Seq<Option<Item>>, items: Seq<ItemInfo>) -> bool {
    forall|i: int| 0 <= i < inv.len() ==> (#[trigger] inv[i] matches Some(it) ==> it.index < items.len())
}

/// The carried items up to the first weapon are registered.
pub open spec fn weapon_scan_ok(inv: Seq<Option<Item>>, items: Seq<ItemInfo>) -> bool
    decreases inv.len(),
{
    if inv.len() == 0 {
        true
    } else {
        match inv[0] {
            None => weapon_scan_ok(inv.drop_first(), items),
            Some(it) => it.index < items.len() && (items[it.index as int].itemtype is Weapon || weapon_scan_ok(
                inv.drop_first(),
                items,
            )),
        }
    }
}

/// The items an equip check looks up are registered: all carried items
/// for a piece of armour or jewellery, those up to the first weapon for a
/// weapon the unit can wield.
pub open spec fn equip_lookups_ok(t: ArtifactType, damage: Power, inv: Seq<Option<Item>>, items: Seq<ItemInfo>) -> bool {
    match t {
        ArtifactType::Item | ArtifactType::Potion => true,
        ArtifactType::Weapon(w) => weapon_power(damage, w) > 0 ==> weapon_scan_ok(inv, items),
        _ => all_registered(inv, items),
    }
}

/// Whether a unit may take an item of kind `t` asking for magic `req`:
/// no machine takes items, the magic must fit; a potion always goes, a
/// plain item never; a weapon needs power of its kind and no weapon
/// carried; anything else needs no item of its kind carried.
pub open spec fn equip_allowed(
    t: ArtifactType,
    req: MagicVariants,
    unit_type: UnitType,
    magic_type: Option<MagicType>,
    damage: Power,
    inv: Seq<Option<Item>>,
    items: Seq<ItemInfo>,
) -> bool {
    &&& unit_type != UnitType::Mecha
    &&& magic_fits(magic_type, req)
    &&& match t {
        ArtifactType::Item => false,
        ArtifactType::Potion => true,
        ArtifactType::Weapon(w) => weapon_power(damage, w) > 0 && !holds_weapon(inv, items),
        _ => !holds_kind(inv, items, t),
    }
}

/// Whether some carried item is of kind `t`.
fn carries_kind(inv: &Vec<Option<Item>>, items: &Registry<ItemInfo>, t: ArtifactType) -> (r: bool)
    requires
        all_registered(inv@, items.entries()),
    ensures
        r == holds_kind(inv@, items.entries(), t),
{
    let mut found = false;
    let mut i: usize = 0;
    while i < inv.len()
        invariant
            i <= inv@.len(),
            all_registered(inv@, items.entries()),
            found == exists|k: int| 0 <= k < i && #[trigger] slot_of_kind(inv@[k], items.entries(), t),
        decreases inv.len() - i,
    {
        match inv[i] {
            Some(it) => {
                assert(inv@[i as int] matches Some(x) ==> x.index < items.entries().len());
                if items.get_entry(it.index).itemtype == t {
                    found = true;
                }
                assert(slot_of_kind(inv@[i as int], items.entries(), t) == (items.entries()[it.index as int].itemtype == t));
            },
            None => {},
        }
        i = i + 1;
    }
    found
}

/// Whether some carried item is a weapon, looking no further than the
/// first one.
fn carries_weapon(inv: &Vec<Option<Item>>, items: &Registry<ItemInfo>) -> (r: bool)
    requires
        weapon_scan_ok(inv@, items.entries()),
    ensures
        r == holds_weapon(inv@, items.entries()),
{
    let ghost e = items.entries();
    let mut i: usize = 0;
    assert(inv@.subrange(0, inv@.len() as int) =~= inv@);
    while i < inv.len()
        invariant
            i <= inv@.len(),
            weapon_scan_ok(inv@.subrange(i as int, inv@.len() as int), e),
            e == items.entries(),
            forall|k: int| 0 <= k < i ==> !#[trigger] slot_weapon(inv@[k], e),
        decreases inv.len() - i,
    {
        let ghost rest = inv@.subrange(i as int, inv@.len() as int);
        assert(rest[0] == inv@[i as int]);
        assert(rest.drop_first() =~= inv@.subrange(i + 1, inv@.len() as int));
        match inv[i] {
            Some(it) => {
                let is_weapon = match items.get_entry(it.index).itemtype {
                    ArtifactType::Weapon(_) => true,
                    _ => false,
                };
                if is_weapon {
                    assert(slot_weapon(inv@[i as int], e));
                    return true;
                }
                assert(!slot_weapon(inv@[i as int], e));
            },
            None => {},
        }
        i = i + 1;
    }
    assert(!holds_weapon(inv@, e));
    false
}

impl ItemInfo {
    /// Whether a unit of nature `unit_type`, magic school `magic_type`
    /// and attack power `damage`, carrying `inventory`, may take this
    /// item (see `equip_allowed`).
    pub fn can_equip(
        &self,
        unit_type: UnitType,
        magic_type: Option<MagicType>,
        damage: Power,
        inventory: &UnitInventory,
        items: &Registry<ItemInfo>,
    ) -> (r: bool)
        requires
            unit_type != UnitType::Mecha && magic_fits(magic_type, self.magic_req) ==> equip_lookups_ok(
                self.itemtype,
                damage,
                inventory.items@,
                items.entries(),
            ),
        ensures
            r == equip_allowed(
                self.itemtype,
                self.magic_req,
                unit_type,
                magic_type,
                damage,
                inventory.items@,
                items.entries(),
            ),
    {
        if unit_type == UnitType::Mecha {
            return false;
        }
        if !magic_relates(magic_type, self.magic_req) {
            return false;
        }
        match self.itemtype {
            ArtifactType::Item => false,
            ArtifactType::Potion => true,
            ArtifactType::Weapon(w) => {
                let power = match w {
                    WeaponType::Hand => damage.hand,
                    WeaponType::Ranged => damage.ranged,
                    WeaponType::Magic => damage.magic,
                };
                power > 0 && !carries_weapon(&inventory.items, items)
            },
            _ => !carries_kind(&inventory.items, items, self.itemtype),
        }
    }
}

impl Item {
    /// Whether a unit may take this item (see `ItemInfo::can_equip`).
    pub fn can_equip(
        &self,
        unit_type: UnitType,
        magic_type: Option<MagicType>,
        damage: Power,
        inventory: &UnitInventory,
        items: &Registry<ItemInfo>,
    ) -> (r: bool)
        requires
            self.index < items.entries().len(),
            unit_type != UnitType::Mecha && magic_fits(magic_type, items.entries()[self.index as int].magic_req)
                ==> equip_lookups_ok(
                items.entries()[self.index as int].itemtype,
                damage,
                inventory.items@,
                items.entries(),
            ),
        ensures
            r == equip_allowed(
                items.entries()[self.index as int].itemtype,
                items.entries()[self.index as int].magic_req,
                unit_type,
                magic_type,
                damage,
                inventory.items@,
                items.entries(),
            ),
    {
        let info = self.get_info(items);
        info.can_equip(unit_type, magic_type, damage, inventory, items)
    }
}

} // verus!
