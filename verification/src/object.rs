//! Objects standing on the map: buildings, bridges, decorations, markets
//! and recruitment offers.
use crate::army::Army;
use crate::army::{first_free_slot, fit_list, place_of, Relations, TroopSlot};
use crate::registry::UnitId;
use crate::units::{UnitPos, MAX_LINES, MAX_TROOPS};
use crate::items::{Item, ItemInfo};
use crate::registry::Registry;
use crate::text::str_eq;
use vstd::prelude::*;
use vstd::std_specs::cmp::PartialEqSpecImpl;

verus! {

/// Kind of a map object, with its index in the map file.
#[derive(Clone, Copy, Debug, PartialEq, Eq, Structural)]
pub enum ObjectType {
    Building { group: u8, variant: u8 },
    Bridge { group: u8, variant: u8 },
    MapDeco { id: usize },
}

/// Description of a kind of map object.
#[derive(Debug)]
pub struct ObjectInfo {
    pub name: String,
    pub path: String,
    pub category: String,
    pub obj_type: ObjectType,
    pub index: usize,
    /// Footprint in tiles.
    pub size: (u8, u8),
}

/// The value of an object description.
pub struct ObjectInfoView {
    pub name: Seq<char>,
    pub path: Seq<char>,
    pub category: Seq<char>,
    pub obj_type: ObjectType,
    pub index: usize,
    pub size: (u8, u8),
}

impl View for ObjectInfo {
    type V = ObjectInfoView;

    open spec fn view(&self) -> ObjectInfoView {
        ObjectInfoView {
            name: self.name@,
            path: self.path@,
            category: self.category@,
            obj_type: self.obj_type,
            index: self.index,
            size: self.size,
        }
    }
}

impl PartialEq for ObjectInfo {
    fn eq(&self, other: &Self) -> (r: bool) {
        str_eq(self.name.as_str(), other.name.as_str()) && str_eq(self.path.as_str(), other.path.as_str())
            && str_eq(self.category.as_str(), other.category.as_str()) && self.obj_type == other.obj_type
            && self.index == other.index && self.size.0 == other.size.0 && self.size.1 == other.size.1
    }
}

impl PartialEqSpecImpl for ObjectInfo {
    open spec fn obeys_eq_spec() -> bool {
        true
    }

    open spec fn eq_spec(&self, other: &Self) -> bool {
        self@ == other@
    }
}

/// Income limits of a village.
#[derive(Clone, Copy, Debug, PartialEq, Eq, Structural)]
pub struct Village {
    pub max_gold: u64,
    pub max_mana: u64,
}

/// What a building is.
#[derive(Clone, Debug, PartialEq, Eq)]
pub enum BuildingVariant {
    Town,
    Village(Village),
    Castle,
    Fort,
    Tavern,
    Market,
    Church,
    Forge,
    Port,
    Altar,
    Mine,
    /// Ruins guard the listed items.
    Ruins(Vec<Item>),
    StoneBridge,
    WoodenBridge,
}

/// A market: items on sale within a cost range.
#[derive(Debug, PartialEq, Eq)]
pub struct Market {
    /// Lowest and highest cost of the items it stocks.
    pub itemcost_range: (u64, u64),
    pub items: Vec<Item>,
    pub max_items: usize,
}

impl Market {
    pub fn new(itemcost_range: (u64, u64), items: Vec<Item>, max_items: usize) -> (r: Self)
        ensures
            r.itemcost_range == itemcost_range,
            r.items@ == items@,
            r.max_items == max_items,
    {
        Market { itemcost_range, items, max_items }
    }

    /// Restocking: the stock is left as it is (the range of new items it
    /// walks is empty).
    pub fn update(&mut self, items: &Registry<ItemInfo>)
        requires
            old(self).items@.len() <= old(self).max_items,
        ensures
            *final(self) == *old(self),
    {
        let _start = self.max_items - self.items.len();
    }

    /// The price of item `item_num` of the stock.
    pub fn get_item_cost(&self, item_num: usize, registry: &Registry<ItemInfo>) -> (r: u64)
        requires
            item_num < self.items@.len(),
            self.items@[item_num as int].index < registry.entries().len(),
        ensures
            r == registry.entries()[self.items@[item_num as int].index as int].cost,
    {
        self.items[item_num].get_info(registry).cost
    }

    /// Whether `buyer` may buy item `item_num`: the item is for sale and
    /// the buyer has its price.
    pub fn can_buy(&self, buyer: &Army, item_num: usize, registry: &Registry<ItemInfo>) -> (r: bool)
        requires
            item_num < self.items@.len(),
            self.items@[item_num as int].index < registry.entries().len(),
        ensures
            ({
                let info = registry.entries()[self.items@[item_num as int].index as int];
                r == (info.sells && buyer.stats.gold >= info.cost)
            }),
    {
        if self.items[item_num].get_info(registry).sells {
            return buyer.stats.gold >= self.get_item_cost(item_num, registry);
        }
        false
    }

    /// Sells item `item_num` to `buyer` if it may buy it: the price is paid
    /// and the item leaves the stock for the buyer's first free slot (it is
    /// lost when there is none).
    pub fn buy(&mut self, buyer: &mut Army, item_num: usize, registry: &Registry<ItemInfo>)
        requires
            item_num < old(self).items@.len(),
            old(self).items@[item_num as int].index < registry.entries().len(),
        ensures
            ({
                let item = old(self).items@[item_num as int];
                let info = registry.entries()[item.index as int];
                if info.sells && old(buyer).stats.gold >= info.cost {
                    &&& final(buyer).stats.gold == old(buyer).stats.gold - info.cost
                    &&& final(self).items@ == old(self).items@.remove(item_num as int)
                    &&& final(buyer).inventory@ == match first_free_slot(old(buyer).inventory@) {
                        Some(i) => old(buyer).inventory@.update(i, Some(item)),
                        None => old(buyer).inventory@,
                    }
                } else {
                    *final(self) == *old(self) && *final(buyer) == *old(buyer)
                }
            }),
            final(buyer).troops == old(buyer).troops,
            final(buyer).hitmap == old(buyer).hitmap,
            final(self).max_items == old(self).max_items,
    {
        if self.can_buy(buyer, item_num, registry) {
            let cost = self.get_item_cost(item_num, registry);
            buyer.stats.gold = buyer.stats.gold - cost;
            let item = self.items.remove(item_num);
            buyer.add_item(item);
        }
    }

    /// Buys the item in slot `inventory_pos` of `seller` for half its
    /// price; the market keeps it if it has room. Fails, changing nothing,
    /// when the slot holds no item.
    pub fn sell(&mut self, seller: &mut Army, inventory_pos: usize, registry: &Registry<ItemInfo>) -> (r: Result<u64, ()>)
        requires
            inventory_pos < old(seller).inventory@.len() ==> match old(seller).inventory@[inventory_pos as int] {
                Some(it) => it.index < registry.entries().len(),
                None => true,
            },
        ensures
            final(seller).troops == old(seller).troops,
            final(seller).hitmap == old(seller).hitmap,
            final(self).max_items == old(self).max_items,
            match if inventory_pos < old(seller).inventory@.len() {
                old(seller).inventory@[inventory_pos as int]
            } else {
                None
            } {
                None => r is Err && *final(self) == *old(self) && *final(seller) == *old(seller),
                Some(item) => {
                    let revenue = registry.entries()[item.index as int].cost / 2;
                    &&& r == Ok::<u64, ()>(revenue)
                    &&& final(seller).inventory@ == old(seller).inventory@.update(inventory_pos as int, None)
                    &&& final(seller).stats.gold == if old(seller).stats.gold + revenue > u64::MAX {
                        u64::MAX
                    } else {
                        (old(seller).stats.gold + revenue) as u64
                    }
                    &&& final(self).items@ == if old(self).items@.len() < old(self).max_items {
                        old(self).items@.push(item)
                    } else {
                        old(self).items@
                    }
                },
            },
    {
        let item = if inventory_pos < seller.inventory.len() {
            seller.inventory[inventory_pos]
        } else {
            None
        };
        let item = match item {
            Some(it) => it,
            None => return Err(()),
        };
        let revenue = item.get_info(registry).cost / 2;
        seller.inventory.set(inventory_pos, None);
        seller.stats.gold = seller.stats.gold.saturating_add(revenue);
        if self.items.len() < self.max_items {
            self.items.push(item);
        }
        Ok(revenue)
    }
}

/// A recruitment offer: `count` units of kind `unit`.
#[derive(Clone, Copy, Debug, PartialEq, Eq, Structural)]
pub struct RecruitUnit {
    pub unit: usize,
    pub count: usize,
}

/// What hiring reads of a kind of unit: its price and the places it takes
/// on the battle grid.
#[derive(Clone, Copy, Debug, PartialEq, Eq)]
pub struct HireTerms {
    pub cost_hire: u64,
    pub size: (usize, usize),
}

/// The units a building offers for hire.
#[derive(Clone, Debug, PartialEq, Eq)]
pub struct Recruitment {
    pub units: Vec<RecruitUnit>,
}

impl Recruitment {
    pub fn new(units: Vec<RecruitUnit>) -> (r: Self)
        ensures
            r.units@ == units@,
    {
        Recruitment { units }
    }

    /// Whether `buyer` may hire offer `unit_num`: some are left and the
    /// buyer has the price (`units` gives the terms of each kind of unit).
    pub fn can_buy(&self, buyer: &Army, unit_num: usize, units: &Vec<HireTerms>) -> (r: bool)
        requires
            unit_num < self.units@.len(),
            self.units@[unit_num as int].unit < units@.len(),
        ensures
            r == (buyer.stats.gold >= units@[self.units@[unit_num as int].unit as int].cost_hire
                && self.units@[unit_num as int].count > 0),
    {
        let recruit = self.units[unit_num];
        let info = units[recruit.unit];
        buyer.stats.gold >= info.cost_hire && recruit.count > 0
    }

    /// Hires one unit of offer `unit_num` into `buyer`: when it may be
    /// hired the price is paid and one fewer is on offer; then the troop is
    /// placed as `Army::add_troop` does (at grid place 0 first). Gives the
    /// troop's index, or `Err` when it cannot be hired (nothing changes)
    /// or does not fit (price and offer stay changed).
    pub fn buy(&mut self, buyer: &mut Army, unit_num: usize, units: &Vec<HireTerms>) -> (r: Result<usize, ()>)
        requires
            unit_num < old(self).units@.len(),
            old(self).units@[unit_num as int].unit < units@.len(),
            old(buyer).grid_ok(),
            units@[old(self).units@[unit_num as int].unit as int].size.1 <= MAX_LINES,
            units@[old(self).units@[unit_num as int].unit as int].size.0 <= MAX_TROOPS / MAX_LINES,
        ensures
            final(buyer).grid_ok(),
            ({
                let offer = old(self).units@[unit_num as int];
                let terms = units@[offer.unit as int];
                if !(old(buyer).stats.gold >= terms.cost_hire && offer.count > 0) {
                    r is Err && *final(self) == *old(self) && *final(buyer) == *old(buyer)
                } else {
                    let fl = fit_list(old(buyer).hitmap@, terms.size, MAX_LINES, MAX_TROOPS / MAX_LINES, 0, 0);
                    &&& final(self).units@ == old(self).units@.update(
                        unit_num as int,
                        RecruitUnit { unit: offer.unit, count: (offer.count - 1) as usize },
                    )
                    &&& final(buyer).stats.gold == old(buyer).stats.gold - terms.cost_hire
                    &&& final(buyer).stats.mana == old(buyer).stats.mana
                    &&& final(buyer).stats.army_name == old(buyer).stats.army_name
                    &&& final(buyer).inventory == old(buyer).inventory
                    &&& if fl.len() == 0 {
                        &&& r is Err
                        &&& final(buyer).troops == old(buyer).troops
                    } else {
                        &&& r == Ok::<usize, ()>(old(buyer).troops@.len() as usize)
                        &&& final(buyer).troops@ == old(buyer).troops@.push(
                            TroopSlot { size: terms.size, pos: place_of(fl[0]), dead: false },
                        )
                    }
                }
            }),
    {
        if !self.can_buy(buyer, unit_num, units) {
            return Err(());
        }
        let terms = units[self.units[unit_num].unit];
        buyer.stats.gold = buyer.stats.gold - terms.cost_hire;
        let offer = self.units[unit_num];
        self.units.set(unit_num, RecruitUnit { unit: offer.unit, count: offer.count - 1 });
        let troop = TroopSlot { size: terms.size, pos: UnitPos::from_index(0), dead: false };
        match buyer.add_troop(troop) {
            Ok(()) => Ok(buyer.troops.len() - 1),
            Err(()) => Err(()),
        }
    }
}

/// A building standing on the map.
#[derive(Debug)]
pub struct MapBuildingdata {
    pub name: String,
    pub desc: String,
    pub owner_name: String,
    /// The `index` of its object description.
    pub id: usize,
    pub events: Vec<usize>,
    pub variant: BuildingVariant,
    pub market: Option<Market>,
    pub recruitment: Option<Recruitment>,
    /// Its anchor: the bottom-right tile of its footprint.
    pub pos: (usize, usize),
    pub owner: Option<usize>,
    pub garrison: Vec<UnitId>,
    pub additional_defense: u64,
    pub gold_income: u64,
    pub mana_income: u64,
    pub spells_to_learn: Vec<usize>,
    pub relations: Relations,
    pub group: usize,
}

} // verus!
