//! Unit data: attack power, magic kinds, levels, inventories and positions
//! on the battle grid.
use crate::items::Item;
use vstd::prelude::*;
use vstd::std_specs::cmp::PartialEqSpec;

verus! {

/// Places of one army on the battle grid (two lines of six).
pub const MAX_TROOPS: usize = 12;

/// Lines of one army on the battle grid.
pub const MAX_LINES: usize = 2;

/// Attack power by kind.
#[derive(Clone, Copy, Debug, PartialEq, Eq, Structural)]
pub struct Power {
    pub magic: u64,
    pub ranged: u64,
    pub hand: u64,
}

impl Power {
    pub fn new(magic: u64, ranged: u64, hand: u64) -> (r: Self)
        ensures
            r == (Power { magic, ranged, hand }),
    {
        Power { magic, ranged, hand }
    }
}

impl Default for Power {
    fn default() -> (r: Self)
        ensures
            r == (Power { magic: 0, ranged: 0, hand: 0 }),
    {
        Power { magic: 0, ranged: 0, hand: 0 }
    }
}

/// Whom a mage's spells may target.
#[derive(Clone, Copy, Debug, PartialEq, Eq, Structural)]
pub enum MagicDirection {
    ToAlly,
    ToAll,
    ToEnemy,
    CurseOnly,
    StrikeOnly,
    BlessOnly,
    CureOnly,
}

impl Default for MagicDirection {
    fn default() -> (r: Self)
        ensures
            r == MagicDirection::ToAll,
    {
        MagicDirection::ToAll
    }
}

/// School of magic.
#[derive(Clone, Copy, Debug, PartialEq, Eq, Structural)]
pub enum MagicType {
    Life,
    Death,
    Elemental,
}

/// Items carried by a unit (empty slots are `None`).
#[derive(Clone, Debug, PartialEq, Eq)]
pub struct UnitInventory {
    pub items: Vec<Option<Item>>,
}

/// Level and experience of a unit.
#[derive(Clone, Copy, Debug, PartialEq, Eq, Structural)]
pub struct UnitLvl {
    pub lvl: u64,
    pub max_xp: u64,
    pub xp: u64,
}

/// A place on the battle grid: column (0 to 5) and line.
#[derive(Clone, Copy, Debug, PartialEq, Eq, Structural)]
pub struct UnitPos(pub usize, pub usize);

impl UnitPos {
    /// The place of grid index `index`.
    pub fn from_index(index: usize) -> (r: Self)
        ensures
            r == UnitPos(index % 6, index / 6),
    {
        let per_line = MAX_TROOPS / MAX_LINES;
        UnitPos(index % per_line, index / per_line)
    }

    /// The grid index of this place.
    pub fn whole(&self) -> (r: usize)
        requires
            self.0 + self.1 * 12 <= usize::MAX,
        ensures
            r == self.0 + self.1 * 12 / 2,
    {
        self.0 + self.1 * MAX_TROOPS / MAX_LINES
    }
}

/// Nature of a unit.
#[derive(Clone, Copy, Debug, PartialEq, Eq, Structural)]
pub enum UnitType {
    People,
    Hero,
    Animal,
    Mecha,
    Undead,
    Rogue,
}

impl Default for UnitType {
    fn default() -> (r: Self)
        ensures
            r == UnitType::People,
    {
        UnitType::People
    }
}

/// How a unit attacks.
#[derive(Clone, Copy, Debug, PartialEq, Eq)]
pub struct AttackSettings {
    /// Area hit by one attack (columns, lines).
    pub attack_size: (usize, usize),
    pub distribute_attack: bool,
    pub attacks_from_reserve: bool,
}

impl Default for AttackSettings {
    fn default() -> (r: Self)
        ensures
            r == (AttackSettings {
                attack_size: (1, 1),
                distribute_attack: false,
                attacks_from_reserve: false,
            }),
    {
        AttackSettings { attack_size: (1, 1), distribute_attack: false, attacks_from_reserve: false }
    }
}

/// What an action in battle did.
#[derive(Clone, Copy, Debug, PartialEq, Eq, Structural)]
pub enum ActionResult {
    Buff,
    Debuff,
    Melee,
    Ranged,
    Move,
}

/// Whether `t` equals the default value of its type.
pub fn is_default<T: Default + PartialEq>(t: &T) -> (r: bool)
    ensures
        T::obeys_eq_spec() ==> exists|d: T| call_ensures(T::default, (), d) && r == t.eq_spec(&d),
{
    let d = T::default();
    *t == d
}

pub fn is_true(t: &bool) -> (r: bool)
    ensures
        r == *t,
{
    *t
}

pub fn is_false(t: &bool) -> (r: bool)
    ensures
        r == !*t,
{
    !*t
}

} // verus!
