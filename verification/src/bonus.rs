//! Abilities of units: when they fire, whom they reach, which stat they
//! touch. Targets are chosen on the battle field by army and place.
use crate::battlefield::{BattleUnit, HitMap};
use vstd::prelude::*;

verus! {

/// The moment an ability fires.
#[derive(Debug, Clone, Copy, PartialEq, Eq, Structural)]
pub enum AbilityCondition {
    BattleStart,
    Turn,
    BattleEnd,
    Kill,
    Attacked,
    Attacking,
    Moves,
    Skips,
}

/// Number of moments an ability can fire at.
pub const MAX_ABILITY: usize = 8;

impl AbilityCondition {
    /// The number of the moment, in the order of the variants.
    pub fn index(&self) -> (r: usize)
        ensures
            r < MAX_ABILITY,
            r == match self {
                AbilityCondition::BattleStart => 0usize,
                AbilityCondition::Turn => 1,
                AbilityCondition::BattleEnd => 2,
                AbilityCondition::Kill => 3,
                AbilityCondition::Attacked => 4,
                AbilityCondition::Attacking => 5,
                AbilityCondition::Moves => 6,
                AbilityCondition::Skips => 7,
            },
    {
        match self {
            AbilityCondition::BattleStart => 0,
            AbilityCondition::Turn => 1,
            AbilityCondition::BattleEnd => 2,
            AbilityCondition::Kill => 3,
            AbilityCondition::Attacked => 4,
            AbilityCondition::Attacking => 5,
            AbilityCondition::Moves => 6,
            AbilityCondition::Skips => 7,
        }
    }
}

/// A unit taking part in an ability: its owner, the one that acted, the
/// one acted upon.
#[derive(Debug, Clone, Copy, PartialEq, Eq, Structural)]
pub enum AbilityUnit {
    Myself,
    Actor,
    Affected,
}

/// Index of an ability unit in the list of units of an ability.
pub open spec fn ability_slot(u: AbilityUnit) -> usize {
    match u {
        AbilityUnit::Myself => 0,
        AbilityUnit::Actor => 1,
        AbilityUnit::Affected => 2,
    }
}

/// Whom an ability reaches.
#[derive(Debug, Clone, Copy, PartialEq, Eq, Structural)]
pub enum RelativeUnit {
    ByAbilityUnit(AbilityUnit),
    Absolute { index: usize, my_army: bool },
    ByRelativePosition { pos: isize, my_army: bool },
    ByRow { my_army: bool, row: usize },
    ByArmy { my_army: bool },
}

/// Removal of an effect.
#[derive(Debug, Clone, PartialEq, Eq)]
pub struct RemoveEffect {
    pub force: bool,
    pub amount: usize,
    pub id: String,
}

/// A stat of a unit that an ability changes.
#[derive(Debug, Clone, Copy, PartialEq, Eq, Structural)]
pub enum UnitStat {
    Hp,
    MaxHp,
    Speed,
    Moves,
    MaxMoves,
    HandAttack,
    HandDefence,
    RangedAttack,
    RangedDefence,
    MagicPower,
    ElementalDefence,
    DeathDefence,
    LifeDefence,
    Vamp,
    Regen,
}

/// Whose events an ability listens to.
#[derive(Debug, Clone, Copy, PartialEq, Eq, Structural)]
pub enum ListenTo {
    Myself,
    MyArmy(bool),
    Everyone,
}

impl Default for ListenTo {
    fn default() -> (r: Self)
        ensures
            r == ListenTo::Myself,
    {
        ListenTo::Myself
    }
}

/// The army meant: 0 for one's own, 1 for the other.
pub open spec fn army_of(my_army: bool) -> usize {
    if my_army {
        0
    } else {
        1
    }
}

/// The troops standing at places `lo..hi` of `h` (places past its end
/// hold none), in order of place, when the army has `count` troops.
pub open spec fn hits_in(h: Seq<Option<usize>>, lo: int, hi: int, count: usize, army: usize) -> Seq<BattleUnit>
    decreases hi - lo,
{
    if hi <= lo {
        Seq::empty()
    } else {
        let before = hits_in(h, lo, hi - 1, count, army);
        let p = hi - 1;
        if p < h.len() {
            match h[p] {
                Some(i) => if i < count {
                    before.push(BattleUnit { army, index: i })
                } else {
                    before
                },
                None => before,
            }
        } else {
            before
        }
    }
}

/// The place read by a relative position: one's place plus `pos`, plus 2,
/// taken as an unsigned number, modulo 2.
pub open spec fn relative_place(my_pos: usize, pos: isize) -> int {
    (((my_pos as isize) + pos + 2) as usize) as int % 2
}

/// The sum of a relative position stays a machine integer.
pub open spec fn relative_fits(my_pos: usize, pos: isize) -> bool {
    isize::MIN <= (my_pos as isize) + pos && (my_pos as isize) + pos + 2 <= isize::MAX
}

/// The troops that `target` reaches, for a unit at place `my_pos`, given
/// both armies' hit maps and troop counts and the units of the ability.
pub open spec fn targets_of(
    target: RelativeUnit,
    my_pos: usize,
    hitmaps: Seq<Seq<Option<usize>>>,
    counts: Seq<usize>,
    ability_units: Seq<BattleUnit>,
) -> Seq<BattleUnit> {
    match target {
        RelativeUnit::ByAbilityUnit(u) => {
            let k = ability_slot(u) as int;
            if k < ability_units.len() && ability_units[k].index < counts[ability_units[k].army as int] {
                seq![ability_units[k]]
            } else {
                Seq::empty()
            }
        },
        RelativeUnit::Absolute { index, my_army } => {
            let a = army_of(my_army);
            if index < counts[a as int] {
                seq![BattleUnit { army: a, index }]
            } else {
                Seq::empty()
            }
        },
        RelativeUnit::ByRelativePosition { pos, my_army } => {
            let a = army_of(my_army);
            let q = relative_place(my_pos, pos);
            hits_in(hitmaps[a as int], q, q + 1, counts[a as int], a)
        },
        RelativeUnit::ByRow { my_army, row } => {
            let a = army_of(my_army);
            hits_in(hitmaps[a as int], row * 6, row * 6 + 6, counts[a as int], a)
        },
        RelativeUnit::ByArmy { my_army } => {
            let a = army_of(my_army);
            hits_in(hitmaps[a as int], 0, hitmaps[a as int].len() as int, counts[a as int], a)
        },
    }
}

/// The troops standing at places `lo..hi` of `h`.
fn collect_hits(h: &HitMap, lo: usize, hi: usize, count: usize, army: usize) -> (r: Vec<BattleUnit>)
    requires
        lo <= hi,
    ensures
        r@ == hits_in(h@, lo as int, hi as int, count, army),
{
    let mut r: Vec<BattleUnit> = Vec::new();
    let mut p: usize = lo;
    while p < hi
        invariant
            lo <= p <= hi,
            r@ == hits_in(h@, lo as int, p as int, count, army),
        decreases hi - p,
    {
        if p < h.len() {
            match h[p] {
                Some(i) => {
                    if i < count {
                        r.push(BattleUnit { army, index: i });
                    }
                },
                None => {},
            }
        }
        p = p + 1;
    }
    r
}

impl RelativeUnit {
    fn get_army_index(my_army: bool) -> (r: usize)
        ensures
            r == army_of(my_army),
    {
        if my_army {
            0
        } else {
            1
        }
    }

    /// The troops this target reaches, for a unit at place `my_pos`: a unit
    /// of the ability; a troop by index; the troop at a place relative to
    /// `my_pos` (the sum taken modulo 2); the troops of a row of six
    /// places; or a whole army, in order of place. A troop is reached only
    /// if its army has it.
    pub fn get(
        &self,
        my_pos: usize,
        hitmap: [&HitMap; 2],
        troop_counts: [usize; 2],
        ability_units: &Vec<BattleUnit>,
    ) -> (r: Vec<BattleUnit>)
        requires
            forall|k: int| 0 <= k < ability_units@.len() ==> (#[trigger] ability_units@[k]).army < 2,
            *self matches RelativeUnit::ByRelativePosition { pos, .. } ==> relative_fits(my_pos, pos),
            *self matches RelativeUnit::ByRow { row, .. } ==> row * 6 + 6 <= usize::MAX,
        ensures
            r@ == targets_of(
                *self,
                my_pos,
                seq![hitmap[0]@, hitmap[1]@],
                troop_counts@,
                ability_units@,
            ),
    {
        match self {
            RelativeUnit::ByAbilityUnit(ability_unit) => {
                let k: usize = match ability_unit {
                    AbilityUnit::Myself => 0,
                    AbilityUnit::Actor => 1,
                    AbilityUnit::Affected => 2,
                };
                let mut r: Vec<BattleUnit> = Vec::new();
                if k < ability_units.len() {
                    let unit = ability_units[k];
                    if unit.index < troop_counts[unit.army] {
                        r.push(unit);
                    }
                }
                proof {
                    assert(r@ =~= targets_of(*self, my_pos, seq![hitmap[0]@, hitmap[1]@], troop_counts@, ability_units@));
                }
                r
            },
            RelativeUnit::Absolute { index, my_army } => {
                let a = Self::get_army_index(*my_army);
                let mut r: Vec<BattleUnit> = Vec::new();
                if *index < troop_counts[a] {
                    r.push(BattleUnit { army: a, index: *index });
                }
                proof {
                    assert(r@ =~= targets_of(*self, my_pos, seq![hitmap[0]@, hitmap[1]@], troop_counts@, ability_units@));
                }
                r
            },
            RelativeUnit::ByRelativePosition { pos, my_army } => {
                let a = Self::get_army_index(*my_army);
                let t = my_pos as isize + *pos + 2;
                let q = (#[verifier::truncate] (t as usize)) % 2;
                collect_hits(hitmap[a], q, q + 1, troop_counts[a], a)
            },
            RelativeUnit::ByRow { my_army, row } => {
                let a = Self::get_army_index(*my_army);
                collect_hits(hitmap[a], row * 6, row * 6 + 6, troop_counts[a], a)
            },
            RelativeUnit::ByArmy { my_army } => {
                let a = Self::get_army_index(*my_army);
                collect_hits(hitmap[a], 0, hitmap[a].len(), troop_counts[a], a)
            },
        }
    }
}

} // verus!
