//! Geometry of the battle field: the kind of each place, the places a unit
//! may step to, and references to units by index or by place.
use vstd::prelude::*;

verus! {

/// For each place of an army, the index of the troop standing there.
pub type HitMap = Vec<Option<usize>>;

/// Kind of a place of an army: front line, back line or reserve.
#[derive(Clone, Copy, Debug, PartialEq, Eq, Structural)]
pub enum Field {
    Front,
    Back,
    Reserve,
}

/// The kind of place `index` among `max_troops` places: the two ends of
/// each line are reserve, the rest of the first line is back, the rest of
/// the second line is front.
pub open spec fn field_of(index: usize, max_troops: usize) -> Field {
    if index == 0 || index == max_troops / 2 - 1 || index == max_troops / 2 || index == max_troops
        - 1 {
        Field::Reserve
    } else if index < max_troops / 2 {
        Field::Back
    } else {
        Field::Front
    }
}

pub fn field_type(index: usize, max_troops: usize) -> (r: Field)
    requires
        index == 0 || max_troops >= 2,
    ensures
        r == field_of(index, max_troops),
{
    if index == 0 || index == max_troops / 2 - 1 || index == max_troops / 2 || index == max_troops
        - 1 {
        Field::Reserve
    } else if index < max_troops / 2 {
        Field::Back
    } else {
        Field::Front
    }
}

/// A troop of a battle, by army and troop index.
#[derive(Clone, Copy, Debug, PartialEq, Eq, Structural)]
pub struct BattleUnit {
    pub army: usize,
    pub index: usize,
}

/// A place of a battle, by army and place.
#[derive(Clone, Copy, Debug, PartialEq, Eq, Structural)]
pub struct BattleUnitPos {
    pub army: usize,
    pub pos: usize,
}

/// A troop given by place or by troop index.
#[derive(Clone, Copy, Debug, PartialEq, Eq, Structural)]
pub enum BattleUnitInfo {
    Pos(usize),
    Index(usize),
}

impl From<BattleUnit> for BattleUnitInfo {
    fn from(value: BattleUnit) -> (r: Self) {
        BattleUnitInfo::Index(value.index)
    }
}

impl vstd::std_specs::convert::FromSpecImpl<BattleUnit> for BattleUnitInfo {
    open spec fn obeys_from_spec() -> bool {
        true
    }

    open spec fn from_spec(v: BattleUnit) -> Self {
        BattleUnitInfo::Index(v.index)
    }
}

impl From<BattleUnitPos> for BattleUnitInfo {
    fn from(value: BattleUnitPos) -> (r: Self) {
        BattleUnitInfo::Pos(value.pos)
    }
}

impl vstd::std_specs::convert::FromSpecImpl<BattleUnitPos> for BattleUnitInfo {
    open spec fn obeys_from_spec() -> bool {
        true
    }

    open spec fn from_spec(v: BattleUnitPos) -> Self {
        BattleUnitInfo::Pos(v.pos)
    }
}

/// The first place of `hitmap` holding troop `v`.
pub open spec fn first_place_of(hitmap: Seq<Option<usize>>, v: usize) -> Option<usize>
    decreases hitmap.len(),
{
    if hitmap.len() == 0 {
        None
    } else if hitmap[0] == Some(v) {
        Some(0)
    } else {
        match first_place_of(hitmap.drop_first(), v) {
            Some(i) => Some((i + 1) as usize),
            None => None,
        }
    }
}

proof fn lemma_first_place(hitmap: Seq<Option<usize>>, v: usize, i: int)
    requires
        0 <= i <= hitmap.len(),
        hitmap.len() <= usize::MAX,
        forall|k: int| 0 <= k < i ==> hitmap[k] != Some(v),
    ensures
        i < hitmap.len() && hitmap[i] == Some(v) ==> first_place_of(hitmap, v) == Some(i as usize),
        i == hitmap.len() ==> first_place_of(hitmap, v) is None,
    decreases i,
{
    if i > 0 {
        lemma_first_place(hitmap.drop_first(), v, i - 1);
    }
}

/// Index of the first place of `hitmap` holding troop `v`.
fn find_place(hitmap: &HitMap, v: usize) -> (r: Option<usize>)
    ensures
        r == first_place_of(hitmap@, v),
{
    let mut i: usize = 0;
    while i < hitmap.len()
        invariant
            i <= hitmap@.len(),
            forall|k: int| 0 <= k < i ==> hitmap@[k] != Some(v),
        decreases hitmap@.len() - i,
    {
        if hitmap[i] == Some(v) {
            proof {
                lemma_first_place(hitmap@, v, i as int);
            }
            return Some(i);
        }
        i = i + 1;
    }
    proof {
        lemma_first_place(hitmap@, v, i as int);
    }
    None
}

impl BattleUnitInfo {
    /// The place: given, or the first place holding the troop.
    pub fn pos(&self, hitmap: &HitMap) -> (r: Option<usize>)
        ensures
            r == match *self {
                BattleUnitInfo::Pos(v) => Some(v),
                BattleUnitInfo::Index(v) => first_place_of(hitmap@, v),
            },
    {
        match self {
            BattleUnitInfo::Pos(v) => Some(*v),
            BattleUnitInfo::Index(v) => find_place(hitmap, *v),
        }
    }

    /// The troop index: given, or the troop standing at the place.
    pub fn index(&self, hitmap: &HitMap) -> (r: Option<usize>)
        ensures
            r == match *self {
                BattleUnitInfo::Pos(v) => if v < hitmap@.len() {
                    hitmap@[v as int]
                } else {
                    None
                },
                BattleUnitInfo::Index(v) => Some(v),
            },
    {
        match self {
            BattleUnitInfo::Pos(v) => {
                if *v < hitmap.len() {
                    hitmap[*v]
                } else {
                    None
                }
            },
            BattleUnitInfo::Index(v) => Some(*v),
        }
    }

    /// The troop of `army` this refers to.
    pub fn to_index(&self, hitmap: &HitMap, army: usize) -> (r: Option<BattleUnit>)
        ensures
            r == match *self {
                BattleUnitInfo::Pos(v) => if v < hitmap@.len() && hitmap@[v as int] is Some {
                    Some(BattleUnit { army, index: hitmap@[v as int]->0 })
                } else {
                    None
                },
                BattleUnitInfo::Index(v) => Some(BattleUnit { army, index: v }),
            },
    {
        match self {
            BattleUnitInfo::Pos(v) => {
                if *v < hitmap.len() {
                    match hitmap[*v] {
                        Some(index) => Some(BattleUnit { army, index }),
                        None => None,
                    }
                } else {
                    None
                }
            },
            BattleUnitInfo::Index(v) => Some(BattleUnit { army, index: *v }),
        }
    }

    /// The place of `army` this refers to (place 0 if the troop stands
    /// nowhere).
    pub fn to_pos(&self, hitmap: &HitMap, army: usize) -> (r: BattleUnitPos)
        ensures
            r == match *self {
                BattleUnitInfo::Index(v) => BattleUnitPos {
                    army,
                    pos: match first_place_of(hitmap@, v) {
                        Some(_) => v,
                        None => 0,
                    },
                },
                BattleUnitInfo::Pos(v) => BattleUnitPos { army, pos: v },
            },
    {
        match self {
            BattleUnitInfo::Index(v) => BattleUnitPos {
                army,
                pos: match find_place(hitmap, *v) {
                    Some(_) => *v,
                    None => 0,
                },
            },
            BattleUnitInfo::Pos(v) => BattleUnitPos { army, pos: *v },
        }
    }
}

/// `s` without consecutive repeats (as `Vec::dedup`).
pub open spec fn dedup(s: Seq<usize>) -> Seq<usize>
    decreases s.len(),
{
    if s.len() <= 1 {
        s
    } else {
        let r = dedup(s.drop_last());
        if s.last() == s[s.len() - 2] {
            r
        } else {
            r.push(s.last())
        }
    }
}

/// `|a - b|`.
pub open spec fn abs_diff(a: usize, b: usize) -> usize {
    if a >= b {
        (a - b) as usize
    } else {
        (b - a) as usize
    }
}

/// The candidate places before dropping repeats: the four reserve ends,
/// then the column of `from`, its neighbours, on both lines.
pub open spec fn movement_candidates(from: usize, columns: usize) -> Seq<usize> {
    let f = (from % columns) as usize;
    let d = abs_diff(f, 1);
    seq![
        0,
        (columns - 1) as usize,
        columns,
        (columns * 2 - 1) as usize,
        d,
        f,
        d,
        (d + columns) as usize,
        (f + columns) as usize,
        (d + columns) as usize,
    ]
}

/// Places a unit at `from` may move to on a field with `columns` columns.
pub fn possible_movement(from: usize, columns: usize) -> (r: Vec<usize>)
    requires
        columns > 0,
        columns * 2 <= usize::MAX,
    ensures
        r@ == dedup(movement_candidates(from, columns)),
{
    let half = columns;
    let f = from % half;
    let mut possible: Vec<usize> = Vec::new();
    possible.push(0);
    possible.push(half - 1);
    possible.push(half);
    possible.push(half * 2 - 1);
    let d = if f >= 1 {
        f - 1
    } else {
        1 - f
    };
    possible.push(d);
    possible.push(f);
    possible.push(d);
    possible.push(d + half);
    possible.push(f + half);
    possible.push(d + half);
    assert(possible@ =~= movement_candidates(from, columns));
    dedup_vec(&possible)
}

/// `v` without consecutive repeats.
fn dedup_vec(v: &Vec<usize>) -> (r: Vec<usize>)
    ensures
        r@ == dedup(v@),
{
    let mut r: Vec<usize> = Vec::new();
    let mut i: usize = 0;
    while i < v.len()
        invariant
            i <= v@.len(),
            r@ == dedup(v@.subrange(0, i as int)),
            i > 0 ==> r@.len() > 0 && r@.last() == v@[i - 1],
        decreases v@.len() - i,
    {
        proof {
            let s = v@.subrange(0, i + 1);
            assert(s.drop_last() =~= v@.subrange(0, i as int));
            lemma_dedup_last(v@.subrange(0, i as int));
        }
        if i == 0 || v[i] != v[i - 1] {
            r.push(v[i]);
        }
        i = i + 1;
    }
    assert(v@.subrange(0, v@.len() as int) =~= v@);
    r
}

proof fn lemma_dedup_last(s: Seq<usize>)
    ensures
        s.len() > 0 ==> dedup(s).len() > 0 && dedup(s).last() == s.last(),
    decreases s.len(),
{
    if s.len() > 1 {
        lemma_dedup_last(s.drop_last());
    }
}

/// The game-tree search of a battle: it has no steps and does nothing.
pub fn build_game_tree() {
}

proof fn lemma_dedup_facts(s: Seq<usize>)
    ensures
        forall|i: int| 0 <= i < dedup(s).len() ==> s.contains(#[trigger] dedup(s)[i]),
        forall|i: int, j: int|
            0 <= i && j == i + 1 && j < dedup(s).len() ==> #[trigger] dedup(s)[i] != #[trigger] dedup(s)[j],
        s.len() > 0 ==> dedup(s).len() > 0 && dedup(s).last() == s.last(),
    decreases s.len(),
{
    if s.len() > 1 {
        let t = s.drop_last();
        lemma_dedup_facts(t);
        let r = dedup(t);
        assert forall|i: int| 0 <= i < dedup(s).len() implies s.contains(#[trigger] dedup(s)[i]) by {
            if i < r.len() {
                assert(dedup(s)[i] == r[i]);
                let k = choose|k: int| 0 <= k < t.len() && t[k] == r[i];
                assert(s[k] == t[k]);
            } else {
                assert(dedup(s)[i] == s.last());
                assert(s[s.len() - 1] == s.last());
            }
        }
        assert(t.last() == s[s.len() - 2]);
    }
}

/// The places a unit may move to lie on a field of `columns` columns
/// (of two or more), and no place follows itself in the list.
pub proof fn lemma_movement_on_field(from: usize, columns: usize)
    requires
        columns >= 2,
        columns * 2 <= usize::MAX,
    ensures
        forall|i: int|
            0 <= i < dedup(movement_candidates(from, columns)).len() ==> #[trigger] dedup(
                movement_candidates(from, columns),
            )[i] < columns * 2,
        forall|i: int, j: int|
            0 <= i && j == i + 1 && j < dedup(movement_candidates(from, columns)).len()
                ==> #[trigger] dedup(movement_candidates(from, columns))[i] != #[trigger] dedup(
                movement_candidates(from, columns),
            )[j],
{
    let c = movement_candidates(from, columns);
    lemma_dedup_facts(c);
    assert forall|k: int| 0 <= k < c.len() implies #[trigger] c[k] < columns * 2 by {
        assert(from % columns < columns);
    }
    assert forall|i: int| 0 <= i < dedup(c).len() implies #[trigger] dedup(c)[i] < columns * 2 by {
        assert(c.contains(dedup(c)[i]));
    }
}

} // verus!
