//! Armies on the battle grid: which place each troop covers (the hit map),
//! where a troop of a given size fits, and the army's inventory.
use crate::battlefield::{field_of, field_type, BattleUnitPos, Field, HitMap};
use crate::object::HireTerms;
use crate::items::Item;
use crate::units::{UnitPos, MAX_LINES, MAX_TROOPS};
use vstd::prelude::*;

verus! {

/// Gold, mana and name of an army.
#[derive(Clone, Debug, PartialEq, Eq)]
pub struct ArmyStats {
    pub gold: u64,
    pub mana: u64,
    pub army_name: String,
}

impl ArmyStats {
    fn new(gold: u64, mana: u64, army_name: String) -> (r: Self)
        ensures
            r.gold == gold,
            r.mana == mana,
            r.army_name == army_name,
    {
        Self { gold, mana, army_name }
    }
}

/// Who leads an army.
#[derive(Clone, Copy, Debug, PartialEq, Eq, Structural)]
pub enum Control {
    PC,
    Player(usize),
}

/// How an owner stands towards the others (0: friend to 255: foe).
#[derive(Clone, Copy, Debug, PartialEq, Eq, Structural)]
pub struct Relations {
    pub player: u8,
    pub ally: u8,
    pub neighbour: u8,
    pub enemy: u8,
}

impl Default for Relations {
    fn default() -> (r: Self)
        ensures
            r == (Relations { player: 0, ally: 0, neighbour: 128, enemy: 255 }),
    {
        Relations { player: 0, ally: 0, neighbour: 128, enemy: 255 }
    }
}

/// A troop as the grid sees it: the size of its unit (columns, rows), its
/// place (column, row) and whether it is dead.
#[derive(Clone, Copy, Debug, PartialEq, Eq)]
pub struct TroopSlot {
    pub size: (usize, usize),
    pub pos: UnitPos,
    pub dead: bool,
}

/// Place `k` of a grid `columns` wide lies in the rectangle of `size`
/// whose top-left place is `pos`.
pub open spec fn in_rect(k: int, size: (usize, usize), pos: UnitPos, columns: usize) -> bool {
    exists|i: int, j: int|
        0 <= i < size.0 && 0 <= j < size.1 && k == #[trigger] rect_cell(i, j, pos, columns)
}

/// The place of cell `(i, j)` of a rectangle whose top-left place is `pos`.
pub open spec fn rect_cell(i: int, j: int, pos: UnitPos, columns: usize) -> int {
    (j + pos.1) * columns + (i + pos.0)
}

/// The rectangle lies within a hit map of `len` places (and its
/// coordinates are machine integers).
pub open spec fn rect_inside(size: (usize, usize), pos: UnitPos, columns: usize, len: nat) -> bool {
    forall|i: int, j: int|
        0 <= i < size.0 && 0 <= j < size.1 ==> 0 <= #[trigger] rect_cell(i, j, pos, columns) < len && j
            + pos.1 <= usize::MAX && i + pos.0 <= usize::MAX
}

/// `h` with every place of the rectangle holding troop `num`.
pub open spec fn painted(
    h: Seq<Option<usize>>,
    size: (usize, usize),
    pos: UnitPos,
    num: usize,
    columns: usize,
) -> Seq<Option<usize>> {
    Seq::new(h.len(), |k: int| if in_rect(k, size, pos, columns) { Some(num) } else { h[k] })
}

/// The hit map `h` after marking the living troops of `troops`, in order:
/// a later troop covers an earlier one.
pub open spec fn layout(h: Seq<Option<usize>>, troops: Seq<TroopSlot>, columns: usize) -> Seq<Option<usize>>
    decreases troops.len(),
{
    if troops.len() == 0 {
        h
    } else {
        let before = layout(h, troops.drop_last(), columns);
        let t = troops.last();
        if t.dead {
            before
        } else {
            painted(before, t.size, t.pos, (troops.len() - 1) as usize, columns)
        }
    }
}

proof fn lemma_layout_len(h: Seq<Option<usize>>, troops: Seq<TroopSlot>, columns: usize)
    ensures
        layout(h, troops, columns).len() == h.len(),
    decreases troops.len(),
{
    if troops.len() > 0 {
        lemma_layout_len(h, troops.drop_last(), columns);
    }
}

/// Every living troop lies within a hit map of `len` places.
pub open spec fn troops_inside(troops: Seq<TroopSlot>, columns: usize, len: nat) -> bool {
    forall|k: int|
        0 <= k < troops.len() && !(#[trigger] troops[k]).dead ==> rect_inside(
            troops[k].size,
            troops[k].pos,
            columns,
            len,
        )
}

/// Cells `(i', j')` visited before `(i, j)` in row order, in a rectangle
/// `w` wide.
spec fn visited(k: int, w: int, pos: UnitPos, columns: usize, j: int, i: int) -> bool {
    exists|a: int, b: int|
        0 <= a < w && 0 <= b && (b < j || (b == j && a < i)) && k == #[trigger] rect_cell(a, b, pos, columns)
}

/// The troops standing on the grid: a list with the size of each unit.
#[derive(Debug)]
pub struct Army {
    pub troops: Vec<TroopSlot>,
    pub hitmap: HitMap,
    pub building: Option<usize>,
    pub stats: ArmyStats,
    pub inventory: Vec<Option<Item>>,
    pub pos: (usize, usize),
    pub transport: bool,
    pub active: bool,
    pub defeated: bool,
    pub control: Control,
    pub path: Vec<(usize, usize)>,
}

impl Army {
    /// Marks every place of the rectangle of `size` at `pos` with troop
    /// `num`.
    pub fn recalc_hitmap_solo(hitmap: &mut HitMap, size: (usize, usize), pos: UnitPos, num: usize, columns: usize)
        requires
            rect_inside(size, pos, columns, old(hitmap)@.len()),
        ensures
            final(hitmap)@ == painted(old(hitmap)@, size, pos, num, columns),
    {
        let ghost h0 = hitmap@;
        let mut j: usize = 0;
        while j < size.1
            invariant
                j <= size.1,
                rect_inside(size, pos, columns, h0.len()),
                hitmap@.len() == h0.len(),
                forall|k: int|
                    0 <= k < h0.len() ==> #[trigger] hitmap@[k] == if visited(k, size.0 as int, pos, columns, j as int, 0) {
                        Some(num)
                    } else {
                        h0[k]
                    },
            decreases size.1 - j,
        {
            let mut i: usize = 0;
            while i < size.0
                invariant
                    i <= size.0,
                    j < size.1,
                    rect_inside(size, pos, columns, h0.len()),
                    hitmap@.len() == h0.len(),
                    forall|k: int|
                        0 <= k < h0.len() ==> #[trigger] hitmap@[k] == if visited(k, size.0 as int, pos, columns, j as int, i as int) {
                            Some(num)
                        } else {
                            h0[k]
                        },
                decreases size.0 - i,
            {
                let ghost cell = rect_cell(i as int, j as int, pos, columns);
                assert(0 <= cell < h0.len());
                assert(j + pos.1 <= usize::MAX && i + pos.0 <= usize::MAX);
                assert((j + pos.1) * columns <= cell) by (nonlinear_arith)
                    requires
                        cell == (j + pos.1) * columns + (i + pos.0),
                        i + pos.0 >= 0,
                ;
                let len = hitmap.len();
                assert(cell < len);
                let row = j + pos.1;
                let col = i + pos.0;
                assert(row * columns <= cell);
                let idx = row * columns + col;
                hitmap.set(idx, Some(num));
                proof {
                    assert forall|k: int| 0 <= k < h0.len() implies #[trigger] hitmap@[k] == if visited(
                        k,
                        size.0 as int,
                        pos,
                        columns,
                        j as int,
                        i + 1,
                    ) {
                        Some(num)
                    } else {
                        h0[k]
                    } by {
                        if k == cell {
                            assert(visited(k, size.0 as int, pos, columns, j as int, i + 1)) by {
                                assert(k == rect_cell(i as int, j as int, pos, columns));
                            }
                        } else {
                            if visited(k, size.0 as int, pos, columns, j as int, i + 1) {
                                let (a, b) = choose|a: int, b: int|
                                    0 <= a < size.0 && 0 <= b && (b < j || (b == j && a < i + 1)) && k
                                        == #[trigger] rect_cell(a, b, pos, columns);
                                assert(!(b == j && a == i));
                                assert(visited(k, size.0 as int, pos, columns, j as int, i as int));
                            }
                        }
                    }
                }
                i = i + 1;
            }
            proof {
                assert forall|k: int| 0 <= k < h0.len() implies visited(k, size.0 as int, pos, columns, j as int, size.0 as int)
                    == visited(k, size.0 as int, pos, columns, j + 1, 0) by {
                    if visited(k, size.0 as int, pos, columns, j as int, size.0 as int) {
                        let (a, b) = choose|a: int, b: int|
                            0 <= a < size.0 && 0 <= b && (b < j || (b == j && a < size.0)) && k
                                == #[trigger] rect_cell(a, b, pos, columns);
                        assert(visited(k, size.0 as int, pos, columns, j + 1, 0));
                    }
                    if visited(k, size.0 as int, pos, columns, j + 1, 0) {
                        let (a, b) = choose|a: int, b: int|
                            0 <= a < size.0 && 0 <= b && (b < j + 1 || (b == j + 1 && a < 0)) && k
                                == #[trigger] rect_cell(a, b, pos, columns);
                        assert(visited(k, size.0 as int, pos, columns, j as int, size.0 as int));
                    }
                }
            }
            j = j + 1;
        }
        proof {
            assert forall|k: int| 0 <= k < h0.len() implies visited(k, size.0 as int, pos, columns, size.1 as int, 0)
                == in_rect(k, size, pos, columns) by {
                if visited(k, size.0 as int, pos, columns, size.1 as int, 0) {
                    let (a, b) = choose|a: int, b: int|
                        0 <= a < size.0 && 0 <= b && (b < size.1 || (b == size.1 && a < 0)) && k
                            == #[trigger] rect_cell(a, b, pos, columns);
                    assert(in_rect(k, size, pos, columns));
                }
                if in_rect(k, size, pos, columns) {
                    let (a, b) = choose|a: int, b: int|
                        0 <= a < size.0 && 0 <= b < size.1 && k == #[trigger] rect_cell(a, b, pos, columns);
                    assert(visited(k, size.0 as int, pos, columns, size.1 as int, 0));
                }
            }
            assert(hitmap@ =~= painted(h0, size, pos, num, columns));
        }
    }

    /// Marks the places of each living troop of `troops` with its index, in
    /// order.
    pub fn recalc_hitmap(troops: &Vec<TroopSlot>, hitmap: &mut HitMap, columns: usize)
        requires
            troops_inside(troops@, columns, old(hitmap)@.len()),
        ensures
            final(hitmap)@ == layout(old(hitmap)@, troops@, columns),
    {
        let ghost h0 = hitmap@;
        let mut n: usize = 0;
        while n < troops.len()
            invariant
                n <= troops@.len(),
                troops_inside(troops@, columns, h0.len()),
                hitmap@.len() == h0.len(),
                hitmap@ == layout(h0, troops@.subrange(0, n as int), columns),
            decreases troops.len() - n,
        {
            let t = troops[n];
            proof {
                let sub = troops@.subrange(0, n + 1);
                assert(sub.drop_last() =~= troops@.subrange(0, n as int));
                assert(sub.last() == t);
                assert(troops@[n as int] == t);
            }
            if !t.dead {
                Army::recalc_hitmap_solo(hitmap, t.size, t.pos, n, columns);
            }
            n = n + 1;
        }
        assert(troops@.subrange(0, troops@.len() as int) =~= troops@);
    }
}

/// Places `a` and `b` of an army's grid are both reserve places or both
/// line places (front or back).
pub open spec fn same_zone(a: int, b: int) -> bool {
    (field_of(a as usize, MAX_TROOPS) == Field::Reserve) == (field_of(b as usize, MAX_TROOPS)
        == Field::Reserve)
}

/// Whether places `index` and `index1` are in the same zone (see
/// `same_zone`).
fn eq_fields(index: usize, index1: usize, columns: usize, rows: usize) -> (r: bool)
    ensures
        r == same_zone(index as int, index1 as int),
{
    let start_field = field_type(index, MAX_TROOPS);
    let this_field = field_type(index1, MAX_TROOPS);
    match (start_field, this_field) {
        (Field::Back, Field::Back) | (Field::Back, Field::Front) | (Field::Front, Field::Back) | (
            Field::Front,
            Field::Front,
        ) => true,
        (Field::Reserve, Field::Reserve) => true,
        _ => false,
    }
}

/// The scan of `fit_to` from cell `(i, j)` of the rectangle, the place
/// checked before being `prev`: `Some(false)` at the first cell that is
/// taken or in another zone than the cell before it, `Some(true)` when all
/// pass, `None` when a place it reaches lies outside the hit map (or its
/// number overflows).
pub open spec fn fit_scan(
    h: Seq<Option<usize>>,
    size: (usize, usize),
    columns: usize,
    row: usize,
    column: usize,
    j: int,
    i: int,
    prev: int,
) -> Option<bool>
    decreases size.1 - j, size.0 - i,
{
    if j >= size.1 || j < 0 || i < 0 {
        Some(true)
    } else if i >= size.0 {
        fit_scan(h, size, columns, row, column, j + 1, 0, prev)
    } else {
        let idx = (row + j) * columns + (i + column);
        if row + j > usize::MAX || i + column > usize::MAX || idx >= h.len() {
            None
        } else if h[idx] is Some || !same_zone(idx, prev) {
            Some(false)
        } else {
            fit_scan(h, size, columns, row, column, j, i + 1, idx)
        }
    }
}

/// What `fit_to` answers for the rectangle of `size` at `(column, row)`
/// (`None`: it would overflow or read outside the hit map).
pub open spec fn fit_result(
    h: Seq<Option<usize>>,
    size: (usize, usize),
    columns: usize,
    row: usize,
    column: usize,
) -> Option<bool> {
    if row * columns + column > usize::MAX {
        None
    } else {
        fit_scan(h, size, columns, row, column, 0, 0, row * columns + column)
    }
}

/// The free places where a troop of `size` fits, from `(column, row)` on
/// in row order (`column` up to `columns - size.0`, `row` up to
/// `rows - size.1`).
pub open spec fn fit_list(
    h: Seq<Option<usize>>,
    size: (usize, usize),
    rows: usize,
    columns: usize,
    row: int,
    column: int,
) -> Seq<usize>
    decreases rows - size.1 - row + 1, columns - size.0 - column + 1,
{
    if row > rows - size.1 || row < 0 || column < 0 {
        Seq::empty()
    } else if column > columns - size.0 {
        fit_list(h, size, rows, columns, row + 1, 0)
    } else {
        (if fit_result(h, size, columns, row as usize, column as usize) == Some(true) {
            seq![(row * columns + column) as usize]
        } else {
            Seq::empty()
        }) + fit_list(h, size, rows, columns, row, column + 1)
    }
}

/// Every rectangle `fit` checks can be checked (see `fit_result`).
pub open spec fn fit_checkable(h: Seq<Option<usize>>, size: (usize, usize), rows: usize, columns: usize) -> bool {
    forall|row: usize, column: usize|
        row <= rows - size.1 && column <= columns - size.0 ==> #[trigger] fit_result(
            h,
            size,
            columns,
            row,
            column,
        ) is Some
}

impl Army {
    /// Whether a troop of `size` fits with its top-left place at
    /// `(column, row)`: every place of the rectangle is free and in the same
    /// zone as the place checked before it (see `fit_result`).
    pub fn fit_to(
        hitmap: &[Option<usize>],
        size: (usize, usize),
        columns: usize,
        rows: usize,
        row: usize,
        column: usize,
    ) -> (r: bool)
        requires
            fit_result(hitmap@, size, columns, row, column) is Some,
        ensures
            Some(r) == fit_result(hitmap@, size, columns, row, column),
    {
        let mut index = row * columns + column;
        let ghost first = index as int;
        let mut j: usize = 0;
        while j < size.1
            invariant
                j <= size.1,
                fit_result(hitmap@, size, columns, row, column) == fit_scan(
                    hitmap@,
                    size,
                    columns,
                    row,
                    column,
                    j as int,
                    0,
                    index as int,
                ),
                fit_result(hitmap@, size, columns, row, column) is Some,
            decreases size.1 - j,
        {
            let mut i: usize = 0;
            while i < size.0
                invariant
                    i <= size.0,
                    j < size.1,
                    fit_result(hitmap@, size, columns, row, column) == fit_scan(
                        hitmap@,
                        size,
                        columns,
                        row,
                        column,
                        j as int,
                        i as int,
                        index as int,
                    ),
                    fit_result(hitmap@, size, columns, row, column) is Some,
                decreases size.0 - i,
            {
                let ghost cell = (row + j) * columns + (i + column);
                let len = hitmap.len();
                assert(row + j <= usize::MAX && i + column <= usize::MAX && cell < len);
                let r2 = row + j;
                let c2 = i + column;
                assert(r2 * columns <= cell) by (nonlinear_arith)
                    requires
                        cell == r2 * columns + c2,
                        c2 >= 0,
                ;
                let my_index = r2 * columns + c2;
                if hitmap[my_index].is_some() || !eq_fields(my_index, index, columns, rows) {
                    return false;
                }
                index = my_index;
                i = i + 1;
            }
            j = j + 1;
        }
        true
    }

    /// The places where a troop of `size` fits, in row order (see
    /// `fit_list`).
    pub fn fit(hitmap: &[Option<usize>], size: (usize, usize), rows: usize, columns: usize) -> (r: Vec<usize>)
        requires
            size.1 <= rows,
            size.0 <= columns,
            fit_checkable(hitmap@, size, rows, columns),
        ensures
            r@ == fit_list(hitmap@, size, rows, columns, 0, 0),
    {
        let mut possible: Vec<usize> = Vec::new();
        let last_row = rows - size.1;
        let last_column = columns - size.0;
        let mut row: usize = 0;
        loop
            invariant_except_break
                possible@ + fit_list(hitmap@, size, rows, columns, row as int, 0) == fit_list(
                    hitmap@,
                    size,
                    rows,
                    columns,
                    0,
                    0,
                ),
            invariant
                row <= last_row,
                last_row == rows - size.1,
                last_column == columns - size.0,
                fit_checkable(hitmap@, size, rows, columns),
            ensures
                possible@ + fit_list(hitmap@, size, rows, columns, last_row + 1, 0) == fit_list(
                    hitmap@,
                    size,
                    rows,
                    columns,
                    0,
                    0,
                ),
            decreases last_row - row,
        {
            let mut column: usize = 0;
            loop
                invariant_except_break
                    possible@ + fit_list(hitmap@, size, rows, columns, row as int, column as int) == fit_list(
                        hitmap@,
                        size,
                        rows,
                        columns,
                        0,
                        0,
                    ),
                invariant
                    row <= last_row,
                    column <= last_column,
                    last_row == rows - size.1,
                    last_column == columns - size.0,
                    fit_checkable(hitmap@, size, rows, columns),
                ensures
                    possible@ + fit_list(hitmap@, size, rows, columns, row as int, last_column + 1) == fit_list(
                        hitmap@,
                        size,
                        rows,
                        columns,
                        0,
                        0,
                    ),
                decreases last_column - column,
            {
                assert(fit_result(hitmap@, size, columns, row, column) is Some);
                let ghost before = possible@;
                let ghost rest = fit_list(hitmap@, size, rows, columns, row as int, column + 1);
                if Army::fit_to(hitmap, size, columns, rows, row, column) {
                    possible.push(row * columns + column);
                    assert(possible@ + rest =~= before + (seq![(row * columns + column) as usize] + rest));
                } else {
                    assert(before + (Seq::<usize>::empty() + rest) =~= before + rest);
                }
                if column == last_column {
                    break;
                }
                column = column + 1;
            }
            assert(fit_list(hitmap@, size, rows, columns, row as int, (last_column + 1) as int) == fit_list(
                hitmap@,
                size,
                rows,
                columns,
                row + 1,
                0,
            ));
            if row == last_row {
                break;
            }
            row = row + 1;
        }
        assert(fit_list(hitmap@, size, rows, columns, last_row + 1, 0) =~= Seq::<usize>::empty());
        assert(possible@ + Seq::<usize>::empty() =~= possible@);
        possible
    }
}

/// Every place of the rectangle of `size` at `(column, row)` is free and
/// in the zone of its top-left place.
pub open spec fn rect_free_same_zone(
    h: Seq<Option<usize>>,
    size: (usize, usize),
    columns: usize,
    row: usize,
    column: usize,
) -> bool {
    forall|i: int, j: int|
        0 <= i < size.0 && 0 <= j < size.1 ==> h[#[trigger] rect_cell(i, j, UnitPos(column, row), columns)]
            is None && same_zone(rect_cell(i, j, UnitPos(column, row), columns), row * columns + column)
}

/// The cells from `(i, j)` on, in row order, are free and in the zone of
/// the place `first`.
spec fn rest_ok(
    h: Seq<Option<usize>>,
    size: (usize, usize),
    columns: usize,
    row: usize,
    column: usize,
    j: int,
    i: int,
) -> bool {
    forall|a: int, b: int|
        0 <= a < size.0 && 0 <= b < size.1 && (b > j || (b == j && a >= i)) ==> h[#[trigger] rect_cell(
            a,
            b,
            UnitPos(column, row),
            columns,
        )] is None && same_zone(rect_cell(a, b, UnitPos(column, row), columns), row * columns + column)
}

proof fn lemma_fit_scan(
    h: Seq<Option<usize>>,
    size: (usize, usize),
    columns: usize,
    row: usize,
    column: usize,
    j: int,
    i: int,
    prev: int,
)
    requires
        rect_inside(size, UnitPos(column, row), columns, h.len()),
        0 <= j,
        0 <= i <= size.0,
        same_zone(prev, row * columns + column),
    ensures
        fit_scan(h, size, columns, row, column, j, i, prev) == Some(rest_ok(h, size, columns, row, column, j, i)),
    decreases size.1 - j, size.0 - i,
{
    let pos = UnitPos(column, row);
    if j >= size.1 {
    } else if i >= size.0 {
        lemma_fit_scan(h, size, columns, row, column, j + 1, 0, prev);
        assert(rest_ok(h, size, columns, row, column, j, i) == rest_ok(h, size, columns, row, column, j + 1, 0));
    } else {
        let idx = rect_cell(i, j, pos, columns);
        assert(0 <= idx < h.len() && j + row <= usize::MAX && i + column <= usize::MAX);
        if h[idx] is Some || !same_zone(idx, prev) {
            assert(!rest_ok(h, size, columns, row, column, j, i)) by {
                assert(h[rect_cell(i, j, pos, columns)] is None ==> !same_zone(idx, row * columns + column));
            }
        } else {
            lemma_fit_scan(h, size, columns, row, column, j, i + 1, idx);
            assert(rest_ok(h, size, columns, row, column, j, i) == rest_ok(h, size, columns, row, column, j, i + 1)) by {
                if rest_ok(h, size, columns, row, column, j, i + 1) {
                    assert(h[rect_cell(i, j, pos, columns)] is None);
                }
            }
        }
    }
}

/// `fit_to` on a rectangle inside the hit map answers whether every place
/// of it is free and in the zone of its top-left place.
pub proof fn lemma_fit_to_inside(
    h: Seq<Option<usize>>,
    size: (usize, usize),
    columns: usize,
    row: usize,
    column: usize,
)
    requires
        rect_inside(size, UnitPos(column, row), columns, h.len()),
        row * columns + column <= usize::MAX,
    ensures
        fit_result(h, size, columns, row, column) == Some(rect_free_same_zone(h, size, columns, row, column)),
{
    lemma_fit_scan(h, size, columns, row, column, 0, 0, row * columns + column);
    assert(rest_ok(h, size, columns, row, column, 0, 0) == rect_free_same_zone(h, size, columns, row, column));
}

/// The hit map of an army with no troops: 12 free places.
pub open spec fn empty_hitmap() -> Seq<Option<usize>> {
    Seq::new(MAX_TROOPS as nat, |k: int| None)
}

/// The place of grid index `p` (6 places a line).
pub open spec fn place_of(p: usize) -> UnitPos {
    UnitPos(p % 6, p / 6)
}

/// `e` is the top-left place of a rectangle of `size` within `rows` x
/// `columns`.
pub open spec fn fit_place(e: usize, size: (usize, usize), rows: usize, columns: usize) -> bool {
    exists|r: int, c: int|
        0 <= r <= rows - size.1 && 0 <= c <= columns - size.0 && e == #[trigger] grid_index(r, c, columns)
}

/// Grid index of column `c` of row `r`.
pub open spec fn grid_index(r: int, c: int, columns: usize) -> int {
    r * columns + c
}

proof fn lemma_fit_list_places(
    h: Seq<Option<usize>>,
    size: (usize, usize),
    rows: usize,
    columns: usize,
    row: int,
    column: int,
)
    ensures
        forall|k: int|
            0 <= k < fit_list(h, size, rows, columns, row, column).len() ==> fit_place(
                #[trigger] fit_list(h, size, rows, columns, row, column)[k],
                size,
                rows,
                columns,
            ),
    decreases rows - size.1 - row + 1, columns - size.0 - column + 1,
{
    if row > rows - size.1 || row < 0 || column < 0 {
        assert(fit_list(h, size, rows, columns, row, column) =~= Seq::<usize>::empty());
    } else if column > columns - size.0 {
        lemma_fit_list_places(h, size, rows, columns, row + 1, 0);
        assert(fit_list(h, size, rows, columns, row, column) == fit_list(h, size, rows, columns, row + 1, 0));
    } else {
        lemma_fit_list_places(h, size, rows, columns, row, column + 1);
        let head: Seq<usize> = if fit_result(h, size, columns, row as usize, column as usize) == Some(true) {
            seq![(row * columns + column) as usize]
        } else {
            Seq::empty()
        };
        let tail = fit_list(h, size, rows, columns, row, column + 1);
        assert(fit_list(h, size, rows, columns, row, column) == head + tail);
        assert forall|k: int| 0 <= k < (head + tail).len() implies fit_place(#[trigger] (head + tail)[k], size, rows, columns) by {
            if k < head.len() {
                assert(row * columns + column <= usize::MAX || true);
                assert((row * columns + column) as usize == row * columns + column) by {
                    assert(fit_result(h, size, columns, row as usize, column as usize) == Some(true));
                }
                assert((head + tail)[k] == grid_index(row, column, columns));
                assert(fit_place((head + tail)[k], size, rows, columns));
            } else {
                assert((head + tail)[k] == tail[k - head.len()]);
            }
        }
        assert forall|k: int| 0 <= k < fit_list(h, size, rows, columns, row, column).len() implies fit_place(
            #[trigger] fit_list(h, size, rows, columns, row, column)[k],
            size,
            rows,
            columns,
        ) by {
            assert(fit_list(h, size, rows, columns, row, column)[k] == (head + tail)[k]);
        }
    }
}

/// A troop of `size` placed at grid index `e` of a 12-place grid, where
/// `fit` offered it, lies within the grid.
proof fn lemma_placed_inside(e: usize, size: (usize, usize))
    requires
        fit_place(e, size, MAX_LINES, MAX_TROOPS / MAX_LINES),
        size.1 <= 2,
        size.0 <= 6,
    ensures
        rect_inside(size, place_of(e), 6, 12),
{
    let (r, c) = choose|r: int, c: int|
        0 <= r <= 2 - size.1 && 0 <= c <= 6 - size.0 && e == #[trigger] grid_index(r, c, 6);
    if size.0 > 0 && size.1 > 0 {
        assert(e / 6 == r && e % 6 == c) by (nonlinear_arith)
            requires
                e == r * 6 + c,
                0 <= c < 6,
                0 <= r,
        ;
    }
}

/// Every rectangle that `fit` checks on a 12-place grid can be checked.
proof fn lemma_grid_checkable(h: Seq<Option<usize>>, size: (usize, usize))
    requires
        h.len() == 12,
        size.1 <= 2,
        size.0 <= 6,
    ensures
        fit_checkable(h, size, MAX_LINES, MAX_TROOPS / MAX_LINES),
{
    assert forall|row: usize, column: usize| row <= 2 - size.1 && column <= 6 - size.0 implies #[trigger] fit_result(
        h,
        size,
        6,
        row,
        column,
    ) is Some by {
        assert(rect_inside(size, UnitPos(column, row), 6, h.len()));
        lemma_fit_to_inside(h, size, 6, row, column);
    }
}

/// The troops after adding `t` to `troops` laid out on an empty grid: at
/// the first place where it fits, if any.
pub open spec fn troops_added(troops: Seq<TroopSlot>, t: TroopSlot) -> Seq<TroopSlot> {
    let fl = fit_list(layout(empty_hitmap(), troops, 6), t.size, MAX_LINES, MAX_TROOPS / MAX_LINES, 0, 0);
    if fl.len() == 0 {
        troops
    } else {
        troops.push(TroopSlot { pos: place_of(fl[0]), ..t })
    }
}

/// The troops after adding each of `ts` in turn to an empty army.
pub open spec fn troops_added_all(ts: Seq<TroopSlot>) -> Seq<TroopSlot>
    decreases ts.len(),
{
    if ts.len() == 0 {
        Seq::empty()
    } else {
        troops_added(troops_added_all(ts.drop_last()), ts.last())
    }
}

/// An inventory of at least four slots: `inv` with free slots added.
pub open spec fn padded(inv: Seq<Option<Item>>) -> Seq<Option<Item>> {
    if inv.len() < 4 {
        inv + Seq::new((4 - inv.len()) as nat, |k: int| None)
    } else {
        inv
    }
}

/// The first free slot of an inventory.
pub open spec fn first_free_slot(inv: Seq<Option<Item>>) -> Option<int> {
    if exists|i: int| 0 <= i < inv.len() && inv[i] is None {
        Some(choose|i: int| 0 <= i < inv.len() && inv[i] is None && forall|k: int| 0 <= k < i ==> inv[k] is Some)
    } else {
        None
    }
}

/// The first slot holding item `index`.
pub open spec fn first_holding(inv: Seq<Option<Item>>, index: usize) -> Option<int> {
    if exists|i: int| 0 <= i < inv.len() && inv[i] == Some(Item { index }) {
        Some(
            choose|i: int|
                0 <= i < inv.len() && inv[i] == Some(Item { index }) && forall|k: int|
                    0 <= k < i ==> inv[k] != Some(Item { index }),
        )
    } else {
        None
    }
}

impl Army {
    /// The army's places and troops agree: the hit map has 12 places and
    /// every living troop lies within them.
    pub open spec fn grid_ok(&self) -> bool {
        &&& self.hitmap@.len() == MAX_TROOPS
        &&& troops_inside(self.troops@, 6, 12)
    }

    /// Lays the living troops out anew on an empty grid.
    pub fn recalc_army_hitmap(&mut self)
        requires
            troops_inside(old(self).troops@, 6, 12),
        ensures
            final(self).hitmap@ == layout(empty_hitmap(), old(self).troops@, 6),
            final(self).troops == old(self).troops,
            final(self).inventory == old(self).inventory,
            final(self).stats == old(self).stats,
            final(self).pos == old(self).pos,
            final(self).active == old(self).active,
            final(self).control == old(self).control,
            final(self).building == old(self).building,
            final(self).defeated == old(self).defeated,
            final(self).transport == old(self).transport,
            final(self).path == old(self).path,
    {
        let mut hitmap: HitMap = Vec::new();
        let mut k: usize = 0;
        while k < MAX_TROOPS
            invariant
                k <= MAX_TROOPS,
                hitmap@ == Seq::new(k as nat, |q: int| None::<usize>),
            decreases MAX_TROOPS - k,
        {
            hitmap.push(None);
            assert(hitmap@ =~= Seq::new((k + 1) as nat, |q: int| None::<usize>));
            k = k + 1;
        }
        assert(hitmap@ =~= empty_hitmap());
        Army::recalc_hitmap(&self.troops, &mut hitmap, MAX_TROOPS / MAX_LINES);
        self.hitmap = hitmap;
    }

    /// Adds `troop` at the first place where it fits (see `troops_added`)
    /// and lays the troops out anew; fails, changing nothing, when it fits
    /// nowhere.
    pub fn add_troop(&mut self, troop: TroopSlot) -> (r: Result<(), ()>)
        requires
            old(self).grid_ok(),
            troop.size.1 <= MAX_LINES,
            troop.size.0 <= MAX_TROOPS / MAX_LINES,
        ensures
            final(self).grid_ok(),
            final(self).inventory == old(self).inventory,
            final(self).stats == old(self).stats,
            final(self).pos == old(self).pos,
            final(self).active == old(self).active,
            final(self).control == old(self).control,
            final(self).building == old(self).building,
            final(self).defeated == old(self).defeated,
            final(self).transport == old(self).transport,
            final(self).path == old(self).path,
            ({
                let fl = fit_list(old(self).hitmap@, troop.size, MAX_LINES, MAX_TROOPS / MAX_LINES, 0, 0);
                if fl.len() == 0 {
                    r is Err && *final(self) == *old(self)
                } else {
                    &&& r is Ok
                    &&& final(self).troops@ == old(self).troops@.push(TroopSlot { pos: place_of(fl[0]), ..troop })
                    &&& final(self).hitmap@ == layout(empty_hitmap(), final(self).troops@, 6)
                }
            }),
    {
        let size = troop.size;
        proof {
            lemma_grid_checkable(self.hitmap@, size);
            lemma_fit_list_places(self.hitmap@, size, MAX_LINES, MAX_TROOPS / MAX_LINES, 0, 0);
        }
        let res = Army::fit(self.hitmap.as_slice(), size, MAX_LINES, MAX_TROOPS / MAX_LINES);
        if res.len() == 0 {
            return Err(());
        }
        let pos = res[0];
        let mut placed = troop;
        placed.pos = UnitPos::from_index(pos);
        proof {
            assert(fit_place(res@[0], size, MAX_LINES, MAX_TROOPS / MAX_LINES));
            lemma_placed_inside(pos, size);
        }
        let ghost before = self.troops@;
        self.troops.push(placed);
        proof {
            assert forall|k: int| 0 <= k < self.troops@.len() && !(#[trigger] self.troops@[k]).dead implies rect_inside(
                self.troops@[k].size,
                self.troops@[k].pos,
                6,
                12,
            ) by {
                if k < before.len() {
                    assert(self.troops@[k] == before[k]);
                }
            }
        }
        self.recalc_army_hitmap();
        proof {
            lemma_layout_len(empty_hitmap(), self.troops@, 6);
        }
        Ok(())
    }

    /// A new army with `troops` added in turn (a troop that fits nowhere
    /// is left out), an inventory of at least four slots and no building,
    /// path or defeat.
    pub fn new(
        troops: Vec<TroopSlot>,
        stats: ArmyStats,
        inventory: Vec<Option<Item>>,
        pos: (usize, usize),
        active: bool,
        control: Control,
    ) -> (r: Self)
        requires
            forall|k: int| 0 <= k < troops@.len() ==> (#[trigger] troops@[k]).size.1 <= MAX_LINES && troops@[k].size.0
                <= MAX_TROOPS / MAX_LINES,
        ensures
            r.grid_ok(),
            r.troops@ == troops_added_all(troops@),
            r.hitmap@ == layout(empty_hitmap(), r.troops@, 6),
            r.inventory@ == padded(inventory@),
            r.stats == stats,
            r.pos == pos,
            r.active == active,
            r.control == control,
            r.building is None,
            !r.defeated,
            r.transport,
            r.path@.len() == 0,
    {
        let mut hitmap: HitMap = Vec::new();
        let mut k: usize = 0;
        while k < MAX_TROOPS
            invariant
                k <= MAX_TROOPS,
                hitmap@ == Seq::new(k as nat, |q: int| None::<usize>),
            decreases MAX_TROOPS - k,
        {
            hitmap.push(None);
            assert(hitmap@ =~= Seq::new((k + 1) as nat, |q: int| None::<usize>));
            k = k + 1;
        }
        assert(hitmap@ =~= empty_hitmap());
        let mut inventory = inventory;
        let ghost inv0 = inventory@;
        if inventory.len() < 4 {
            while inventory.len() < 4
                invariant
                    inv0.len() < 4,
                    inv0.len() <= inventory@.len() <= 4,
                    inventory@ == inv0 + Seq::new((inventory@.len() - inv0.len()) as nat, |q: int| None::<Item>),
                decreases 4 - inventory@.len(),
            {
                let ghost before = inventory@;
                inventory.push(None);
                assert(inventory@ =~= inv0 + Seq::new((inventory@.len() - inv0.len()) as nat, |q: int| None::<Item>));
            }
        }
        assert(inventory@ == padded(inv0));
        let mut army = Army {
            troops: Vec::new(),
            building: None,
            hitmap,
            defeated: false,
            transport: true,
            stats,
            control,
            inventory,
            pos,
            active,
            path: Vec::new(),
        };
        assert(army.hitmap@ == layout(empty_hitmap(), army.troops@, 6));
        let mut n: usize = 0;
        while n < troops.len()
            invariant
                n <= troops@.len(),
                forall|k: int| 0 <= k < troops@.len() ==> (#[trigger] troops@[k]).size.1 <= MAX_LINES
                    && troops@[k].size.0 <= MAX_TROOPS / MAX_LINES,
                army.grid_ok(),
                army.troops@ == troops_added_all(troops@.subrange(0, n as int)),
                army.hitmap@ == layout(empty_hitmap(), army.troops@, 6),
                army.inventory@ == padded(inv0),
                army.stats == stats,
                army.pos == pos,
                army.active == active,
                army.control == control,
                army.building is None,
                !army.defeated,
                army.transport,
                army.path@.len() == 0,
            decreases troops.len() - n,
        {
            proof {
                let sub = troops@.subrange(0, n + 1);
                assert(sub.drop_last() =~= troops@.subrange(0, n as int));
                assert(sub.last() == troops@[n as int]);
            }
            let _ = army.add_troop(troops[n]);
            n = n + 1;
        }
        assert(troops@.subrange(0, troops@.len() as int) =~= troops@);
        army
    }

    /// Puts `item` in the first free slot of the inventory, if any.
    pub fn add_item(&mut self, item: Item)
        ensures
            final(self).inventory@ == match first_free_slot(old(self).inventory@) {
                Some(i) => old(self).inventory@.update(i, Some(item)),
                None => old(self).inventory@,
            },
            final(self).troops == old(self).troops,
            final(self).hitmap == old(self).hitmap,
            final(self).stats == old(self).stats,
    {
        let mut i: usize = 0;
        while i < self.inventory.len()
            invariant
                i <= self.inventory@.len(),
                self.inventory@ == old(self).inventory@,
                self.troops == old(self).troops,
                self.hitmap == old(self).hitmap,
                self.stats == old(self).stats,
                forall|k: int| 0 <= k < i ==> self.inventory@[k] is Some,
            decreases self.inventory.len() - i,
        {
            if self.inventory[i].is_none() {
                proof {
                    let inv = old(self).inventory@;
                    assert(exists|q: int| 0 <= q < inv.len() && inv[q] is None);
                    let c = choose|q: int| 0 <= q < inv.len() && inv[q] is None && forall|k: int| 0 <= k < q ==> inv[k] is Some;
                    assert(c == i) by {
                        if c < i {
                            assert(inv[c] is Some);
                        }
                        if c > i {
                            assert(inv[i as int] is Some);
                        }
                    }
                }
                self.inventory.set(i, Some(item));
                return;
            }
            i = i + 1;
        }
    }

    /// Takes the first slot holding item `rem_item` out of the inventory
    /// (the later slots move up), if there is one.
    pub fn remove_item(&mut self, rem_item: usize)
        ensures
            final(self).inventory@ == match first_holding(old(self).inventory@, rem_item) {
                Some(i) => old(self).inventory@.remove(i),
                None => old(self).inventory@,
            },
            final(self).troops == old(self).troops,
            final(self).hitmap == old(self).hitmap,
            final(self).stats == old(self).stats,
    {
        let mut i: usize = 0;
        while i < self.inventory.len()
            invariant
                i <= self.inventory@.len(),
                self.inventory@ == old(self).inventory@,
                self.troops == old(self).troops,
                self.hitmap == old(self).hitmap,
                self.stats == old(self).stats,
                forall|k: int| 0 <= k < i ==> self.inventory@[k] != Some(Item { index: rem_item }),
            decreases self.inventory.len() - i,
        {
            let holds = match self.inventory[i] {
                Some(it) => it.index == rem_item,
                None => false,
            };
            if holds {
                proof {
                    let inv = old(self).inventory@;
                    assert(inv[i as int] == Some(Item { index: rem_item }));
                    let c = choose|q: int|
                        0 <= q < inv.len() && inv[q] == Some(Item { index: rem_item }) && forall|k: int|
                            0 <= k < q ==> inv[k] != Some(Item { index: rem_item });
                    assert(c == i) by {
                        if c > i {
                            assert(inv[i as int] != Some(Item { index: rem_item }));
                        }
                    }
                }
                self.inventory.remove(i);
                return;
            }
            i = i + 1;
        }
    }

    /// The troop standing at place `pos`, if any.
    pub fn get_troop(&self, pos: usize) -> (r: Option<TroopSlot>)
        requires
            pos < self.hitmap@.len(),
        ensures
            r == match self.hitmap@[pos as int] {
                Some(i) => if i < self.troops@.len() {
                    Some(self.troops@[i as int])
                } else {
                    None
                },
                None => None,
            },
    {
        match self.hitmap[pos] {
            Some(index) => {
                if index < self.troops.len() {
                    Some(self.troops[index])
                } else {
                    None
                }
            },
            None => None,
        }
    }
}

/// A scan that answers `Some(true)` stayed inside the hit map: every cell
/// it passed, from `(i, j)` on, is a place of the map.
proof fn lemma_scan_true_inside(
    h: Seq<Option<usize>>,
    size: (usize, usize),
    columns: usize,
    row: usize,
    column: usize,
    j: int,
    i: int,
    prev: int,
)
    requires
        0 <= j,
        0 <= i,
        fit_scan(h, size, columns, row, column, j, i, prev) == Some(true),
    ensures
        forall|ii: int, jj: int|
            0 <= ii < size.0 && j <= jj < size.1 && (jj > j || ii >= i) ==> 0 <= #[trigger] rect_cell(
                ii,
                jj,
                UnitPos(column, row),
                columns,
            ) < h.len() && jj + row <= usize::MAX && ii + column <= usize::MAX,
    decreases size.1 - j, size.0 - i,
{
    if j >= size.1 {
    } else if i >= size.0 {
        lemma_scan_true_inside(h, size, columns, row, column, j + 1, 0, prev);
    } else {
        let idx = (row + j) * columns + (i + column);
        lemma_scan_true_inside(h, size, columns, row, column, j, i + 1, idx);
        assert((row + j) * columns >= 0) by (nonlinear_arith)
            requires
                row + j >= 0,
                columns >= 0,
        ;
        assert(rect_cell(i, j, UnitPos(column, row), columns) == idx);
    }
}

/// The troops after the troop standing at place `pos` of `h`, if any, is
/// taken out.
pub open spec fn removed_at(troops: Seq<TroopSlot>, h: Seq<Option<usize>>, pos: usize) -> Seq<TroopSlot> {
    if pos < h.len() && h[pos as int] is Some {
        troops.remove(h[pos as int].unwrap() as int)
    } else {
        troops
    }
}

impl Army {
    /// Takes out the troop standing at place `at.pos`, if any; then, for
    /// `Some(unit)`, puts a fresh troop of that kind (`units` gives each
    /// kind's footprint) at that place if it fits there on the hit map as
    /// it was, and lays the troops out anew. When it does not fit, the
    /// troops stay without the one taken out and the hit map is left as it
    /// was.
    pub fn set_unit_at(&mut self, unit_id: Option<usize>, at: BattleUnitPos, units: &Vec<HireTerms>)
        requires
            old(self).grid_ok(),
            at.pos < old(self).hitmap@.len() ==> match old(self).hitmap@[at.pos as int] {
                Some(i) => i < old(self).troops@.len(),
                None => true,
            },
            match unit_id {
                Some(u) => u < units@.len() && fit_result(old(self).hitmap@, units@[u as int].size, 6, at.pos / 6, at.pos % 6) is Some,
                None => true,
            },
        ensures
            final(self).inventory == old(self).inventory,
            final(self).stats == old(self).stats,
            final(self).pos == old(self).pos,
            final(self).active == old(self).active,
            final(self).control == old(self).control,
            final(self).building == old(self).building,
            final(self).defeated == old(self).defeated,
            final(self).transport == old(self).transport,
            final(self).path == old(self).path,
            ({
                let removed = removed_at(old(self).troops@, old(self).hitmap@, at.pos);
                match unit_id {
                    None => final(self).troops@ == removed && final(self).hitmap@ == layout(empty_hitmap(), removed, 6),
                    Some(u) => if fit_result(old(self).hitmap@, units@[u as int].size, 6, at.pos / 6, at.pos % 6) == Some(true) {
                        &&& final(self).troops@ == removed.push(
                            TroopSlot { size: units@[u as int].size, pos: UnitPos(at.pos % 6, at.pos / 6), dead: false },
                        )
                        &&& final(self).hitmap@ == layout(empty_hitmap(), final(self).troops@, 6)
                    } else {
                        final(self).troops@ == removed && final(self).hitmap@ == old(self).hitmap@
                    },
                }
            }),
    {
        let pos = at.pos;
        let ghost old_troops = self.troops@;
        if pos < self.hitmap.len() {
            match self.hitmap[pos] {
                Some(index) => {
                    self.troops.remove(index);
                },
                None => {},
            }
        }
        proof {
            assert forall|k: int| 0 <= k < self.troops@.len() && !(#[trigger] self.troops@[k]).dead implies rect_inside(
                self.troops@[k].size,
                self.troops@[k].pos,
                6,
                12,
            ) by {
                if self.troops@.len() < old_troops.len() {
                    let gone = self.hitmap@[pos as int].unwrap() as int;
                    if k < gone {
                        assert(self.troops@[k] == old_troops[k]);
                    } else {
                        assert(self.troops@[k] == old_troops[k + 1]);
                    }
                } else {
                    assert(self.troops@[k] == old_troops[k]);
                }
            }
        }
        match unit_id {
            Some(unit_id) => {
                let size = units[unit_id].size;
                let dpos = UnitPos::from_index(pos);
                if !Army::fit_to(self.hitmap.as_slice(), size, MAX_TROOPS / 2, MAX_LINES, dpos.1, dpos.0) {
                    return;
                }
                proof {
                    lemma_scan_true_inside(self.hitmap@, size, 6, dpos.1, dpos.0, 0, 0, dpos.1 * 6 + dpos.0);
                    assert(rect_inside(size, dpos, 6, 12));
                }
                let ghost before = self.troops@;
                self.troops.push(TroopSlot { size, pos: dpos, dead: false });
                proof {
                    assert forall|k: int| 0 <= k < self.troops@.len() && !(#[trigger] self.troops@[k]).dead implies rect_inside(
                        self.troops@[k].size,
                        self.troops@[k].pos,
                        6,
                        12,
                    ) by {
                        if k < before.len() {
                            assert(self.troops@[k] == before[k]);
                        }
                    }
                }
            },
            None => {},
        }
        self.recalc_army_hitmap();
    }
}

} // verus!
