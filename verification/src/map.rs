//! Map data: square tile maps, tile kinds, passability and scenario settings.
use crate::army::{Army, Relations};
use crate::object::{MapBuildingdata, ObjectInfo};
use crate::time::Time;
use vstd::prelude::*;

verus! {

/// Side of a standard map, in tiles.
pub const MAP_SIZE: usize = 50;

/// The integer square root: the greatest `r` with `r * r <= n`.
pub open spec fn is_isqrt(n: nat, r: nat) -> bool {
    r * r <= n < (r + 1) * (r + 1)
}

/// The integer square root of `n` (as `Roots::sqrt` of the `num` crate).
pub fn isqrt(n: usize) -> (r: usize)
    ensures
        is_isqrt(n as nat, r as nat),
{
    let mut lo: usize = 0;
    let mut hi: usize = if n < 4294967295 {
        n
    } else {
        4294967295
    };
    proof {
        assert((hi + 1) * (hi + 1) > n) by (nonlinear_arith)
            requires
                hi == n || (hi == 4294967295 && n <= usize::MAX && usize::MAX <= 18446744073709551615),
        ;
    }
    while lo < hi
        invariant
            lo <= hi <= 4294967295,
            lo * lo <= n,
            (hi + 1) * (hi + 1) > n,
        decreases hi - lo,
    {
        let mid = hi - (hi - lo) / 2;
        proof {
            assert(mid * mid <= 4294967295 * 4294967295) by (nonlinear_arith)
                requires
                    mid <= 4294967295,
            ;
        }
        let sq: u64 = (mid as u64) * (mid as u64);
        if sq <= n as u64 {
            lo = mid;
        } else {
            hi = mid - 1;
        }
    }
    lo
}

/// A square map stored row by row.
#[derive(Debug)]
pub struct TileMap<T> {
    pub inner: Vec<T>,
    /// Side of the square.
    pub size: usize,
}

impl<T> TileMap<T> {
    /// The tile in row `index.0`, column `index.1`.
    pub fn index(&self, index: (usize, usize)) -> (r: &T)
        requires
            index.1 + index.0 * self.size < self.inner@.len(),
        ensures
            *r == self.inner@[index.1 + index.0 * self.size],
    {
        let len = self.inner.len();
        assert(index.0 * self.size >= 0) by (nonlinear_arith);
        assert(index.0 * self.size < len);
        let row = index.0 * self.size;
        &self.inner[index.1 + row]
    }

    /// A map of the given tiles; its side is the integer square root of
    /// their number.
    pub fn new(tiles: Vec<T>) -> (r: Self)
        ensures
            r.inner@ == tiles@,
            is_isqrt(tiles@.len(), r.size as nat),
    {
        let len = tiles.len();
        TileMap { inner: tiles, size: isqrt(len) }
    }
}

/// What stands on a map tile, for walking.
#[derive(Clone, Copy, Debug, PartialEq, Eq, Structural)]
pub struct HitboxTile {
    pub passable: bool,
    pub deco_blocked: bool,
    pub need_transport: bool,
    pub building: Option<usize>,
    pub army: Option<usize>,
}

impl HitboxTile {
    /// A tile can be entered when it is passable ground with no army on it.
    pub fn passable(&self) -> (r: bool)
        ensures
            r == (self.army is None && self.passable),
    {
        self.army.is_none() && self.passable
    }
}

impl Default for HitboxTile {
    fn default() -> (r: Self)
        ensures
            !r.passable,
            !r.deco_blocked,
            !r.need_transport,
            r.building is None,
            r.army is None,
    {
        HitboxTile { passable: false, deco_blocked: false, need_transport: false, building: None, army: None }
    }
}

/// A kind of ground.
#[derive(Clone, Copy, Debug)]
pub struct Tile {
    /// Movement cost of the ground (0: impassable).
    pub walkspeed: u32,
    sprite_id: &'static str,
    need_transport: bool,
}

impl Tile {
    pub fn new(walkspeed: u32, sprite_id: &'static str, need_transport: bool) -> (r: Self)
        ensures
            r.speed() == walkspeed,
            r.sprite_name() == sprite_id@,
            r.needs_transport() == need_transport,
    {
        Tile { walkspeed, sprite_id, need_transport }
    }

    /// Movement cost of the ground.
    pub closed spec fn speed(&self) -> u32 {
        self.walkspeed
    }

    /// Name of the sprite file.
    pub closed spec fn sprite_name(&self) -> Seq<char> {
        self.sprite_id@
    }

    /// Whether crossing needs a boat.
    pub closed spec fn needs_transport(&self) -> bool {
        self.need_transport
    }

    pub fn sprite(&self) -> (r: &'static str)
        ensures
            r@ == self.sprite_name(),
    {
        self.sprite_id
    }

    pub fn need_transport(&self) -> (r: bool)
        ensures
            r == self.needs_transport(),
    {
        self.need_transport
    }
}

/// How a map is played.
#[derive(Clone, Debug, PartialEq, Eq)]
pub enum ScenarioVariant {
    Single,
    /// First map of a series (the next map's file).
    Start(String),
    /// A map inside a series (the next map's file).
    Series(String),
}

impl Default for ScenarioVariant {
    fn default() -> (r: Self)
        ensures
            r is Single,
    {
        ScenarioVariant::Single
    }
}

/// What carries over to the next map of a series.
#[derive(Clone, Copy, Debug, PartialEq, Eq, Structural)]
pub struct NextMapSettings {
    pub save_mana: bool,
    pub save_gold: bool,
    pub save_xp_and_lvl: bool,
    pub save_own_items: bool,
    pub save_all_items: bool,
    pub save_all_troops: bool,
}

impl Default for NextMapSettings {
    fn default() -> (r: Self)
        ensures
            !r.save_mana && !r.save_gold && !r.save_xp_and_lvl && !r.save_own_items
                && !r.save_all_items && !r.save_all_troops,
    {
        NextMapSettings {
            save_mana: false,
            save_gold: false,
            save_xp_and_lvl: false,
            save_own_items: false,
            save_all_items: false,
            save_all_troops: false,
        }
    }
}

/// The opening data of a map.
#[derive(Clone, Debug)]
pub struct StartStats {
    pub name: String,
    pub description: String,
    pub seed: usize,
    pub winning_event_id: usize,
    pub losing_event_id: usize,
    pub scenario: ScenarioVariant,
    pub time: Time,
}

impl Default for StartStats {
    fn default() -> (r: Self)
        ensures
            r.name@ == Seq::<char>::empty(),
            r.description@ == Seq::<char>::empty(),
            r.seed == 0,
            r.winning_event_id == 0,
            r.losing_event_id == 0,
            r.scenario is Single,
            r.time.minutes == 0,
    {
        StartStats {
            name: String::new(),
            description: String::new(),
            seed: 0,
            winning_event_id: 0,
            losing_event_id: 0,
            scenario: ScenarioVariant::Single,
            time: Time { minutes: 0 },
        }
    }
}

/// A lantern of the map: a light point that may also hold local events
/// (map model 9).
#[derive(Clone, Debug)]
pub struct MapLantern {
    pub x: usize,
    pub y: usize,
    pub id: usize,
    /// 9: a local event point; otherwise a plain lantern.
    pub map_model: u8,
    /// Light radius (0 to 24).
    pub light_radius: u8,
    /// A plain lantern lit from the start of the game.
    pub active_from_start: bool,
    /// Ids of the point's local events.
    pub events: Vec<usize>,
}

/// Number of kinds of ground.
pub const TILE_KINDS: usize = 15;

/// Movement cost of ground kind `id` (0: impassable).
pub open spec fn tile_speed(id: int) -> u32 {
    if id == 0 || id == 1 || id == 4 {
        4
    } else if id == 5 || id == 6 || id == 7 || id == 10 || id == 14 {
        2
    } else if id == 8 || id == 11 || id == 12 || id == 13 {
        1
    } else {
        0
    }
}

/// Whether ground kind `id` needs a boat: the two waters that can be sailed.
pub open spec fn tile_transport(id: int) -> bool {
    id == 0 || id == 1
}

/// The kind of ground `id`.
pub fn tile_of(id: usize) -> (r: Tile)
    requires
        id < TILE_KINDS,
    ensures
        r.speed() == tile_speed(id as int),
        r.needs_transport() == tile_transport(id as int),
{
    match id {
        0 => Tile::new(4, "Shallow.png", true),
        1 => Tile::new(4, "Water.png", true),
        2 => Tile::new(0, "DeepWater.png", false),
        3 => Tile::new(0, "FlameLand.png", false),
        4 => Tile::new(4, "Road.png", false),
        5 => Tile::new(2, "LowLand.png", false),
        6 => Tile::new(2, "Land.png", false),
        7 => Tile::new(2, "Plain.png", false),
        8 => Tile::new(1, "Swamp.png", false),
        9 => Tile::new(0, "DeepSwamp.png", false),
        10 => Tile::new(2, "Desert.png", false),
        11 => Tile::new(1, "Badground.png", false),
        12 => Tile::new(1, "Rock.png", false),
        13 => Tile::new(1, "Dust.png", false),
        _ => Tile::new(2, "Snow.png", false),
    }
}

/// A decoration on the map: its object index and its tile.
#[derive(Clone, Copy, Debug, PartialEq, Eq, Structural)]
pub struct MapDeco {
    pub index: usize,
    pub x: usize,
    pub y: usize,
}

impl MapDeco {
    pub fn new(index: usize, x: usize, y: usize) -> (r: Self)
        ensures
            r == (MapDeco { index, x, y }),
    {
        MapDeco { index, x, y }
    }
}

/// The relations of the map's fractions.
#[derive(Clone, Copy, Debug, PartialEq, Eq, Structural)]
pub struct FractionsRelations {
    pub ally: Relations,
    pub neighbour: Relations,
    pub enemy: Relations,
}

/// A map in play.
#[derive(Debug)]
pub struct GameMap {
    pub start: StartStats,
    pub time: Time,
    /// Ground kind of each tile.
    pub tilemap: TileMap<usize>,
    pub decomap: Vec<MapDeco>,
    pub lanterns: Vec<MapLantern>,
    /// What stands on each tile.
    pub hitmap: TileMap<HitboxTile>,
    pub buildings: Vec<MapBuildingdata>,
    pub armys: Vec<Army>,
    pub relations: FractionsRelations,
    pub pause: bool,
}

/// Index of the first lantern on tile `(x, y)`.
pub open spec fn lantern_at(l: Seq<MapLantern>, x: usize, y: usize) -> Option<int>
    decreases l.len(),
{
    if l.len() == 0 {
        None
    } else if l[0].x == x && l[0].y == y {
        Some(0)
    } else {
        match lantern_at(l.drop_first(), x, y) {
            Some(i) => Some(i + 1),
            None => None,
        }
    }
}

/// The tile index of army position `pos` on a map `n` tiles wide.
pub open spec fn pos_index(pos: (usize, usize), n: int) -> int {
    pos.1 + pos.0 * n
}

/// The last army standing on tile index `k` of a map `n` wide.
pub open spec fn army_on(armys: Seq<Army>, n: int, k: int) -> Option<usize>
    decreases armys.len(),
{
    if armys.len() == 0 {
        None
    } else if pos_index(armys.last().pos, n) == k {
        Some((armys.len() - 1) as usize)
    } else {
        army_on(armys.drop_last(), n, k)
    }
}

/// The footprint of the first object description with `index` `id`.
pub open spec fn object_size(objects: Seq<ObjectInfo>, id: usize) -> Option<(u8, u8)>
    decreases objects.len(),
{
    if objects.len() == 0 {
        None
    } else if objects[0].index == id {
        Some(objects[0].size)
    } else {
        object_size(objects.drop_first(), id)
    }
}

/// Tile `(tx, ty)` lies in the footprint of `size` anchored at `pos`: the
/// footprint reaches left and up from its anchor.
pub open spec fn covers(pos: (usize, usize), size: (u8, u8), tx: int, ty: int) -> bool {
    pos.0 - size.0 < tx <= pos.0 && pos.1 - size.1 < ty <= pos.1
}

/// The last building whose footprint holds tile `(tx, ty)` of a map `n`
/// wide (a building whose object is unknown holds none).
pub open spec fn building_on(bs: Seq<MapBuildingdata>, objects: Seq<ObjectInfo>, n: int, tx: int, ty: int) -> Option<usize>
    decreases bs.len(),
{
    if bs.len() == 0 {
        None
    } else {
        let b = bs.last();
        match object_size(objects, b.id) {
            Some(sz) => if covers(b.pos, sz, tx, ty) && 0 <= tx < n && 0 <= ty < n {
                Some((bs.len() - 1) as usize)
            } else {
                building_on(bs.drop_last(), objects, n, tx, ty)
            },
            None => building_on(bs.drop_last(), objects, n, tx, ty),
        }
    }
}

impl GameMap {
    /// The hit map has the tile map's shape, every tile is a known kind of
    /// ground, every army stands on a tile of the map and every building's
    /// anchor is a machine integer.
    pub open spec fn grid_ok(&self) -> bool {
        let n = self.tilemap.size as int;
        let len = self.tilemap.inner@.len();
        &&& self.hitmap.inner@.len() == len
        &&& self.hitmap.size == self.tilemap.size
        &&& n * n <= len
        &&& forall|k: int| 0 <= k < len ==> #[trigger] self.tilemap.inner@[k] < TILE_KINDS
        &&& forall|a: int| 0 <= a < self.armys@.len() ==> #[trigger] pos_index(self.armys@[a].pos, n) < len
        &&& forall|b: int|
            0 <= b < self.buildings@.len() ==> #[trigger] self.buildings@[b].pos.0 <= isize::MAX
                && self.buildings@[b].pos.1 <= isize::MAX
    }

    /// A map that opens with `start`: its clock set to the start time,
    /// nothing on it yet.
    pub fn new(start: StartStats, relations: FractionsRelations) -> (r: Self)
        ensures
            r.time == start.time,
            r.relations == relations,
            r.tilemap.inner@.len() == 0,
            r.hitmap.inner@.len() == 0,
            r.tilemap.size == 0,
            r.hitmap.size == 0,
            r.decomap@.len() == 0,
            r.lanterns@.len() == 0,
            r.buildings@.len() == 0,
            r.armys@.len() == 0,
            !r.pause,
    {
        let time = start.time;
        GameMap {
            start,
            time,
            tilemap: TileMap { inner: Vec::new(), size: 0 },
            decomap: Vec::new(),
            lanterns: Vec::new(),
            hitmap: TileMap { inner: Vec::new(), size: 0 },
            buildings: Vec::new(),
            armys: Vec::new(),
            relations,
            pause: false,
        }
    }

    /// An empty map (see `new`) with default opening data and relations.
    pub fn default() -> (r: Self)
        ensures
            r.time.minutes == 0,
            r.relations == (FractionsRelations {
                ally: Relations { player: 0, ally: 0, neighbour: 128, enemy: 255 },
                neighbour: Relations { player: 0, ally: 0, neighbour: 128, enemy: 255 },
                enemy: Relations { player: 0, ally: 0, neighbour: 128, enemy: 255 },
            }),
            r.tilemap.inner@.len() == 0,
            r.hitmap.inner@.len() == 0,
            r.tilemap.size == 0,
            r.hitmap.size == 0,
            r.decomap@.len() == 0,
            r.lanterns@.len() == 0,
            r.buildings@.len() == 0,
            r.armys@.len() == 0,
            !r.pause,
    {
        let relations = FractionsRelations {
            ally: Relations::default(),
            neighbour: Relations::default(),
            enemy: Relations::default(),
        };
        GameMap::new(StartStats::default(), relations)
    }

    /// The events of tile `(x, y)`: those of the first lantern there, if any.
    pub fn events_at(&self, x: usize, y: usize) -> (r: &[usize])
        ensures
            r@ == match lantern_at(self.lanterns@, x, y) {
                Some(i) => self.lanterns@[i].events@,
                None => Seq::<usize>::empty(),
            },
    {
        let mut i: usize = 0;
        while i < self.lanterns.len()
            invariant
                i <= self.lanterns@.len(),
                forall|k: int| 0 <= k < i ==> !(self.lanterns@[k].x == x && self.lanterns@[k].y == y),
            decreases self.lanterns.len() - i,
        {
            if self.lanterns[i].x == x && self.lanterns[i].y == y {
                proof {
                    lemma_lantern_at(self.lanterns@, x, y, i as int);
                }
                return self.lanterns[i].events.as_slice();
            }
            i = i + 1;
        }
        proof {
            lemma_no_lantern(self.lanterns@, x, y);
        }
        &[]
    }
}

proof fn lemma_lantern_at(l: Seq<MapLantern>, x: usize, y: usize, i: int)
    requires
        0 <= i < l.len(),
        l[i].x == x && l[i].y == y,
        forall|k: int| 0 <= k < i ==> !(l[k].x == x && l[k].y == y),
    ensures
        lantern_at(l, x, y) == Some(i),
    decreases i,
{
    if i > 0 {
        lemma_lantern_at(l.drop_first(), x, y, i - 1);
    }
}

proof fn lemma_no_lantern(l: Seq<MapLantern>, x: usize, y: usize)
    requires
        forall|k: int| 0 <= k < l.len() ==> !(l[k].x == x && l[k].y == y),
    ensures
        lantern_at(l, x, y) is None,
    decreases l.len(),
{
    if l.len() > 0 {
        lemma_no_lantern(l.drop_first(), x, y);
    }
}

/// The index of tile `(tx, ty)` in the row-by-row storage of a map `n`
/// wide.
pub open spec fn cell(tx: int, ty: int, n: int) -> int {
    ty + tx * n
}

proof fn lemma_cell_inside(tx: int, ty: int, n: int)
    requires
        0 <= tx < n,
        0 <= ty < n,
    ensures
        0 <= cell(tx, ty, n) < n * n,
{
    assert(0 <= ty + tx * n < n * n) by (nonlinear_arith)
        requires
            0 <= tx < n,
            0 <= ty < n,
    ;
}

proof fn lemma_cell_unique(tx: int, ty: int, ux: int, uy: int, n: int)
    requires
        0 <= tx < n,
        0 <= ty < n,
        0 <= ux < n,
        0 <= uy < n,
        cell(tx, ty, n) == cell(ux, uy, n),
    ensures
        tx == ux,
        ty == uy,
{
    if tx != ux {
        if tx > ux {
            assert((tx - ux) * n >= n) by (nonlinear_arith)
                requires
                    tx - ux >= 1,
                    n > 0,
            ;
            assert(ty + tx * n == ty + ux * n + (tx - ux) * n) by (nonlinear_arith);
        } else {
            assert((ux - tx) * n >= n) by (nonlinear_arith)
                requires
                    ux - tx >= 1,
                    n > 0,
            ;
            assert(uy + ux * n == uy + tx * n + (ux - tx) * n) by (nonlinear_arith);
        }
    }
}

/// The first `x` columns of a footprint of height `h` anchored at `pos`,
/// and `y` tiles of column `x`, within a map `n` wide: the tiles marked so
/// far while a building is laid on the hit map.
pub open spec fn marked(pos: (usize, usize), h: int, x: int, y: int, n: int, tx: int, ty: int) -> bool {
    &&& 0 <= tx < n
    &&& 0 <= ty < n
    &&& tx <= pos.0
    &&& ty <= pos.1
    &&& ((pos.0 - tx < x && pos.1 - ty < h) || (pos.0 - tx == x && pos.1 - ty < y))
}

/// The building mark that a tile of the hit map gets: the last building
/// that holds it, else the mark it had.
pub open spec fn building_mark(
    bs: Seq<MapBuildingdata>,
    objects: Seq<ObjectInfo>,
    n: int,
    tx: int,
    ty: int,
    before: Option<usize>,
) -> Option<usize> {
    match building_on(bs, objects, n, tx, ty) {
        Some(b) => Some(b),
        None => before,
    }
}

/// The footprint of the first object description with `index` `id`.
fn find_object_size(objects: &[ObjectInfo], id: usize) -> (r: Option<(u8, u8)>)
    ensures
        r == object_size(objects@, id),
{
    let mut j: usize = 0;
    assert(objects@.subrange(0, objects@.len() as int) =~= objects@);
    while j < objects.len()
        invariant
            j <= objects@.len(),
            object_size(objects@, id) == object_size(objects@.subrange(j as int, objects@.len() as int), id),
        decreases objects.len() - j,
    {
        let ghost rest = objects@.subrange(j as int, objects@.len() as int);
        assert(rest[0] == objects@[j as int]);
        assert(rest.drop_first() =~= objects@.subrange(j + 1, objects@.len() as int));
        if objects[j].index == id {
            return Some(objects[j].size);
        }
        j = j + 1;
    }
    None
}

impl GameMap {
    /// Clears the army marks of the hit map and marks the tile of each
    /// army with its index (a later army wins a shared tile).
    pub fn recalc_armies_hitboxes(&mut self)
        requires
            forall|a: int|
                0 <= a < old(self).armys@.len() ==> #[trigger] pos_index(old(self).armys@[a].pos, old(self).hitmap.size as int)
                    < old(self).hitmap.inner@.len(),
        ensures
            *final(self) == (GameMap {
                hitmap: TileMap { inner: final(self).hitmap.inner, size: old(self).hitmap.size },
                ..*old(self)
            }),
            final(self).hitmap.inner@.len() == old(self).hitmap.inner@.len(),
            forall|k: int|
                0 <= k < old(self).hitmap.inner@.len() ==> #[trigger] final(self).hitmap.inner@[k] == (HitboxTile {
                    army: army_on(old(self).armys@, old(self).hitmap.size as int, k),
                    ..old(self).hitmap.inner@[k]
                }),
    {
        let ghost orig = *self;
        let n = self.hitmap.size;
        let len = self.hitmap.inner.len();
        let mut i: usize = 0;
        while i < len
            invariant
                n == orig.hitmap.size,
                len == orig.hitmap.inner@.len(),
                i <= len,
                *self == (GameMap { hitmap: TileMap { inner: self.hitmap.inner, size: n }, ..orig }),
                self.hitmap.inner@.len() == len,
                forall|k: int| 0 <= k < i ==> #[trigger] self.hitmap.inner@[k] == (HitboxTile { army: None, ..orig.hitmap.inner@[k] }),
                forall|k: int| i <= k < len ==> #[trigger] self.hitmap.inner@[k] == orig.hitmap.inner@[k],
            decreases len - i,
        {
            let mut t = self.hitmap.inner[i];
            t.army = None;
            self.hitmap.inner.set(i, t);
            i = i + 1;
        }
        let mut a: usize = 0;
        assert(orig.armys@.subrange(0, 0) =~= Seq::<Army>::empty());
        while a < self.armys.len()
            invariant
                n == orig.hitmap.size,
                len == orig.hitmap.inner@.len(),
                a <= orig.armys@.len(),
                *self == (GameMap { hitmap: TileMap { inner: self.hitmap.inner, size: n }, ..orig }),
                self.hitmap.inner@.len() == len,
                forall|q: int| 0 <= q < orig.armys@.len() ==> #[trigger] pos_index(orig.armys@[q].pos, n as int) < len,
                forall|k: int|
                    0 <= k < len ==> #[trigger] self.hitmap.inner@[k] == (HitboxTile {
                        army: army_on(orig.armys@.subrange(0, a as int), n as int, k),
                        ..orig.hitmap.inner@[k]
                    }),
            decreases orig.armys@.len() - a,
        {
            assert(pos_index(orig.armys@[a as int].pos, n as int) < len);
            let pos = self.armys[a].pos;
            let idx = pos.1 + pos.0 * n;
            let mut t = self.hitmap.inner[idx];
            t.army = Some(a);
            self.hitmap.inner.set(idx, t);
            proof {
                let sub = orig.armys@.subrange(0, a + 1);
                assert(sub.drop_last() =~= orig.armys@.subrange(0, a as int));
                assert(sub.last() == orig.armys@[a as int]);
            }
            a = a + 1;
        }
        assert(orig.armys@.subrange(0, orig.armys@.len() as int) =~= orig.armys@);
    }

    /// Lays the map out on the hit map: each tile is passable where its
    /// ground can be walked and needs a boat where it must be sailed; the
    /// armies are marked (see `recalc_armies_hitboxes`); each tile of a
    /// building's footprint (`objects` gives the footprint by object
    /// `index`; the footprint reaches left and up from the anchor and is
    /// cut at the map's edges) is marked with the last such building. The
    /// other marks stay.
    pub fn calc_hitboxes(&mut self, objects: &[ObjectInfo])
        requires
            old(self).grid_ok(),
        ensures
            *final(self) == (GameMap {
                hitmap: TileMap { inner: final(self).hitmap.inner, size: old(self).hitmap.size },
                ..*old(self)
            }),
            final(self).hitmap.inner@.len() == old(self).hitmap.inner@.len(),
            forall|k: int|
                0 <= k < old(self).hitmap.inner@.len() ==> {
                    let h = #[trigger] final(self).hitmap.inner@[k];
                    let t = old(self).tilemap.inner@[k] as int;
                    &&& h.passable == (tile_speed(t) != 0)
                    &&& h.need_transport == tile_transport(t)
                    &&& h.deco_blocked == old(self).hitmap.inner@[k].deco_blocked
                    &&& h.army == army_on(old(self).armys@, old(self).tilemap.size as int, k)
                },
            forall|tx: int, ty: int|
                0 <= tx < old(self).tilemap.size && 0 <= ty < old(self).tilemap.size ==> #[trigger] final(self).hitmap.inner@[cell(
                    tx,
                    ty,
                    old(self).tilemap.size as int,
                )].building == building_mark(
                    old(self).buildings@,
                    objects@,
                    old(self).tilemap.size as int,
                    tx,
                    ty,
                    old(self).hitmap.inner@[cell(tx, ty, old(self).tilemap.size as int)].building,
                ),
            forall|k: int|
                old(self).tilemap.size * old(self).tilemap.size <= k < old(self).hitmap.inner@.len()
                    ==> #[trigger] final(self).hitmap.inner@[k].building == old(self).hitmap.inner@[k].building,
    {
        let ghost orig = *self;
        let n = self.tilemap.size;
        let len = self.tilemap.inner.len();
        let mut i: usize = 0;
        while i < len
            invariant
                orig.grid_ok(),
                n == orig.tilemap.size,
                len == orig.tilemap.inner@.len(),
                i <= len,
                *self == (GameMap { hitmap: TileMap { inner: self.hitmap.inner, size: n }, ..orig }),
                self.hitmap.inner@.len() == len,
                forall|k: int| 0 <= k < i ==> #[trigger] self.hitmap.inner@[k] == (HitboxTile {
                    passable: tile_speed(orig.tilemap.inner@[k] as int) != 0,
                    need_transport: tile_transport(orig.tilemap.inner@[k] as int),
                    ..orig.hitmap.inner@[k]
                }),
                forall|k: int| i <= k < len ==> #[trigger] self.hitmap.inner@[k] == orig.hitmap.inner@[k],
            decreases len - i,
        {
            assert(orig.tilemap.inner@[i as int] < TILE_KINDS);
            let tile = tile_of(self.tilemap.inner[i]);
            let mut t = self.hitmap.inner[i];
            t.need_transport = tile.need_transport();
            t.passable = tile.walkspeed != 0;
            self.hitmap.inner.set(i, t);
            i = i + 1;
        }
        let ghost laid = *self;
        self.recalc_armies_hitboxes();
        let ghost after_armies = self.hitmap.inner@;
        let mut b: usize = 0;
        assert(orig.buildings@.subrange(0, 0) =~= Seq::<MapBuildingdata>::empty());
        assert forall|tx: int, ty: int|
            0 <= tx < n && 0 <= ty < n implies #[trigger] self.hitmap.inner@[cell(tx, ty, n as int)].building
                == building_mark(
                orig.buildings@.subrange(0, 0),
                objects@,
                n as int,
                tx,
                ty,
                orig.hitmap.inner@[cell(tx, ty, n as int)].building,
            ) by {
            lemma_cell_inside(tx, ty, n as int);
        }
        while b < self.buildings.len()
            invariant
                orig.grid_ok(),
                n == orig.tilemap.size,
                len == orig.tilemap.inner@.len(),
                b <= orig.buildings@.len(),
                *self == (GameMap { hitmap: TileMap { inner: self.hitmap.inner, size: n }, ..orig }),
                self.hitmap.inner@.len() == len,
                after_armies.len() == len,
                forall|k: int| 0 <= k < len ==> {
                    let h = #[trigger] self.hitmap.inner@[k];
                    &&& h.passable == after_armies[k].passable
                    &&& h.need_transport == after_armies[k].need_transport
                    &&& h.deco_blocked == after_armies[k].deco_blocked
                    &&& h.army == after_armies[k].army
                },
                forall|k: int| 0 <= k < len ==> (#[trigger] after_armies[k]).passable == (tile_speed(orig.tilemap.inner@[k] as int) != 0),
                forall|k: int| 0 <= k < len ==> (#[trigger] after_armies[k]).building == orig.hitmap.inner@[k].building,
                forall|tx: int, ty: int|
                    0 <= tx < n && 0 <= ty < n ==> #[trigger] self.hitmap.inner@[cell(tx, ty, n as int)].building
                        == building_mark(
                        orig.buildings@.subrange(0, b as int),
                        objects@,
                        n as int,
                        tx,
                        ty,
                        orig.hitmap.inner@[cell(tx, ty, n as int)].building,
                    ),
                forall|k: int| n * n <= k < len ==> #[trigger] self.hitmap.inner@[k].building == orig.hitmap.inner@[k].building,
            decreases orig.buildings@.len() - b,
        {
            let ghost before = self.hitmap.inner@;
            let ghost sub = orig.buildings@.subrange(0, b + 1);
            proof {
                assert(sub.drop_last() =~= orig.buildings@.subrange(0, b as int));
                assert(sub.last() == orig.buildings@[b as int]);
                assert(orig.buildings@[b as int].pos.0 <= isize::MAX);
            }
            let id = self.buildings[b].id;
            let pos = self.buildings[b].pos;
            match find_object_size(objects, id) {
                None => {},
                Some(size) => {
                    let w = size.0 as usize;
                    let h = size.1 as usize;
                    let mut x: usize = 0;
                    while x < w
                        invariant
                            orig.grid_ok(),
                            n == orig.tilemap.size,
                            len == orig.tilemap.inner@.len(),
                            x <= w,
                            w == size.0,
                            h == size.1,
                            b < orig.buildings@.len(),
                            pos == orig.buildings@[b as int].pos,
                            *self == (GameMap { hitmap: TileMap { inner: self.hitmap.inner, size: n }, ..orig }),
                            self.hitmap.inner@.len() == len,
                            before.len() == len,
                            forall|k: int| 0 <= k < len ==> {
                                let hh = #[trigger] self.hitmap.inner@[k];
                                &&& hh.passable == before[k].passable
                                &&& hh.need_transport == before[k].need_transport
                                &&& hh.deco_blocked == before[k].deco_blocked
                                &&& hh.army == before[k].army
                            },
                            forall|k: int| 0 <= k < len ==> (#[trigger] before[k]).passable == (tile_speed(orig.tilemap.inner@[k] as int) != 0),
                            forall|tx: int, ty: int|
                                0 <= tx < n && 0 <= ty < n ==> #[trigger] self.hitmap.inner@[cell(tx, ty, n as int)].building
                                    == if marked(pos, h as int, x as int, 0, n as int, tx, ty) {
                                    Some(b)
                                } else {
                                    before[cell(tx, ty, n as int)].building
                                },
                            forall|k: int| n * n <= k < len ==> #[trigger] self.hitmap.inner@[k].building == before[k].building,
                        decreases w - x,
                    {
                        let mut y: usize = 0;
                        while y < h
                            invariant
                                orig.grid_ok(),
                                n == orig.tilemap.size,
                                len == orig.tilemap.inner@.len(),
                                x < w,
                                y <= h,
                                w == size.0,
                                h == size.1,
                                b < orig.buildings@.len(),
                                pos == orig.buildings@[b as int].pos,
                                *self == (GameMap { hitmap: TileMap { inner: self.hitmap.inner, size: n }, ..orig }),
                                self.hitmap.inner@.len() == len,
                                before.len() == len,
                                forall|k: int| 0 <= k < len ==> {
                                    let hh = #[trigger] self.hitmap.inner@[k];
                                    &&& hh.passable == before[k].passable
                                    &&& hh.need_transport == before[k].need_transport
                                    &&& hh.deco_blocked == before[k].deco_blocked
                                    &&& hh.army == before[k].army
                                },
                                forall|k: int| 0 <= k < len ==> (#[trigger] before[k]).passable == (tile_speed(orig.tilemap.inner@[k] as int) != 0),
                                forall|tx: int, ty: int|
                                    0 <= tx < n && 0 <= ty < n ==> #[trigger] self.hitmap.inner@[cell(tx, ty, n as int)].building
                                        == if marked(pos, h as int, x as int, y as int, n as int, tx, ty) {
                                        Some(b)
                                    } else {
                                        before[cell(tx, ty, n as int)].building
                                    },
                                forall|k: int| n * n <= k < len ==> #[trigger] self.hitmap.inner@[k].building == before[k].building,
                            decreases h - y,
                        {
                            if x <= pos.0 && y <= pos.1 {
                                let tx = pos.0 - x;
                                let ty = pos.1 - y;
                                if tx < n && ty < n {
                                    proof {
                                        lemma_cell_inside(tx as int, ty as int, n as int);
                                    }
                                    let idx = ty + tx * n;
                                    assert(idx == cell(tx as int, ty as int, n as int));
                                    assert(orig.tilemap.inner@[idx as int] < TILE_KINDS);
                                    let tile = tile_of(self.tilemap.inner[idx]);
                                    let ghost cur = self.hitmap.inner@;
                                    let mut t = self.hitmap.inner[idx];
                                    t.building = Some(b);
                                    t.passable = tile.walkspeed != 0;
                                    self.hitmap.inner.set(idx, t);
                                    proof {
                                        assert forall|ux: int, uy: int|
                                            0 <= ux < n && 0 <= uy < n implies #[trigger] self.hitmap.inner@[cell(ux, uy, n as int)].building
                                                == if marked(pos, h as int, x as int, y + 1, n as int, ux, uy) {
                                                Some(b)
                                            } else {
                                                before[cell(ux, uy, n as int)].building
                                            } by {
                                            lemma_cell_inside(ux, uy, n as int);
                                            if cell(ux, uy, n as int) == idx {
                                                lemma_cell_unique(ux, uy, tx as int, ty as int, n as int);
                                            } else {
                                                assert(self.hitmap.inner@[cell(ux, uy, n as int)] == cur[cell(ux, uy, n as int)]);
                                            }
                                        }
                                        assert forall|k: int| n * n <= k < len implies #[trigger] self.hitmap.inner@[k].building
                                            == before[k].building by {
                                            assert(self.hitmap.inner@[k] == cur[k]);
                                        }
                                    }
                                } else {
                                    proof {
                                        assert forall|ux: int, uy: int|
                                            0 <= ux < n && 0 <= uy < n implies #[trigger] self.hitmap.inner@[cell(ux, uy, n as int)].building
                                                == if marked(pos, h as int, x as int, y + 1, n as int, ux, uy) {
                                                Some(b)
                                            } else {
                                                before[cell(ux, uy, n as int)].building
                                            } by {
                                            assert(marked(pos, h as int, x as int, y + 1, n as int, ux, uy) == marked(
                                                pos,
                                                h as int,
                                                x as int,
                                                y as int,
                                                n as int,
                                                ux,
                                                uy,
                                            ));
                                        }
                                    }
                                }
                            } else {
                                proof {
                                    assert forall|ux: int, uy: int|
                                        0 <= ux < n && 0 <= uy < n implies #[trigger] self.hitmap.inner@[cell(ux, uy, n as int)].building
                                            == if marked(pos, h as int, x as int, y + 1, n as int, ux, uy) {
                                            Some(b)
                                        } else {
                                            before[cell(ux, uy, n as int)].building
                                        } by {
                                        assert(marked(pos, h as int, x as int, y + 1, n as int, ux, uy) == marked(
                                            pos,
                                            h as int,
                                            x as int,
                                            y as int,
                                            n as int,
                                            ux,
                                            uy,
                                        ));
                                    }
                                }
                            }
                            y = y + 1;
                        }
                        proof {
                            assert forall|ux: int, uy: int|
                                0 <= ux < n && 0 <= uy < n implies marked(pos, h as int, x as int, h as int, n as int, ux, uy)
                                    == marked(pos, h as int, x + 1, 0, n as int, ux, uy) by {}
                        }
                        x = x + 1;
                    }
                    proof {
                        assert forall|ux: int, uy: int|
                            0 <= ux < n && 0 <= uy < n implies marked(pos, h as int, w as int, 0, n as int, ux, uy) == covers(
                                pos,
                                size,
                                ux,
                                uy,
                            ) by {}
                    }
                },
            }
            b = b + 1;
        }
        assert(orig.buildings@.subrange(0, orig.buildings@.len() as int) =~= orig.buildings@);
    }
}

} // verus!
