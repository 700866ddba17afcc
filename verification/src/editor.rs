//! State of the map editor: the project, the cursor and the palette choice.
//! The project can only be read from outside.
use vstd::prelude::*;

verus! {

/// Kinds of ground in the tile palette.
pub const TILE_COUNT: usize = 15;

/// A place of the map (column, row).
pub type Pos = (usize, usize);

/// An army placed on the map, as the map checks read it: its name, its
/// place and, for an army led by the computer, its patrol radius.
#[derive(Debug)]
pub struct ArmyMark {
    pub name: String,
    pub pos: Pos,
    pub patrol_radius: Option<u64>,
}

/// A square map being edited: ground tile of each place, row by row, and
/// the armies placed on it.
#[derive(Debug)]
pub struct MapProject {
    size: usize,
    tiles: Vec<usize>,
    armies: Vec<ArmyMark>,
}

impl MapProject {
    /// Every place has a tile.
    #[verifier::type_invariant]
    spec fn well_formed(&self) -> bool {
        &&& self.size * self.size <= usize::MAX
        &&& self.tiles@.len() == self.size * self.size
    }

    /// Side of the map.
    pub closed spec fn side(&self) -> usize {
        self.size
    }

    /// Ground tiles, row by row.
    pub closed spec fn ground(&self) -> Seq<usize> {
        self.tiles@
    }

    /// The armies on the map, in order.
    pub closed spec fn army_marks(&self) -> Seq<ArmyMark> {
        self.armies@
    }

    /// A `size` x `size` map covered with `tile`, without armies.
    pub fn new(size: usize, tile: usize) -> (r: Self)
        requires
            size * size <= usize::MAX,
        ensures
            r.side() == size,
            r.ground() == Seq::new((size * size) as nat, |i: int| tile),
            r.army_marks().len() == 0,
    {
        let n = size * size;
        let mut tiles: Vec<usize> = Vec::new();
        let mut i: usize = 0;
        while i < n
            invariant
                i <= n,
                tiles@ == Seq::new(i as nat, |k: int| tile),
            decreases n - i,
        {
            tiles.push(tile);
            assert(tiles@ =~= Seq::new((i + 1) as nat, |k: int| tile));
            i = i + 1;
        }
        MapProject { size, tiles, armies: Vec::new() }
    }

    /// The armies on the map.
    pub fn armies(&self) -> (r: &Vec<ArmyMark>)
        ensures
            r@ == self.army_marks(),
    {
        &self.armies
    }

    /// Places one more army on the map.
    pub fn push_army(&mut self, army: ArmyMark)
        ensures
            final(self).army_marks() == old(self).army_marks().push(army),
            final(self).side() == old(self).side(),
            final(self).ground() == old(self).ground(),
    {
        proof {
            use_type_invariant(&*self);
        }
        let mut armies = Vec::new();
        std::mem::swap(&mut armies, &mut self.armies);
        armies.push(army);
        self.armies = armies;
    }

    /// Side of the map.
    pub fn size(&self) -> (r: usize)
        ensures
            r == self.side(),
    {
        self.size
    }

    /// The ground tile at `pos`, if it lies on the map.
    pub fn tile(&self, pos: Pos) -> (r: Option<usize>)
        ensures
            r == if pos.0 < self.side() && pos.1 < self.side() {
                Some(self.ground()[pos.0 + pos.1 * self.side()])
            } else {
                None
            },
    {
        proof {
            use_type_invariant(self);
        }
        if pos.0 < self.size && pos.1 < self.size {
            proof {
                assert(pos.0 + pos.1 * self.size < self.size * self.size) by (nonlinear_arith)
                    requires
                        pos.0 < self.size,
                        pos.1 < self.size,
                ;
            }
            Some(self.tiles[pos.0 + pos.1 * self.size])
        } else {
            None
        }
    }
}

/// The editor state: the project, the mouse cursor, the tile chosen in the
/// palette and the file the project was opened from.
#[derive(Debug)]
pub struct EditorState {
    project: MapProject,
    cursor: Pos,
    active_tile: usize,
    open_path: Option<String>,
}

impl EditorState {
    /// The project being edited.
    pub closed spec fn project_of(&self) -> MapProject {
        self.project
    }

    /// The cursor place.
    pub closed spec fn cursor_of(&self) -> Pos {
        self.cursor
    }

    /// The palette choice.
    pub closed spec fn tile_of(&self) -> usize {
        self.active_tile
    }

    /// The file of the project, if it was saved.
    pub closed spec fn path_of(&self) -> Option<Seq<char>> {
        match self.open_path {
            Some(p) => Some(p@),
            None => None,
        }
    }

    /// A fresh state for `project`: cursor at the origin, first tile,
    /// never saved.
    pub fn new(project: MapProject) -> (r: Self)
        ensures
            r.project_of() == project,
            r.cursor_of() == (0usize, 0usize),
            r.tile_of() == 0,
            r.path_of() is None,
    {
        EditorState { project, cursor: (0, 0), active_tile: 0, open_path: None }
    }

    /// The project, read only.
    pub fn project(&self) -> (r: &MapProject)
        ensures
            *r == self.project_of(),
    {
        &self.project
    }

    pub fn cursor(&self) -> (r: Pos)
        ensures
            r == self.cursor_of(),
    {
        self.cursor
    }

    pub fn active_tile(&self) -> (r: usize)
        ensures
            r == self.tile_of(),
    {
        self.active_tile
    }

    /// Chooses a tile in the palette (the last one if `tile` is past it).
    pub fn set_active_tile(&mut self, tile: usize)
        ensures
            final(self).tile_of() == if tile < TILE_COUNT - 1 {
                tile
            } else {
                (TILE_COUNT - 1) as usize
            },
            final(self).project_of() == old(self).project_of(),
            final(self).cursor_of() == old(self).cursor_of(),
            final(self).path_of() == old(self).path_of(),
    {
        self.active_tile = if tile < TILE_COUNT - 1 {
            tile
        } else {
            TILE_COUNT - 1
        };
    }

    /// The file of the project, if it was saved.
    pub fn open_path(&self) -> (r: Option<&str>)
        ensures
            match r {
                Some(p) => self.path_of() == Some(p@),
                None => self.path_of() is None,
            },
    {
        match &self.open_path {
            Some(p) => Some(p.as_str()),
            None => None,
        }
    }

    /// Moves the cursor (for the editor's commands).
    pub(crate) fn set_cursor(&mut self, cursor: Pos)
        ensures
            final(self).cursor_of() == cursor,
            final(self).project_of() == old(self).project_of(),
            final(self).tile_of() == old(self).tile_of(),
            final(self).path_of() == old(self).path_of(),
    {
        self.cursor = cursor;
    }

    /// Records the file of the project (for the editor's commands).
    pub(crate) fn set_open_path(&mut self, path: Option<String>)
        ensures
            final(self).path_of() == match path {
                Some(p) => Some(p@),
                None => None,
            },
            final(self).project_of() == old(self).project_of(),
            final(self).cursor_of() == old(self).cursor_of(),
            final(self).tile_of() == old(self).tile_of(),
    {
        self.open_path = path;
    }
}

} // verus!
