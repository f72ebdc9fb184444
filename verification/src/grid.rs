//! The grid: positions, tiles, the tile map and line of sight.

use vstd::prelude::*;

verus! {

/// Absolute value on mathematical integers.
pub open spec fn spec_abs(v: int) -> int {
    if v < 0 { -v } else { v }
}

/// The larger of two integers.
pub open spec fn spec_max(a: int, b: int) -> int {
    if a < b { b } else { a }
}

/// A cell of the grid, by column `x` and row `y`.
#[derive(Clone, Copy, PartialEq, Eq, Debug, Hash, Structural)]
pub struct GridPosition {
    pub x: i32,
    pub y: i32,
}

/// What a tile is made of.
#[derive(Clone, Copy, PartialEq, Eq, Debug, Structural)]
pub enum TileType {
    Floor,
    Wall,
}

/// A tile of the level: its cell and what it is made of.
#[derive(Clone, Copy, PartialEq, Eq, Debug, Structural)]
pub struct Tile {
    pub x: i32,
    pub y: i32,
    pub kind: TileType,
}

impl Tile {
    /// The tile at column `x`, row `y`, made of `kind`.
    pub fn new(x: i32, y: i32, kind: TileType) -> (tile: Self)
        ensures
            tile.x == x,
            tile.y == y,
            tile.kind == kind,
    {
        Self { x, y, kind }
    }

    /// The cell a tile stands on.
    pub open spec fn position(self) -> GridPosition {
        GridPosition { x: self.x, y: self.y }
    }
}

impl From<Tile> for GridPosition {
    fn from(value: Tile) -> (pos: Self) {
        Self { x: value.x, y: value.y }
    }
}

impl vstd::std_specs::convert::FromSpecImpl<Tile> for GridPosition {
    open spec fn obeys_from_spec() -> bool {
        true
    }

    open spec fn from_spec(v: Tile) -> Self {
        v.position()
    }
}

impl<'a> From<&'a Tile> for GridPosition {
    fn from(value: &'a Tile) -> (pos: Self) {
        Self { x: value.x, y: value.y }
    }
}

impl<'a> vstd::std_specs::convert::FromSpecImpl<&'a Tile> for GridPosition {
    open spec fn obeys_from_spec() -> bool {
        true
    }

    open spec fn from_spec(v: &'a Tile) -> Self {
        v.position()
    }
}

impl core::ops::Sub for GridPosition {
    type Output = Self;

    fn sub(self, rhs: Self) -> (diff: Self) {
        Self { x: (self.x - rhs.x), y: (self.y - rhs.y) }
    }
}

impl vstd::std_specs::ops::SubSpecImpl for GridPosition {
    open spec fn obeys_sub_spec() -> bool {
        true
    }

    /// Subtraction panics when a coordinate difference leaves the `i32` range.
    open spec fn sub_req(self, rhs: Self) -> bool {
        &&& i32::MIN <= self.x - rhs.x <= i32::MAX
        &&& i32::MIN <= self.y - rhs.y <= i32::MAX
    }

    open spec fn sub_spec(self, rhs: Self) -> Self {
        GridPosition { x: (self.x - rhs.x) as i32, y: (self.y - rhs.y) as i32 }
    }
}

/// A click on a tile: the tile's entity id, the tile's cell, and the player
/// unit standing there that has not moved yet, if any.
#[derive(Clone, Copy, PartialEq, Eq, Debug, Structural)]
pub struct GridClicked {
    pub tile: u64,
    pub click_pos: GridPosition,
    pub unit: Option<u64>,
}

/// The cell of the tile whose entity id is `tile`, among the tiles' ids and
/// cells (the first entry with that id), if there is one.
pub open spec fn cell_of(cells: Seq<(u64, GridPosition)>, tile: u64) -> Option<GridPosition>
    decreases cells.len(),
{
    if cells.len() == 0 {
        None
    } else if cells[0].0 == tile {
        Some(cells[0].1)
    } else {
        cell_of(cells.drop_first(), tile)
    }
}

/// Looks up the cell of the tile whose entity id is `tile`.
pub fn tile_cell(cells: &Vec<(u64, GridPosition)>, tile: u64) -> (cell: Option<GridPosition>)
    ensures
        cell == cell_of(cells@, tile),
{
    let mut i: usize = 0;
    assert(cells@.skip(0) =~= cells@);
    while i < cells.len()
        invariant
            i <= cells@.len(),
            cell_of(cells@, tile) == cell_of(cells@.skip(i as int), tile),
        decreases cells.len() - i,
    {
        let (id, cell) = cells[i];
        assert(cells@.skip(i as int).drop_first() =~= cells@.skip(i + 1));
        if id == tile {
            return Some(cell);
        }
        i = i + 1;
    }
    None
}

/// Both coordinate differences between `a` and `b` fit in an `i32`.
pub open spec fn diffs_fit(a: GridPosition, b: GridPosition) -> bool {
    &&& spec_abs(b.x - a.x) <= i32::MAX
    &&& spec_abs(b.y - a.y) <= i32::MAX
}

/// The Manhattan distance between `a` and `b` fits in an `i32`.
pub open spec fn within_reach(a: GridPosition, b: GridPosition) -> bool {
    spec_abs(b.x - a.x) + spec_abs(b.y - a.y) <= i32::MAX
}

/// Manhattan distance between two cells.
pub open spec fn manhattan(a: GridPosition, b: GridPosition) -> int {
    spec_abs(b.x - a.x) + spec_abs(b.y - a.y)
}

/// `|v|` for a value whose absolute value is representable.
pub fn abs_i32(v: i32) -> (r: i32)
    requires
        v != i32::MIN,
    ensures
        r == spec_abs(v as int),
{
    if v < 0 {
        -v
    } else {
        v
    }
}

// ---------------------------------------------------------------------------
// Bresenham line
// ---------------------------------------------------------------------------

/// Number of cells on the line from `from` to `to` (both ends included).
pub open spec fn line_len(from: GridPosition, to: GridPosition) -> int {
    spec_max(spec_abs(to.x - from.x), spec_abs(to.y - from.y)) + 1
}

/// After `i` steps along the major axis (of length `major`), the number of
/// steps taken along the minor axis (of length `minor`): the rounded position
/// of the ideal line, `ceil((i * minor - major / 2) / major)`.
pub open spec fn minor_steps(i: int, major: int, minor: int) -> int {
    (i * minor - major / 2 + major - 1) / major
}

/// The coordinate `steps` cells from `from` in the direction of `to`
/// (downwards when `to` is not above `from`).
pub open spec fn step_towards(from: i32, to: i32, steps: int) -> int {
    if from < to { from + steps } else { from - steps }
}

/// The `i`-th cell of the line from `from` to `to`.
pub open spec fn line_point(from: GridPosition, to: GridPosition, i: int) -> GridPosition {
    let dx = spec_abs(to.x - from.x);
    let dy = spec_abs(to.y - from.y);
    if dx > dy {
        GridPosition {
            x: step_towards(from.x, to.x, i) as i32,
            y: step_towards(from.y, to.y, minor_steps(i, dx, dy)) as i32,
        }
    } else if dy > 0 {
        GridPosition {
            x: step_towards(from.x, to.x, minor_steps(i, dy, dx)) as i32,
            y: step_towards(from.y, to.y, i) as i32,
        }
    } else {
        from
    }
}

/// The cells of the line from `from` to `to`, in order.
pub open spec fn line_spec(from: GridPosition, to: GridPosition) -> Seq<GridPosition> {
    Seq::new(line_len(from, to) as nat, |i: int| line_point(from, to, i))
}

/// If `0 <= e0 - k*minor + j*major < major` then `j` is `minor_steps(k, major, minor)`.
proof fn lemma_minor_steps_exact(k: int, j: int, major: int, minor: int)
    requires
        major > 0,
        0 <= major / 2 - k * minor + j * major < major,
    ensures
        j == minor_steps(k, major, minor),
{
    let a = k * minor - major / 2 + major - 1;
    let r = a - j * major;
    assert(a == j * major + r);
    vstd::arithmetic::div_mod::lemma_fundamental_div_mod_converse(a, major, j, r);
}

/// Zero steps along the major axis means zero along the minor axis.
proof fn lemma_minor_steps_zero(major: int, minor: int)
    requires
        major > 0,
    ensures
        minor_steps(0, major, minor) == 0,
{
    assert(0 * minor == 0) by (nonlinear_arith);
    lemma_minor_steps_exact(0, 0, major, minor);
}

/// A full run along the major axis covers the whole minor axis.
proof fn lemma_minor_steps_full(major: int, minor: int)
    requires
        major > 0,
        0 <= minor <= major,
    ensures
        minor_steps(major, major, minor) == minor,
{
    assert(major * minor == minor * major) by (nonlinear_arith);
    lemma_minor_steps_exact(major, minor, major, minor);
}

/// One step along the major axis moves at most one step along the minor axis.
proof fn lemma_minor_steps_increment(k: int, major: int, minor: int)
    requires
        major > 0,
        0 <= minor <= major,
    ensures
        minor_steps(k, major, minor) <= minor_steps(k + 1, major, minor) <= minor_steps(k, major, minor) + 1,
{
    let a = k * minor - major / 2 + major - 1;
    let q = a / major;
    let r = a % major;
    vstd::arithmetic::div_mod::lemma_fundamental_div_mod(a, major);
    assert((k + 1) * minor == k * minor + minor) by (nonlinear_arith);
    let b = a + minor;
    assert(b == (k + 1) * minor - major / 2 + major - 1);
    assert((q + 1) * major == q * major + major) by (nonlinear_arith);
    if r + minor < major {
        vstd::arithmetic::div_mod::lemma_fundamental_div_mod_converse(b, major, q, r + minor);
    } else {
        vstd::arithmetic::div_mod::lemma_fundamental_div_mod_converse(b, major, q + 1, r + minor - major);
    }
}

/// Along a run of the major axis, the minor steps stay between zero and the minor length.
proof fn lemma_minor_steps_bounded(k: int, major: int, minor: int)
    requires
        major > 0,
        0 <= minor <= major,
        0 <= k <= major,
    ensures
        0 <= minor_steps(k, major, minor) <= minor,
    decreases major - k,
{
    if k == major {
        lemma_minor_steps_full(major, minor);
    } else {
        lemma_minor_steps_bounded(k + 1, major, minor);
        lemma_minor_steps_increment(k, major, minor);
        lemma_minor_steps_lower(k, major, minor);
    }
}

/// Minor steps are never negative for a nonnegative major step count.
proof fn lemma_minor_steps_lower(k: int, major: int, minor: int)
    requires
        major > 0,
        0 <= minor <= major,
        0 <= k,
    ensures
        0 <= minor_steps(k, major, minor),
    decreases k,
{
    if k == 0 {
        lemma_minor_steps_zero(major, minor);
    } else {
        lemma_minor_steps_lower(k - 1, major, minor);
        lemma_minor_steps_increment(k - 1, major, minor);
    }
}

/// The line from `from` to `to`, computed with Bresenham's algorithm.
///
/// Requires the Manhattan distance between the ends to fit in an `i32`, which
/// keeps every intermediate value of the error term representable.
pub fn line(from: GridPosition, to: GridPosition) -> (coordinates: Vec<GridPosition>)
    requires
        within_reach(from, to),
    ensures
        coordinates@ == line_spec(from, to),
{
    let mut coordinates: Vec<GridPosition> = Vec::new();

    let x1 = from.x;
    let y1 = from.y;
    let x2 = to.x;
    let y2 = to.y;

    let dx: i32 = abs_i32(x2 - x1);
    let dy: i32 = abs_i32(y2 - y1);
    let sx: i32 = if x1 < x2 { 1 } else { -1 };
    let sy: i32 = if y1 < y2 { 1 } else { -1 };

    let mut error: i32 = (if dx > dy { dx } else { -dy }) / 2;
    let mut current_x: i32 = x1;
    let mut current_y: i32 = y1;

    let ghost major: int = if dx > dy { dx as int } else { dy as int };
    let ghost minor: int = if dx > dy { dy as int } else { dx as int };
    let ghost mut k: int = 0;
    let ghost mut j: int = 0;

    proof {
        if major > 0 {
            lemma_minor_steps_zero(major, minor);
        }
        assert(0 * minor == 0 && 0 * major == 0) by (nonlinear_arith);
    }

    loop
        invariant_except_break
            0 <= k <= major,
            coordinates@.len() == k,
            forall|i: int| 0 <= i < k ==> coordinates@[i] == #[trigger] line_point(from, to, i),
            x1 == from.x && y1 == from.y && x2 == to.x && y2 == to.y,
            within_reach(from, to),
            dx == spec_abs(x2 - x1),
            dy == spec_abs(y2 - y1),
            dx + dy <= i32::MAX,
            sx == (if x1 < x2 { 1int } else { -1int }),
            sy == (if y1 < y2 { 1int } else { -1int }),
            major == (if dx > dy { dx as int } else { dy as int }),
            minor == (if dx > dy { dy as int } else { dx as int }),
            major > 0 ==> j == minor_steps(k, major, minor),
            major == 0 ==> j == 0,
            0 <= j <= minor,
            dx > dy ==> {
                &&& 0 <= error < dx
                &&& error == dx / 2 - k * dy + j * dx
                &&& current_x == step_towards(x1, x2, k)
                &&& current_y == step_towards(y1, y2, j)
            },
            dx <= dy ==> {
                &&& 0 <= -error < dy || (dy == 0 && error == 0)
                &&& -error == dy / 2 - k * dx + j * dy
                &&& current_x == step_towards(x1, x2, j)
                &&& current_y == step_towards(y1, y2, k)
            },
        ensures
            coordinates@ =~= line_spec(from, to),
        decreases major - k,
    {
        proof {
            if major > 0 {
                lemma_minor_steps_increment(k, major, minor);
            }
        }
        assert(line_point(from, to, k) == (GridPosition { x: current_x, y: current_y }));
        coordinates.push(GridPosition { x: current_x, y: current_y });
        proof {
            if k == major && major > 0 {
                lemma_minor_steps_full(major, minor);
            }
        }

        if current_x == x2 && current_y == y2 {
            assert(k == major);
            break;
        }
        proof {
            assert(k < major);
        }

        let error2: i32 = error;
        proof {
            assert((k + 1) * dy == k * dy + dy) by (nonlinear_arith);
            assert((k + 1) * dx == k * dx + dx) by (nonlinear_arith);
            assert((j + 1) * dy == j * dy + dy) by (nonlinear_arith);
            assert((j + 1) * dx == j * dx + dx) by (nonlinear_arith);
            lemma_minor_steps_bounded(k + 1, major, minor);
            if dx > dy && error2 < dy {
                lemma_minor_steps_exact(k + 1, j + 1, major, minor);
            }
            if dx <= dy && error2 > -dx {
                lemma_minor_steps_exact(k + 1, j + 1, major, minor);
            }
        }

        if error2 > -dx {
            error -= dy;
            current_x += sx;
        }
        if error2 < dy {
            error += dx;
            current_y += sy;
        }

        proof {
            if dx > dy {
                if error2 < dy {
                    j = j + 1;
                }
            } else {
                if error2 > -dx {
                    j = j + 1;
                }
            }
            k = k + 1;
            lemma_minor_steps_exact(k, j, major, minor);
        }
    }
    coordinates
}

// ---------------------------------------------------------------------------
// Tile map
// ---------------------------------------------------------------------------

/// What stands at `pos` according to `tiles`, the later of two tiles on the
/// same cell taking precedence.
pub open spec fn kind_at(tiles: Seq<Tile>, pos: GridPosition) -> Option<TileType>
    decreases tiles.len(),
{
    if tiles.len() == 0 {
        None
    } else if tiles.last().position() == pos {
        Some(tiles.last().kind)
    } else {
        kind_at(tiles.drop_last(), pos)
    }
}

/// Lookup from cells to the tiles on them.
pub struct Tilemap(pub Vec<Tile>);

impl Tilemap {
    /// What stands at `pos`, if any tile does.
    pub open spec fn spec_kind_at(&self, pos: GridPosition) -> Option<TileType> {
        kind_at(self.0@, pos)
    }

    /// What stands at `pos`, if any tile does.
    pub fn get(&self, pos: GridPosition) -> (kind: Option<TileType>)
        ensures
            kind == self.spec_kind_at(pos),
    {
        let mut i = self.0.len();
        assert(self.0@.take(i as int) =~= self.0@);
        while i > 0
            invariant
                i <= self.0@.len(),
                kind_at(self.0@, pos) == kind_at(self.0@.take(i as int), pos),
            decreases i,
        {
            assert(self.0@.take(i as int).drop_last() =~= self.0@.take(i - 1));
            i = i - 1;
            let tile = &self.0[i];
            if tile.x == pos.x && tile.y == pos.y {
                return Some(tile.kind);
            }
        }
        None
    }
}

/// Collects the tiles into a lookup from cells to tiles.
pub fn build_tilemap(tiles: &Vec<Tile>) -> (tilemap: Tilemap)
    ensures
        tilemap.0@ == tiles@,
        forall|pos: GridPosition| #[trigger] tilemap.spec_kind_at(pos) == kind_at(tiles@, pos),
{
    Tilemap(tiles.clone())
}

/// Nothing on the line from `from` to `to` but `from` itself is a wall.
pub open spec fn los_spec(tiles: Seq<Tile>, from: GridPosition, to: GridPosition) -> bool {
    forall|i: int|
        0 <= i < line_len(from, to) && #[trigger] line_point(from, to, i) != from
            ==> kind_at(tiles, line_point(from, to, i)) != Some(TileType::Wall)
}

/// Line of sight: walks the line from `from` to `to` and fails on the first
/// wall past the starting cell; cells with no tile do not block.
pub fn los(from: GridPosition, to: GridPosition, tilemap: &Tilemap) -> (visible: bool)
    requires
        within_reach(from, to),
    ensures
        visible == los_spec(tilemap.0@, from, to),
{
    let points = line(from, to);
    let mut i: usize = 0;
    while i < points.len()
        invariant
            points@ == line_spec(from, to),
            i <= points@.len(),
            forall|k: int|
                0 <= k < i && #[trigger] line_point(from, to, k) != from
                    ==> kind_at(tilemap.0@, line_point(from, to, k)) != Some(TileType::Wall),
        decreases points.len() - i,
    {
        let pos = points[i];
        assert(pos == line_point(from, to, i as int));
        if pos == from {
            i = i + 1;
            continue;
        }
        if let Some(TileType::Wall) = tilemap.get(pos) {
            return false;
        }
        i = i + 1;
    }
    true
}

// ---------------------------------------------------------------------------
// Level layout
// ---------------------------------------------------------------------------

/// The tile for the character `c` at column `x` of row `y` of a level:
/// `'W'` is a wall, anything else is floor.
pub open spec fn tile_for(x: int, y: int, c: char) -> Tile {
    Tile { x: x as i32, y: y as i32, kind: kind_of_char(c) }
}

/// The tiles of one row of a level, left to right.
pub open spec fn row_tiles(row: Seq<char>, y: int) -> Seq<Tile> {
    Seq::new(row.len(), |x: int| tile_for(x, y, row[x]))
}

/// The tiles of rows `k..` of a level, last row first.
pub open spec fn level_tiles_from(rows: Seq<Seq<char>>, k: int) -> Seq<Tile>
    decreases rows.len() - k,
{
    if k >= rows.len() || k < 0 {
        Seq::empty()
    } else {
        level_tiles_from(rows, k + 1) + row_tiles(rows[k], k)
    }
}

/// The rows of a level as character sequences.
pub open spec fn level_rows(level: Seq<&str>) -> Seq<Seq<char>> {
    level.map_values(|row: &str| row@)
}

/// What the level character `c` is made of.
pub open spec fn kind_of_char(c: char) -> TileType {
    if c == 'W' { TileType::Wall } else { TileType::Floor }
}

/// Looking a cell up in two tile lists joined: the second list wins.
proof fn lemma_kind_at_concat(first: Seq<Tile>, second: Seq<Tile>, pos: GridPosition)
    ensures
        kind_at(first + second, pos) == match kind_at(second, pos) {
            Some(kind) => Some(kind),
            None => kind_at(first, pos),
        },
    decreases second.len(),
{
    if second.len() == 0 {
        assert(first + second =~= first);
    } else {
        assert((first + second).drop_last() =~= first + second.drop_last());
        lemma_kind_at_concat(first, second.drop_last(), pos);
    }
}

/// Looking a cell up in the tiles of one row.
proof fn lemma_kind_at_row(row: Seq<char>, y: int, pos: GridPosition)
    requires
        row.len() <= i32::MAX + 1,
        0 <= y <= i32::MAX,
    ensures
        kind_at(row_tiles(row, y), pos) == if pos.y == y && 0 <= pos.x < row.len() {
            Some(kind_of_char(row[pos.x as int]))
        } else {
            None
        },
    decreases row.len(),
{
    if row.len() > 0 {
        assert(row_tiles(row, y).drop_last() =~= row_tiles(row.drop_last(), y));
        lemma_kind_at_row(row.drop_last(), y, pos);
    }
}

/// Looking a cell up in the tiles of rows `k..` of a level.
proof fn lemma_kind_at_rows(rows: Seq<Seq<char>>, k: int, pos: GridPosition)
    requires
        0 <= k,
        rows.len() <= i32::MAX + 1,
        forall|y: int| 0 <= y < rows.len() ==> (#[trigger] rows[y]).len() <= i32::MAX + 1,
    ensures
        kind_at(level_tiles_from(rows, k), pos) == if k <= pos.y < rows.len() && 0 <= pos.x < rows[pos.y as int].len() {
            Some(kind_of_char(rows[pos.y as int][pos.x as int]))
        } else {
            None
        },
    decreases rows.len() - k,
{
    if k < rows.len() {
        lemma_kind_at_rows(rows, k + 1, pos);
        lemma_kind_at_concat(level_tiles_from(rows, k + 1), row_tiles(rows[k], k), pos);
        lemma_kind_at_row(rows[k], k, pos);
    }
}

/// The tile map of a level reads back the level: a cell inside the level is
/// a wall exactly where the level has a `'W'` and floor elsewhere; a cell
/// outside the level has no tile.
pub proof fn lemma_level_tilemap(rows: Seq<Seq<char>>, pos: GridPosition)
    requires
        rows.len() <= i32::MAX + 1,
        forall|y: int| 0 <= y < rows.len() ==> (#[trigger] rows[y]).len() <= i32::MAX + 1,
    ensures
        kind_at(level_tiles_from(rows, 0), pos) == if 0 <= pos.y < rows.len() && 0 <= pos.x < rows[pos.y as int].len() {
            Some(kind_of_char(rows[pos.y as int][pos.x as int]))
        } else {
            None
        },
{
    lemma_kind_at_rows(rows, 0, pos);
}

/// The tiles of a level, one per character, bottom row first.
pub fn spawn(level: &[&str]) -> (tiles: Vec<Tile>)
    ensures
        tiles@ == level_tiles_from(level_rows(level@), 0),
{
    let ghost rows = level_rows(level@);
    let mut tiles: Vec<Tile> = Vec::new();
    let mut y = level.len();
    while y > 0
        invariant
            y <= level@.len(),
            rows == level_rows(level@),
            tiles@ == level_tiles_from(rows, y as int),
        decreases y,
    {
        y = y - 1;
        let row: &str = level[y];
        let width = row.unicode_len();
        let ghost before = tiles@;
        let mut x: usize = 0;
        while x < width
            invariant
                y < level@.len(),
                rows == level_rows(level@),
                row@ == rows[y as int],
                width == row@.len(),
                x <= width,
                tiles@ == before + row_tiles(rows[y as int], y as int).take(x as int),
            decreases width - x,
        {
            let c = row.get_char(x);
            let kind = if c == 'W' { TileType::Wall } else { TileType::Floor };
            tiles.push(Tile::new(x as i32, y as i32, kind));
            assert(row_tiles(rows[y as int], y as int).take(x + 1) =~= row_tiles(rows[y as int], y as int).take(x as int).push(tile_for(x as int, y as int, c)));
            x = x + 1;
        }
        assert(row_tiles(rows[y as int], y as int).take(width as int) =~= row_tiles(rows[y as int], y as int));
    }
    tiles
}

/// A cell always sees itself.
pub proof fn lemma_los_self(tiles: Seq<Tile>, p: GridPosition)
    ensures
        los_spec(tiles, p, p),
{
}

/// A wall hides itself: no other cell sees a wall cell.
pub proof fn lemma_los_wall_target(tiles: Seq<Tile>, from: GridPosition, to: GridPosition)
    requires
        within_reach(from, to),
        from != to,
        kind_at(tiles, to) == Some(TileType::Wall),
    ensures
        !los_spec(tiles, from, to),
{
    lemma_line_endpoints(from, to);
    let last = line_len(from, to) - 1;
    assert(line_point(from, to, last) == to);
}

/// The first unit (entity id and cell) standing on `pos`, if any.
pub open spec fn first_unit_at(units: Seq<(u64, GridPosition)>, pos: GridPosition) -> Option<u64>
    decreases units.len(),
{
    if units.len() == 0 {
        None
    } else if units[0].1 == pos {
        Some(units[0].0)
    } else {
        first_unit_at(units.drop_first(), pos)
    }
}

/// The first of `units` (entity ids and cells) that stands on `pos`, if any.
pub fn unit_at(units: &Vec<(u64, GridPosition)>, pos: GridPosition) -> (unit: Option<u64>)
    ensures
        unit == first_unit_at(units@, pos),
{
    let mut i: usize = 0;
    assert(units@.skip(0) =~= units@);
    while i < units.len()
        invariant
            i <= units@.len(),
            first_unit_at(units@, pos) == first_unit_at(units@.skip(i as int), pos),
        decreases units.len() - i,
    {
        let (id, cell) = units[i];
        assert(units@.skip(i as int).drop_first() =~= units@.skip(i + 1));
        if cell == pos {
            return Some(id);
        }
        i = i + 1;
    }
    None
}

/// Every wall of `fewer` is a wall of `more`.
pub open spec fn has_more_walls(fewer: Seq<Tile>, more: Seq<Tile>) -> bool {
    forall|pos: GridPosition|
        #[trigger] kind_at(fewer, pos) == Some(TileType::Wall) ==> kind_at(more, pos) == Some(TileType::Wall)
}

/// More walls never create line of sight: what is seen with more walls is
/// seen with fewer.
pub proof fn lemma_los_more_walls(fewer: Seq<Tile>, more: Seq<Tile>, from: GridPosition, to: GridPosition)
    requires
        has_more_walls(fewer, more),
        los_spec(more, from, to),
    ensures
        los_spec(fewer, from, to),
{
    assert forall|i: int|
        0 <= i < line_len(from, to) && #[trigger] line_point(from, to, i) != from
            implies kind_at(fewer, line_point(from, to, i)) != Some(TileType::Wall) by {
        if kind_at(fewer, line_point(from, to, i)) == Some(TileType::Wall) {
            assert(kind_at(more, line_point(from, to, i)) == Some(TileType::Wall));
        }
    }
}

/// `p` moved by `(dx, dy)`.
pub open spec fn shifted(p: GridPosition, dx: int, dy: int) -> GridPosition {
    GridPosition { x: (p.x + dx) as i32, y: (p.y + dy) as i32 }
}

/// `p` moved by `(dx, dy)` stays within `i32`.
pub open spec fn shift_fits(p: GridPosition, dx: int, dy: int) -> bool {
    i32::MIN <= p.x + dx <= i32::MAX && i32::MIN <= p.y + dy <= i32::MAX
}

/// Lines do not depend on where they are drawn: moving both ends by the
/// same offset moves every cell of the line by that offset.
pub proof fn lemma_line_translation(from: GridPosition, to: GridPosition, dx: int, dy: int, i: int)
    requires
        within_reach(from, to),
        shift_fits(from, dx, dy),
        shift_fits(to, dx, dy),
        0 <= i < line_len(from, to),
    ensures
        line_len(shifted(from, dx, dy), shifted(to, dx, dy)) == line_len(from, to),
        line_point(shifted(from, dx, dy), shifted(to, dx, dy), i) == shifted(line_point(from, to, i), dx, dy),
{
    let f2 = shifted(from, dx, dy);
    let t2 = shifted(to, dx, dy);
    assert(f2.x == from.x + dx && f2.y == from.y + dy);
    assert(t2.x == to.x + dx && t2.y == to.y + dy);
    assert(spec_abs(t2.x - f2.x) == spec_abs(to.x - from.x));
    assert(spec_abs(t2.y - f2.y) == spec_abs(to.y - from.y));
    let ax = spec_abs(to.x - from.x);
    let ay = spec_abs(to.y - from.y);
    if ax > ay {
        lemma_minor_steps_bounded(i, ax, ay);
        let j = minor_steps(i, ax, ay);
        assert(step_towards(f2.x, t2.x, i) == step_towards(from.x, to.x, i) + dx);
        assert(step_towards(f2.y, t2.y, j) == step_towards(from.y, to.y, j) + dy);
    } else if ay > 0 {
        lemma_minor_steps_bounded(i, ay, ax);
        let j = minor_steps(i, ay, ax);
        assert(step_towards(f2.x, t2.x, j) == step_towards(from.x, to.x, j) + dx);
        assert(step_towards(f2.y, t2.y, i) == step_towards(from.y, to.y, i) + dy);
    }
}

/// Chebyshev (king-move) distance between two cells.
pub open spec fn chebyshev(a: GridPosition, b: GridPosition) -> int {
    spec_max(spec_abs(b.x - a.x), spec_abs(b.y - a.y))
}

/// A line starts at its first end and finishes at its second end.
pub proof fn lemma_line_endpoints(from: GridPosition, to: GridPosition)
    requires
        within_reach(from, to),
    ensures
        line_spec(from, to).len() >= 1,
        line_spec(from, to)[0] == from,
        line_spec(from, to).last() == to,
{
    let dx = spec_abs(to.x - from.x);
    let dy = spec_abs(to.y - from.y);
    if dx > dy {
        lemma_minor_steps_zero(dx, dy);
        lemma_minor_steps_full(dx, dy);
    } else if dy > 0 {
        lemma_minor_steps_zero(dy, dx);
        lemma_minor_steps_full(dy, dx);
    }
}

/// A line from a cell to itself is that single cell.
pub proof fn lemma_line_to_self(p: GridPosition)
    ensures
        line_spec(p, p) == seq![p],
{
    assert(line_spec(p, p) =~= seq![p]);
}

/// Consecutive cells of a line are king-move neighbours: every step moves
/// exactly one cell along the longer axis and at most one along the other.
pub proof fn lemma_line_steps(from: GridPosition, to: GridPosition, i: int)
    requires
        within_reach(from, to),
        0 <= i < line_len(from, to) - 1,
    ensures
        chebyshev(line_spec(from, to)[i], line_spec(from, to)[i + 1]) == 1,
{
    let dx = spec_abs(to.x - from.x);
    let dy = spec_abs(to.y - from.y);
    if dx > dy {
        lemma_minor_steps_increment(i, dx, dy);
        lemma_minor_steps_bounded(i, dx, dy);
        lemma_minor_steps_bounded(i + 1, dx, dy);
    } else if dy > 0 {
        lemma_minor_steps_increment(i, dy, dx);
        lemma_minor_steps_bounded(i, dy, dx);
        lemma_minor_steps_bounded(i + 1, dy, dx);
    }
}

/// Every cell of a line lies in the rectangle spanned by its ends.
pub proof fn lemma_line_in_box(from: GridPosition, to: GridPosition, i: int)
    requires
        within_reach(from, to),
        0 <= i < line_len(from, to),
    ensures
        spec_abs(line_spec(from, to)[i].x - from.x) + spec_abs(to.x - line_spec(from, to)[i].x)
            == spec_abs(to.x - from.x),
        spec_abs(line_spec(from, to)[i].y - from.y) + spec_abs(to.y - line_spec(from, to)[i].y)
            == spec_abs(to.y - from.y),
{
    let dx = spec_abs(to.x - from.x);
    let dy = spec_abs(to.y - from.y);
    if dx > dy {
        lemma_minor_steps_bounded(i, dx, dy);
    } else if dy > 0 {
        lemma_minor_steps_bounded(i, dy, dx);
    }
}

} // verus!
