//! Units: their ranges, health and attacks, and the tiles each can reach.

use vstd::prelude::*;

use crate::grid::{
    GridPosition, Tile, Tilemap, diffs_fit, los, los_spec, spec_abs, within_reach,
};

pub mod enemy;
pub mod player;

verus! {

/// The shape of a range around a unit.
#[derive(Clone, Copy, PartialEq, Eq, Debug, Structural)]
pub enum RangeShape {
    /// Cells whose distance along each axis is below the given size.
    Square(u32),
    /// Cells in the same row or column.
    Axis,
}

impl RangeShape {
    /// Whether the shape, centred on `origin`, covers `tile`. The origin itself is never covered.
    pub open spec fn spec_contains(self, origin: GridPosition, tile: GridPosition) -> bool {
        let dx = spec_abs(tile.x - origin.x);
        let dy = spec_abs(tile.y - origin.y);
        if dx == 0 && dy == 0 {
            false
        } else {
            match self {
                RangeShape::Square(range) => dx < (range as i32) && dy < (range as i32),
                RangeShape::Axis => dx == 0 || dy == 0,
            }
        }
    }

    /// Whether the shape, centred on `origin`, covers `tile`.
    pub fn contains(self, origin: GridPosition, tile: GridPosition) -> (covered: bool)
        requires
            diffs_fit(origin, tile),
        ensures
            covered == self.spec_contains(origin, tile),
    {
        let dx = crate::grid::abs_i32(tile.x - origin.x);
        let dy = crate::grid::abs_i32(tile.y - origin.y);

        if dx == 0 && dy == 0 {
            return false;
        }

        match self {
            RangeShape::Square(range) => dx < range as i32 && dy < range as i32,
            RangeShape::Axis => dx == 0 || dy == 0,
        }
    }

    /// Whether the shape covers `tile` and `los` lets `origin` see it; `los` is
    /// asked only about covered tiles.
    pub fn contains_with_los<F>(&self, origin: GridPosition, tile: GridPosition, los: F) -> (reachable: bool)
        where
            F: Fn(GridPosition, GridPosition) -> bool,
        requires
            diffs_fit(origin, tile),
            self.spec_contains(origin, tile) ==> los.requires((origin, tile)),
        ensures
            !self.spec_contains(origin, tile) ==> !reachable,
            self.spec_contains(origin, tile) ==> los.ensures((origin, tile), reachable),
    {
        if !self.contains(origin, tile) {
            false
        } else {
            los(origin, tile)
        }
    }
}

/// A range never covers its own centre, and covers `b` from `a` exactly when
/// it covers `a` from `b`.
pub proof fn lemma_range_shape(shape: RangeShape, a: GridPosition, b: GridPosition)
    ensures
        !shape.spec_contains(a, a),
        shape.spec_contains(a, b) == shape.spec_contains(b, a),
{
}

/// A square of size at most 1 covers nothing.
pub proof fn lemma_small_square_empty(range: u32, a: GridPosition, b: GridPosition)
    requires
        range <= 1,
    ensures
        !RangeShape::Square(range).spec_contains(a, b),
{
}

/// The movement shape of the first unit design: a square only.
#[derive(Clone, Copy, PartialEq, Eq, Debug, Structural)]
pub enum MoveShape {
    Square(u32),
}

impl MoveShape {
    /// Whether the square, centred on `origin`, covers `tile`; the origin itself is never covered.
    pub open spec fn spec_contains(self, origin: GridPosition, tile: GridPosition) -> bool {
        let dx = spec_abs(tile.x - origin.x);
        let dy = spec_abs(tile.y - origin.y);
        if dx == 0 && dy == 0 {
            false
        } else {
            match self {
                MoveShape::Square(range) => dx < (range as i32) && dy < (range as i32),
            }
        }
    }

    /// Whether the square, centred on `origin`, covers `tile`.
    pub fn contains(self, origin: GridPosition, tile: GridPosition) -> (covered: bool)
        requires
            diffs_fit(origin, tile),
        ensures
            covered == self.spec_contains(origin, tile),
    {
        let dx = crate::grid::abs_i32(tile.x - origin.x);
        let dy = crate::grid::abs_i32(tile.y - origin.y);

        if dx == 0 && dy == 0 {
            return false;
        }

        match self {
            MoveShape::Square(range) => dx < range as i32 && dy < range as i32,
        }
    }
}

/// Hit points of a unit.
#[derive(Clone, Copy, PartialEq, Eq, Debug, Structural)]
pub struct Health {
    pub hp: u32,
    pub max_hp: u32,
}

impl Health {
    /// Full health of `hp` points.
    pub fn new(hp: u32) -> (health: Self)
        ensures
            health.hp == hp,
            health.max_hp == hp,
    {
        Health { hp, max_hp: hp }
    }

    /// Takes a hit of `damage` points. A hit that takes all remaining points
    /// (or more) is lethal: it reports `true` and leaves the points as they
    /// were, for the unit is removed; otherwise the points drop by `damage`.
    pub fn take_hit(&mut self, damage: u32) -> (lethal: bool)
        ensures
            lethal == (old(self).hp <= damage),
            lethal ==> *final(self) == *old(self),
            !lethal ==> final(self).hp == old(self).hp - damage,
            final(self).max_hp == old(self).max_hp,
    {
        if self.hp <= damage {
            true
        } else {
            self.hp -= damage;
            false
        }
    }
}

/// How hard and how far a unit strikes.
#[derive(Clone, Copy, PartialEq, Eq, Debug, Structural)]
pub struct Attack {
    pub damage: u32,
    pub range: RangeShape,
}

/// Where a unit may move.
#[derive(Clone, Copy, PartialEq, Eq, Debug, Structural)]
pub struct Movement {
    pub range: RangeShape,
}

/// For each unit (by entity id), a set of cells. A unit has an entry as soon
/// as one cell is recorded for it, and no entry before.
pub struct UnitTiles {
    pairs: Vec<(u64, GridPosition)>,
}

impl View for UnitTiles {
    type V = Set<(u64, GridPosition)>;

    closed spec fn view(&self) -> Set<(u64, GridPosition)> {
        Set::new(|pair: (u64, GridPosition)| self.pairs@.contains(pair))
    }
}

/// `unit` has an entry in `tiles`: some cell is recorded for it.
pub open spec fn has_entry(tiles: Set<(u64, GridPosition)>, unit: u64) -> bool {
    exists|pos: GridPosition| #[trigger] tiles.contains((unit, pos))
}

impl UnitTiles {
    /// No entries.
    pub fn new() -> (tiles: Self)
        ensures
            tiles@ == Set::<(u64, GridPosition)>::empty(),
    {
        let tiles = UnitTiles { pairs: Vec::new() };
        assert(tiles@ =~= Set::<(u64, GridPosition)>::empty());
        tiles
    }

    /// Removes every entry.
    pub fn clear(&mut self)
        ensures
            final(self)@ == Set::<(u64, GridPosition)>::empty(),
    {
        self.pairs.clear();
        assert(self@ =~= Set::<(u64, GridPosition)>::empty());
    }

    /// Whether `pos` is recorded for `unit`.
    pub fn contains(&self, unit: u64, pos: GridPosition) -> (found: bool)
        ensures
            found == self@.contains((unit, pos)),
    {
        let mut i: usize = 0;
        while i < self.pairs.len()
            invariant
                i <= self.pairs@.len(),
                forall|k: int| 0 <= k < i ==> self.pairs@[k] != (unit, pos),
            decreases self.pairs.len() - i,
        {
            let (u, p) = self.pairs[i];
            if u == unit && p == pos {
                assert(self.pairs@[i as int] == (unit, pos));
                return true;
            }
            i = i + 1;
        }
        false
    }

    /// Whether `unit` has an entry.
    pub fn has_unit(&self, unit: u64) -> (found: bool)
        ensures
            found == has_entry(self@, unit),
    {
        let mut i: usize = 0;
        while i < self.pairs.len()
            invariant
                i <= self.pairs@.len(),
                forall|k: int| 0 <= k < i ==> self.pairs@[k].0 != unit,
            decreases self.pairs.len() - i,
        {
            let (u, p) = self.pairs[i];
            if u == unit {
                assert(self@.contains((unit, p)));
                return true;
            }
            i = i + 1;
        }
        assert forall|pos: GridPosition| !self@.contains((unit, pos)) by {
            if self.pairs@.contains((unit, pos)) {
                let k = choose|k: int| 0 <= k < self.pairs@.len() && self.pairs@[k] == (unit, pos);
            }
        }
        false
    }

    /// Records `pos` for `unit`, creating the unit's entry if needed.
    pub fn insert(&mut self, unit: u64, pos: GridPosition)
        ensures
            final(self)@ == old(self)@.insert((unit, pos)),
    {
        let ghost old_pairs = self.pairs@;
        let present = self.contains(unit, pos);
        if !present {
            self.pairs.push((unit, pos));
        }
        assert forall|pair: (u64, GridPosition)|
            self.pairs@.contains(pair) <==> (old_pairs.contains(pair) || pair == (unit, pos)) by {
            if old_pairs.contains(pair) {
                let k = choose|k: int| 0 <= k < old_pairs.len() && old_pairs[k] == pair;
                assert(self.pairs@[k] == pair);
            }
            if pair == (unit, pos) && !present {
                assert(self.pairs@[old_pairs.len() as int] == pair);
            }
            if self.pairs@.contains(pair) {
                let k = choose|k: int| 0 <= k < self.pairs@.len() && self.pairs@[k] == pair;
                if k < old_pairs.len() {
                    assert(old_pairs[k] == pair);
                }
            }
        }
        assert(self@ =~= old(self)@.insert((unit, pos)));
    }
}

/// The cells each unit may move to and attack this turn.
pub struct UnitActionRange {
    pub move_tiles: UnitTiles,
    pub attack_tiles: UnitTiles,
}

impl UnitActionRange {
    /// No ranges yet.
    pub fn new() -> (range: Self)
        ensures
            range.move_tiles@ == Set::<(u64, GridPosition)>::empty(),
            range.attack_tiles@ == Set::<(u64, GridPosition)>::empty(),
    {
        UnitActionRange { move_tiles: UnitTiles::new(), attack_tiles: UnitTiles::new() }
    }
}

/// What the range computation reads of a unit.
#[derive(Clone, Copy, PartialEq, Eq, Debug, Structural)]
pub struct UnitInfo {
    pub entity: u64,
    pub pos: GridPosition,
    pub movement: Option<Movement>,
    pub attack: Option<Attack>,
}

/// `unit` may move to `pos`: its movement shape covers the cell, it can see
/// the cell, and no unit in `occupied` stands there.
pub open spec fn can_move_to(
    unit: UnitInfo,
    pos: GridPosition,
    occupied: Seq<GridPosition>,
    tiles: Seq<Tile>,
) -> bool {
    &&& unit.movement matches Some(movement)
    &&& movement.range.spec_contains(unit.pos, pos)
    &&& los_spec(tiles, unit.pos, pos)
    &&& !occupied.contains(pos)
}

/// `unit` may attack `pos`: its attack shape covers the cell and it can see it.
pub open spec fn can_attack(unit: UnitInfo, pos: GridPosition, tiles: Seq<Tile>) -> bool {
    &&& unit.attack matches Some(attack)
    &&& attack.range.spec_contains(unit.pos, pos)
    &&& los_spec(tiles, unit.pos, pos)
}

/// The pair `(k, t)` of unit and tile indices comes before `(uk, ut)`.
pub open spec fn before(k: int, t: int, uk: int, ut: int) -> bool {
    k < uk || (k == uk && t < ut)
}

/// The (unit, cell) move pairs found by visiting units `0..uk` fully and the
/// first `ut` tiles for unit `uk`.
pub open spec fn move_pairs_upto(
    units: Seq<UnitInfo>,
    tiles: Seq<Tile>,
    occupied: Seq<GridPosition>,
    map: Seq<Tile>,
    uk: int,
    ut: int,
) -> Set<(u64, GridPosition)> {
    Set::new(|pair: (u64, GridPosition)|
        exists|k: int, t: int|
            0 <= k < units.len() && 0 <= t < tiles.len() && before(k, t, uk, ut)
            && pair == (#[trigger] units[k].entity, #[trigger] tiles[t].position())
            && can_move_to(units[k], tiles[t].position(), occupied, map))
}

/// The (unit, cell) attack pairs found by visiting units `0..uk` fully and the
/// first `ut` tiles for unit `uk`.
pub open spec fn attack_pairs_upto(
    units: Seq<UnitInfo>,
    tiles: Seq<Tile>,
    map: Seq<Tile>,
    uk: int,
    ut: int,
) -> Set<(u64, GridPosition)> {
    Set::new(|pair: (u64, GridPosition)|
        exists|k: int, t: int|
            0 <= k < units.len() && 0 <= t < tiles.len() && before(k, t, uk, ut)
            && pair == (#[trigger] units[k].entity, #[trigger] tiles[t].position())
            && can_attack(units[k], tiles[t].position(), map))
}

/// All (unit, cell) pairs such that the unit may move to the cell.
pub open spec fn move_pairs(
    units: Seq<UnitInfo>,
    tiles: Seq<Tile>,
    occupied: Seq<GridPosition>,
    map: Seq<Tile>,
) -> Set<(u64, GridPosition)> {
    move_pairs_upto(units, tiles, occupied, map, units.len() as int, 0)
}

/// All (unit, cell) pairs such that the unit may attack the cell.
pub open spec fn attack_pairs(units: Seq<UnitInfo>, tiles: Seq<Tile>, map: Seq<Tile>) -> Set<(u64, GridPosition)> {
    attack_pairs_upto(units, tiles, map, units.len() as int, 0)
}

/// One of the unit's shapes covers `pos`, so that its line of sight is checked.
pub open spec fn covers(unit: UnitInfo, pos: GridPosition) -> bool {
    ||| (unit.movement matches Some(m) && m.range.spec_contains(unit.pos, pos))
    ||| (unit.attack matches Some(a) && a.range.spec_contains(unit.pos, pos))
}

/// The coordinate arithmetic of the range computation stays within `i32`:
/// every unit with a movement or an attack has coordinate differences to
/// every tile that fit, and the tiles one of its shapes covers are within
/// reach (for the line of sight).
pub open spec fn units_reach_tiles(units: Seq<UnitInfo>, tiles: Seq<Tile>) -> bool {
    forall|k: int, t: int|
        0 <= k < units.len() && 0 <= t < tiles.len() ==> {
            &&& (units[k].movement is Some || units[k].attack is Some)
                ==> diffs_fit(#[trigger] units[k].pos, #[trigger] tiles[t].position())
            &&& covers(units[k], tiles[t].position()) ==> within_reach(units[k].pos, tiles[t].position())
        }
}

/// A unit is never offered a move onto an occupied cell, nor onto its own
/// cell; and only units with a movement get move cells.
pub proof fn lemma_move_pairs_free(
    units: Seq<UnitInfo>,
    tiles: Seq<Tile>,
    occupied: Seq<GridPosition>,
    map: Seq<Tile>,
    entity: u64,
    pos: GridPosition,
)
    requires
        move_pairs(units, tiles, occupied, map).contains((entity, pos)),
    ensures
        !occupied.contains(pos),
        exists|k: int|
            0 <= k < units.len() && (#[trigger] units[k]).entity == entity && units[k].pos != pos
                && units[k].movement is Some,
{
    let (k, t) = choose|k: int, t: int|
        0 <= k < units.len() && 0 <= t < tiles.len() && before(k, t, units.len() as int, 0)
            && (entity, pos) == (#[trigger] units[k].entity, #[trigger] tiles[t].position())
            && can_move_to(units[k], tiles[t].position(), occupied, map);
    assert(units[k].entity == entity);
}

/// A unit is only offered attacks on cells its attack shape covers.
pub proof fn lemma_attack_pairs_in_range(
    units: Seq<UnitInfo>,
    tiles: Seq<Tile>,
    map: Seq<Tile>,
    entity: u64,
    pos: GridPosition,
)
    requires
        attack_pairs(units, tiles, map).contains((entity, pos)),
    ensures
        exists|k: int|
            0 <= k < units.len() && (#[trigger] units[k]).entity == entity
                && (units[k].attack matches Some(a) && a.range.spec_contains(units[k].pos, pos)),
{
    let (k, t) = choose|k: int, t: int|
        0 <= k < units.len() && 0 <= t < tiles.len() && before(k, t, units.len() as int, 0)
            && (entity, pos) == (#[trigger] units[k].entity, #[trigger] tiles[t].position())
            && can_attack(units[k], tiles[t].position(), map);
    assert(units[k].entity == entity);
}

/// The tiles of two worlds stand on the same cells, in the same order.
pub open spec fn same_cells(first: Seq<Tile>, second: Seq<Tile>) -> bool {
    &&& first.len() == second.len()
    &&& forall|t: int| 0 <= t < first.len() ==> (#[trigger] first[t]).position() == second[t].position()
}

/// More walls never enlarge a range: with the same units, occupied cells and
/// tile cells, every move and attack pair found in a world with more walls
/// is found in the world with fewer.
pub proof fn lemma_ranges_more_walls(
    units: Seq<UnitInfo>,
    tiles: Seq<Tile>,
    more_tiles: Seq<Tile>,
    occupied: Seq<GridPosition>,
    map: Seq<Tile>,
    more_map: Seq<Tile>,
)
    requires
        same_cells(tiles, more_tiles),
        crate::grid::has_more_walls(map, more_map),
    ensures
        move_pairs(units, more_tiles, occupied, more_map).subset_of(move_pairs(units, tiles, occupied, map)),
        attack_pairs(units, more_tiles, more_map).subset_of(attack_pairs(units, tiles, map)),
{
    assert forall|pair: (u64, GridPosition)|
        move_pairs(units, more_tiles, occupied, more_map).contains(pair) implies move_pairs(
            units,
            tiles,
            occupied,
            map,
        ).contains(pair) by {
        let (k, t) = choose|k: int, t: int|
            0 <= k < units.len() && 0 <= t < more_tiles.len() && before(k, t, units.len() as int, 0)
                && pair == (#[trigger] units[k].entity, #[trigger] more_tiles[t].position())
                && can_move_to(units[k], more_tiles[t].position(), occupied, more_map);
        crate::grid::lemma_los_more_walls(map, more_map, units[k].pos, more_tiles[t].position());
        assert(tiles[t].position() == more_tiles[t].position());
        assert(pair == (units[k].entity, tiles[t].position()));
    }
    assert forall|pair: (u64, GridPosition)|
        attack_pairs(units, more_tiles, more_map).contains(pair) implies attack_pairs(
            units,
            tiles,
            map,
        ).contains(pair) by {
        let (k, t) = choose|k: int, t: int|
            0 <= k < units.len() && 0 <= t < more_tiles.len() && before(k, t, units.len() as int, 0)
                && pair == (#[trigger] units[k].entity, #[trigger] more_tiles[t].position())
                && can_attack(units[k], more_tiles[t].position(), more_map);
        crate::grid::lemma_los_more_walls(map, more_map, units[k].pos, more_tiles[t].position());
        assert(tiles[t].position() == more_tiles[t].position());
        assert(pair == (units[k].entity, tiles[t].position()));
    }
}

/// Whether `pos` occurs in `positions`.
pub fn contains_position(positions: &Vec<GridPosition>, pos: GridPosition) -> (found: bool)
    ensures
        found == positions@.contains(pos),
{
    let mut i: usize = 0;
    while i < positions.len()
        invariant
            i <= positions@.len(),
            forall|k: int| 0 <= k < i ==> positions@[k] != pos,
        decreases positions.len() - i,
    {
        if positions[i] == pos {
            assert(positions@[i as int] == pos);
            return true;
        }
        i = i + 1;
    }
    false
}

/// Recomputes every unit's move and attack cells when some unit has moved.
///
/// `unit_positions` holds the cells of the units whose position changed (or
/// that appeared) since the last computation. When it is empty nothing
/// changes. Otherwise both sets are cleared and, for each unit and each tile,
/// the tile's cell is recorded as a move cell when the unit may move there
/// (with `unit_positions` as the occupied cells) and as an attack cell when
/// the unit may attack it.
pub fn calculate_ranges(
    action_range: &mut UnitActionRange,
    units: &Vec<UnitInfo>,
    unit_positions: &Vec<GridPosition>,
    tiles: &Vec<Tile>,
    tilemap: &Tilemap,
)
    requires
        unit_positions@.len() > 0 ==> units_reach_tiles(units@, tiles@),
    ensures
        unit_positions@.len() == 0 ==> final(action_range).move_tiles@ == old(action_range).move_tiles@
            && final(action_range).attack_tiles@ == old(action_range).attack_tiles@,
        unit_positions@.len() > 0 ==> final(action_range).move_tiles@
            == move_pairs(units@, tiles@, unit_positions@, tilemap.0@),
        unit_positions@.len() > 0 ==> final(action_range).attack_tiles@
            == attack_pairs(units@, tiles@, tilemap.0@),
{
    if unit_positions.len() == 0 {
        return;
    }

    action_range.move_tiles.clear();
    action_range.attack_tiles.clear();

    let ghost map = tilemap.0@;
    let ghost occupied = unit_positions@;

    proof {
        assert(action_range.move_tiles@ =~= move_pairs_upto(units@, tiles@, occupied, map, 0, 0));
        assert(action_range.attack_tiles@ =~= attack_pairs_upto(units@, tiles@, map, 0, 0));
    }

    let mut k: usize = 0;
    while k < units.len()
        invariant
            k <= units@.len(),
            units_reach_tiles(units@, tiles@),
            map == tilemap.0@,
            occupied == unit_positions@,
            action_range.move_tiles@ == move_pairs_upto(units@, tiles@, occupied, map, k as int, 0),
            action_range.attack_tiles@ == attack_pairs_upto(units@, tiles@, map, k as int, 0),
        decreases units.len() - k,
    {
        let unit = units[k];
        let entity = unit.entity;
        let pos = unit.pos;
        let mut t: usize = 0;
        while t < tiles.len()
            invariant
                k < units@.len(),
                t <= tiles@.len(),
                unit == units@[k as int],
                entity == unit.entity,
                pos == unit.pos,
                units_reach_tiles(units@, tiles@),
                map == tilemap.0@,
                occupied == unit_positions@,
                action_range.move_tiles@ == move_pairs_upto(units@, tiles@, occupied, map, k as int, t as int),
                action_range.attack_tiles@ == attack_pairs_upto(units@, tiles@, map, k as int, t as int),
            decreases tiles.len() - t,
        {
            let tile = &tiles[t];
            let tile_pos: GridPosition = GridPosition::from(tile);
            assert((unit.movement is Some || unit.attack is Some) ==> diffs_fit(pos, tile_pos));
            assert(covers(unit, tile_pos) ==> within_reach(pos, tile_pos));
            let los_check = |from: GridPosition, to: GridPosition| -> (visible: bool)
                requires
                    within_reach(from, to),
                ensures
                    visible == los_spec(tilemap.0@, from, to),
                { los(from, to, tilemap) };

            let ghost move_before = action_range.move_tiles@;
            let mut can_move = false;
            if let Some(movement) = unit.movement {
                if movement.range.contains_with_los(pos, tile_pos, los_check) {
                    let is_over_unit = contains_position(unit_positions, tile_pos);
                    if !is_over_unit {
                        action_range.move_tiles.insert(entity, tile_pos);
                        can_move = true;
                    }
                }
            }
            let ghost attack_before = action_range.attack_tiles@;
            let mut can_hit = false;
            if let Some(attack) = unit.attack {
                if attack.range.contains_with_los(pos, tile_pos, los_check) {
                    action_range.attack_tiles.insert(entity, tile_pos);
                    can_hit = true;
                }
            }
            proof {
                assert(can_move == can_move_to(unit, tile_pos, occupied, map));
                assert(can_hit == can_attack(unit, tile_pos, map));
                assert(action_range.move_tiles@ =~= move_pairs_upto(units@, tiles@, occupied, map, k as int, t + 1));
                assert(action_range.attack_tiles@ =~= attack_pairs_upto(units@, tiles@, map, k as int, t + 1));
            }
            t = t + 1;
        }
        proof {
            assert(action_range.move_tiles@ =~= move_pairs_upto(units@, tiles@, occupied, map, k + 1, 0));
            assert(action_range.attack_tiles@ =~= attack_pairs_upto(units@, tiles@, map, k + 1, 0));
        }
        k = k + 1;
    }
}

// ---------------------------------------------------------------------------
// Spawning
// ---------------------------------------------------------------------------

/// The side a unit fights on.
#[derive(Clone, Copy, PartialEq, Eq, Debug, Structural)]
pub enum Faction {
    Player,
    Enemy,
}

/// A unit to be placed on the level.
#[derive(Clone, Copy, PartialEq, Eq, Debug, Structural)]
pub struct SpawnPoint {
    pub faction: Faction,
    pub pos: GridPosition,
}

/// The stats a freshly spawned unit starts with.
#[derive(Clone, Copy, PartialEq, Eq, Debug, Structural)]
pub struct UnitSpawn {
    pub pos: GridPosition,
    pub movement: Movement,
    pub attack: Attack,
    pub health: Health,
}

/// The unit that the level character `c` at column `x` of row `y` places:
/// `'P'` a player unit, `'E'` an enemy, anything else none.
pub open spec fn spawn_for(x: int, y: int, c: char) -> Seq<SpawnPoint> {
    let pos = GridPosition { x: x as i32, y: y as i32 };
    if c == 'P' {
        seq![SpawnPoint { faction: Faction::Player, pos }]
    } else if c == 'E' {
        seq![SpawnPoint { faction: Faction::Enemy, pos }]
    } else {
        Seq::empty()
    }
}

/// The units placed by a row of a level, left to right.
pub open spec fn row_spawns(row: Seq<char>, y: int) -> Seq<SpawnPoint>
    decreases row.len(),
{
    if row.len() == 0 {
        Seq::empty()
    } else {
        row_spawns(row.drop_last(), y) + spawn_for(row.len() - 1, y, row.last())
    }
}

/// The units placed by the first `n` rows of a level, top row first.
pub open spec fn level_spawns(rows: Seq<Seq<char>>, n: int) -> Seq<SpawnPoint>
    decreases n,
{
    if n <= 0 || n > rows.len() {
        Seq::empty()
    } else {
        level_spawns(rows, n - 1) + row_spawns(rows[n - 1], n - 1)
    }
}

/// The level character that places a unit of `faction`.
pub open spec fn faction_char(faction: Faction) -> char {
    match faction {
        Faction::Player => 'P',
        Faction::Enemy => 'E',
    }
}

/// A unit of `faction` placed at column `x` of row `y`.
pub open spec fn spawn_at(faction: Faction, x: int, y: int) -> SpawnPoint {
    SpawnPoint { faction, pos: GridPosition { x: x as i32, y: y as i32 } }
}

/// Every character of a row is read: each unit character places its unit at
/// its column, and each unit placed comes from such a character.
pub proof fn lemma_row_spawns_cells(row: Seq<char>, y: int)
    ensures
        forall|x: int, f: Faction|
            0 <= x < row.len() && row[x] == faction_char(f) ==> row_spawns(row, y).contains(
                #[trigger] spawn_at(f, x, y),
            ),
        forall|i: int|
            #![trigger row_spawns(row, y)[i]]
            0 <= i < row_spawns(row, y).len() ==> exists|x: int|
                0 <= x < row.len() && row[x] == faction_char(row_spawns(row, y)[i].faction)
                    && row_spawns(row, y)[i] == #[trigger] spawn_at(row_spawns(row, y)[i].faction, x, y),
    decreases row.len(),
{
    if row.len() > 0 {
        let rest = row.drop_last();
        let last = row.len() - 1;
        lemma_row_spawns_cells(rest, y);
        let first = row_spawns(rest, y);
        let tail = spawn_for(last, y, row.last());
        assert(row_spawns(row, y) == first + tail);
        assert forall|x: int, f: Faction|
            0 <= x < row.len() && row[x] == faction_char(f) implies row_spawns(row, y).contains(
                #[trigger] spawn_at(f, x, y),
            ) by {
            if x < last {
                assert(rest[x] == row[x]);
                let i = choose|i: int| 0 <= i < first.len() && first[i] == spawn_at(f, x, y);
                assert((first + tail)[i] == spawn_at(f, x, y));
            } else {
                assert(tail[0] == spawn_at(f, x, y));
                assert((first + tail)[first.len() as int] == spawn_at(f, x, y));
            }
        }
        assert forall|i: int|
            #![trigger row_spawns(row, y)[i]]
            0 <= i < row_spawns(row, y).len() implies exists|x: int|
                0 <= x < row.len() && row[x] == faction_char(row_spawns(row, y)[i].faction)
                    && row_spawns(row, y)[i] == #[trigger] spawn_at(row_spawns(row, y)[i].faction, x, y) by {
            if i < first.len() {
                assert((first + tail)[i] == first[i]);
                let x = choose|x: int|
                    0 <= x < rest.len() && rest[x] == faction_char(first[i].faction)
                        && first[i] == #[trigger] spawn_at(first[i].faction, x, y);
                assert(row[x] == rest[x]);
                assert(row_spawns(row, y)[i] == spawn_at(row_spawns(row, y)[i].faction, x, y));
            } else {
                assert((first + tail)[i] == tail[i - first.len()]);
                assert(row[last] == row.last());
                let f = row_spawns(row, y)[i].faction;
                if row.last() == 'P' {
                    assert(tail[i - first.len()] == spawn_at(Faction::Player, last, y));
                } else {
                    assert(tail[i - first.len()] == spawn_at(Faction::Enemy, last, y));
                }
                assert(row_spawns(row, y)[i] == spawn_at(f, last, y));
            }
        }
    }
}

/// Every character of every row of a level is read: each unit character
/// places its unit at its column and row, and each unit placed comes from
/// such a character.
pub proof fn lemma_level_spawns_cells(rows: Seq<Seq<char>>, n: int)
    requires
        0 <= n <= rows.len(),
    ensures
        forall|y: int, x: int, f: Faction|
            0 <= y < n && 0 <= x < rows[y].len() && rows[y][x] == faction_char(f)
                ==> level_spawns(rows, n).contains(#[trigger] spawn_at(f, x, y)),
        forall|i: int|
            #![trigger level_spawns(rows, n)[i]]
            0 <= i < level_spawns(rows, n).len() ==> exists|y: int, x: int|
                0 <= y < n && 0 <= x < rows[y].len() && rows[y][x] == faction_char(level_spawns(rows, n)[i].faction)
                    && level_spawns(rows, n)[i] == #[trigger] spawn_at(level_spawns(rows, n)[i].faction, x, y),
    decreases n,
{
    if n > 0 {
        lemma_level_spawns_cells(rows, n - 1);
        lemma_row_spawns_cells(rows[n - 1], n - 1);
        let first = level_spawns(rows, n - 1);
        let tail = row_spawns(rows[n - 1], n - 1);
        assert(level_spawns(rows, n) == first + tail);
        assert forall|y: int, x: int, f: Faction|
            0 <= y < n && 0 <= x < rows[y].len() && rows[y][x] == faction_char(f)
                implies level_spawns(rows, n).contains(#[trigger] spawn_at(f, x, y)) by {
            if y < n - 1 {
                let i = choose|i: int| 0 <= i < first.len() && first[i] == spawn_at(f, x, y);
                assert((first + tail)[i] == spawn_at(f, x, y));
            } else {
                assert(rows[n - 1][x] == rows[n - 1][x]);
                let i = choose|i: int| 0 <= i < tail.len() && tail[i] == spawn_at(f, x, y);
                assert((first + tail)[first.len() + i] == spawn_at(f, x, y));
            }
        }
        assert forall|i: int|
            #![trigger level_spawns(rows, n)[i]]
            0 <= i < level_spawns(rows, n).len() implies exists|y: int, x: int|
                0 <= y < n && 0 <= x < rows[y].len() && rows[y][x] == faction_char(level_spawns(rows, n)[i].faction)
                    && level_spawns(rows, n)[i] == #[trigger] spawn_at(level_spawns(rows, n)[i].faction, x, y) by {
            if i < first.len() {
                assert((first + tail)[i] == first[i]);
                let (y, x) = choose|y: int, x: int|
                    0 <= y < n - 1 && 0 <= x < rows[y].len() && rows[y][x] == faction_char(first[i].faction)
                        && first[i] == #[trigger] spawn_at(first[i].faction, x, y);
            } else {
                let j = i - first.len();
                assert((first + tail)[i] == tail[j]);
                let x = choose|x: int|
                    0 <= x < rows[n - 1].len() && rows[n - 1][x] == faction_char(tail[j].faction)
                        && tail[j] == #[trigger] spawn_at(tail[j].faction, x, n - 1);
                assert(level_spawns(rows, n)[i] == spawn_at(level_spawns(rows, n)[i].faction, x, n - 1));
            }
        }
    }
}

/// The units a level places, in reading order.
pub fn setup(level: &[&str]) -> (spawns: Vec<SpawnPoint>)
    ensures
        spawns@ == level_spawns(crate::grid::level_rows(level@), level@.len() as int),
{
    let ghost rows = crate::grid::level_rows(level@);
    let mut spawns: Vec<SpawnPoint> = Vec::new();
    let mut y: usize = 0;
    while y < level.len()
        invariant
            y <= level@.len(),
            rows == crate::grid::level_rows(level@),
            spawns@ == level_spawns(rows, y as int),
        decreases level.len() - y,
    {
        let row: &str = level[y];
        let width = row.unicode_len();
        let ghost before = spawns@;
        let mut x: usize = 0;
        while x < width
            invariant
                y < level@.len(),
                rows == crate::grid::level_rows(level@),
                row@ == rows[y as int],
                width == row@.len(),
                x <= width,
                spawns@ == before + row_spawns(rows[y as int].take(x as int), y as int),
            decreases width - x,
        {
            let c = row.get_char(x);
            let pos = GridPosition { x: x as i32, y: y as i32 };
            assert(rows[y as int].take(x + 1).drop_last() =~= rows[y as int].take(x as int));
            if c == 'P' {
                spawns.push(SpawnPoint { faction: Faction::Player, pos });
            } else if c == 'E' {
                spawns.push(SpawnPoint { faction: Faction::Enemy, pos });
            }
            assert(spawns@ =~= before + row_spawns(rows[y as int].take(x + 1), y as int));
            x = x + 1;
        }
        assert(rows[y as int].take(width as int) =~= rows[y as int]);
        y = y + 1;
    }
    spawns
}

// ---------------------------------------------------------------------------
// Damage
// ---------------------------------------------------------------------------

/// A unit that may be hit: its entity id, cell and health, if it has any.
#[derive(Clone, Copy, PartialEq, Eq, Debug, Structural)]
pub struct HitTarget {
    pub entity: u64,
    pub pos: GridPosition,
    pub health: Option<Health>,
}

/// Health and number of lethal hits after a series of hits, each either a
/// number of damage points or no hit. A unit without health is unaffected;
/// a lethal hit (at least the remaining points) leaves the points as they are.
pub open spec fn fold_hits(health: Option<Health>, hits: Seq<Option<u32>>) -> (Option<Health>, nat)
    decreases hits.len(),
{
    if hits.len() == 0 {
        (health, 0)
    } else {
        let (h, lethal) = fold_hits(health, hits.drop_last());
        match (h, hits.last()) {
            (Some(current), Some(damage)) => {
                if current.hp <= damage {
                    (h, lethal + 1)
                } else {
                    (Some(Health { hp: (current.hp - damage) as u32, max_hp: current.max_hp }), lethal)
                }
            },
            _ => (h, lethal),
        }
    }
}

/// Hits never heal: the hit points after a series of hits are at most those
/// before, the maximum is unchanged, and a unit without health stays so.
pub proof fn lemma_fold_hits_never_heals(health: Option<Health>, hits: Seq<Option<u32>>)
    ensures
        health is None ==> fold_hits(health, hits).0 is None,
        health matches Some(h) ==> {
            &&& fold_hits(health, hits).0 matches Some(after)
            &&& after.hp <= h.hp
            &&& after.max_hp == h.max_hp
        },
    decreases hits.len(),
{
    if hits.len() > 0 {
        lemma_fold_hits_never_heals(health, hits.drop_last());
    }
}

/// The damage points of a series of hits, added up.
pub open spec fn damage_total(hits: Seq<Option<u32>>) -> int
    decreases hits.len(),
{
    if hits.len() == 0 {
        0
    } else {
        damage_total(hits.drop_last()) + match hits.last() {
            Some(damage) => damage as int,
            None => 0,
        }
    }
}

/// Damage adds up: a unit whose points exceed the total damage of a series
/// of hits survives every hit, with its points lowered by that total.
pub proof fn lemma_fold_hits_adds_up(health: Health, hits: Seq<Option<u32>>)
    requires
        damage_total(hits) < health.hp,
    ensures
        fold_hits(Some(health), hits) == (
            Some(Health { hp: (health.hp - damage_total(hits)) as u32, max_hp: health.max_hp }),
            0nat,
        ),
    decreases hits.len(),
{
    if hits.len() > 0 {
        lemma_damage_total_nonnegative(hits.drop_last());
        lemma_fold_hits_adds_up(health, hits.drop_last());
    }
}

/// A hit dealing at least the points a unit starts with is lethal: some
/// hit of the series then kills the unit.
pub proof fn lemma_fold_hits_overkill(health: Health, hits: Seq<Option<u32>>, j: int)
    requires
        0 <= j < hits.len(),
        hits[j] matches Some(damage) && damage >= health.hp,
    ensures
        fold_hits(Some(health), hits).1 >= 1,
    decreases hits.len(),
{
    let rest = hits.drop_last();
    if j < hits.len() - 1 {
        assert(rest[j] == hits[j]);
        lemma_fold_hits_overkill(health, rest, j);
    } else {
        lemma_fold_hits_never_heals(Some(health), rest);
    }
}

/// A total of damage points is never negative.
proof fn lemma_damage_total_nonnegative(hits: Seq<Option<u32>>)
    ensures
        damage_total(hits) >= 0,
    decreases hits.len(),
{
    if hits.len() > 0 {
        lemma_damage_total_nonnegative(hits.drop_last());
    }
}

/// A series with no hit in it leaves the unit as it was.
pub proof fn lemma_fold_no_hits(health: Option<Health>, hits: Seq<Option<u32>>)
    requires
        forall|i: int| 0 <= i < hits.len() ==> (#[trigger] hits[i]) is None,
    ensures
        fold_hits(health, hits) == (health, 0nat),
    decreases hits.len(),
{
    if hits.len() > 0 {
        lemma_fold_no_hits(health, hits.drop_last());
    }
}

/// `n` copies of `entity`.
pub open spec fn repeat_entity(entity: u64, n: nat) -> Seq<u64> {
    Seq::new(n, |_i: int| entity)
}

/// The entities removed while hitting the first `n` targets, each target with
/// the hits `hits_for` gives it: one copy of its id per lethal hit.
pub open spec fn despawns(
    targets: Seq<HitTarget>,
    hits_for: spec_fn(HitTarget) -> Seq<Option<u32>>,
    n: int,
) -> Seq<u64>
    decreases n,
{
    if n <= 0 || n > targets.len() {
        Seq::empty()
    } else {
        despawns(targets, hits_for, n - 1) + repeat_entity(
            targets[n - 1].entity,
            fold_hits(targets[n - 1].health, hits_for(targets[n - 1])).1,
        )
    }
}

/// The unit currently selected by the player, by entity id.
#[derive(Clone, Copy, PartialEq, Eq, Debug, Structural)]
pub struct SelectedUnit(pub Option<u64>);

/// Carries out `move_clicks` move orders for the selected unit at `unit_pos`:
/// each puts the unit on the chosen destination (which must be chosen) and
/// ends the selection.
pub fn move_unit(
    move_clicks: usize,
    target_pos: &crate::interaction::SelectedPosition,
    unit_pos: &mut GridPosition,
) -> (next: Option<player::TurnState>)
    requires
        move_clicks > 0 ==> target_pos.0 is Some,
    ensures
        move_clicks > 0 ==> *final(unit_pos) == target_pos.0->0 && next == Some(player::TurnState::Idle),
        move_clicks == 0 ==> *final(unit_pos) == *old(unit_pos) && next is None,
{
    let mut next = None;
    let mut i: usize = 0;
    while i < move_clicks
        invariant
            i <= move_clicks,
            move_clicks > 0 ==> target_pos.0 is Some,
            i > 0 ==> *unit_pos == target_pos.0->0 && next == Some(player::TurnState::Idle),
            i == 0 ==> *unit_pos == *old(unit_pos) && next is None,
        decreases move_clicks - i,
    {
        *unit_pos = target_pos.0.unwrap();
        next = Some(player::TurnState::Idle);
        i = i + 1;
    }
    next
}

} // verus!
