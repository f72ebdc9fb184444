//! Enemy units: their stats, the damage they take and how they move.

use vstd::prelude::*;

use crate::game::GameState;
use crate::grid::{GridPosition, Tile, diffs_fit, manhattan, within_reach};
use crate::units::{
    Attack, HitTarget, Health, Movement, RangeShape, UnitSpawn, contains_position, despawns,
    fold_hits, repeat_entity,
};

verus! {

/// The phases of the enemies' turn.
#[derive(Clone, Copy, PartialEq, Eq, Debug, Structural)]
pub enum TurnState {
    /// Waiting for the enemies' turn.
    Idle,
    TakeDamage,
    Move,
}

/// An enemy as spawned at `spawn_pos`: moves within a square of size 3,
/// strikes for 3 within a square of size 4, and has 10 hit points.
pub fn spawn(spawn_pos: GridPosition) -> (unit: UnitSpawn)
    ensures
        unit.pos == spawn_pos,
        unit.movement == (Movement { range: RangeShape::Square(3) }),
        unit.attack == (Attack { damage: 3, range: RangeShape::Square(4) }),
        unit.health.hp == 10 && unit.health.max_hp == 10,
{
    UnitSpawn {
        pos: spawn_pos,
        movement: Movement { range: RangeShape::Square(3) },
        attack: Attack { damage: 3, range: RangeShape::Square(4) },
        health: Health::new(10),
    }
}

/// The enemies' turn starts by taking damage.
pub fn on_enemy_turn() -> (next: TurnState)
    ensures
        next == TurnState::TakeDamage,
{
    TurnState::TakeDamage
}

/// A player unit seen as a source of damage: its cell and attack.
#[derive(Clone, Copy, PartialEq, Eq, Debug, Structural)]
pub struct Attacker {
    pub pos: GridPosition,
    pub attack: Attack,
}

/// The hits an enemy takes from the player units, in order: each unit whose
/// attack shape covers the enemy's cell deals its damage.
pub open spec fn hits_from_players(players: Seq<Attacker>) -> spec_fn(HitTarget) -> Seq<Option<u32>> {
    |enemy: HitTarget|
        players.map_values(
            |p: Attacker|
                if p.attack.range.spec_contains(p.pos, enemy.pos) {
                    Some(p.attack.damage)
                } else {
                    None
                },
        )
}

/// Every player unit's coordinate differences to every enemy fit in an `i32`.
pub open spec fn players_reach_enemies(enemies: Seq<HitTarget>, players: Seq<Attacker>) -> bool {
    forall|e: int, p: int|
        0 <= e < enemies.len() && 0 <= p < players.len()
            ==> diffs_fit(#[trigger] players[p].pos, #[trigger] enemies[e].pos)
}

/// The player units strike the enemies: each enemy takes, in order, the
/// damage of every player unit whose attack shape covers it. Returns the ids
/// of the enemies to remove, one per lethal hit.
/// The enemies' phase after this one is `Move`.
#[verifier::spinoff_prover]
pub fn take_damage(enemies: &mut Vec<HitTarget>, players: &Vec<Attacker>) -> (outcome: (Vec<u64>, TurnState))
    requires
        players_reach_enemies(old(enemies)@, players@),
    ensures
        final(enemies)@.len() == old(enemies)@.len(),
        forall|k: int|
            0 <= k < old(enemies)@.len() ==> {
                &&& #[trigger] final(enemies)@[k].entity == old(enemies)@[k].entity
                &&& final(enemies)@[k].pos == old(enemies)@[k].pos
                &&& final(enemies)@[k].health == fold_hits(
                    old(enemies)@[k].health,
                    hits_from_players(players@)(old(enemies)@[k]),
                ).0
            },
        outcome.0@ == despawns(old(enemies)@, hits_from_players(players@), old(enemies)@.len() as int),
        outcome.1 == TurnState::Move,
{
    let ghost start = enemies@;
    let ghost hits_for = hits_from_players(players@);
    let mut despawned: Vec<u64> = Vec::new();
    let mut k: usize = 0;
    while k < enemies.len()
        invariant
            k <= enemies@.len(),
            enemies@.len() == start.len(),
            players_reach_enemies(start, players@),
            hits_for == hits_from_players(players@),
            forall|i: int| k <= i < start.len() ==> #[trigger] enemies@[i] == start[i],
            forall|i: int|
                0 <= i < k ==> {
                    &&& #[trigger] enemies@[i].entity == start[i].entity
                    &&& enemies@[i].pos == start[i].pos
                    &&& enemies@[i].health == fold_hits(start[i].health, hits_for(start[i])).0
                },
            despawned@ == despawns(start, hits_for, k as int),
        decreases enemies.len() - k,
    {
        let target = enemies[k];
        let ghost hits = hits_for(target);
        let ghost before = despawned@;
        let mut health = target.health;
        let ghost mut lethal: nat = 0;
        assert(hits.take(0) =~= Seq::<Option<u32>>::empty());
        let mut j: usize = 0;
        while j < players.len()
            invariant
                k < start.len(),
                target == start[k as int],
                hits == hits_for(target),
                hits_for == hits_from_players(players@),
                players_reach_enemies(start, players@),
                j <= players@.len(),
                hits.len() == players@.len(),
                (health, lethal) == fold_hits(target.health, hits.take(j as int)),
                despawned@ == before + repeat_entity(target.entity, lethal),
            decreases players.len() - j,
        {
            let player = players[j];
            assert(diffs_fit(players@[j as int].pos, start[k as int].pos));
            let in_range = player.attack.range.contains(player.pos, target.pos);
            assert(hits.take(j + 1).drop_last() =~= hits.take(j as int));
            if in_range {
                if let Some(mut current) = health {
                    let lethal_hit = current.take_hit(player.attack.damage);
                    if lethal_hit {
                        despawned.push(target.entity);
                        proof {
                            lethal = lethal + 1;
                        }
                        assert(despawned@ =~= before + repeat_entity(target.entity, lethal));
                    }
                    health = Some(current);
                }
            }
            j = j + 1;
        }
        assert(hits.take(players@.len() as int) =~= hits);
        let updated = HitTarget { entity: target.entity, pos: target.pos, health };
        assert(updated.health == fold_hits(start[k as int].health, hits_for(start[k as int])).0);
        let ghost prev = enemies@;
        enemies.set(k, updated);
        assert(enemies@[k as int] == updated);
        assert forall|i: int|
            0 <= i < k + 1 implies {
                &&& #[trigger] enemies@[i].entity == start[i].entity
                &&& enemies@[i].pos == start[i].pos
                &&& enemies@[i].health == fold_hits(start[i].health, hits_for(start[i])).0
            } by {
            if i == k {
                assert(enemies@[i] == updated);
            } else {
                assert(enemies@[i] == prev[i]);
                assert(prev[i].entity == start[i].entity);
            }
        }
        assert(despawned@ =~= despawns(start, hits_for, k + 1));
        k = k + 1;
    }
    (despawned, TurnState::Move)
}

/// When the enemies take damage, an enemy takes one hit from each player
/// unit, in the units' order: the unit's damage when its attack shape,
/// placed on the unit's cell, covers the enemy's cell, and no hit otherwise,
/// whatever the other units do.
pub proof fn lemma_hit_by_each_player(players: Seq<Attacker>, enemy: HitTarget)
    ensures
        hits_from_players(players)(enemy).len() == players.len(),
        forall|j: int|
            0 <= j < players.len() ==> #[trigger] hits_from_players(players)(enemy)[j] == if players[j].attack.range.spec_contains(
                players[j].pos,
                enemy.pos,
            ) {
                Some(players[j].attack.damage)
            } else {
                None
            },
{
}

// ---------------------------------------------------------------------------
// Movement
// ---------------------------------------------------------------------------

/// An enemy as its movement sees it: its cell and how it may move.
#[derive(Clone, Copy, PartialEq, Eq, Debug, Structural)]
pub struct EnemyMover {
    pub pos: GridPosition,
    pub movement: Option<Movement>,
}

/// Index of the first of the first `n` players closest (in Manhattan
/// distance) to `pos`.
pub open spec fn nearest_index(players: Seq<GridPosition>, pos: GridPosition, n: int) -> int
    decreases n,
{
    if n <= 1 {
        0
    } else {
        let m = nearest_index(players, pos, n - 1);
        if manhattan(pos, players[n - 1]) < manhattan(pos, players[m]) {
            n - 1
        } else {
            m
        }
    }
}

/// An enemy at `pos` moving with `movement` may step onto `cell`: the
/// movement shape covers it and neither a player nor an enemy stands there.
pub open spec fn is_candidate(
    movement: Movement,
    pos: GridPosition,
    cell: GridPosition,
    players: Seq<GridPosition>,
    occupied: Set<GridPosition>,
) -> bool {
    &&& movement.range.spec_contains(pos, cell)
    &&& !players.contains(cell)
    &&& !occupied.contains(cell)
}

/// Among the first `n` tiles, the index of the first candidate closest (in
/// Manhattan distance) to `target`, if any tile is a candidate.
pub open spec fn best_tile_index(
    tiles: Seq<Tile>,
    movement: Movement,
    pos: GridPosition,
    players: Seq<GridPosition>,
    occupied: Set<GridPosition>,
    target: GridPosition,
    n: int,
) -> Option<int>
    decreases n,
{
    if n <= 0 {
        None
    } else {
        let best = best_tile_index(tiles, movement, pos, players, occupied, target, n - 1);
        let cell = tiles[n - 1].position();
        if !is_candidate(movement, pos, cell, players, occupied) {
            best
        } else {
            match best {
                None => Some(n - 1),
                Some(m) => if manhattan(target, cell) < manhattan(target, tiles[m].position()) {
                    Some(n - 1)
                } else {
                    best
                },
            }
        }
    }
}

/// Where an enemy at `pos` moves, given the occupied cells: towards the
/// nearest player, onto the candidate tile closest to that player; `None`
/// when it cannot move.
pub open spec fn enemy_destination(
    pos: GridPosition,
    movement: Option<Movement>,
    players: Seq<GridPosition>,
    tiles: Seq<Tile>,
    occupied: Set<GridPosition>,
) -> Option<GridPosition> {
    let target = players[nearest_index(players, pos, players.len() as int)];
    match movement {
        None => None,
        Some(m) => match best_tile_index(tiles, m, pos, players, occupied, target, tiles.len() as int) {
            None => None,
            Some(t) => Some(tiles[t].position()),
        },
    }
}

/// The enemies' cells and the occupied cells after the first `k` enemies
/// have moved, one after the other.
pub open spec fn moved_upto(
    enemies: Seq<EnemyMover>,
    players: Seq<GridPosition>,
    tiles: Seq<Tile>,
    k: int,
) -> (Seq<GridPosition>, Set<GridPosition>)
    decreases k,
{
    if k <= 0 || k > enemies.len() {
        let cells = enemies.map_values(|e: EnemyMover| e.pos);
        (cells, cells.to_set())
    } else {
        let (cells, occupied) = moved_upto(enemies, players, tiles, k - 1);
        match enemy_destination(cells[k - 1], enemies[k - 1].movement, players, tiles, occupied) {
            None => (cells, occupied),
            Some(dest) => (cells.update(k - 1, dest), occupied.remove(cells[k - 1]).insert(dest)),
        }
    }
}

/// The coordinate arithmetic of the enemies' move stays within `i32`: every
/// enemy is within reach of every player (for picking its target); every
/// enemy that can move has coordinate differences to every tile that fit
/// (for its movement shape); and every tile such an enemy's shape covers is
/// within reach of the enemy's target, the first player nearest to it (for
/// the distance to that target).
pub open spec fn move_fits(enemies: Seq<EnemyMover>, players: Seq<GridPosition>, tiles: Seq<Tile>) -> bool {
    &&& forall|e: int, p: int|
        0 <= e < enemies.len() && 0 <= p < players.len()
            ==> within_reach(#[trigger] enemies[e].pos, #[trigger] players[p])
    &&& forall|e: int, t: int|
        0 <= e < enemies.len() && 0 <= t < tiles.len() && enemies[e].movement is Some
            ==> diffs_fit(#[trigger] enemies[e].pos, #[trigger] tiles[t].position())
    &&& forall|e: int, t: int|
        0 <= e < enemies.len() && 0 <= t < tiles.len() && players.len() > 0
            && (enemies[e].movement matches Some(m) && m.range.spec_contains(enemies[e].pos, tiles[t].position()))
            ==> within_reach(
                #[trigger] tiles[t].position(),
                players[nearest_index(players, #[trigger] enemies[e].pos, players.len() as int)],
            )
}

/// No cell occurs twice.
pub open spec fn all_distinct(cells: Seq<GridPosition>) -> bool {
    forall|i: int, j: int| 0 <= i < j < cells.len() ==> cells[i] != cells[j]
}

/// The tile picked for a move is one of the first `n` tiles and a candidate.
proof fn lemma_best_tile_is_candidate(
    tiles: Seq<Tile>,
    movement: Movement,
    pos: GridPosition,
    players: Seq<GridPosition>,
    occupied: Set<GridPosition>,
    target: GridPosition,
    n: int,
)
    requires
        n <= tiles.len(),
    ensures
        best_tile_index(tiles, movement, pos, players, occupied, target, n) matches Some(t) ==> {
            &&& 0 <= t < n
            &&& is_candidate(movement, pos, tiles[t].position(), players, occupied)
        },
    decreases n,
{
    if n > 0 {
        lemma_best_tile_is_candidate(tiles, movement, pos, players, occupied, target, n - 1);
    }
}

/// An enemy walks towards a player nearest to it: among the first `n`
/// players, the one picked is no farther (in Manhattan distance) from `pos`
/// than any other, and every player before it is strictly farther.
pub proof fn lemma_nearest_index_is_nearest(players: Seq<GridPosition>, pos: GridPosition, n: int)
    requires
        0 < n <= players.len(),
    ensures
        0 <= nearest_index(players, pos, n) < n,
        forall|q: int|
            0 <= q < n ==> manhattan(pos, players[nearest_index(players, pos, n)]) <= manhattan(
                pos,
                #[trigger] players[q],
            ),
        forall|q: int|
            0 <= q < nearest_index(players, pos, n) ==> manhattan(pos, #[trigger] players[q]) > manhattan(
                pos,
                players[nearest_index(players, pos, n)],
            ),
    decreases n,
{
    if n > 1 {
        lemma_nearest_index_is_nearest(players, pos, n - 1);
    }
}

/// The tile an enemy moves onto is the free tile its movement covers that is
/// closest to its target: among the first `n` tiles, a tile is picked exactly
/// when some tile is a candidate; the picked tile is a candidate, no
/// candidate is closer to `target`, and every candidate before it is
/// strictly farther.
pub proof fn lemma_best_tile_is_closest(
    tiles: Seq<Tile>,
    movement: Movement,
    pos: GridPosition,
    players: Seq<GridPosition>,
    occupied: Set<GridPosition>,
    target: GridPosition,
    n: int,
)
    requires
        0 <= n <= tiles.len(),
    ensures
        best_tile_index(tiles, movement, pos, players, occupied, target, n) is Some <==> exists|q: int|
            0 <= q < n && is_candidate(movement, pos, #[trigger] tiles[q].position(), players, occupied),
        best_tile_index(tiles, movement, pos, players, occupied, target, n) matches Some(t) ==> {
            &&& 0 <= t < n
            &&& is_candidate(movement, pos, tiles[t].position(), players, occupied)
            &&& forall|q: int|
                0 <= q < n && is_candidate(movement, pos, #[trigger] tiles[q].position(), players, occupied)
                    ==> manhattan(target, tiles[t].position()) <= manhattan(target, tiles[q].position())
            &&& forall|q: int|
                0 <= q < t && is_candidate(movement, pos, #[trigger] tiles[q].position(), players, occupied)
                    ==> manhattan(target, tiles[q].position()) > manhattan(target, tiles[t].position())
        },
    decreases n,
{
    if n > 0 {
        lemma_best_tile_is_closest(tiles, movement, pos, players, occupied, target, n - 1);
        let best = best_tile_index(tiles, movement, pos, players, occupied, target, n - 1);
        if best is None && is_candidate(movement, pos, tiles[n - 1].position(), players, occupied) {
            assert forall|q: int|
                0 <= q < n - 1 implies !is_candidate(movement, pos, #[trigger] tiles[q].position(), players, occupied) by {
            }
        }
    }
}

/// Where an enemy with a movement goes, given the occupied cells: it stays
/// only when no tile is a candidate (covered by its movement, free of players
/// and not occupied); otherwise it moves onto a candidate tile, and some
/// player that no other player is closer to it than is at least as close to
/// that tile as to any other candidate tile.
pub proof fn lemma_enemy_destination(
    pos: GridPosition,
    movement: Movement,
    players: Seq<GridPosition>,
    tiles: Seq<Tile>,
    occupied: Set<GridPosition>,
)
    requires
        players.len() > 0,
    ensures
        enemy_destination(pos, Some(movement), players, tiles, occupied) is None <==> !exists|q: int|
            0 <= q < tiles.len() && is_candidate(movement, pos, #[trigger] tiles[q].position(), players, occupied),
        enemy_destination(pos, Some(movement), players, tiles, occupied) matches Some(dest) ==> {
            &&& is_candidate(movement, pos, dest, players, occupied)
            &&& exists|t: int| 0 <= t < tiles.len() && #[trigger] tiles[t].position() == dest
            &&& exists|p: int|
                0 <= p < players.len() && (forall|q: int|
                    0 <= q < players.len() ==> manhattan(pos, #[trigger] players[p]) <= manhattan(pos, players[q]))
                    && (forall|q: int|
                    0 <= q < tiles.len() && is_candidate(movement, pos, #[trigger] tiles[q].position(), players, occupied)
                        ==> manhattan(players[p], dest) <= manhattan(players[p], tiles[q].position()))
        },
{
    let n = players.len() as int;
    let p = nearest_index(players, pos, n);
    let target = players[p];
    lemma_nearest_index_is_nearest(players, pos, n);
    lemma_best_tile_is_closest(tiles, movement, pos, players, occupied, target, tiles.len() as int);
    if let Some(t) = best_tile_index(tiles, movement, pos, players, occupied, target, tiles.len() as int) {
        let dest = tiles[t].position();
        assert(tiles[t].position() == dest);
        assert forall|q: int| 0 <= q < players.len() implies manhattan(pos, #[trigger] players[p]) <= manhattan(pos, players[q]) by {
            assert(manhattan(pos, players[p]) <= manhattan(pos, players[q]));
        }
    }
}

/// Where an enemy ends up after a move is a free cell that its movement
/// shape covers: an enemy moves onto a tile, within its movement shape, that
/// no player stands on and that is not occupied.
pub open spec fn valid_step(
    from: GridPosition,
    to: GridPosition,
    movement: Option<Movement>,
    players: Seq<GridPosition>,
    tiles: Seq<Tile>,
) -> bool {
    to == from || {
        &&& movement matches Some(m)
        &&& m.range.spec_contains(from, to)
        &&& !players.contains(to)
        &&& exists|t: int| 0 <= t < tiles.len() && #[trigger] tiles[t].position() == to
    }
}

/// Moves keep each enemy's step valid, leave the enemies not yet moved in
/// place, and, when the enemies start on distinct cells, keep them on
/// distinct cells, the occupied set being exactly their cells.
pub proof fn lemma_moved_upto(
    enemies: Seq<EnemyMover>,
    players: Seq<GridPosition>,
    tiles: Seq<Tile>,
    k: int,
)
    requires
        0 <= k <= enemies.len(),
    ensures
        moved_upto(enemies, players, tiles, k).0.len() == enemies.len(),
        forall|i: int| k <= i < enemies.len() ==> #[trigger] moved_upto(enemies, players, tiles, k).0[i] == enemies[i].pos,
        forall|i: int|
            0 <= i < k ==> valid_step(
                enemies[i].pos,
                #[trigger] moved_upto(enemies, players, tiles, k).0[i],
                enemies[i].movement,
                players,
                tiles,
            ),
        all_distinct(enemies.map_values(|e: EnemyMover| e.pos)) ==> {
            &&& all_distinct(moved_upto(enemies, players, tiles, k).0)
            &&& moved_upto(enemies, players, tiles, k).1 == moved_upto(enemies, players, tiles, k).0.to_set()
        },
    decreases k,
{
    let start = enemies.map_values(|e: EnemyMover| e.pos);
    if k == 0 {
        return;
    }
    lemma_moved_upto(enemies, players, tiles, k - 1);
    let (cells, occupied) = moved_upto(enemies, players, tiles, k - 1);
    let pos = cells[k - 1];
    let movement = enemies[k - 1].movement;
    let target = players[nearest_index(players, pos, players.len() as int)];
    if let Some(m) = movement {
        lemma_best_tile_is_candidate(tiles, m, pos, players, occupied, target, tiles.len() as int);
        if let Some(t) = best_tile_index(tiles, m, pos, players, occupied, target, tiles.len() as int) {
            let dest = tiles[t].position();
            let next = cells.update(k - 1, dest);
            assert(moved_upto(enemies, players, tiles, k).0 == next);
            assert(valid_step(enemies[k - 1].pos, dest, movement, players, tiles));
            if all_distinct(start) {
                assert forall|i: int| 0 <= i < cells.len() implies cells[i] != dest by {
                    assert(cells.to_set().contains(cells[i]));
                }
                assert forall|i: int, j: int| 0 <= i < j < next.len() implies next[i] != next[j] by {
                    if i != k - 1 && j != k - 1 {
                        assert(cells[i] != cells[j]);
                    }
                }
                assert forall|q: GridPosition| #[trigger] next.to_set().contains(q)
                    <==> occupied.remove(pos).insert(dest).contains(q) by {
                    if next.to_set().contains(q) {
                        let i = choose|i: int| 0 <= i < next.len() && next[i] == q;
                        if i != k - 1 {
                            assert(cells[i] == q);
                            assert(cells.to_set().contains(q));
                        }
                    }
                    if occupied.remove(pos).insert(dest).contains(q) {
                        if q == dest {
                            assert(next[k - 1] == q);
                        } else {
                            assert(cells.to_set().contains(q));
                            let i = choose|i: int| 0 <= i < cells.len() && cells[i] == q;
                            assert(i != k - 1);
                            assert(next[i] == q);
                        }
                    }
                }
                assert(next.to_set() =~= occupied.remove(pos).insert(dest));
            }
        }
    }
}

/// The index of the first player closest to `pos`.
fn nearest_player(players: &Vec<GridPosition>, pos: GridPosition) -> (index: usize)
    requires
        players@.len() > 0,
        forall|p: int| 0 <= p < players@.len() ==> within_reach(pos, #[trigger] players@[p]),
    ensures
        index == nearest_index(players@, pos, players@.len() as int),
        index < players@.len(),
{
    let mut best: usize = 0;
    let mut best_dist: i32 = crate::grid::abs_i32(players[0].x - pos.x) + crate::grid::abs_i32(players[0].y - pos.y);
    let mut n: usize = 1;
    while n < players.len()
        invariant
            1 <= n <= players@.len(),
            forall|p: int| 0 <= p < players@.len() ==> within_reach(pos, #[trigger] players@[p]),
            best == nearest_index(players@, pos, n as int),
            best < n,
            best_dist == manhattan(pos, players@[best as int]),
        decreases players.len() - n,
    {
        assert(within_reach(pos, players@[n as int]));
        let d = crate::grid::abs_i32(players[n].x - pos.x) + crate::grid::abs_i32(players[n].y - pos.y);
        if d < best_dist {
            best = n;
            best_dist = d;
        }
        n = n + 1;
    }
    best
}

/// Whether `cell` is covered by `movement` from `pos` and free of players and enemies.
fn candidate(
    movement: Movement,
    pos: GridPosition,
    cell: GridPosition,
    players: &Vec<GridPosition>,
    occupied: &Vec<GridPosition>,
) -> (ok: bool)
    requires
        diffs_fit(pos, cell),
    ensures
        ok == is_candidate(movement, pos, cell, players@, occupied@.to_set()),
{
    movement.range.contains(pos, cell) && !contains_position(players, cell) && !contains_position(occupied, cell)
}

/// The index of the first candidate tile closest to `target`, if any.
fn best_tile(
    tiles: &Vec<Tile>,
    movement: Movement,
    pos: GridPosition,
    players: &Vec<GridPosition>,
    occupied: &Vec<GridPosition>,
    target: GridPosition,
) -> (index: Option<usize>)
    requires
        forall|t: int| 0 <= t < tiles@.len() ==> diffs_fit(pos, #[trigger] tiles@[t].position()),
        forall|t: int|
            0 <= t < tiles@.len() && movement.range.spec_contains(pos, #[trigger] tiles@[t].position())
                ==> within_reach(tiles@[t].position(), target),
    ensures
        index matches Some(i) ==> best_tile_index(tiles@, movement, pos, players@, occupied@.to_set(), target, tiles@.len() as int) == Some(i as int),
        index is None ==> best_tile_index(tiles@, movement, pos, players@, occupied@.to_set(), target, tiles@.len() as int) is None,
        index matches Some(i) ==> i < tiles@.len(),
{
    let ghost occ = occupied@.to_set();
    let mut best: Option<usize> = None;
    let mut best_dist: i32 = 0;
    let mut n: usize = 0;
    while n < tiles.len()
        invariant
            n <= tiles@.len(),
            occ == occupied@.to_set(),
            forall|t: int| 0 <= t < tiles@.len() ==> diffs_fit(pos, #[trigger] tiles@[t].position()),
            forall|t: int|
                0 <= t < tiles@.len() && movement.range.spec_contains(pos, #[trigger] tiles@[t].position())
                    ==> within_reach(tiles@[t].position(), target),
            best matches Some(b) ==> best_tile_index(tiles@, movement, pos, players@, occ, target, n as int) == Some(b as int)
                && b < n && best_dist == manhattan(target, tiles@[b as int].position()),
            best is None ==> best_tile_index(tiles@, movement, pos, players@, occ, target, n as int) is None,
        decreases tiles.len() - n,
    {
        let cell = GridPosition::from(&tiles[n]);
        assert(diffs_fit(pos, tiles@[n as int].position()));
        if candidate(movement, pos, cell, players, occupied) {
            let d = crate::grid::abs_i32(cell.x - target.x) + crate::grid::abs_i32(cell.y - target.y);
            match best {
                None => {
                    best = Some(n);
                    best_dist = d;
                },
                Some(_) => {
                    if d < best_dist {
                        best = Some(n);
                        best_dist = d;
                    }
                },
            }
        }
        n = n + 1;
    }
    best
}

/// Removes every occurrence of `cell`.
fn remove_position(cells: &mut Vec<GridPosition>, cell: GridPosition)
    ensures
        final(cells)@.to_set() == old(cells)@.to_set().remove(cell),
{
    let mut kept: Vec<GridPosition> = Vec::new();
    let mut i: usize = 0;
    while i < cells.len()
        invariant
            i <= cells@.len(),
            forall|q: GridPosition|
                kept@.contains(q) <==> (q != cell && exists|j: int| 0 <= j < i && #[trigger] cells@[j] == q),
        decreases cells.len() - i,
    {
        let c = cells[i];
        let ghost kept_before = kept@;
        if c != cell {
            kept.push(c);
        }
        assert forall|q: GridPosition|
            kept@.contains(q) <==> (q != cell && exists|j: int| 0 <= j < i + 1 && #[trigger] cells@[j] == q) by {
            if kept@.contains(q) {
                let j = choose|j: int| 0 <= j < kept@.len() && kept@[j] == q;
                if j < kept_before.len() {
                    assert(kept_before[j] == q);
                    assert(kept_before.contains(q));
                } else {
                    assert(cells@[i as int] == q);
                }
            }
            if q != cell && exists|j: int| 0 <= j < i + 1 && #[trigger] cells@[j] == q {
                let j = choose|j: int| 0 <= j < i + 1 && #[trigger] cells@[j] == q;
                if j < i {
                    assert(kept_before.contains(q));
                    let m = choose|m: int| 0 <= m < kept_before.len() && kept_before[m] == q;
                    assert(kept@[m] == q);
                } else {
                    assert(kept@[kept_before.len() as int] == q);
                }
            }
        }
        i = i + 1;
    }
    let ghost old_cells = cells@;
    *cells = kept;
    assert forall|q: GridPosition| old_cells.contains(q) <==> exists|j: int| 0 <= j < old_cells.len() && #[trigger] old_cells[j] == q by {}
    assert(cells@.to_set() =~= old_cells.to_set().remove(cell));
}

/// Adds `cell` unless it is already there.
fn insert_position(cells: &mut Vec<GridPosition>, cell: GridPosition)
    ensures
        final(cells)@.to_set() == old(cells)@.to_set().insert(cell),
{
    let ghost before = cells@;
    if !contains_position(cells, cell) {
        cells.push(cell);
        assert forall|q: GridPosition| cells@.contains(q) <==> (before.contains(q) || q == cell) by {
            if cells@.contains(q) {
                let j = choose|j: int| 0 <= j < cells@.len() && cells@[j] == q;
                if j < before.len() {
                    assert(before[j] == q);
                }
            }
            if before.contains(q) {
                let j = choose|j: int| 0 <= j < before.len() && before[j] == q;
                assert(cells@[j] == q);
            }
            if q == cell {
                assert(cells@[before.len() as int] == q);
            }
        }
    }
    assert(cells@.to_set() =~= before.to_set().insert(cell));
}

/// The enemies move, one after the other. Each turns towards the player
/// closest to it (the first one on a tie) and, if it can move, steps onto
/// the tile that its movement shape covers, that no player or enemy occupies,
/// and that is closest to that player (the first such tile on a tie); it
/// stays where it is when no tile qualifies. There must be a player unless
/// there are no enemies. The game then goes back to the player's turn.
pub fn move_enemies(enemies: &mut Vec<EnemyMover>, players: &Vec<GridPosition>, tiles: &Vec<Tile>) -> (next: GameState)
    requires
        old(enemies)@.len() == 0 || players@.len() > 0,
        move_fits(old(enemies)@, players@, tiles@),
    ensures
        final(enemies)@.len() == old(enemies)@.len(),
        final(enemies)@.map_values(|e: EnemyMover| e.pos)
            == moved_upto(old(enemies)@, players@, tiles@, old(enemies)@.len() as int).0,
        forall|k: int| 0 <= k < old(enemies)@.len() ==> #[trigger] final(enemies)@[k].movement == old(enemies)@[k].movement,
        forall|k: int|
            0 <= k < old(enemies)@.len() ==> valid_step(
                old(enemies)@[k].pos,
                #[trigger] final(enemies)@[k].pos,
                old(enemies)@[k].movement,
                players@,
                tiles@,
            ),
        all_distinct(old(enemies)@.map_values(|e: EnemyMover| e.pos))
            ==> all_distinct(final(enemies)@.map_values(|e: EnemyMover| e.pos)),
        next == GameState::PlayerTurn,
{
    let ghost start = enemies@;
    let mut occupied: Vec<GridPosition> = Vec::new();
    let mut i: usize = 0;
    while i < enemies.len()
        invariant
            i <= enemies@.len(),
            enemies@ == start,
            occupied@ == start.map_values(|e: EnemyMover| e.pos).take(i as int),
        decreases enemies.len() - i,
    {
        occupied.push(enemies[i].pos);
        assert(occupied@ =~= start.map_values(|e: EnemyMover| e.pos).take(i + 1));
        i = i + 1;
    }
    assert(start.map_values(|e: EnemyMover| e.pos).take(i as int) =~= start.map_values(|e: EnemyMover| e.pos));

    let mut k: usize = 0;
    while k < enemies.len()
        invariant
            k <= enemies@.len(),
            enemies@.len() == start.len(),
            start.len() == 0 || players@.len() > 0,
            move_fits(start, players@, tiles@),
            enemies@.map_values(|e: EnemyMover| e.pos) == moved_upto(start, players@, tiles@, k as int).0,
            occupied@.to_set() == moved_upto(start, players@, tiles@, k as int).1,
            forall|j: int| 0 <= j < start.len() ==> #[trigger] enemies@[j].movement == start[j].movement,
            forall|j: int| k <= j < start.len() ==> #[trigger] enemies@[j].pos == start[j].pos,
        decreases enemies.len() - k,
    {
        let ghost cells = moved_upto(start, players@, tiles@, k as int).0;
        let ghost occ = moved_upto(start, players@, tiles@, k as int).1;
        let enemy = enemies[k];
        let pos = enemy.pos;
        assert(cells[k as int] == pos) by {
            assert(enemies@.map_values(|e: EnemyMover| e.pos)[k as int] == enemies@[k as int].pos);
        }
        assert forall|p: int| 0 <= p < players@.len() implies within_reach(pos, #[trigger] players@[p]) by {
            assert(within_reach(start[k as int].pos, players@[p]));
        }
        let target_index = nearest_player(players, pos);
        let target = players[target_index];
        if let Some(movement) = enemy.movement {
            assert forall|t: int| 0 <= t < tiles@.len() implies diffs_fit(pos, #[trigger] tiles@[t].position()) by {
                assert(diffs_fit(start[k as int].pos, tiles@[t].position()));
            }
            assert forall|t: int|
                0 <= t < tiles@.len() && movement.range.spec_contains(pos, #[trigger] tiles@[t].position())
                    implies within_reach(tiles@[t].position(), target) by {
                assert(within_reach(tiles@[t].position(), players@[target_index as int])) by {
                    assert(start[k as int].pos == pos);
                }
            }
            if let Some(t) = best_tile(tiles, movement, pos, players, &occupied, target) {
                remove_position(&mut occupied, pos);
                let dest = GridPosition::from(&tiles[t]);
                enemies.set(k, EnemyMover { pos: dest, movement: Some(movement) });
                insert_position(&mut occupied, dest);
                assert(enemies@.map_values(|e: EnemyMover| e.pos) =~= cells.update(k as int, dest));
            } else {
                assert(enemies@.map_values(|e: EnemyMover| e.pos) =~= cells);
            }
        }
        k = k + 1;
    }
    proof {
        lemma_moved_upto(start, players@, tiles@, start.len() as int);
        assert forall|j: int| 0 <= j < start.len() implies valid_step(
            start[j].pos,
            #[trigger] enemies@[j].pos,
            start[j].movement,
            players@,
            tiles@,
        ) by {
            assert(enemies@.map_values(|e: EnemyMover| e.pos)[j] == enemies@[j].pos);
        }
    }
    GameState::PlayerTurn
}

/// After all enemies have moved, enemies that started on distinct cells are
/// on distinct cells, and an enemy that moved stands on a free tile its
/// movement shape covers, never on a player.
pub proof fn lemma_enemies_stay_apart(enemies: Seq<EnemyMover>, players: Seq<GridPosition>, tiles: Seq<Tile>)
    ensures
        all_distinct(enemies.map_values(|e: EnemyMover| e.pos))
            ==> all_distinct(moved_upto(enemies, players, tiles, enemies.len() as int).0),
        forall|k: int|
            0 <= k < enemies.len() && #[trigger] moved_upto(enemies, players, tiles, enemies.len() as int).0[k]
                != enemies[k].pos ==> !players.contains(moved_upto(enemies, players, tiles, enemies.len() as int).0[k]),
{
    lemma_moved_upto(enemies, players, tiles, enemies.len() as int);
}

} // verus!
