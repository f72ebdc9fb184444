//! Player units: their stats, the end of their turn and the damage they take.

use vstd::prelude::*;

use crate::game::GameState;
use crate::grid::GridPosition;
use crate::units::{
    Attack, HitTarget, Health, Movement, RangeShape, UnitActionRange, UnitSpawn, despawns,
    fold_hits, has_entry, repeat_entity,
};
use crate::units::enemy;

verus! {

/// The phases of the player's turn.
#[derive(Clone, Copy, PartialEq, Eq, Debug, Structural)]
pub enum TurnState {
    /// Nothing selected.
    Idle,
    SelectedUnit,
    SelectedPosition,
    End,
}

/// A player unit as spawned at `spawn_pos`: moves within a square of size 3,
/// strikes for 4 along its row and column, and has 8 hit points.
pub fn spawn(spawn_pos: GridPosition) -> (unit: UnitSpawn)
    ensures
        unit.pos == spawn_pos,
        unit.movement == (Movement { range: RangeShape::Square(3) }),
        unit.attack == (Attack { damage: 4, range: RangeShape::Axis }),
        unit.health.hp == 8 && unit.health.max_hp == 8,
{
    UnitSpawn {
        pos: spawn_pos,
        movement: Movement { range: RangeShape::Square(3) },
        attack: Attack { damage: 4, range: RangeShape::Axis },
        health: Health::new(8),
    }
}

/// After `move_clicks` move orders, the turn ends when no player unit is left
/// to act (and there was at least one order); otherwise nothing changes.
pub fn check_player_turn_over(move_clicks: usize, actionable_units: usize) -> (next: Option<TurnState>)
    ensures
        next == (if move_clicks > 0 && actionable_units == 0 { Some(TurnState::End) } else { None }),
{
    let mut next = None;
    let mut i: usize = 0;
    while i < move_clicks
        invariant
            i <= move_clicks,
            next == (if i > 0 && actionable_units == 0 { Some(TurnState::End) } else { None }),
        decreases move_clicks - i,
    {
        if actionable_units == 0 {
            next = Some(TurnState::End);
        }
        i = i + 1;
    }
    next
}

/// Ending the player's turn: the player's phase and the enemies' phase go
/// back to idle and the enemies take their turn.
pub fn end_turn() -> (states: (TurnState, enemy::TurnState, GameState))
    ensures
        states == (TurnState::Idle, enemy::TurnState::Idle, GameState::EnemyTurn),
{
    (TurnState::Idle, enemy::TurnState::Idle, GameState::EnemyTurn)
}

/// An enemy seen as a source of damage: its entity id and attack, if any.
#[derive(Clone, Copy, PartialEq, Eq, Debug, Structural)]
pub struct EnemyStriker {
    pub entity: u64,
    pub attack: Option<Attack>,
}

/// The hits a player unit takes when its turn starts, in order: each enemy
/// with an attack whose attack cells include the unit's cell deals its damage.
pub open spec fn hits_from_enemies(
    enemies: Seq<EnemyStriker>,
    attack_tiles: Set<(u64, GridPosition)>,
) -> spec_fn(HitTarget) -> Seq<Option<u32>> {
    |player: HitTarget|
        enemies.map_values(
            |e: EnemyStriker|
                match e.attack {
                    Some(attack) => if attack_tiles.contains((e.entity, player.pos)) {
                        Some(attack.damage)
                    } else {
                        None
                    },
                    None => None,
                },
        )
}

/// At the start of the player's turn a player unit takes one hit from each
/// enemy, in the enemies' order: the enemy's damage when the enemy has an
/// attack and its attack cells include the unit's cell, and no hit otherwise,
/// whatever the other enemies do.
pub proof fn lemma_hit_by_each_enemy(
    enemies: Seq<EnemyStriker>,
    attack_tiles: Set<(u64, GridPosition)>,
    player: HitTarget,
)
    ensures
        hits_from_enemies(enemies, attack_tiles)(player).len() == enemies.len(),
        forall|j: int|
            0 <= j < enemies.len() ==> (#[trigger] hits_from_enemies(enemies, attack_tiles)(player)[j] is Some
                <==> (enemies[j].attack is Some && attack_tiles.contains((enemies[j].entity, player.pos)))),
        forall|j: int|
            0 <= j < enemies.len() && (#[trigger] enemies[j]).attack is Some && attack_tiles.contains(
                (enemies[j].entity, player.pos),
            ) ==> hits_from_enemies(enemies, attack_tiles)(player)[j] == Some(enemies[j].attack->0.damage),
{
}

/// When some player unit has health, every enemy with an attack has an entry
/// in the attack cells (the lookup of a missing entry is an error).
pub open spec fn attack_entries_present(
    players: Seq<HitTarget>,
    enemies: Seq<EnemyStriker>,
    attack_tiles: Set<(u64, GridPosition)>,
) -> bool {
    (exists|k: int| 0 <= k < players.len() && (#[trigger] players[k]).health is Some) ==> forall|j: int|
        0 <= j < enemies.len() && (#[trigger] enemies[j]).attack is Some ==> has_entry(
            attack_tiles,
            enemies[j].entity,
        )
}

/// Every player unit may act again: clears each unit's moved flag.
pub fn clear_moved(has_moved: &mut Vec<bool>)
    ensures
        final(has_moved)@.len() == old(has_moved)@.len(),
        forall|k: int| 0 <= k < old(has_moved)@.len() ==> !#[trigger] final(has_moved)@[k],
{
    let ghost len = has_moved@.len();
    let mut i: usize = 0;
    while i < has_moved.len()
        invariant
            i <= has_moved@.len(),
            has_moved@.len() == len,
            forall|k: int| 0 <= k < i ==> !#[trigger] has_moved@[k],
        decreases has_moved.len() - i,
    {
        has_moved.set(i, false);
        i = i + 1;
    }
}

/// At the start of the player's turn every player unit may act again (its
/// flag in `has_moved`, one per unit, is cleared) and the enemies strike:
/// each player unit with health takes, in order, the damage of every enemy
/// whose attack cells include the unit's cell. Returns the ids of the player
/// units to remove, one per lethal hit.
pub fn on_player_turn(
    players: &mut Vec<HitTarget>,
    has_moved: &mut Vec<bool>,
    enemies: &Vec<EnemyStriker>,
    action_range: &UnitActionRange,
) -> (despawned: Vec<u64>)
    requires
        attack_entries_present(old(players)@, enemies@, action_range.attack_tiles@),
    ensures
        final(has_moved)@.len() == old(has_moved)@.len(),
        forall|k: int| 0 <= k < old(has_moved)@.len() ==> !#[trigger] final(has_moved)@[k],
        final(players)@.len() == old(players)@.len(),
        forall|k: int|
            0 <= k < old(players)@.len() ==> {
                &&& #[trigger] final(players)@[k].entity == old(players)@[k].entity
                &&& final(players)@[k].pos == old(players)@[k].pos
                &&& final(players)@[k].health == fold_hits(
                    old(players)@[k].health,
                    hits_from_enemies(enemies@, action_range.attack_tiles@)(old(players)@[k]),
                ).0
            },
        despawned@ == despawns(
            old(players)@,
            hits_from_enemies(enemies@, action_range.attack_tiles@),
            old(players)@.len() as int,
        ),
{
    clear_moved(has_moved);
    let ghost start = players@;
    let ghost hits_for = hits_from_enemies(enemies@, action_range.attack_tiles@);
    let mut despawned: Vec<u64> = Vec::new();
    let mut k: usize = 0;
    while k < players.len()
        invariant
            k <= players@.len(),
            players@.len() == start.len(),
            attack_entries_present(start, enemies@, action_range.attack_tiles@),
            hits_for == hits_from_enemies(enemies@, action_range.attack_tiles@),
            forall|i: int| k <= i < start.len() ==> #[trigger] players@[i] == start[i],
            forall|i: int|
                0 <= i < k ==> {
                    &&& #[trigger] players@[i].entity == start[i].entity
                    &&& players@[i].pos == start[i].pos
                    &&& players@[i].health == fold_hits(start[i].health, hits_for(start[i])).0
                },
            despawned@ == despawns(start, hits_for, k as int),
        decreases players.len() - k,
    {
        let target = players[k];
        let ghost hits = hits_for(target);
        let ghost before = despawned@;
        let mut health = target.health;
        let ghost mut lethal: nat = 0;
        assert(hits.take(0) =~= Seq::<Option<u32>>::empty());
        if let Some(mut current) = health {
            let mut j: usize = 0;
            while j < enemies.len()
                invariant
                    k < start.len(),
                    target == start[k as int],
                    target.health is Some,
                    hits == hits_for(target),
                    hits_for == hits_from_enemies(enemies@, action_range.attack_tiles@),
                    attack_entries_present(start, enemies@, action_range.attack_tiles@),
                    j <= enemies@.len(),
                    hits.len() == enemies@.len(),
                    (Some(current), lethal) == fold_hits(target.health, hits.take(j as int)),
                    despawned@ == before + repeat_entity(target.entity, lethal),
                decreases enemies.len() - j,
            {
                let enemy = enemies[j];
                assert(hits.take(j + 1).drop_last() =~= hits.take(j as int));
                if let Some(attack) = enemy.attack {
                    assert(start[k as int].health is Some);
                    assert(has_entry(action_range.attack_tiles@, enemies@[j as int].entity));
                    if action_range.attack_tiles.contains(enemy.entity, target.pos) {
                        let lethal_hit = current.take_hit(attack.damage);
                        if lethal_hit {
                            despawned.push(target.entity);
                            proof {
                                lethal = lethal + 1;
                            }
                            assert(despawned@ =~= before + repeat_entity(target.entity, lethal));
                        }
                    }
                }
                j = j + 1;
            }
            health = Some(current);
        } else {
            proof {
                lemma_fold_without_health(hits);
            }
        }
        assert(hits.take(enemies@.len() as int) =~= hits);
        let updated = HitTarget { entity: target.entity, pos: target.pos, health };
        assert(updated.health == fold_hits(start[k as int].health, hits_for(start[k as int])).0);
        let ghost prev = players@;
        players.set(k, updated);
        assert(players@[k as int] == updated);
        assert forall|i: int|
            0 <= i < k + 1 implies {
                &&& #[trigger] players@[i].entity == start[i].entity
                &&& players@[i].pos == start[i].pos
                &&& players@[i].health == fold_hits(start[i].health, hits_for(start[i])).0
            } by {
            if i == k {
                assert(players@[i] == updated);
            } else {
                assert(players@[i] == prev[i]);
                assert(prev[i].entity == start[i].entity);
            }
        }
        assert(despawned@ =~= despawns(start, hits_for, k + 1));
        k = k + 1;
    }
    despawned
}

/// A unit without health takes no hits.
proof fn lemma_fold_without_health(hits: Seq<Option<u32>>)
    ensures
        fold_hits(None, hits) == (None::<Health>, 0nat),
    decreases hits.len(),
{
    if hits.len() > 0 {
        lemma_fold_without_health(hits.drop_last());
    }
}

} // verus!
