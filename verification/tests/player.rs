use turn_based_tactical::game::{GameState, check_win, start};
use turn_based_tactical::grid::GridPosition;
use turn_based_tactical::units::player::{
    EnemyStriker, TurnState, check_player_turn_over, clear_moved, end_turn, on_player_turn,
};
use turn_based_tactical::units::{Attack, Health, HitTarget, RangeShape, UnitActionRange};
use turn_based_tactical::units::enemy;

fn p(x: i32, y: i32) -> GridPosition {
    GridPosition { x, y }
}

fn striker(entity: u64, damage: u32) -> EnemyStriker {
    EnemyStriker { entity, attack: Some(Attack { damage, range: RangeShape::Square(4) }) }
}

#[test]
fn players_hit_by_enemies_covering_them() {
    let mut range = UnitActionRange::new();
    range.attack_tiles.insert(20, p(1, 2));
    range.attack_tiles.insert(21, p(5, 5));
    let mut players = vec![HitTarget { entity: 1, pos: p(1, 2), health: Some(Health::new(8)) }];
    let mut has_moved = vec![true];
    let despawned = on_player_turn(&mut players, &mut has_moved, &vec![striker(20, 3), striker(21, 3)], &range);
    assert_eq!(has_moved, vec![false]);
    assert!(despawned.is_empty());
    assert_eq!(players[0].health.unwrap().hp, 5);
}

#[test]
fn lethal_enemy_hit_despawns_player() {
    let mut range = UnitActionRange::new();
    range.attack_tiles.insert(20, p(1, 2));
    let mut players = vec![
        HitTarget { entity: 1, pos: p(1, 2), health: Some(Health::new(3)) },
        HitTarget { entity: 2, pos: p(1, 2), health: None },
    ];
    let enemies = vec![striker(20, 3), EnemyStriker { entity: 22, attack: None }];
    let mut has_moved = vec![true, false];
    let despawned = on_player_turn(&mut players, &mut has_moved, &enemies, &range);
    assert_eq!(has_moved, vec![false, false]);
    assert_eq!(despawned, vec![1]);
    assert_eq!(players[0].health.unwrap().hp, 3);
    assert_eq!(players[1].health, None);
}

#[test]
fn turn_over_only_without_actionable_units() {
    assert_eq!(check_player_turn_over(1, 0), Some(TurnState::End));
    assert_eq!(check_player_turn_over(3, 0), Some(TurnState::End));
    assert_eq!(check_player_turn_over(0, 0), None);
    assert_eq!(check_player_turn_over(2, 1), None);
}

#[test]
fn ending_the_turn_hands_over_to_enemies() {
    assert_eq!(end_turn(), (TurnState::Idle, enemy::TurnState::Idle, GameState::EnemyTurn));
}

#[test]
fn win_prevails_over_loss() {
    assert_eq!(check_win(0, 0), Some(GameState::Win));
    assert_eq!(check_win(1, 0), Some(GameState::Win));
    assert_eq!(check_win(0, 2), Some(GameState::Lose));
    assert_eq!(check_win(2, 3), None);
}

#[test]
fn game_starts_with_player_turn() {
    assert_eq!(start(), GameState::PlayerTurn);
}

#[test]
fn clearing_moved_flags() {
    let mut flags = vec![true, false, true];
    clear_moved(&mut flags);
    assert_eq!(flags, vec![false, false, false]);
    let mut none: Vec<bool> = vec![];
    clear_moved(&mut none);
    assert!(none.is_empty());
}
