use turn_based_tactical::grid::{GridPosition, spawn};
use turn_based_tactical::game::GameState;
use turn_based_tactical::units::enemy::{Attacker, EnemyMover, TurnState, move_enemies, on_enemy_turn, take_damage};
use turn_based_tactical::units::{Attack, Health, HitTarget, Movement, RangeShape};

const LEVEL: &[&str] = &[
    "............",
    "....W.......",
    ".P..........",
    "....W...W.E.",
    ".P..W...W...",
    "........W.E.",
    "...WWWW.....",
    "............",
];

fn p(x: i32, y: i32) -> GridPosition {
    GridPosition { x, y }
}

fn axis(pos: GridPosition) -> Attacker {
    Attacker { pos, attack: Attack { damage: 4, range: RangeShape::Axis } }
}

#[test]
fn enemy_takes_damage_from_each_player_in_range() {
    let mut enemies = vec![HitTarget { entity: 10, pos: p(10, 3), health: Some(Health::new(10)) }];
    let players = vec![axis(p(1, 3)), axis(p(10, 0)), axis(p(0, 0))];
    let (despawned, next) = take_damage(&mut enemies, &players);
    assert!(despawned.is_empty());
    assert_eq!(next, TurnState::Move);
    assert_eq!(enemies[0].health.unwrap().hp, 2);
    assert_eq!(enemies[0].health.unwrap().max_hp, 10);
    assert_eq!(enemies[0].pos, p(10, 3));
}

#[test]
fn lethal_hits_despawn_once_per_hit() {
    let mut enemies = vec![
        HitTarget { entity: 10, pos: p(10, 3), health: Some(Health::new(4)) },
        HitTarget { entity: 11, pos: p(5, 5), health: None },
        HitTarget { entity: 12, pos: p(1, 0), health: Some(Health::new(5)) },
    ];
    let players = vec![axis(p(1, 3)), axis(p(10, 0))];
    let (despawned, _) = take_damage(&mut enemies, &players);
    assert_eq!(despawned, vec![10, 10, 12]);
    assert_eq!(enemies[0].health.unwrap().hp, 4);
    assert_eq!(enemies[1].health, None);
    assert_eq!(enemies[2].health.unwrap().hp, 1);
}

#[test]
fn enemy_moves_towards_nearest_player() {
    let tiles = spawn(LEVEL);
    let mut enemies = vec![EnemyMover { pos: p(10, 3), movement: Some(Movement { range: RangeShape::Square(3) }) }];
    let next = move_enemies(&mut enemies, &vec![p(1, 2), p(1, 4)], &tiles);
    assert_eq!(enemies[0].pos, p(8, 2));
    assert_eq!(next, GameState::PlayerTurn);
}

#[test]
fn enemies_move_one_after_the_other() {
    let tiles = spawn(LEVEL);
    let square = Some(Movement { range: RangeShape::Square(3) });
    let mut enemies = vec![
        EnemyMover { pos: p(10, 3), movement: square },
        EnemyMover { pos: p(10, 5), movement: square },
        EnemyMover { pos: p(11, 7), movement: None },
    ];
    move_enemies(&mut enemies, &vec![p(1, 2), p(1, 4)], &tiles);
    assert_eq!(enemies[0].pos, p(8, 2));
    assert_eq!(enemies[1].pos, p(8, 4));
    assert_eq!(enemies[2].pos, p(11, 7));
}

#[test]
fn enemies_never_share_or_step_on_players() {
    let tiles = spawn(LEVEL);
    let square = Some(Movement { range: RangeShape::Square(2) });
    let mut enemies = vec![
        EnemyMover { pos: p(3, 3), movement: square },
        EnemyMover { pos: p(3, 5), movement: square },
    ];
    let players = vec![p(2, 4)];
    move_enemies(&mut enemies, &players, &tiles);
    assert_ne!(enemies[0].pos, enemies[1].pos);
    assert!(!players.contains(&enemies[0].pos));
    assert!(!players.contains(&enemies[1].pos));
    // ties go to the first tile, and the level's tiles come bottom row first
    assert_eq!(enemies[0].pos, p(3, 4));
    assert_eq!(enemies[1].pos, p(2, 5));
}

#[test]
fn enemy_without_room_stays() {
    let tiles = vec![turn_based_tactical::grid::Tile::new(0, 0, turn_based_tactical::grid::TileType::Floor)];
    let mut enemies = vec![EnemyMover { pos: p(0, 0), movement: Some(Movement { range: RangeShape::Square(3) }) }];
    move_enemies(&mut enemies, &vec![p(5, 5)], &tiles);
    assert_eq!(enemies[0].pos, p(0, 0));
}

#[test]
fn no_enemies_no_players() {
    let tiles = spawn(LEVEL);
    let mut enemies: Vec<EnemyMover> = vec![];
    move_enemies(&mut enemies, &vec![], &tiles);
    assert!(enemies.is_empty());
}

#[test]
fn enemy_turn_starts_with_damage() {
    assert_eq!(on_enemy_turn(), TurnState::TakeDamage);
}
