use turn_based_tactical::grid::{GridPosition, build_tilemap, spawn};
use turn_based_tactical::units::{
    Attack, Faction, Health, HitTarget, MoveShape, Movement, RangeShape, SpawnPoint,
    UnitActionRange, UnitInfo, UnitTiles, calculate_ranges, setup,
};
use turn_based_tactical::units::{enemy, player};

const LEVEL: &[&str] = &[
    "............",
    "....W.......",
    ".P..........",
    "....W...W.E.",
    ".P..W...W...",
    "........W.E.",
    "...WWWW.....",
    "............",
];

fn p(x: i32, y: i32) -> GridPosition {
    GridPosition { x, y }
}

#[test]
fn square_range_covers_square_without_origin() {
    let square = RangeShape::Square(3);
    assert!(square.contains(p(0, 0), p(2, 2)));
    assert!(square.contains(p(0, 0), p(-2, 1)));
    assert!(!square.contains(p(0, 0), p(3, 0)));
    assert!(!square.contains(p(0, 0), p(0, 0)));
}

#[test]
fn axis_range_covers_row_and_column() {
    let axis = RangeShape::Axis;
    assert!(axis.contains(p(0, 0), p(5, 0)));
    assert!(axis.contains(p(0, 0), p(0, -9)));
    assert!(!axis.contains(p(0, 0), p(1, 1)));
    assert!(!axis.contains(p(2, 2), p(2, 2)));
}

#[test]
fn range_is_symmetric() {
    let square = RangeShape::Square(4);
    assert_eq!(square.contains(p(1, 1), p(4, -1)), square.contains(p(4, -1), p(1, 1)));
    assert_eq!(RangeShape::Axis.contains(p(1, 1), p(1, 7)), RangeShape::Axis.contains(p(1, 7), p(1, 1)));
}

#[test]
fn small_and_huge_squares_cover_nothing() {
    assert!(!RangeShape::Square(1).contains(p(0, 0), p(1, 0)));
    assert!(!RangeShape::Square(0).contains(p(0, 0), p(0, 1)));
    // a size beyond i32::MAX wraps to a negative size
    assert!(!RangeShape::Square(u32::MAX).contains(p(0, 0), p(1, 0)));
}

#[test]
fn move_shape_square() {
    assert!(MoveShape::Square(3).contains(p(4, 4), p(5, 6)));
    assert!(!MoveShape::Square(3).contains(p(4, 4), p(4, 4)));
    assert!(!MoveShape::Square(3).contains(p(4, 4), p(7, 4)));
}

#[test]
fn contains_with_los_asks_los_only_when_covered() {
    let square = RangeShape::Square(3);
    assert!(!square.contains_with_los(p(0, 0), p(5, 5), |_, _| panic!("not covered")));
    assert!(!square.contains_with_los(p(0, 0), p(0, 0), |_, _| panic!("origin")));
    assert!(square.contains_with_los(p(0, 0), p(1, 1), |_, _| true));
    assert!(!square.contains_with_los(p(0, 0), p(1, 1), |_, _| false));
}

#[test]
fn health_starts_full_and_takes_hits() {
    let mut health = Health::new(8);
    assert_eq!(health.hp, 8);
    assert_eq!(health.max_hp, 8);
    assert!(!health.take_hit(3));
    assert_eq!(health.hp, 5);
    assert!(health.take_hit(5));
    assert_eq!(health.hp, 5);
    assert!(health.take_hit(9));
    assert_eq!(health.max_hp, 8);
}

#[test]
fn unit_tiles_set_semantics() {
    let mut tiles = UnitTiles::new();
    assert!(!tiles.has_unit(1));
    tiles.insert(1, p(2, 3));
    tiles.insert(1, p(2, 3));
    tiles.insert(2, p(0, 0));
    assert!(tiles.has_unit(1));
    assert!(tiles.contains(1, p(2, 3)));
    assert!(!tiles.contains(2, p(2, 3)));
    tiles.clear();
    assert!(!tiles.has_unit(1));
    assert!(!tiles.contains(2, p(0, 0)));
}

#[test]
fn level_spawn_points_in_reading_order() {
    let spawns = setup(LEVEL);
    assert_eq!(
        spawns,
        vec![
            SpawnPoint { faction: Faction::Player, pos: p(1, 2) },
            SpawnPoint { faction: Faction::Enemy, pos: p(10, 3) },
            SpawnPoint { faction: Faction::Player, pos: p(1, 4) },
            SpawnPoint { faction: Faction::Enemy, pos: p(10, 5) },
        ]
    );
}

#[test]
fn unit_stats_on_spawn() {
    let player = player::spawn(p(1, 2));
    assert_eq!(player.pos, p(1, 2));
    assert_eq!(player.movement, Movement { range: RangeShape::Square(3) });
    assert_eq!(player.attack, Attack { damage: 4, range: RangeShape::Axis });
    assert_eq!(player.health, Health::new(8));
    let enemy = enemy::spawn(p(10, 3));
    assert_eq!(enemy.movement, Movement { range: RangeShape::Square(3) });
    assert_eq!(enemy.attack, Attack { damage: 3, range: RangeShape::Square(4) });
    assert_eq!(enemy.health, Health::new(10));
}

fn level_units() -> Vec<UnitInfo> {
    let first = player::spawn(p(1, 2));
    let second = player::spawn(p(1, 4));
    vec![
        UnitInfo { entity: 1, pos: first.pos, movement: Some(first.movement), attack: Some(first.attack) },
        UnitInfo { entity: 2, pos: second.pos, movement: Some(second.movement), attack: Some(second.attack) },
        UnitInfo { entity: 3, pos: p(10, 3), movement: None, attack: None },
    ]
}

#[test]
fn ranges_on_the_level() {
    let tiles = spawn(LEVEL);
    let tilemap = build_tilemap(&tiles);
    let mut range = UnitActionRange::new();
    calculate_ranges(&mut range, &level_units(), &vec![p(1, 2), p(1, 4)], &tiles, &tilemap);

    assert!(range.move_tiles.contains(1, p(3, 4)));
    assert!(range.move_tiles.contains(1, p(0, 0)));
    assert!(!range.move_tiles.contains(1, p(1, 4)));
    assert!(!range.move_tiles.contains(1, p(1, 2)));
    assert!(!range.move_tiles.contains(1, p(4, 2)));
    let mut count = 0;
    for x in -2..14 {
        for y in -2..10 {
            if range.move_tiles.contains(1, p(x, y)) {
                count += 1;
            }
        }
    }
    assert_eq!(count, 18);

    assert!(range.attack_tiles.contains(1, p(11, 2)));
    assert!(range.attack_tiles.contains(1, p(1, 7)));
    assert!(!range.attack_tiles.contains(1, p(2, 3)));
    assert!(range.attack_tiles.contains(2, p(3, 4)));
    assert!(!range.attack_tiles.contains(2, p(4, 4)));
    assert!(!range.attack_tiles.contains(2, p(5, 4)));

    assert!(!range.move_tiles.has_unit(3));
    assert!(!range.attack_tiles.has_unit(3));
}

#[test]
fn ranges_unchanged_without_moves() {
    let tiles = spawn(LEVEL);
    let tilemap = build_tilemap(&tiles);
    let mut range = UnitActionRange::new();
    range.move_tiles.insert(7, p(9, 9));
    calculate_ranges(&mut range, &level_units(), &vec![], &tiles, &tilemap);
    assert!(range.move_tiles.contains(7, p(9, 9)));
    assert!(!range.move_tiles.has_unit(1));
}

#[test]
fn ranges_cleared_and_recomputed() {
    let tiles = spawn(LEVEL);
    let tilemap = build_tilemap(&tiles);
    let mut range = UnitActionRange::new();
    range.move_tiles.insert(7, p(9, 9));
    range.attack_tiles.insert(7, p(9, 9));
    calculate_ranges(&mut range, &level_units(), &vec![p(1, 4)], &tiles, &tilemap);
    assert!(!range.move_tiles.has_unit(7));
    assert!(!range.attack_tiles.has_unit(7));
    // only the units that changed count as occupying cells
    assert!(range.move_tiles.contains(2, p(1, 2)));
}

#[test]
fn hit_target_copy() {
    let target = HitTarget { entity: 4, pos: p(0, 0), health: None };
    let copy = target;
    assert_eq!(copy, target);
}
