use turn_based_tactical::grid;
use turn_based_tactical::grid::{GridPosition, Tile, TileType, Tilemap, build_tilemap, los, spawn, tile_cell, unit_at};

const LEVEL: &[&str] = &[
    "............",
    "....W.......",
    ".P..........",
    "....W...W.E.",
    ".P..W...W...",
    "........W.E.",
    "...WWWW.....",
    "............",
];

fn p(x: i32, y: i32) -> GridPosition {
    GridPosition { x, y }
}

#[test]
fn line_shallow_slope() {
    assert_eq!(grid::line(p(0, 0), p(3, 1)), vec![p(0, 0), p(1, 0), p(2, 1), p(3, 1)]);
}

#[test]
fn line_steep_slope() {
    assert_eq!(grid::line(p(0, 0), p(1, 3)), vec![p(0, 0), p(0, 1), p(1, 2), p(1, 3)]);
}

#[test]
fn line_diagonal_backwards() {
    assert_eq!(grid::line(p(0, 0), p(-2, -2)), vec![p(0, 0), p(-1, -1), p(-2, -2)]);
}

#[test]
fn line_to_self_is_one_cell() {
    assert_eq!(grid::line(p(2, 2), p(2, 2)), vec![p(2, 2)]);
}

#[test]
fn line_horizontal_and_vertical() {
    assert_eq!(grid::line(p(3, 1), p(0, 1)), vec![p(3, 1), p(2, 1), p(1, 1), p(0, 1)]);
    assert_eq!(grid::line(p(0, 0), p(0, 2)), vec![p(0, 0), p(0, 1), p(0, 2)]);
}

#[test]
fn line_ends_and_steps() {
    let from = p(-7, 4);
    let to = p(12, -3);
    let cells = grid::line(from, to);
    assert_eq!(cells.len(), 20);
    assert_eq!(cells[0], from);
    assert_eq!(*cells.last().unwrap(), to);
    for w in cells.windows(2) {
        let dx = (w[1].x - w[0].x).abs();
        let dy = (w[1].y - w[0].y).abs();
        assert_eq!(dx.max(dy), 1);
    }
}

#[test]
fn line_long_far_apart() {
    let from = p(-1_000_000, 5);
    let to = p(1_000_000, -5);
    let cells = grid::line(from, to);
    assert_eq!(cells.len(), 2_000_001);
    assert_eq!(*cells.last().unwrap(), to);
}

#[test]
fn level_tiles_bottom_row_first() {
    let tiles = spawn(LEVEL);
    assert_eq!(tiles.len(), 96);
    assert_eq!(tiles[0], Tile::new(0, 7, TileType::Floor));
    assert_eq!(tiles[12], Tile::new(0, 6, TileType::Floor));
    assert_eq!(tiles[15], Tile::new(3, 6, TileType::Wall));
    assert_eq!(tiles[95], Tile::new(11, 0, TileType::Floor));
}

#[test]
fn tilemap_reads_back_level() {
    let tilemap = build_tilemap(&spawn(LEVEL));
    assert_eq!(tilemap.get(p(4, 1)), Some(TileType::Wall));
    assert_eq!(tilemap.get(p(8, 5)), Some(TileType::Wall));
    assert_eq!(tilemap.get(p(1, 2)), Some(TileType::Floor));
    assert_eq!(tilemap.get(p(10, 3)), Some(TileType::Floor));
    assert_eq!(tilemap.get(p(12, 0)), None);
    assert_eq!(tilemap.get(p(0, -1)), None);
}

#[test]
fn tilemap_later_tile_wins() {
    let tilemap = Tilemap(vec![
        Tile::new(1, 1, TileType::Wall),
        Tile::new(1, 1, TileType::Floor),
        Tile::new(2, 1, TileType::Wall),
    ]);
    assert_eq!(tilemap.get(p(1, 1)), Some(TileType::Floor));
    assert_eq!(tilemap.get(p(2, 1)), Some(TileType::Wall));
}

#[test]
fn los_blocked_by_wall_on_the_way() {
    let tilemap = build_tilemap(&spawn(LEVEL));
    assert!(!los(p(1, 4), p(7, 4), &tilemap));
    assert!(los(p(1, 2), p(7, 2), &tilemap));
    assert!(los(p(1, 4), p(3, 4), &tilemap));
}

#[test]
fn los_wall_target_hidden_self_seen() {
    let tilemap = build_tilemap(&spawn(LEVEL));
    assert!(!los(p(1, 4), p(4, 4), &tilemap));
    assert!(los(p(4, 4), p(4, 4), &tilemap));
    assert!(los(p(1, 2), p(1, 2), &tilemap));
}

#[test]
fn los_outside_map_not_blocking() {
    let tilemap = build_tilemap(&spawn(LEVEL));
    assert!(los(p(-5, -5), p(-1, -9), &tilemap));
}

#[test]
fn position_from_tile_and_sub() {
    let tile = Tile::new(5, 3, TileType::Wall);
    assert_eq!(GridPosition::from(tile), p(5, 3));
    assert_eq!(GridPosition::from(&tile), p(5, 3));
    assert_eq!(p(5, 3) - p(2, 7), p(3, -4));
}

#[test]
fn more_walls_never_create_sight() {
    let open = build_tilemap(&spawn(LEVEL));
    let mut walled = spawn(LEVEL);
    walled.push(Tile::new(3, 2, TileType::Wall));
    let walled = build_tilemap(&walled);
    assert!(los(p(1, 2), p(7, 2), &open));
    assert!(!los(p(1, 2), p(7, 2), &walled));
    assert!(!los(p(1, 4), p(7, 4), &walled));
}

#[test]
fn lines_shift_with_their_ends() {
    let base = grid::line(p(0, 0), p(5, 2));
    let moved = grid::line(p(10, -3), p(15, -1));
    let shifted: Vec<GridPosition> = base.iter().map(|c| p(c.x + 10, c.y - 3)).collect();
    assert_eq!(moved, shifted);
}

#[test]
fn first_unit_on_a_cell() {
    let units = vec![(7, p(1, 1)), (8, p(2, 2)), (9, p(1, 1))];
    assert_eq!(unit_at(&units, p(1, 1)), Some(7));
    assert_eq!(unit_at(&units, p(2, 2)), Some(8));
    assert_eq!(unit_at(&units, p(0, 0)), None);
}

#[test]
fn tile_cells_by_entity() {
    let cells = vec![(3, p(4, 5)), (4, p(0, 0))];
    assert_eq!(tile_cell(&cells, 4), Some(p(0, 0)));
    assert_eq!(tile_cell(&cells, 9), None);
}
