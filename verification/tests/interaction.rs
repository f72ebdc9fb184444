use turn_based_tactical::grid::{GridClicked, GridPosition, Tile, TileType};
use turn_based_tactical::interaction::{
    ClickOutcome, SelectedPosition, grid_clicked, on_deselect, selected_player,
    selected_position,
};
use turn_based_tactical::tile_overlays::TileOverlay;
use turn_based_tactical::units::player::TurnState;
use turn_based_tactical::units::{SelectedUnit, UnitActionRange, move_unit};

fn p(x: i32, y: i32) -> GridPosition {
    GridPosition { x, y }
}

fn board() -> Vec<(Tile, TileOverlay)> {
    let mut tiles = vec![];
    for y in 0..3 {
        for x in 0..3 {
            let overlay = TileOverlay { selected: x == 1 && y == 1, ..TileOverlay::default() };
            tiles.push((Tile::new(x, y, TileType::Floor), overlay));
        }
    }
    tiles
}

fn tile_id(x: i32, y: i32) -> u64 {
    (x * 10 + y) as u64
}

fn cells() -> Vec<(u64, GridPosition)> {
    let mut cells = vec![];
    for y in 0..3 {
        for x in 0..3 {
            cells.push((tile_id(x, y), p(x, y)));
        }
    }
    cells
}

fn click(x: i32, y: i32, unit: Option<u64>) -> GridClicked {
    GridClicked { tile: tile_id(x, y), click_pos: p(x, y), unit }
}

fn any_selected(tiles: &[(Tile, TileOverlay)]) -> bool {
    tiles.iter().any(|(_, o)| o.selected)
}

#[test]
fn click_on_unit_selects_it() {
    let mut unit = SelectedUnit(None);
    let mut pos = SelectedPosition(None);
    let mut tiles = board();
    let outcome = grid_clicked(&vec![click(1, 1, Some(5))], &mut unit, &mut pos, &mut tiles, &cells(), &UnitActionRange::new());
    assert_eq!(outcome, ClickOutcome { deselect: true, next_state: Some(TurnState::SelectedUnit) });
    assert_eq!(unit, SelectedUnit(Some(5)));
    assert_eq!(pos, SelectedPosition(None));
    assert!(any_selected(&tiles));
}

#[test]
fn click_on_move_cell_chooses_destination() {
    let mut range = UnitActionRange::new();
    range.move_tiles.insert(5, p(2, 2));
    let mut unit = SelectedUnit(Some(5));
    let mut pos = SelectedPosition(None);
    let mut tiles = board();
    let outcome = grid_clicked(&vec![click(2, 2, None)], &mut unit, &mut pos, &mut tiles, &cells(), &range);
    assert_eq!(outcome, ClickOutcome { deselect: false, next_state: Some(TurnState::SelectedPosition) });
    assert_eq!(pos, SelectedPosition(Some(p(2, 2))));
    assert_eq!(unit, SelectedUnit(Some(5)));
    assert!(!any_selected(&tiles));
}

#[test]
fn click_elsewhere_with_selection_goes_idle() {
    let mut range = UnitActionRange::new();
    range.move_tiles.insert(5, p(2, 2));
    let mut unit = SelectedUnit(Some(5));
    let mut pos = SelectedPosition(None);
    let mut tiles = board();
    let outcome = grid_clicked(&vec![click(0, 0, None)], &mut unit, &mut pos, &mut tiles, &cells(), &range);
    assert_eq!(outcome, ClickOutcome { deselect: false, next_state: Some(TurnState::Idle) });
    assert_eq!(pos, SelectedPosition(None));
    assert!(!any_selected(&tiles));
}

#[test]
fn click_without_selection_goes_idle_and_keeps_highlights() {
    let mut unit = SelectedUnit(None);
    let mut pos = SelectedPosition(None);
    let mut tiles = board();
    let outcome = grid_clicked(&vec![click(0, 0, None)], &mut unit, &mut pos, &mut tiles, &cells(), &UnitActionRange::new());
    assert_eq!(outcome, ClickOutcome { deselect: false, next_state: Some(TurnState::Idle) });
    assert!(any_selected(&tiles));
}

#[test]
fn no_clicks_change_nothing() {
    let mut unit = SelectedUnit(Some(3));
    let mut pos = SelectedPosition(Some(p(1, 1)));
    let mut tiles = board();
    let outcome = grid_clicked(&vec![], &mut unit, &mut pos, &mut tiles, &cells(), &UnitActionRange::new());
    assert_eq!(outcome, ClickOutcome { deselect: false, next_state: None });
    assert_eq!(unit, SelectedUnit(Some(3)));
    assert_eq!(pos, SelectedPosition(Some(p(1, 1))));
    assert!(any_selected(&tiles));
}

#[test]
fn first_decisive_click_wins() {
    let mut range = UnitActionRange::new();
    range.move_tiles.insert(5, p(2, 2));
    let mut unit = SelectedUnit(Some(5));
    let mut pos = SelectedPosition(None);
    let mut tiles = board();
    let events = vec![click(0, 1, None), click(1, 0, Some(9)), click(2, 2, None)];
    let outcome = grid_clicked(&events, &mut unit, &mut pos, &mut tiles, &cells(), &range);
    assert_eq!(outcome, ClickOutcome { deselect: true, next_state: Some(TurnState::SelectedUnit) });
    assert_eq!(unit, SelectedUnit(Some(9)));
    assert_eq!(pos, SelectedPosition(None));
    assert!(!any_selected(&tiles));
}

#[test]
fn deselect_clears_all_highlights() {
    let mut tiles = board();
    on_deselect(&mut tiles);
    assert!(!any_selected(&tiles));
    assert_eq!(tiles.len(), 9);
}

#[test]
fn selected_player_highlights_its_cell() {
    let mut tiles = board();
    selected_player(p(2, 0), &mut tiles);
    assert!(tiles[2].1.selected);
    assert!(tiles[4].1.selected);
    assert!(!tiles[0].1.selected);
}

#[test]
fn selected_position_highlights_destination() {
    let mut tiles = board();
    selected_position(&SelectedPosition(Some(p(0, 2))), &mut tiles);
    assert!(tiles[6].1.selected);
    assert!(!tiles[7].1.selected);
}

#[test]
fn move_orders_put_unit_on_destination() {
    let mut pos = p(1, 2);
    assert_eq!(move_unit(0, &SelectedPosition(None), &mut pos), None);
    assert_eq!(pos, p(1, 2));
    assert_eq!(move_unit(2, &SelectedPosition(Some(p(3, 3))), &mut pos), Some(TurnState::Idle));
    assert_eq!(pos, p(3, 3));
}

#[test]
fn clicked_tile_cell_decides_click_cell_is_stored() {
    let mut range = UnitActionRange::new();
    range.move_tiles.insert(5, p(2, 2));
    let mut unit = SelectedUnit(Some(5));
    let mut pos = SelectedPosition(None);
    let mut tiles = board();
    // the tile clicked is at (2, 2), the message says (0, 1)
    let event = GridClicked { tile: tile_id(2, 2), click_pos: p(0, 1), unit: None };
    let outcome = grid_clicked(&vec![event], &mut unit, &mut pos, &mut tiles, &cells(), &range);
    assert_eq!(outcome, ClickOutcome { deselect: false, next_state: Some(TurnState::SelectedPosition) });
    assert_eq!(pos, SelectedPosition(Some(p(0, 1))));

    // the message says (2, 2), but the tile clicked is at (0, 0)
    let mut pos = SelectedPosition(None);
    let event = GridClicked { tile: tile_id(0, 0), click_pos: p(2, 2), unit: None };
    let outcome = grid_clicked(&vec![event], &mut unit, &mut pos, &mut tiles, &cells(), &range);
    assert_eq!(outcome, ClickOutcome { deselect: false, next_state: Some(TurnState::Idle) });
    assert_eq!(pos, SelectedPosition(None));
}
