use turn_based_tactical::grid::{GridPosition, Tile, TileType};
use turn_based_tactical::tile_overlays::{
    OverlayLayer, OverlayMaterial, TileOverlay, clear_range_highlight, highlight_unit_range,
    set_overlay_at, update_range_overlay,
};
use turn_based_tactical::units::UnitActionRange;
use turn_based_tactical::ui::{ButtonAction, PlayerAction, handle_move_button};

#[test]
fn set_layer_reads_back() {
    let mut overlay = TileOverlay::default();
    overlay.set_layer(OverlayLayer::Move, true);
    assert!(overlay.move_range);
    overlay.set_layer(OverlayLayer::Attack, true);
    overlay.set_layer(OverlayLayer::Hover, true);
    overlay.set_layer(OverlayLayer::Selected, true);
    assert!(overlay.attack && overlay.hover && overlay.selected);
    assert!(!overlay.enemy_attack);
    overlay.set_layer(OverlayLayer::Hover, false);
    assert!(!overlay.hover);
    assert!(overlay.move_range && overlay.attack && overlay.selected);
}

#[test]
fn material_priority() {
    let all = TileOverlay {
        move_range: true,
        attack: true,
        enemy_attack: true,
        selected: true,
        hover: true,
        attack_transparent: true,
        move_transparent: true,
    };
    assert_eq!(all.get_material(), OverlayMaterial::Hover);
    assert_eq!(TileOverlay { hover: false, ..all }.get_material(), OverlayMaterial::Selected);
    let plain = TileOverlay { hover: false, selected: false, ..all };
    assert_eq!(plain.get_material(), OverlayMaterial::MoveAttack);
    assert_eq!(TileOverlay { attack: false, ..plain }.get_material(), OverlayMaterial::Move);
    assert_eq!(TileOverlay { move_range: false, ..plain }.get_material(), OverlayMaterial::Attack);
    assert_eq!(TileOverlay { move_range: false, attack: false, ..plain }.get_material(), OverlayMaterial::EnemyAttack);
    assert_eq!(TileOverlay::default().get_material(), OverlayMaterial::Clear);
}

#[test]
fn set_overlay_at_touches_only_that_cell() {
    let mut tiles = vec![
        (Tile::new(0, 0, TileType::Floor), TileOverlay::default()),
        (Tile::new(1, 0, TileType::Wall), TileOverlay::default()),
        (Tile::new(1, 0, TileType::Floor), TileOverlay::default()),
    ];
    set_overlay_at(GridPosition { x: 1, y: 0 }, OverlayLayer::Attack, true, &mut tiles);
    assert!(!tiles[0].1.attack);
    assert!(tiles[1].1.attack);
    assert!(tiles[2].1.attack);
    assert_eq!(tiles[1].0, Tile::new(1, 0, TileType::Wall));
}

#[test]
fn range_overlay_follows_flags() {
    let mut tiles = vec![
        (TileOverlay { move_range: true, attack: true, ..TileOverlay::default() }, false),
        (TileOverlay::default(), true),
    ];
    update_range_overlay(&mut tiles);
    assert!(!tiles[0].0.move_range);
    assert!(tiles[0].0.attack);
    assert!(tiles[1].0.move_range);
}

#[test]
fn button_actions() {
    assert_eq!(PlayerAction::from(&ButtonAction::Move), PlayerAction::Move);
    assert_eq!(PlayerAction::from(&ButtonAction::Wait), PlayerAction::Wait);
    let pressed = handle_move_button(&vec![
        (true, ButtonAction::Move),
        (false, ButtonAction::Wait),
        (true, ButtonAction::Wait),
    ]);
    assert_eq!(pressed, vec![PlayerAction::Move, PlayerAction::Wait]);
    assert!(handle_move_button(&vec![]).is_empty());
}

#[test]
fn hovered_unit_ranges_highlighted_then_cleared() {
    let mut range = UnitActionRange::new();
    range.attack_tiles.insert(1, GridPosition { x: 0, y: 0 });
    range.move_tiles.insert(1, GridPosition { x: 1, y: 0 });
    range.move_tiles.insert(2, GridPosition { x: 0, y: 0 });
    let mut tiles = vec![
        (Tile::new(0, 0, TileType::Floor), TileOverlay::default()),
        (Tile::new(1, 0, TileType::Floor), TileOverlay::default()),
        (Tile::new(2, 0, TileType::Floor), TileOverlay { move_transparent: true, ..TileOverlay::default() }),
    ];
    highlight_unit_range(1, &mut tiles, &range);
    assert!(tiles[0].1.attack_transparent && !tiles[0].1.move_transparent);
    assert!(!tiles[1].1.attack_transparent && tiles[1].1.move_transparent);
    assert!(!tiles[2].1.attack_transparent && tiles[2].1.move_transparent);
    clear_range_highlight(&mut tiles);
    assert!(tiles.iter().all(|(_, o)| !o.attack_transparent && !o.move_transparent));
}
