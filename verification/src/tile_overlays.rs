//! The coloured overlays drawn on tiles: which layers are on and which colour shows.

use vstd::prelude::*;

use crate::grid::{GridPosition, Tile};
use crate::units::{UnitActionRange, has_entry};

verus! {

/// The layers an overlay may show.
#[derive(Clone, Copy, PartialEq, Eq, Debug, Structural)]
pub enum OverlayLayer {
    Move,
    Attack,
    Selected,
    Hover,
}

/// Which layers are on for one tile.
#[derive(Clone, Copy, PartialEq, Eq, Debug, Default, Structural)]
pub struct TileOverlay {
    pub move_range: bool,
    pub attack: bool,
    pub enemy_attack: bool,
    pub selected: bool,
    pub hover: bool,
    /// The hovered unit can attack this tile.
    pub attack_transparent: bool,
    /// The hovered unit can move to this tile.
    pub move_transparent: bool,
}

/// The colour an overlay shows.
#[derive(Clone, Copy, PartialEq, Eq, Debug, Structural)]
pub enum OverlayMaterial {
    Clear,
    Move,
    EnemyAttack,
    Attack,
    MoveAttack,
    Selected,
    Hover,
}

impl TileOverlay {
    /// The overlay with `layer` switched to `enabled`.
    pub open spec fn with_layer(self, layer: OverlayLayer, enabled: bool) -> TileOverlay {
        match layer {
            OverlayLayer::Move => TileOverlay { move_range: enabled, ..self },
            OverlayLayer::Attack => TileOverlay { attack: enabled, ..self },
            OverlayLayer::Selected => TileOverlay { selected: enabled, ..self },
            OverlayLayer::Hover => TileOverlay { hover: enabled, ..self },
        }
    }

    /// Whether `layer` is on.
    pub open spec fn layer_on(self, layer: OverlayLayer) -> bool {
        match layer {
            OverlayLayer::Move => self.move_range,
            OverlayLayer::Attack => self.attack,
            OverlayLayer::Selected => self.selected,
            OverlayLayer::Hover => self.hover,
        }
    }

    /// Switches `layer` to `enabled`, leaving the other layers alone.
    pub fn set_layer(&mut self, layer: OverlayLayer, enabled: bool)
        ensures
            *final(self) == old(self).with_layer(layer, enabled),
    {
        match layer {
            OverlayLayer::Move => self.move_range = enabled,
            OverlayLayer::Attack => self.attack = enabled,
            OverlayLayer::Selected => self.selected = enabled,
            OverlayLayer::Hover => self.hover = enabled,
        }
    }

    /// The colour that shows, by priority: hover, then selection, then move
    /// and attack together, move, attack, enemy attack, and clear.
    pub open spec fn spec_material(self) -> OverlayMaterial {
        if self.hover {
            OverlayMaterial::Hover
        } else if self.selected {
            OverlayMaterial::Selected
        } else if self.move_range && self.attack {
            OverlayMaterial::MoveAttack
        } else if self.move_range {
            OverlayMaterial::Move
        } else if self.attack {
            OverlayMaterial::Attack
        } else if self.enemy_attack {
            OverlayMaterial::EnemyAttack
        } else {
            OverlayMaterial::Clear
        }
    }

    /// The colour that shows.
    pub fn get_material(&self) -> (material: OverlayMaterial)
        ensures
            material == self.spec_material(),
    {
        if self.hover {
            OverlayMaterial::Hover
        } else if self.selected {
            OverlayMaterial::Selected
        } else if self.move_range && self.attack {
            OverlayMaterial::MoveAttack
        } else if self.move_range {
            OverlayMaterial::Move
        } else if self.attack {
            OverlayMaterial::Attack
        } else if self.enemy_attack {
            OverlayMaterial::EnemyAttack
        } else {
            OverlayMaterial::Clear
        }
    }
}

/// The colour shows only the five layers: the range highlights of a hovered
/// unit never change it. A tile with hover, selection, move and attack off
/// shows the enemy-attack colour exactly when its enemy-attack layer is on,
/// and is clear otherwise.
pub proof fn lemma_material_of_layers(overlay: TileOverlay, attack_transparent: bool, move_transparent: bool)
    ensures
        (TileOverlay { attack_transparent, move_transparent, ..overlay }).spec_material() == overlay.spec_material(),
        !overlay.hover && !overlay.selected && !overlay.move_range && !overlay.attack ==> {
            &&& (overlay.spec_material() == OverlayMaterial::EnemyAttack) == overlay.enemy_attack
            &&& (overlay.spec_material() == OverlayMaterial::Clear) == !overlay.enemy_attack
        },
{
}

/// Which colour shows, layer by layer: hover shows whenever it is on;
/// selection whenever it is on without hover; move and attack (together,
/// alone) only below both; enemy attack only when no other layer is on.
pub proof fn lemma_material_priority(overlay: TileOverlay)
    ensures
        (overlay.spec_material() == OverlayMaterial::Hover) == overlay.hover,
        (overlay.spec_material() == OverlayMaterial::Selected) == (!overlay.hover && overlay.selected),
        (overlay.spec_material() == OverlayMaterial::MoveAttack) == (!overlay.hover && !overlay.selected
            && overlay.move_range && overlay.attack),
        (overlay.spec_material() == OverlayMaterial::Move) == (!overlay.hover && !overlay.selected
            && overlay.move_range && !overlay.attack),
        (overlay.spec_material() == OverlayMaterial::Attack) == (!overlay.hover && !overlay.selected
            && !overlay.move_range && overlay.attack),
        (overlay.spec_material() == OverlayMaterial::EnemyAttack) == (!overlay.hover && !overlay.selected
            && !overlay.move_range && !overlay.attack && overlay.enemy_attack),
{
}

/// Switching a layer and reading it back gives the new setting; the other
/// layers keep theirs.
pub proof fn lemma_set_layer_reads_back(overlay: TileOverlay, layer: OverlayLayer, other: OverlayLayer, enabled: bool)
    ensures
        overlay.with_layer(layer, enabled).layer_on(layer) == enabled,
        other != layer ==> overlay.with_layer(layer, enabled).layer_on(other) == overlay.layer_on(other),
        overlay.with_layer(layer, enabled).enemy_attack == overlay.enemy_attack,
        overlay.with_layer(layer, enabled).with_layer(layer, enabled) == overlay.with_layer(layer, enabled),
{
}

/// A hovered tile shows the hover colour whatever its other layers.
pub proof fn lemma_hover_wins(overlay: TileOverlay)
    requires
        overlay.hover,
    ensures
        overlay.spec_material() == OverlayMaterial::Hover,
{
}

/// Switches `layer` to `enabled` on the overlays of the tiles at `pos`.
pub fn set_overlay_at(
    pos: GridPosition,
    layer: OverlayLayer,
    enabled: bool,
    overlay: &mut Vec<(Tile, TileOverlay)>,
)
    ensures
        final(overlay)@.len() == old(overlay)@.len(),
        forall|i: int|
            0 <= i < old(overlay)@.len() ==> (#[trigger] final(overlay)@[i]).0 == old(overlay)@[i].0
                && final(overlay)@[i].1 == if old(overlay)@[i].0.position() == pos {
                    old(overlay)@[i].1.with_layer(layer, enabled)
                } else {
                    old(overlay)@[i].1
                },
{
    let ghost start = overlay@;
    let mut i: usize = 0;
    while i < overlay.len()
        invariant
            i <= overlay@.len(),
            overlay@.len() == start.len(),
            forall|k: int| i <= k < start.len() ==> #[trigger] overlay@[k] == start[k],
            forall|k: int|
                0 <= k < i ==> (#[trigger] overlay@[k]).0 == start[k].0 && overlay@[k].1 == if start[k].0.position() == pos {
                    start[k].1.with_layer(layer, enabled)
                } else {
                    start[k].1
                },
        decreases overlay.len() - i,
    {
        let (tile, mut tile_overlay) = overlay[i];
        if tile.x == pos.x && tile.y == pos.y {
            tile_overlay.set_layer(layer, enabled);
            overlay.set(i, (tile, tile_overlay));
        }
        i = i + 1;
    }
}

/// Marks each overlay's move layer as its tile's flag says.
pub fn update_range_overlay(tiles: &mut Vec<(TileOverlay, bool)>)
    ensures
        final(tiles)@.len() == old(tiles)@.len(),
        forall|i: int|
            0 <= i < old(tiles)@.len() ==> #[trigger] final(tiles)@[i] == (
                TileOverlay { move_range: old(tiles)@[i].1, ..old(tiles)@[i].0 },
                old(tiles)@[i].1,
            ),
{
    let ghost start = tiles@;
    let mut i: usize = 0;
    while i < tiles.len()
        invariant
            i <= tiles@.len(),
            tiles@.len() == start.len(),
            forall|k: int| i <= k < start.len() ==> #[trigger] tiles@[k] == start[k],
            forall|k: int|
                0 <= k < i ==> #[trigger] tiles@[k] == (
                    TileOverlay { move_range: start[k].1, ..start[k].0 },
                    start[k].1,
                ),
        decreases tiles.len() - i,
    {
        let (mut tile_overlay, valid_movement) = tiles[i];
        tile_overlay.move_range = valid_movement;
        tiles.set(i, (tile_overlay, valid_movement));
        i = i + 1;
    }
}

/// The overlay marked for the hovered unit's ranges: attack highlight on when
/// the unit can attack the cell, move highlight on when it can move there;
/// highlights already on stay on.
pub open spec fn with_range_highlight(
    overlay: TileOverlay,
    unit: u64,
    cell: GridPosition,
    attack_tiles: Set<(u64, GridPosition)>,
    move_tiles: Set<(u64, GridPosition)>,
) -> TileOverlay {
    TileOverlay {
        attack_transparent: overlay.attack_transparent || attack_tiles.contains((unit, cell)),
        move_transparent: overlay.move_transparent || move_tiles.contains((unit, cell)),
        ..overlay
    }
}

/// The two range highlights are independent: a tile's move highlight ends
/// up on exactly when it was on or the unit can move to the tile's cell,
/// whatever the attack cells; its attack highlight exactly when it was on or
/// the unit can attack the cell, whatever the move cells; every other layer
/// stays as it was.
pub proof fn lemma_range_highlight_independent(
    overlay: TileOverlay,
    unit: u64,
    cell: GridPosition,
    attack_tiles: Set<(u64, GridPosition)>,
    move_tiles: Set<(u64, GridPosition)>,
    other_attack_tiles: Set<(u64, GridPosition)>,
    other_move_tiles: Set<(u64, GridPosition)>,
)
    ensures
        with_range_highlight(overlay, unit, cell, attack_tiles, move_tiles).move_transparent == (
        overlay.move_transparent || move_tiles.contains((unit, cell))),
        with_range_highlight(overlay, unit, cell, attack_tiles, move_tiles).attack_transparent == (
        overlay.attack_transparent || attack_tiles.contains((unit, cell))),
        with_range_highlight(overlay, unit, cell, attack_tiles, move_tiles).move_transparent
            == with_range_highlight(overlay, unit, cell, other_attack_tiles, move_tiles).move_transparent,
        with_range_highlight(overlay, unit, cell, attack_tiles, move_tiles).attack_transparent
            == with_range_highlight(overlay, unit, cell, attack_tiles, other_move_tiles).attack_transparent,
        (TileOverlay {
            attack_transparent: overlay.attack_transparent,
            move_transparent: overlay.move_transparent,
            ..with_range_highlight(overlay, unit, cell, attack_tiles, move_tiles)
        }) == overlay,
{
}

/// Highlights the cells the hovered `unit` can attack and move to. Each
/// tile looks the unit up among both sets of cells, so the unit must have an
/// entry in both unless there are no tiles.
pub fn highlight_unit_range(
    unit: u64,
    tiles: &mut Vec<(Tile, TileOverlay)>,
    action_range: &UnitActionRange,
)
    requires
        old(tiles)@.len() > 0 ==> has_entry(action_range.attack_tiles@, unit) && has_entry(
            action_range.move_tiles@,
            unit,
        ),
    ensures
        final(tiles)@.len() == old(tiles)@.len(),
        forall|i: int|
            0 <= i < old(tiles)@.len() ==> (#[trigger] final(tiles)@[i]).0 == old(tiles)@[i].0
                && final(tiles)@[i].1 == with_range_highlight(
                    old(tiles)@[i].1,
                    unit,
                    old(tiles)@[i].0.position(),
                    action_range.attack_tiles@,
                    action_range.move_tiles@,
                ),
{
    let ghost start = tiles@;
    let mut i: usize = 0;
    while i < tiles.len()
        invariant
            i <= tiles@.len(),
            tiles@.len() == start.len(),
            forall|k: int| i <= k < start.len() ==> #[trigger] tiles@[k] == start[k],
            forall|k: int|
                0 <= k < i ==> (#[trigger] tiles@[k]).0 == start[k].0 && tiles@[k].1 == with_range_highlight(
                    start[k].1,
                    unit,
                    start[k].0.position(),
                    action_range.attack_tiles@,
                    action_range.move_tiles@,
                ),
        decreases tiles.len() - i,
    {
        let (tile, mut overlay) = tiles[i];
        let cell = GridPosition::from(tile);
        let valid_attack = action_range.attack_tiles.contains(unit, cell);
        let valid_move = action_range.move_tiles.contains(unit, cell);
        if valid_attack {
            overlay.attack_transparent = true;
        }
        if valid_move {
            overlay.move_transparent = true;
        }
        tiles.set(i, (tile, overlay));
        i = i + 1;
    }
}

/// Turns the range highlights of every tile off, the pointer having left.
pub fn clear_range_highlight(tiles: &mut Vec<(Tile, TileOverlay)>)
    ensures
        final(tiles)@.len() == old(tiles)@.len(),
        forall|i: int|
            0 <= i < old(tiles)@.len() ==> #[trigger] final(tiles)@[i] == (
                old(tiles)@[i].0,
                TileOverlay { attack_transparent: false, move_transparent: false, ..old(tiles)@[i].1 },
            ),
{
    let ghost start = tiles@;
    let mut i: usize = 0;
    while i < tiles.len()
        invariant
            i <= tiles@.len(),
            tiles@.len() == start.len(),
            forall|k: int| i <= k < start.len() ==> #[trigger] tiles@[k] == start[k],
            forall|k: int|
                0 <= k < i ==> #[trigger] tiles@[k] == (
                    start[k].0,
                    TileOverlay { attack_transparent: false, move_transparent: false, ..start[k].1 },
                ),
        decreases tiles.len() - i,
    {
        let (tile, mut overlay) = tiles[i];
        overlay.attack_transparent = false;
        overlay.move_transparent = false;
        tiles.set(i, (tile, overlay));
        i = i + 1;
    }
}

} // verus!
