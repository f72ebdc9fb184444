//! Selecting units and cells with clicks on the grid.

use vstd::prelude::*;

use crate::grid::{GridClicked, GridPosition, Tile, cell_of, diffs_fit, tile_cell};
use crate::tile_overlays::{OverlayLayer, TileOverlay, set_overlay_at};
use crate::units::{SelectedUnit, UnitActionRange, has_entry};
use crate::units::player::TurnState;

verus! {

/// The cell chosen as the selected unit's destination, if any.
#[derive(Clone, Copy, PartialEq, Eq, Debug, Structural)]
pub struct SelectedPosition(pub Option<GridPosition>);

/// What a batch of clicks asks of the game beyond the selection itself.
#[derive(Clone, Copy, PartialEq, Eq, Debug, Structural)]
pub struct ClickOutcome {
    /// The current selection is dropped (its highlights cleared).
    pub deselect: bool,
    /// The player's next phase, if it changes.
    pub next_state: Option<TurnState>,
}

/// A click settles the batch: it is on a player unit, or a unit is selected
/// and the clicked tile's cell (looked up in `cells`) is one of that unit's
/// move cells.
pub open spec fn is_decisive(
    click: GridClicked,
    selected: Option<u64>,
    move_tiles: Set<(u64, GridPosition)>,
    cells: Seq<(u64, GridPosition)>,
) -> bool {
    ||| click.unit is Some
    ||| (selected matches Some(unit) && cell_of(cells, click.tile) matches Some(cell) && move_tiles.contains(
        (unit, cell),
    ))
}

/// Index of the first decisive click among the first `n`, if any.
pub open spec fn first_decisive(
    events: Seq<GridClicked>,
    selected: Option<u64>,
    move_tiles: Set<(u64, GridPosition)>,
    cells: Seq<(u64, GridPosition)>,
    n: int,
) -> Option<int>
    decreases n,
{
    if n <= 0 {
        None
    } else {
        match first_decisive(events, selected, move_tiles, cells, n - 1) {
            Some(d) => Some(d),
            None => if is_decisive(events[n - 1], selected, move_tiles, cells) {
                Some(n - 1)
            } else {
                None
            },
        }
    }
}

/// The overlays with every selection highlight cleared.
pub open spec fn cleared(tiles: Seq<(Tile, TileOverlay)>) -> Seq<(Tile, TileOverlay)> {
    tiles.map_values(|t: (Tile, TileOverlay)| (t.0, TileOverlay { selected: false, ..t.1 }))
}

/// Clears the selection highlight of every tile.
pub fn on_deselect(tiles: &mut Vec<(Tile, TileOverlay)>)
    ensures
        final(tiles)@ == cleared(old(tiles)@),
{
    let ghost start = tiles@;
    let mut i: usize = 0;
    while i < tiles.len()
        invariant
            i <= tiles@.len(),
            tiles@.len() == start.len(),
            forall|k: int| i <= k < start.len() ==> #[trigger] tiles@[k] == start[k],
            forall|k: int| 0 <= k < i ==> #[trigger] tiles@[k] == cleared(start)[k],
        decreases tiles.len() - i,
    {
        let (tile, mut overlay) = tiles[i];
        overlay.selected = false;
        tiles.set(i, (tile, overlay));
        i = i + 1;
    }
    assert(tiles@ =~= cleared(start));
}

/// Handles the clicks on the grid, in order, until one settles the batch:
/// - a click on a player unit drops the current selection, selects that unit
///   and moves to `SelectedUnit`;
/// - otherwise, with a unit selected, every click clears the selection
///   highlights, and a click on one of the unit's move cells chooses that
///   cell as destination and moves to `SelectedPosition`;
/// - any other click moves to `Idle`.
/// The cell tested against the move cells is the clicked tile's own cell,
/// looked up by its entity id in `tile_cells`; the destination chosen is the
/// click's cell. With a unit selected, every click handled that is not on a
/// unit looks its tile up, and the tile must be there; the first such click
/// also looks the unit up among the move cells, and the unit must have an
/// entry there.
pub fn grid_clicked(
    events: &Vec<GridClicked>,
    selected_unit: &mut SelectedUnit,
    selected_position: &mut SelectedPosition,
    tiles: &mut Vec<(Tile, TileOverlay)>,
    tile_cells: &Vec<(u64, GridPosition)>,
    action_range: &UnitActionRange,
) -> (outcome: ClickOutcome)
    requires
        old(selected_unit).0 is Some && events@.len() > 0 && events@[0].unit is None
            ==> has_entry(action_range.move_tiles@, old(selected_unit).0->0),
        forall|k: int|
            0 <= k < events@.len() && old(selected_unit).0 is Some && (#[trigger] events@[k]).unit is None
                && first_decisive(events@, old(selected_unit).0, action_range.move_tiles@, tile_cells@, k) is None
                ==> cell_of(tile_cells@, events@[k].tile) is Some,
    ensures
        ({
            let selected = old(selected_unit).0;
            let decisive = first_decisive(events@, selected, action_range.move_tiles@, tile_cells@, events@.len() as int);
            match decisive {
                Some(d) => {
                    let click = events@[d];
                    match click.unit {
                        Some(unit) => {
                            &&& outcome == (ClickOutcome { deselect: true, next_state: Some(TurnState::SelectedUnit) })
                            &&& final(selected_unit).0 == Some(unit)
                            &&& *final(selected_position) == *old(selected_position)
                            &&& final(tiles)@ == if selected is Some && d > 0 { cleared(old(tiles)@) } else { old(tiles)@ }
                        },
                        None => {
                            &&& outcome == (ClickOutcome { deselect: false, next_state: Some(TurnState::SelectedPosition) })
                            &&& *final(selected_unit) == *old(selected_unit)
                            &&& final(selected_position).0 == Some(click.click_pos)
                            &&& final(tiles)@ == cleared(old(tiles)@)
                        },
                    }
                },
                None => {
                    &&& outcome == (ClickOutcome {
                        deselect: false,
                        next_state: if events@.len() > 0 { Some(TurnState::Idle) } else { None },
                    })
                    &&& *final(selected_unit) == *old(selected_unit)
                    &&& *final(selected_position) == *old(selected_position)
                    &&& final(tiles)@ == if selected is Some && events@.len() > 0 {
                        cleared(old(tiles)@)
                    } else {
                        old(tiles)@
                    }
                },
            }
        }),
{
    let ghost selected = selected_unit.0;
    let ghost start = tiles@;
    let ghost move_tiles = action_range.move_tiles@;
    let mut next_state: Option<TurnState> = None;
    let mut i: usize = 0;
    while i < events.len()
        invariant
            i <= events@.len(),
            selected == selected_unit.0,
            selected == old(selected_unit).0,
            start == old(tiles)@,
            move_tiles == action_range.move_tiles@,
            selected_unit.0 is Some && events@.len() > 0 && events@[0].unit is None
                ==> has_entry(action_range.move_tiles@, selected_unit.0->0),
            *selected_position == *old(selected_position),
            forall|k: int|
                0 <= k < events@.len() && old(selected_unit).0 is Some && (#[trigger] events@[k]).unit is None
                    && first_decisive(events@, old(selected_unit).0, action_range.move_tiles@, tile_cells@, k) is None
                    ==> cell_of(tile_cells@, events@[k].tile) is Some,
            first_decisive(events@, selected, move_tiles, tile_cells@, i as int) is None,
            next_state == if i > 0 { Some(TurnState::Idle) } else { None },
            tiles@ == if selected is Some && i > 0 { cleared(start) } else { start },
        decreases events.len() - i,
    {
        let ev = events[i];
        if let Some(entity) = ev.unit {
            selected_unit.0 = Some(entity);
            assert(first_decisive(events@, selected, move_tiles, tile_cells@, i + 1) == Some(i as int));
            proof {
                lemma_first_decisive_stays(events@, selected, move_tiles, tile_cells@, i as int + 1, events@.len() as int);
            }
            return ClickOutcome { deselect: true, next_state: Some(TurnState::SelectedUnit) };
        }
        if let Some(unit) = selected_unit.0 {
            let ghost before = tiles@;
            on_deselect(tiles);
            proof {
                if i > 0 {
                    assert(cleared(cleared(start)) =~= cleared(start));
                }
            }
            proof {
                if i > 0 {
                    lemma_first_decisive_none_prefix(events@, selected, move_tiles, tile_cells@, i as int);
                }
            }
            assert(events@[i as int].unit is None);
            let pos = tile_cell(tile_cells, ev.tile).unwrap();
            let is_move_tile = action_range.move_tiles.contains(unit, pos);
            if is_move_tile {
                selected_position.0 = Some(ev.click_pos);
                assert(first_decisive(events@, selected, move_tiles, tile_cells@, i + 1) == Some(i as int));
                proof {
                    lemma_first_decisive_stays(events@, selected, move_tiles, tile_cells@, i as int + 1, events@.len() as int);
                }
                return ClickOutcome { deselect: false, next_state: Some(TurnState::SelectedPosition) };
            }
        }
        next_state = Some(TurnState::Idle);
        i = i + 1;
    }
    ClickOutcome { deselect: false, next_state }
}

/// Once a decisive click is found among the first `m`, it stays the first one.
proof fn lemma_first_decisive_stays(
    events: Seq<GridClicked>,
    selected: Option<u64>,
    move_tiles: Set<(u64, GridPosition)>,
    cells: Seq<(u64, GridPosition)>,
    m: int,
    n: int,
)
    requires
        0 <= m <= n,
        first_decisive(events, selected, move_tiles, cells, m) is Some,
    ensures
        first_decisive(events, selected, move_tiles, cells, n) == first_decisive(events, selected, move_tiles, cells, m),
    decreases n - m,
{
    if n > m {
        lemma_first_decisive_stays(events, selected, move_tiles, cells, m, n - 1);
    }
}

/// With no decisive click among the first `i`, the
/// first click was not on a unit.
proof fn lemma_first_decisive_none_prefix(
    events: Seq<GridClicked>,
    selected: Option<u64>,
    move_tiles: Set<(u64, GridPosition)>,
    cells: Seq<(u64, GridPosition)>,
    i: int,
)
    requires
        0 < i <= events.len(),
        first_decisive(events, selected, move_tiles, cells, i) is None,
    ensures
        events[0].unit is None,
    decreases i,
{
    if i > 1 {
        lemma_first_decisive_none_prefix(events, selected, move_tiles, cells, i - 1);
    }
}

/// Highlights the cell of the selected unit at `origin`.
pub fn selected_player(origin: GridPosition, tiles: &mut Vec<(Tile, TileOverlay)>)
    requires
        forall|k: int| 0 <= k < old(tiles)@.len() ==> diffs_fit(origin, (#[trigger] old(tiles)@[k]).0.position()),
    ensures
        final(tiles)@.len() == old(tiles)@.len(),
        forall|k: int|
            0 <= k < old(tiles)@.len() ==> (#[trigger] final(tiles)@[k]).0 == old(tiles)@[k].0
                && final(tiles)@[k].1 == if old(tiles)@[k].0.position() == origin {
                    TileOverlay { selected: true, ..old(tiles)@[k].1 }
                } else {
                    old(tiles)@[k].1
                },
{
    let ghost start = tiles@;
    let mut i: usize = 0;
    while i < tiles.len()
        invariant
            i <= tiles@.len(),
            tiles@.len() == start.len(),
            forall|k: int| 0 <= k < start.len() ==> diffs_fit(origin, (#[trigger] start[k]).0.position()),
            forall|k: int| i <= k < start.len() ==> #[trigger] tiles@[k] == start[k],
            forall|k: int|
                0 <= k < i ==> (#[trigger] tiles@[k]).0 == start[k].0 && tiles@[k].1 == if start[k].0.position() == origin {
                    TileOverlay { selected: true, ..start[k].1 }
                } else {
                    start[k].1
                },
        decreases tiles.len() - i,
    {
        let (tile, mut overlay) = tiles[i];
        assert(diffs_fit(origin, start[i as int].0.position()));
        let dx = crate::grid::abs_i32(tile.x - origin.x);
        let dy = crate::grid::abs_i32(tile.y - origin.y);
        if dx == 0 && dy == 0 {
            overlay.selected = true;
            tiles.set(i, (tile, overlay));
        }
        i = i + 1;
    }
}

/// Highlights the chosen destination cell; a destination must be chosen.
pub fn selected_position(selected_position: &SelectedPosition, tiles: &mut Vec<(Tile, TileOverlay)>)
    requires
        selected_position.0 is Some,
    ensures
        final(tiles)@.len() == old(tiles)@.len(),
        forall|k: int|
            0 <= k < old(tiles)@.len() ==> (#[trigger] final(tiles)@[k]).0 == old(tiles)@[k].0
                && final(tiles)@[k].1 == if old(tiles)@[k].0.position() == selected_position.0->0 {
                    TileOverlay { selected: true, ..old(tiles)@[k].1 }
                } else {
                    old(tiles)@[k].1
                },
{
    let pos = selected_position.0.unwrap();
    set_overlay_at(pos, OverlayLayer::Selected, true, tiles);
}

} // verus!
