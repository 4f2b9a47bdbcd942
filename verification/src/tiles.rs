//! Which tile each cell is drawn with.

use vstd::prelude::*;

use crate::maze::grid::Cell;

verus! {

/// The five square tiles a maze is drawn from.
#[derive(Clone, Copy, PartialEq, Eq, Debug, Structural)]
pub enum Tile {
    Wall,
    Floor,
    Door,
    Start,
    End,
}

/// The tile a cell is drawn with. Probe squares use the floor tile; the
/// renderer tints them.
pub fn png_for(cell: Cell) -> (tile: Tile)
    ensures
        tile == match cell {
            Cell::Wall => Tile::Wall,
            Cell::Floor | Cell::Probe => Tile::Floor,
            Cell::Door => Tile::Door,
            Cell::Start => Tile::Start,
            Cell::End => Tile::End,
        },
{
    match cell {
        Cell::Wall => Tile::Wall,
        Cell::Floor | Cell::Probe => Tile::Floor,
        Cell::Door => Tile::Door,
        Cell::Start => Tile::Start,
        Cell::End => Tile::End,
    }
}

} // verus!
