use vstd::prelude::*;

verus! {

/// The last level that can be played: the next one would need a grid of
/// more than 255 cells, which the cell counters of the game cannot hold.
pub const MAX_LEVEL: u8 = 13;

/// Side length of the square grid used at `level`.
pub open spec fn side_for_level(level: int) -> int {
    (level / 2) * 2 + 3
}

/// Width and height of the grid played at `level`: the side grows by two
/// every second level, starting from 3.
pub fn grid_size(level: u8) -> (size: (u8, u8))
    requires
        level <= 253,
    ensures
        size.0 == side_for_level(level as int),
        size.1 == side_for_level(level as int),
{
    let side: u8 = (level / 2) * 2 + 3;
    (side, side)
}

} // verus!
