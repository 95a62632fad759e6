use crate::map::{GridError, TileMap, TileType};
use vstd::prelude::*;

verus! {

/// A build request at the grid cell `(tile_x, tile_y)` under the cursor:
/// when `pressed` and the cell is an `Empty` tile of the map, it becomes
/// `Floor` and its coordinates are returned, so that it can be redrawn.
/// Anything else (no press, a cell off the grid, a tile that is not
/// `Empty`) leaves the map as it was and returns `None`.
pub fn tile_build_system(map: &mut TileMap, tile_x: i64, tile_y: i64, pressed: bool) -> (r: Option<
    (usize, usize),
>)
    requires
        old(map).wf(),
    ensures
        final(map).wf(),
        (r is Some) <==> (pressed && old(map).in_bounds(tile_x as int, tile_y as int) && old(map).kind(
            tile_x as int,
            tile_y as int,
        ) == TileType::Empty),
        r is Some ==> r->Some_0 == (tile_x as usize, tile_y as usize) && old(map).floored(
            *final(map),
            tile_x as int,
            tile_y as int,
        ),
        r is None ==> *final(map) == *old(map),
{
    if tile_x < 0 || tile_y < 0 || !pressed {
        return None;
    }
    let ux = tile_x as u64;
    let uy = tile_y as u64;
    if ux >= map.width as u64 || uy >= map.height as u64 {
        return None;
    }
    let x = ux as usize;
    let y = uy as usize;
    match map.set_floor(x, y) {
        Ok(true) => Some((x, y)),
        Ok(false) => None,
        Err(GridError::OutOfBounds) => None,
    }
}

} // verus!
