//! What holds of the tiles of an area as a whole.

use crate::batching::{smaller, tile_ids, tiles_across, tiling, tiling_fits, Tile};
use crate::coordinates::Rect;
use crate::grid::{cells, cells_are_listed_row_by_row, lemma_cells};
use vstd::arithmetic::div_mod::{lemma_fundamental_div_mod, lemma_fundamental_div_mod_converse};
use vstd::prelude::*;

verus! {

/// The id of the tile that holds a column of the area.
pub open spec fn id_of(area: Rect, tile_size: int, x: int, z: int) -> (i32, i32) {
    (((x - area.min_x) / tile_size) as i32, ((z - area.min_z) / tile_size) as i32)
}

/// On one axis: the block `v` lies in the piece of index `i` exactly when `i`
/// is its distance from the start, divided by the tile size.
proof fn lemma_piece(min: int, max: int, tile_size: int, i: int, v: int)
    requires
        tile_size > 0,
        0 <= i,
    ensures
        min + i * tile_size <= v <= smaller(min + i * tile_size + tile_size - 1, max) <==> min <= v
            <= max && i == (v - min) / tile_size,
{
    let start = min + i * tile_size;
    assert(i * tile_size >= 0) by (nonlinear_arith)
        requires
            i >= 0,
            tile_size > 0,
    ;
    if start <= v <= start + tile_size - 1 {
        lemma_fundamental_div_mod_converse(v - min, tile_size, i, v - start);
        assert(tile_size * i == i * tile_size) by (nonlinear_arith);
    }
    if min <= v && i == (v - min) / tile_size {
        lemma_fundamental_div_mod(v - min, tile_size);
        assert(tile_size * i == i * tile_size) by (nonlinear_arith);
    }
}

/// On one axis: the piece of index `i` is not empty and lies within bounds.
proof fn lemma_piece_bounds(min: int, max: int, tile_size: int, i: int)
    requires
        min <= max,
        tile_size > 0,
        0 <= i < tiles_across(max - min, tile_size),
    ensures
        min <= min + i * tile_size <= max,
{
    let q = (max - min) / tile_size;
    lemma_fundamental_div_mod(max - min, tile_size);
    assert(0 <= i * tile_size <= tile_size * q) by (nonlinear_arith)
        requires
            0 <= i <= q,
            tile_size > 0,
    ;
}

proof fn lemma_ids(area: Rect, tile_size: int)
    requires
        tiling_fits(area, tile_size),
    ensures
        tile_ids(area, tile_size).in_range(),
        tile_ids(area, tile_size).nonempty(),
{
    if tile_size > 0 {
        lemma_fundamental_div_mod(area.max_x - area.min_x, tile_size);
        lemma_fundamental_div_mod(area.max_z - area.min_z, tile_size);
        assert((area.max_x - area.min_x) / tile_size >= 0) by (nonlinear_arith)
            requires
                area.max_x >= area.min_x,
                tile_size > 0,
        ;
        assert((area.max_z - area.min_z) / tile_size >= 0) by (nonlinear_arith)
            requires
                area.max_z >= area.min_z,
                tile_size > 0,
        ;
    }
}

/// Every tile of an area lies in the area, has a bounding box, is at most
/// `tile_size` long on each side, and is shorter only where the area ends.
pub proof fn tiles_lie_in_the_area(area: Rect, tile_size: int, i: int)
    requires
        tiling_fits(area, tile_size),
        tile_size > 0,
        0 <= i < tiling(area, tile_size).len(),
    ensures
        ({
            let tile = tiling(area, tile_size)[i];
            &&& tile.spec_has_extent()
            &&& area.min_x <= tile.min_x <= tile.max_x <= area.max_x
            &&& area.min_z <= tile.min_z <= tile.max_z <= area.max_z
            &&& tile.max_x - tile.min_x + 1 <= tile_size
            &&& tile.max_z - tile.min_z + 1 <= tile_size
            &&& tile.max_x == area.max_x || tile.max_x - tile.min_x + 1 == tile_size
            &&& tile.max_z == area.max_z || tile.max_z - tile.min_z + 1 == tile_size
        }),
{
    let ids = tile_ids(area, tile_size);
    lemma_ids(area, tile_size);
    lemma_cells(ids);
    let id = cells(ids)[i];
    assert(cells(ids).contains(id));
    assert(ids.has(id.0 as int, id.1 as int));
    lemma_piece_bounds(area.min_x, area.max_x, tile_size, id.0 as int);
    lemma_piece_bounds(area.min_z, area.max_z, tile_size, id.1 as int);
}

/// A tile of an area holds a column exactly when the column lies in the area
/// and the tile's id is the column's.
pub proof fn a_column_is_in_the_tile_of_its_id(area: Rect, tile_size: int, i: int, x: int, z: int)
    requires
        tiling_fits(area, tile_size),
        tile_size > 0,
        0 <= i < tiling(area, tile_size).len(),
    ensures
        tiling(area, tile_size)[i].rect().has(x, z) <==> area.has(x, z) && tiling(
            area,
            tile_size,
        )[i].id == id_of(area, tile_size, x, z),
{
    let ids = tile_ids(area, tile_size);
    lemma_ids(area, tile_size);
    lemma_cells(ids);
    let id = cells(ids)[i];
    assert(cells(ids).contains(id));
    assert(ids.has(id.0 as int, id.1 as int));
    tiles_lie_in_the_area(area, tile_size, i);
    lemma_piece(area.min_x, area.max_x, tile_size, id.0 as int, x);
    lemma_piece(area.min_z, area.max_z, tile_size, id.1 as int, z);
    lemma_piece_bounds(area.min_x, area.max_x, tile_size, id.0 as int);
    lemma_piece_bounds(area.min_z, area.max_z, tile_size, id.1 as int);
    if area.has(x, z) {
        lemma_id_in_grid(area, tile_size, x, z);
    }
}

proof fn lemma_id_in_grid(area: Rect, tile_size: int, x: int, z: int)
    requires
        tiling_fits(area, tile_size),
        tile_size > 0,
        area.has(x, z),
    ensures
        0 <= (x - area.min_x) / tile_size <= tile_ids(area, tile_size).max_x,
        0 <= (z - area.min_z) / tile_size <= tile_ids(area, tile_size).max_z,
{
    vstd::arithmetic::div_mod::lemma_div_is_ordered(
        x - area.min_x,
        area.max_x - area.min_x,
        tile_size,
    );
    vstd::arithmetic::div_mod::lemma_div_is_ordered(
        z - area.min_z,
        area.max_z - area.min_z,
        tile_size,
    );
    vstd::arithmetic::div_mod::lemma_div_is_ordered(0, x - area.min_x, tile_size);
    vstd::arithmetic::div_mod::lemma_div_is_ordered(0, z - area.min_z, tile_size);
    vstd::arithmetic::div_mod::lemma_div_basics(tile_size);
}

/// No two tiles share an id.
pub open spec fn distinct_ids(tiles: Seq<Tile>) -> bool {
    forall|i: int, j: int|
        0 <= i < tiles.len() && 0 <= j < tiles.len() && i != j ==> (#[trigger] tiles[i]).id != (
        #[trigger] tiles[j]).id
}

/// Leaving out the first tile keeps the ids distinct.
pub(crate) proof fn lemma_distinct_rest(tiles: Seq<Tile>)
    requires
        distinct_ids(tiles),
        tiles.len() > 0,
    ensures
        distinct_ids(tiles.drop_first()),
        forall|i: int|
            0 <= i < tiles.drop_first().len() ==> (#[trigger] tiles.drop_first()[i]).id
                != tiles[0].id,
{
    let rest = tiles.drop_first();
    assert forall|i: int, j: int|
        0 <= i < rest.len() && 0 <= j < rest.len() && i != j implies (#[trigger] rest[i]).id != (
    #[trigger] rest[j]).id by {
        assert(rest[i] == tiles[i + 1] && rest[j] == tiles[j + 1]);
    }
    assert forall|i: int| 0 <= i < rest.len() implies (#[trigger] rest[i]).id != tiles[0].id by {
        assert(rest[i] == tiles[i + 1]);
    }
}

/// There is at least one tile, there are as many as places in the grid, and no
/// two tiles share an id.
pub proof fn tile_ids_are_distinct(area: Rect, tile_size: int)
    requires
        tiling_fits(area, tile_size),
    ensures
        tiling(area, tile_size).len() == tiles_across(area.max_x - area.min_x, tile_size)
            * tiles_across(area.max_z - area.min_z, tile_size),
        tiling(area, tile_size).len() >= 1,
        distinct_ids(tiling(area, tile_size)),
{
    let ids = tile_ids(area, tile_size);
    lemma_ids(area, tile_size);
    lemma_cells(ids);
    assert(ids.has(0, 0));
    assert(cells(ids).contains((0i32, 0i32)));
}

/// The tiles cover the area without overlap: a column of the area lies in
/// exactly one tile, any other column in none.
pub proof fn tiles_cover_the_area_once(area: Rect, tile_size: int, x: int, z: int)
    requires
        tiling_fits(area, tile_size),
        tile_size > 0,
    ensures
        area.has(x, z) <==> exists|i: int|
            0 <= i < tiling(area, tile_size).len() && (#[trigger] tiling(
                area,
                tile_size,
            )[i]).rect().has(x, z),
        forall|i: int, j: int|
            0 <= i < tiling(area, tile_size).len() && 0 <= j < tiling(area, tile_size).len()
                && (#[trigger] tiling(area, tile_size)[i]).rect().has(x, z) && (#[trigger] tiling(
                area,
                tile_size,
            )[j]).rect().has(x, z) ==> i == j,
{
    let tiles = tiling(area, tile_size);
    let ids = tile_ids(area, tile_size);
    assert forall|i: int| 0 <= i < tiles.len() implies (#[trigger] tiles[i]).rect().has(x, z) == (
    area.has(x, z) && tiles[i].id == id_of(area, tile_size, x, z)) by {
        a_column_is_in_the_tile_of_its_id(area, tile_size, i, x, z);
    }
    tile_ids_are_distinct(area, tile_size);
    if area.has(x, z) {
        lemma_ids(area, tile_size);
        lemma_cells(ids);
        lemma_id_in_grid(area, tile_size, x, z);
        let id = id_of(area, tile_size, x, z);
        assert(ids.has(id.0 as int, id.1 as int));
        assert(cells(ids).contains((id.0, id.1)));
        let k = choose|k: int| 0 <= k < cells(ids).len() && cells(ids)[k] == (id.0, id.1);
        assert(tiles[k].id == id);
    }
}

/// With a negative tile size there is one tile, and it holds no column.
pub proof fn a_negative_size_gives_one_empty_tile(area: Rect, tile_size: int)
    requires
        tiling_fits(area, tile_size),
        tile_size < 0,
    ensures
        tiling(area, tile_size).len() == 1,
        tiling(area, tile_size)[0].id == (0i32, 0i32),
        !tiling(area, tile_size)[0].spec_has_extent(),
{
    let ids = tile_ids(area, tile_size);
    tile_ids_are_distinct(area, tile_size);
    lemma_ids(area, tile_size);
    lemma_cells(ids);
    let id = cells(ids)[0];
    assert(cells(ids).contains((id.0, id.1)));
    assert(ids.has(id.0 as int, id.1 as int));
    assert(0 * tile_size == 0) by (nonlinear_arith);
}

/// The tile at place `i` of the list starts `id` tile sizes after the start of
/// the area, on both axes, and ends where the next tile would start or where
/// the area ends, whichever comes first. The ids run over all places of the
/// grid, z before x.
pub proof fn tiles_lie_on_a_grid(area: Rect, tile_size: int, i: int)
    requires
        tiling_fits(area, tile_size),
        tile_size > 0,
    ensures
        tiling(area, tile_size).len() == ((area.max_x - area.min_x) / tile_size + 1) * ((area.max_z
            - area.min_z) / tile_size + 1),
        0 <= i < tiling(area, tile_size).len() ==> {
            let tile = tiling(area, tile_size)[i];
            &&& 0 <= tile.id.0 <= (area.max_x - area.min_x) / tile_size
            &&& 0 <= tile.id.1 <= (area.max_z - area.min_z) / tile_size
            &&& i == tile.id.0 * ((area.max_z - area.min_z) / tile_size + 1) + tile.id.1
            &&& tile.min_x == area.min_x + tile.id.0 * tile_size
            &&& tile.min_z == area.min_z + tile.id.1 * tile_size
            &&& tile.max_x <= tile.min_x + tile_size - 1
            &&& tile.max_x <= area.max_x
            &&& tile.max_x == tile.min_x + tile_size - 1 || tile.max_x == area.max_x
            &&& tile.max_z <= tile.min_z + tile_size - 1
            &&& tile.max_z <= area.max_z
            &&& tile.max_z == tile.min_z + tile_size - 1 || tile.max_z == area.max_z
        },
{
    let ids = tile_ids(area, tile_size);
    tile_ids_are_distinct(area, tile_size);
    if 0 <= i < tiling(area, tile_size).len() {
        lemma_ids(area, tile_size);
        lemma_cells(ids);
        let id = cells(ids)[i];
        cells_are_listed_row_by_row(ids, i, id, id);
        assert(cells(ids).contains((id.0, id.1)));
        assert(ids.has(id.0 as int, id.1 as int));
        lemma_piece_bounds(area.min_x, area.max_x, tile_size, id.0 as int);
        lemma_piece_bounds(area.min_z, area.max_z, tile_size, id.1 as int);
    }
}

/// The one tile of a negative size starts where the area does and ends before.
pub proof fn the_tile_of_a_negative_size(area: Rect, tile_size: int)
    requires
        tiling_fits(area, tile_size),
        tile_size < 0,
    ensures
        ({
            let tile = tiling(area, tile_size)[0];
            &&& tile.min_x == area.min_x
            &&& tile.min_z == area.min_z
            &&& tile.max_x == area.min_x + tile_size - 1
            &&& tile.max_z == area.min_z + tile_size - 1
        }),
{
    a_negative_size_gives_one_empty_tile(area, tile_size);
    assert(0 * tile_size == 0) by (nonlinear_arith);
    lemma_ids(area, tile_size);
}

/// A column lies in a tile of a list exactly if it lies between the tile's
/// bounds, so the tiles of an area have every column of the area between the
/// bounds of exactly one of them.
pub proof fn every_column_is_between_the_bounds_of_one_tile(
    area: Rect,
    tile_size: int,
    x: int,
    z: int,
)
    requires
        tiling_fits(area, tile_size),
        tile_size > 0,
        area.min_x <= x <= area.max_x,
        area.min_z <= z <= area.max_z,
    ensures
        exists|i: int|
            0 <= i < tiling(area, tile_size).len() && (#[trigger] tiling(area, tile_size)[i]).min_x
                <= x <= tiling(area, tile_size)[i].max_x && tiling(area, tile_size)[i].min_z <= z
                <= tiling(area, tile_size)[i].max_z,
        forall|i: int, j: int|
            0 <= i < j < tiling(area, tile_size).len() ==> !((#[trigger] tiling(
                area,
                tile_size,
            )[i]).min_x <= x <= tiling(area, tile_size)[i].max_x && tiling(area, tile_size)[i].min_z
                <= z <= tiling(area, tile_size)[i].max_z && (#[trigger] tiling(
                area,
                tile_size,
            )[j]).min_x <= x <= tiling(area, tile_size)[j].max_x && tiling(area, tile_size)[j].min_z
                <= z <= tiling(area, tile_size)[j].max_z),
{
    tiles_cover_the_area_once(area, tile_size, x, z);
    let tiles = tiling(area, tile_size);
    let k = choose|k: int| 0 <= k < tiles.len() && (#[trigger] tiles[k]).rect().has(x, z);
    assert(tiles[k].min_x <= x <= tiles[k].max_x);
    assert forall|i: int, j: int| 0 <= i < j < tiles.len() implies !((#[trigger] tiles[i]).min_x <= x
        <= tiles[i].max_x && tiles[i].min_z <= z <= tiles[i].max_z && (#[trigger] tiles[j]).min_x
        <= x <= tiles[j].max_x && tiles[j].min_z <= z <= tiles[j].max_z) by {
        if tiles[i].rect().has(x, z) && tiles[j].rect().has(x, z) {
            assert(i == j);
        }
    }
}

/// Any nonempty area can be split, with any tile size, where the coordinates
/// that come up are `i32` values: with a positive size it is enough that a tile
/// that starts at the far end of the area stays in range. A size of zero never
/// works, nor does a size with which a tile would leave the range.
pub proof fn which_areas_can_be_split(area: Rect, tile_size: int)
    requires
        i32::MIN <= area.min_x <= area.max_x <= i32::MAX,
        i32::MIN <= area.min_z <= area.max_z <= i32::MAX,
    ensures
        tile_size > 0 && area.max_x + tile_size <= i32::MAX && area.max_z + tile_size <= i32::MAX
            && area.max_x - area.min_x < i32::MAX && area.max_z - area.min_z < i32::MAX
            ==> tiling_fits(area, tile_size),
        tile_size < 0 ==> (tiling_fits(area, tile_size) <==> area.max_x - area.min_x <= i32::MAX
            && area.max_z - area.min_z <= i32::MAX && area.min_x + tile_size > i32::MIN
            && area.min_z + tile_size > i32::MIN),
        tile_size == 0 ==> !tiling_fits(area, tile_size),
        tile_size > 0 ==> (tiling_fits(area, tile_size) <==> area.max_x - area.min_x <= i32::MAX
            && area.max_z - area.min_z <= i32::MAX && (area.max_x - area.min_x) / tile_size
            < i32::MAX && (area.max_z - area.min_z) / tile_size < i32::MAX && area.max_x - (
        area.max_x - area.min_x) % tile_size + tile_size <= i32::MAX && area.max_z - (area.max_z
            - area.min_z) % tile_size + tile_size <= i32::MAX),
{
    if tile_size > 0 {
        lemma_last_piece(area.min_x, area.max_x, tile_size);
        lemma_last_piece(area.min_z, area.max_z, tile_size);
    } else if tile_size < 0 {
        assert(1 * tile_size == tile_size) by (nonlinear_arith);
    }
}

/// On one axis: where the tile after the last one would start.
proof fn lemma_last_piece(min: int, max: int, tile_size: int)
    requires
        min <= max,
        tile_size > 0,
    ensures
        min + tiles_across(max - min, tile_size) * tile_size == max - (max - min) % tile_size
            + tile_size,
        0 <= (max - min) % tile_size < tile_size,
        0 <= (max - min) / tile_size <= max - min,
{
    let q = (max - min) / tile_size;
    lemma_fundamental_div_mod(max - min, tile_size);
    assert((q + 1) * tile_size == tile_size * q + tile_size) by (nonlinear_arith);
    assert(0 <= q <= max - min) by (nonlinear_arith)
        requires
            max - min == tile_size * q + (max - min) % tile_size,
            0 <= (max - min) % tile_size < tile_size,
            max >= min,
            tile_size > 0,
    ;
}

} // verus!
