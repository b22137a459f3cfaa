//! Tiles: splitting a bounding box, and what a tile covers.

use crate::coordinates::{Rect, XZBBox, XZVector};
use crate::grid::{cells, lemma_cells, CellWalk};
use vstd::arithmetic::div_mod::lemma_fundamental_div_mod;
use vstd::prelude::*;

pub use crate::partition::partition_elements_by_tile;
pub use crate::resume::ResumeState;

verus! {

/// A rectangle of block columns with inclusive bounds; `id` is its place in
/// the grid of tiles.
#[derive(Debug, Clone, Copy, PartialEq, Eq)]
pub struct Tile {
    pub min_x: i32,
    pub min_z: i32,
    pub max_x: i32,
    pub max_z: i32,
    pub id: (i32, i32),
}

impl Tile {
    /// The columns that the tile covers.
    pub open spec fn rect(self) -> Rect {
        Rect {
            min_x: self.min_x as int,
            min_z: self.min_z as int,
            max_x: self.max_x as int,
            max_z: self.max_z as int,
        }
    }

    /// The tile holds a column, and its lengths are `i32` values.
    pub open spec fn spec_has_extent(self) -> bool {
        &&& self.rect().nonempty()
        &&& self.max_x - self.min_x <= i32::MAX
        &&& self.max_z - self.min_z <= i32::MAX
    }

    pub fn contains_point(&self, x: i32, z: i32) -> (r: bool)
        ensures
            r == self.rect().has(x as int, z as int),
            r <==> self.min_x <= x && x <= self.max_x && self.min_z <= z && z <= self.max_z,
    {
        x >= self.min_x && x <= self.max_x && z >= self.min_z && z <= self.max_z
    }

    /// Whether the tile has a bounding box.
    pub fn has_extent(&self) -> (r: bool)
        ensures
            r == self.spec_has_extent(),
            r <==> 0 <= self.max_x - self.min_x <= i32::MAX && 0 <= self.max_z - self.min_z
                <= i32::MAX,
    {
        self.max_x >= self.min_x && self.max_z >= self.min_z && self.max_x.checked_sub(
            self.min_x,
        ).is_some() && self.max_z.checked_sub(self.min_z).is_some()
    }
}

/// How many tiles lie side by side along an axis on which the box reaches
/// `length` blocks beyond its first one. A negative tile size gives one tile.
pub open spec fn tiles_across(length: int, tile_size: int) -> int {
    if tile_size > 0 {
        length / tile_size + 1
    } else {
        1
    }
}

/// The ids of the tiles of a box, as a rectangle of grid places.
pub open spec fn tile_ids(area: Rect, tile_size: int) -> Rect {
    Rect {
        min_x: 0,
        min_z: 0,
        max_x: tiles_across(area.max_x - area.min_x, tile_size) - 1,
        max_z: tiles_across(area.max_z - area.min_z, tile_size) - 1,
    }
}

pub open spec fn smaller(a: int, b: int) -> int {
    if a <= b {
        a
    } else {
        b
    }
}

/// The tile at one place of the grid: a square of side `tile_size`, cut off
/// where the area ends.
pub open spec fn tile_at(area: Rect, tile_size: int, id: (i32, i32)) -> Tile {
    let min_x = area.min_x + id.0 * tile_size;
    let min_z = area.min_z + id.1 * tile_size;
    Tile {
        min_x: min_x as i32,
        min_z: min_z as i32,
        max_x: smaller(min_x + tile_size - 1, area.max_x) as i32,
        max_z: smaller(min_z + tile_size - 1, area.max_z) as i32,
        id,
    }
}

/// All tiles of an area, by id.
pub open spec fn tiling(area: Rect, tile_size: int) -> Seq<Tile> {
    cells(tile_ids(area, tile_size)).map_values(|id: (i32, i32)| tile_at(area, tile_size, id))
}

/// On one axis, every number that splitting computes is an `i32`.
pub open spec fn axis_fits(min: int, max: int, tile_size: int) -> bool {
    &&& max - min <= i32::MAX
    &&& tiles_across(max - min, tile_size) <= i32::MAX
    &&& min + tiles_across(max - min, tile_size) * tile_size <= i32::MAX
    &&& min + tile_size - 1 >= i32::MIN
}

/// The areas and tile sizes that can be split.
pub open spec fn tiling_fits(area: Rect, tile_size: int) -> bool {
    &&& area.nonempty()
    &&& area.in_range()
    &&& tile_size != 0
    &&& axis_fits(area.min_x, area.max_x, tile_size)
    &&& axis_fits(area.min_z, area.max_z, tile_size)
}

/// The tile of index `i` on one axis starts inside the axis, and its end can
/// be computed.
proof fn lemma_axis(min: int, max: int, tile_size: int, i: int)
    requires
        min <= max,
        tile_size != 0,
        i32::MIN <= min,
        max <= i32::MAX,
        axis_fits(min, max, tile_size),
        0 <= i < tiles_across(max - min, tile_size),
    ensures
        0 <= i * tile_size <= max - min,
        i32::MIN <= min + i * tile_size + tile_size - 1,
        min + i * tile_size + tile_size <= i32::MAX,
{
    let n = tiles_across(max - min, tile_size);
    if tile_size > 0 {
        let q = (max - min) / tile_size;
        lemma_fundamental_div_mod(max - min, tile_size);
        assert(0 <= i * tile_size <= tile_size * q) by (nonlinear_arith)
            requires
                0 <= i <= q,
                tile_size > 0,
        ;
        assert(i * tile_size + tile_size <= n * tile_size) by (nonlinear_arith)
            requires
                i + 1 <= n,
                tile_size > 0,
        ;
    } else {
        assert(i == 0);
        assert(0 * tile_size == 0 && 1 * tile_size == tile_size) by (nonlinear_arith);
    }
}

/// The number of tiles along one axis.
fn count_across(length: i32, tile_size: i32) -> (n: i32)
    requires
        length >= 0,
        tile_size != 0,
        tiles_across(length as int, tile_size as int) <= i32::MAX,
    ensures
        n == tiles_across(length as int, tile_size as int),
        n >= 1,
{
    if tile_size > 0 {
        proof {
            lemma_fundamental_div_mod(length as int, tile_size as int);
        }
        length / tile_size + 1
    } else {
        1
    }
}

/// Whether, on one axis, every number that splitting computes is an `i32`.
fn axis_can_be_split(min: i32, max: i32, tile_size: i32) -> (r: bool)
    requires
        min <= max,
        tile_size != 0,
    ensures
        r == axis_fits(min as int, max as int, tile_size as int),
{
    let start = min as i64;
    let length = max as i64 - start;
    let size = tile_size as i64;
    let mut n: i64 = 1;
    if size > 0 {
        proof {
            lemma_fundamental_div_mod(length as int, size as int);
            assert(0 <= length as int / size as int <= length) by (nonlinear_arith)
                requires
                    length >= 0,
                    size > 0,
            ;
        }
        n = length / size + 1;
    }
    if length > i32::MAX as i64 || n > i32::MAX as i64 {
        return false;
    }
    assert(-0x4000_0000_0000_0000 <= n * size <= 0x4000_0000_0000_0000) by (nonlinear_arith)
        requires
            1 <= n <= 0x7fff_ffff,
            -0x8000_0000 <= size < 0x8000_0000,
    ;
    start + n * size <= i32::MAX as i64 && start + size - 1 >= i32::MIN as i64
}

/// Whether the box can be split into tiles of this size.
pub fn can_be_split(xzbbox: &XZBBox, tile_size: i32) -> (r: bool)
    ensures
        r == tiling_fits(xzbbox@, tile_size as int),
{
    let min_x = xzbbox.min_x();
    let max_x = xzbbox.max_x();
    let min_z = xzbbox.min_z();
    let max_z = xzbbox.max_z();
    tile_size != 0 && axis_can_be_split(min_x, max_x, tile_size) && axis_can_be_split(
        min_z,
        max_z,
        tile_size,
    )
}

/// Splits a bounding box into square tiles of the given size in blocks. The
/// tiles come ordered by id, the last ones cut off where the box ends.
pub fn split_bbox_into_tiles(xzbbox: &XZBBox, tile_size: i32) -> (tiles: Vec<Tile>)
    requires
        tiling_fits(xzbbox@, tile_size as int),
    ensures
        tiles@ == tiling(xzbbox@, tile_size as int),
{
    let min_x = xzbbox.min_x();
    let max_x = xzbbox.max_x();
    let min_z = xzbbox.min_z();
    let max_z = xzbbox.max_z();

    let nx = count_across(max_x - min_x, tile_size);
    let nz = count_across(max_z - min_z, tile_size);

    let ghost area = xzbbox@;
    let ghost size = tile_size as int;
    let ghost ids = tile_ids(area, size);
    let mut walk = CellWalk::new(0, 0, nx - 1, nz - 1);
    let mut tiles: Vec<Tile> = Vec::new();
    proof {
        lemma_cells(ids);
        assert(walk@ == cells(ids));
        assert(cells(ids).skip(0) =~= cells(ids));
    }
    loop
        invariant
            area == xzbbox@,
            size == tile_size,
            ids == tile_ids(area, size),
            tiling_fits(area, size),
            min_x == area.min_x,
            min_z == area.min_z,
            max_x == area.max_x,
            max_z == area.max_z,
            tiles@.len() <= cells(ids).len(),
            walk@ == cells(ids).skip(tiles@.len() as int),
            tiles@ == tiling(area, size).take(tiles@.len() as int),
            forall|x: i32, z: i32|
                cells(ids).contains((x, z)) <==> #[trigger] ids.has(x as int, z as int),
        ensures
            tiles@ == tiling(area, size),
        decreases walk@.len(),
    {
        match walk.next() {
            None => {
                assert(tiles@ =~= tiling(area, size));
                break;
            },
            Some((ix, iz)) => {
                let ghost k = tiles@.len() as int;
                proof {
                    assert(cells(ids)[k] == (ix, iz));
                    assert(cells(ids).contains((ix, iz)));
                    assert(ids.has(ix as int, iz as int));
                    lemma_axis(area.min_x, area.max_x, size, ix as int);
                    lemma_axis(area.min_z, area.max_z, size, iz as int);
                }
                let tx_min_x = min_x + ix * tile_size;
                let tx_min_z = min_z + iz * tile_size;
                let end_x = tx_min_x + tile_size - 1;
                let end_z = tx_min_z + tile_size - 1;
                let tile = Tile {
                    min_x: tx_min_x,
                    min_z: tx_min_z,
                    max_x: if end_x <= max_x {
                        end_x
                    } else {
                        max_x
                    },
                    max_z: if end_z <= max_z {
                        end_z
                    } else {
                        max_z
                    },
                    id: (ix, iz),
                };
                assert(tile == tiling(area, size)[k]);
                tiles.push(tile);
                assert(tiles@ =~= tiling(area, size).take(k + 1));
                assert(walk@ =~= cells(ids).skip(k + 1));
            },
        }
    }
    tiles
}

/// The bounding box of a tile: exactly the columns that the tile covers.
pub fn tile_bbox(tile: &Tile) -> (bbox: XZBBox)
    requires
        tile.spec_has_extent(),
    ensures
        bbox@ == tile.rect(),
        bbox@.min_x == tile.min_x,
        bbox@.min_z == tile.min_z,
        bbox@.max_x == tile.max_x,
        bbox@.max_z == tile.max_z,
{
    let length_x = tile.max_x - tile.min_x;
    let length_z = tile.max_z - tile.min_z;
    let mut bbox = XZBBox::rect_from_xz_lengths(length_x, length_z).unwrap();
    bbox.translate(XZVector { dx: tile.min_x, dz: tile.min_z });
    bbox
}

} // verus!
