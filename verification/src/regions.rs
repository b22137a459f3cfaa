//! Region files: squares of 512 by 512 columns. The regions of a tile are
//! locked, in a fixed order, while the tile is written.

use crate::batching::Tile;
use crate::coordinates::Rect;
use crate::grid::{before, cells, lemma_cells, CellWalk};
use std::collections::BTreeSet;
use vstd::prelude::*;

verus! {

/// The number of columns along the side of a region.
pub const REGION_SIZE: i32 = 512;

/// The region coordinate of a block coordinate.
pub open spec fn region_of(v: int) -> int {
    v / (REGION_SIZE as int)
}

/// The regions of the columns of a rectangle, as a rectangle of regions.
pub open spec fn region_rect(r: Rect) -> Rect {
    Rect {
        min_x: region_of(r.min_x),
        min_z: region_of(r.min_z),
        max_x: region_of(r.max_x),
        max_z: region_of(r.max_z),
    }
}

/// The region coordinate of a block coordinate: a chunk has 16 blocks, a
/// region 32 chunks.
fn region_coordinate(v: i32) -> (r: i32)
    ensures
        r == region_of(v as int),
{
    let r = v >> 9;
    assert(r * 512 <= v && v < r * 512 + 512) by (bit_vector)
        requires
            r == v >> 9,
    ;
    r
}

/// The regions that a tile reaches, in increasing order.
pub fn region_keys(tile: &Tile) -> (keys: Vec<(i32, i32)>)
    ensures
        keys@ == cells(region_rect(tile.rect())),
        forall|key: (i32, i32)| #[trigger]
            keys@.contains(key) <==> {
                &&& tile.min_x < key.0 * 512 + 512
                &&& key.0 * 512 <= tile.max_x
                &&& tile.min_z < key.1 * 512 + 512
                &&& key.1 * 512 <= tile.max_z
            },
{
    let ghost all = cells(region_rect(tile.rect()));
    let mut walk = CellWalk::new(
        region_coordinate(tile.min_x),
        region_coordinate(tile.min_z),
        region_coordinate(tile.max_x),
        region_coordinate(tile.max_z),
    );
    let mut keys: Vec<(i32, i32)> = Vec::new();
    assert(keys@ + walk@ =~= all);
    loop
        invariant
            keys@ + walk@ == all,
        ensures
            keys@ == all,
        decreases walk@.len(),
    {
        match walk.next() {
            None => {
                assert(keys@ =~= all);
                break;
            },
            Some(key) => {
                keys.push(key);
                assert(keys@ + walk@ =~= all);
            },
        }
    }
    proof {
        assert forall|key: (i32, i32)| #[trigger] keys@.contains(key) <==> {
            &&& tile.min_x < key.0 * 512 + 512
            &&& key.0 * 512 <= tile.max_x
            &&& tile.min_z < key.1 * 512 + 512
            &&& key.1 * 512 <= tile.max_z
        } by {
            a_region_is_reached_where_it_overlaps(*tile, key);
        }
    }
    keys
}

/// The regions of all tiles.
pub open spec fn lock_keys(tiles: Seq<Tile>) -> Set<(i32, i32)> {
    Set::new(
        |key: (i32, i32)|
            exists|i: int| 0 <= i < tiles.len() && region_of_tile(#[trigger] tiles[i], key),
    )
}

/// The tile reaches the region.
pub open spec fn region_of_tile(tile: Tile, key: (i32, i32)) -> bool {
    cells(region_rect(tile.rect())).contains(key)
}

/// Adds the keys to the set.
fn add_keys(set: &mut BTreeSet<(i32, i32)>, keys: &Vec<(i32, i32)>)
    ensures
        forall|key: (i32, i32)| #[trigger]
            final(set)@.contains(key) <==> old(set)@.contains(key) || keys@.contains(key),
{
    broadcast use {vstd::laws_cmp::group_laws_cmp, vstd::std_specs::btree::group_btree_axioms};

    let mut i: usize = 0;
    let ghost earlier = set@;
    while i < keys.len()
        invariant
            i <= keys@.len(),
            forall|key: (i32, i32)| #[trigger]
                set@.contains(key) <==> earlier.contains(key) || exists|k: int|
                    0 <= k < i && keys@[k] == key,
        decreases keys@.len() - i,
    {
        set.insert(keys[i]);
        i = i + 1;
    }
}

/// The regions for which a run over `tiles` needs a lock.
pub fn region_lock_keys(tiles: &[Tile]) -> (set: BTreeSet<(i32, i32)>)
    ensures
        set@ == lock_keys(tiles@),
{
    let mut set: BTreeSet<(i32, i32)> = BTreeSet::new();
    let mut i: usize = 0;
    while i < tiles.len()
        invariant
            i <= tiles@.len(),
            forall|key: (i32, i32)| #[trigger]
                set@.contains(key) <==> exists|k: int|
                    0 <= k < i && region_of_tile(#[trigger] tiles@[k], key),
        decreases tiles@.len() - i,
    {
        let keys = region_keys(&tiles[i]);
        add_keys(&mut set, &keys);
        i = i + 1;
    }
    assert(set@ =~= lock_keys(tiles@));
    set
}

/// A tile's region keys are strictly increasing: sorting leaves them as they
/// are, and any two tiles lock the regions they share in the same order.
pub proof fn region_keys_are_sorted(tile: Tile)
    ensures
        forall|i: int, j: int|
            0 <= i < j < cells(region_rect(tile.rect())).len() ==> before(
                #[trigger] cells(region_rect(tile.rect()))[i],
                #[trigger] cells(region_rect(tile.rect()))[j],
            ),
{
    lemma_cells(region_rect(tile.rect()));
}

/// Every region of one of the tiles has a lock.
pub proof fn every_region_has_a_lock(tiles: Seq<Tile>, i: int, key: (i32, i32))
    requires
        0 <= i < tiles.len(),
        cells(region_rect(tiles[i].rect())).contains(key),
    ensures
        lock_keys(tiles).contains(key),
{
    assert(region_of_tile(tiles[i], key));
}

/// A region is among a tile's regions exactly when a column of the tile lies
/// in it.
pub proof fn regions_are_those_of_the_columns(tile: Tile, key: (i32, i32))
    requires
        tile.rect().nonempty(),
    ensures
        cells(region_rect(tile.rect())).contains(key) <==> exists|x: int, z: int| #[trigger]
            tile.rect().has(x, z) && region_of(x) == key.0 && region_of(z) == key.1,
{
    let r = tile.rect();
    let regions = region_rect(r);
    lemma_cells(regions);
    assert(cells(regions).contains((key.0, key.1)) <==> regions.has(key.0 as int, key.1 as int));
    if regions.has(key.0 as int, key.1 as int) {
        let x = if region_of(r.min_x) == key.0 {
            r.min_x
        } else {
            key.0 * 512
        };
        let z = if region_of(r.min_z) == key.1 {
            r.min_z
        } else {
            key.1 * 512
        };
        assert(r.has(x, z) && region_of(x) == key.0 && region_of(z) == key.1);
    }
}

/// A region is among the regions of a tile exactly when the 512 by 512 columns
/// of the region and the bounds of the tile overlap.
pub proof fn a_region_is_reached_where_it_overlaps(tile: Tile, key: (i32, i32))
    ensures
        cells(region_rect(tile.rect())).contains(key) <==> {
            &&& tile.min_x < key.0 * 512 + 512
            &&& key.0 * 512 <= tile.max_x
            &&& tile.min_z < key.1 * 512 + 512
            &&& key.1 * 512 <= tile.max_z
        },
{
    let regions = region_rect(tile.rect());
    lemma_cells(regions);
    assert(cells(regions).contains((key.0, key.1)) <==> regions.has(key.0 as int, key.1 as int));
}

/// The region keys of a tile come ordered by x and, for equal x, by z, and none
/// comes twice.
pub proof fn regions_are_locked_in_one_order(tile: Tile, i: int, j: int)
    requires
        0 <= i < j < cells(region_rect(tile.rect())).len(),
    ensures
        ({
            let a = cells(region_rect(tile.rect()))[i];
            let b = cells(region_rect(tile.rect()))[j];
            a.0 < b.0 || (a.0 == b.0 && a.1 < b.1)
        }),
{
    lemma_cells(region_rect(tile.rect()));
    assert(before(
        cells(region_rect(tile.rect()))[i],
        cells(region_rect(tile.rect()))[j],
    ));
}

/// A region has a lock exactly when one of the tiles overlaps it.
pub proof fn the_locks_are_those_of_the_tiles(tiles: Seq<Tile>, key: (i32, i32))
    ensures
        lock_keys(tiles).contains(key) <==> exists|i: int|
            0 <= i < tiles.len() && (#[trigger] tiles[i]).min_x < key.0 * 512 + 512 && key.0 * 512
                <= tiles[i].max_x && tiles[i].min_z < key.1 * 512 + 512 && key.1 * 512
                <= tiles[i].max_z,
{
    assert forall|i: int| 0 <= i < tiles.len() implies region_of_tile(#[trigger] tiles[i], key) == (
    tiles[i].min_x < key.0 * 512 + 512 && key.0 * 512 <= tiles[i].max_x && tiles[i].min_z < key.1
        * 512 + 512 && key.1 * 512 <= tiles[i].max_z) by {
        a_region_is_reached_where_it_overlaps(tiles[i], key);
    }
}

} // verus!
