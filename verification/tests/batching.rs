use world_tiling::batching::{
    can_be_split, partition_elements_by_tile, split_bbox_into_tiles, tile_bbox, Tile,
};
use world_tiling::coordinates::{InvalidLengths, XZBBox, XZVector};
use world_tiling::elements::{ProcessedElement, ProcessedNode};
use world_tiling::tags::Tags;

fn area(min_x: i32, min_z: i32, length_x: i32, length_z: i32) -> XZBBox {
    let mut bbox = XZBBox::rect_from_xz_lengths(length_x, length_z).unwrap();
    bbox.translate(XZVector { dx: min_x, dz: min_z });
    bbox
}

#[test]
fn test_split_and_partition() {
    let bbox = XZBBox::rect_from_xz_lengths(63, 63).unwrap();
    let tiles = split_bbox_into_tiles(&bbox, 32);
    assert!(!tiles.is_empty());
    // Expect 2x2 tiles
    assert_eq!(tiles.len(), 4);

    // Create a synthetic element: a node at x=10,z=10
    let node = ProcessedNode { id: 1, tags: Tags::new(), x: 10, z: 10 };
    let elem = ProcessedElement::Node(node);

    let parts = partition_elements_by_tile(&[elem.clone()], &tiles);
    // Should be assigned to exactly 1 tile
    let assigned = parts.values().map(|v| v.len()).sum::<usize>();
    assert_eq!(assigned, 1);
    assert_eq!(parts.get(&(0, 0)).unwrap().len(), 1);
}

#[test]
fn tiles_come_by_id_and_are_cut_off_at_the_end() {
    let tiles = split_bbox_into_tiles(&area(-10, 5, 24, 9), 10);
    let expected = vec![
        Tile { min_x: -10, min_z: 5, max_x: -1, max_z: 14, id: (0, 0) },
        Tile { min_x: 0, min_z: 5, max_x: 9, max_z: 14, id: (1, 0) },
        Tile { min_x: 10, min_z: 5, max_x: 14, max_z: 14, id: (2, 0) },
    ];
    assert_eq!(tiles, expected);
}

#[test]
fn z_runs_faster_than_x() {
    let tiles = split_bbox_into_tiles(&area(0, 0, 10, 10), 10);
    let ids: Vec<(i32, i32)> = tiles.iter().map(|t| t.id).collect();
    assert_eq!(ids, vec![(0, 0), (0, 1), (1, 0), (1, 1)]);
    assert_eq!(tiles[3], Tile { min_x: 10, min_z: 10, max_x: 10, max_z: 10, id: (1, 1) });
}

#[test]
fn a_single_column_is_one_tile() {
    let tiles = split_bbox_into_tiles(&area(7, -3, 0, 0), 512);
    assert_eq!(tiles, vec![Tile { min_x: 7, min_z: -3, max_x: 7, max_z: -3, id: (0, 0) }]);
}

#[test]
fn every_column_is_in_exactly_one_tile() {
    let bbox = area(-7, 3, 30, 17);
    for tile_size in [1, 2, 5, 16, 31, 100] {
        let tiles = split_bbox_into_tiles(&bbox, tile_size);
        for x in -10..30 {
            for z in 0..25 {
                let inside = (-7..=23).contains(&x) && (3..=20).contains(&z);
                let holders: Vec<&Tile> =
                    tiles.iter().filter(|t| t.contains_point(x, z)).collect();
                assert_eq!(holders.len(), if inside { 1 } else { 0 });
                if inside {
                    assert_eq!(holders[0].id, ((x + 7) / tile_size, (z - 3) / tile_size));
                }
            }
        }
    }
}

#[test]
fn tile_ids_do_not_repeat() {
    let tiles = split_bbox_into_tiles(&area(0, 0, 40, 25), 8);
    assert_eq!(tiles.len(), 6 * 4);
    let mut ids: Vec<(i32, i32)> = tiles.iter().map(|t| t.id).collect();
    ids.dedup();
    assert_eq!(ids.len(), tiles.len());
    assert!(tiles.iter().all(|t| t.has_extent()));
}

#[test]
fn a_negative_size_gives_one_tile_without_extent() {
    let tiles = split_bbox_into_tiles(&area(4, 4, 20, 20), -3);
    assert_eq!(tiles, vec![Tile { min_x: 4, min_z: 4, max_x: 0, max_z: 0, id: (0, 0) }]);
    assert!(!tiles[0].has_extent());
}

#[test]
fn what_can_be_split() {
    assert!(can_be_split(&area(0, 0, 63, 63), 32));
    assert!(can_be_split(&area(0, 0, 63, 63), -1));
    assert!(!can_be_split(&area(0, 0, 63, 63), 0));
    // the end of the last tile would exceed the largest coordinate
    assert!(!can_be_split(&area(0, 0, i32::MAX, 0), 32));
    assert!(can_be_split(&area(-100, 0, i32::MAX, 0), 32));
    // more tiles than can be counted
    assert!(!can_be_split(&area(-1, 0, i32::MAX, 0), 1));
    // the end of a tile of negative size would be below the smallest coordinate
    assert!(!can_be_split(&area(i32::MIN, 0, 0, 0), -1));
    assert!(can_be_split(&area(i32::MIN, 0, 0, 0), 1));
}

#[test]
fn contains_point_includes_the_bounds() {
    let tile = Tile { min_x: -2, min_z: 3, max_x: 4, max_z: 9, id: (0, 0) };
    assert!(tile.contains_point(-2, 3));
    assert!(tile.contains_point(4, 9));
    assert!(!tile.contains_point(-3, 3));
    assert!(!tile.contains_point(5, 9));
    assert!(!tile.contains_point(0, 2));
    assert!(!tile.contains_point(0, 10));
}

#[test]
fn the_box_of_a_tile_has_its_bounds() {
    let tile = Tile { min_x: -20, min_z: 30, max_x: -11, max_z: 31, id: (4, 2) };
    let bbox = tile_bbox(&tile);
    assert_eq!((bbox.min_x(), bbox.min_z(), bbox.max_x(), bbox.max_z()), (-20, 30, -11, 31));
}

#[test]
fn which_tiles_have_extent() {
    let tile = Tile { min_x: 1, min_z: 1, max_x: 1, max_z: 1, id: (0, 0) };
    assert!(tile.has_extent());
    assert!(!Tile { max_x: 0, ..tile }.has_extent());
    assert!(!Tile { max_z: 0, ..tile }.has_extent());
    assert!(!Tile { min_x: i32::MIN, max_x: 0, ..tile }.has_extent());
    assert!(Tile { min_x: i32::MIN, max_x: -1, ..tile }.has_extent());
}

#[test]
fn negative_lengths_give_no_box() {
    assert_eq!(
        XZBBox::rect_from_xz_lengths(-1, 5),
        Err(InvalidLengths { length_x: -1, length_z: 5 })
    );
    assert_eq!(
        XZBBox::rect_from_xz_lengths(5, -1),
        Err(InvalidLengths { length_x: 5, length_z: -1 })
    );
    let bbox = XZBBox::rect_from_xz_lengths(0, 9).unwrap();
    assert_eq!((bbox.min_x(), bbox.min_z(), bbox.max_x(), bbox.max_z()), (0, 0, 0, 9));
}
