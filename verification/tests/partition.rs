use std::collections::BTreeMap;
use world_tiling::batching::{partition_elements_by_tile, split_bbox_into_tiles, Tile};
use world_tiling::buckets::get_bucket;
use world_tiling::coordinates::XZBBox;
use world_tiling::elements::{
    ProcessedElement, ProcessedMember, ProcessedMemberRole, ProcessedNode, ProcessedRelation,
    ProcessedWay,
};
use world_tiling::tags::Tags;

fn node(id: u64, x: i32, z: i32) -> ProcessedNode {
    ProcessedNode { id, tags: Tags::new(), x, z }
}

fn way(id: u64, points: &[(i32, i32)]) -> ProcessedWay {
    let nodes = points.iter().map(|p| node(1000 + id, p.0, p.1)).collect();
    ProcessedWay { id, nodes, tags: Tags::new() }
}

fn relation(id: u64, ways: Vec<ProcessedWay>) -> ProcessedElement {
    let members = ways
        .into_iter()
        .map(|way| ProcessedMember { role: ProcessedMemberRole::Outer, way })
        .collect();
    ProcessedElement::Relation(ProcessedRelation { id, tags: Tags::new(), members })
}

fn id(element: &ProcessedElement) -> u64 {
    match element {
        ProcessedElement::Node(node) => node.id,
        ProcessedElement::Way(way) => way.id,
        ProcessedElement::Relation(relation) => relation.id,
    }
}

fn ids(parts: &BTreeMap<(i32, i32), Vec<ProcessedElement>>, tile: (i32, i32)) -> Vec<u64> {
    match get_bucket(parts, tile) {
        Some(bucket) => bucket.iter().map(id).collect(),
        None => Vec::new(),
    }
}

fn four_tiles() -> Vec<Tile> {
    split_bbox_into_tiles(&XZBBox::rect_from_xz_lengths(63, 63).unwrap(), 32)
}

#[test]
fn a_way_goes_to_every_tile_it_touches() {
    let elements = vec![
        ProcessedElement::Way(way(7, &[(1, 1), (40, 1), (2, 2), (63, 63)])),
        ProcessedElement::Node(node(8, 40, 40)),
    ];
    let parts = partition_elements_by_tile(&elements, &four_tiles());
    assert_eq!(ids(&parts, (0, 0)), vec![7]);
    assert_eq!(ids(&parts, (0, 1)), Vec::<u64>::new());
    assert_eq!(ids(&parts, (1, 0)), vec![7]);
    assert_eq!(ids(&parts, (1, 1)), vec![7, 8]);
    assert_eq!(parts.len(), 3);
}

#[test]
fn a_relation_goes_where_its_members_go() {
    let elements = vec![relation(3, vec![way(4, &[(5, 40)]), way(5, &[(50, 50), (51, 51)])])];
    let parts = partition_elements_by_tile(&elements, &four_tiles());
    assert_eq!(ids(&parts, (0, 1)), vec![3]);
    assert_eq!(ids(&parts, (1, 1)), vec![3]);
    assert_eq!(parts.len(), 2);
    let members: Vec<(i32, i32)> =
        elements[0].nodes().iter().map(|n| (n.xz().x, n.xz().z)).collect();
    assert_eq!(members, vec![(5, 40), (50, 50), (51, 51)]);
}

#[test]
fn an_element_without_a_node_in_a_tile_goes_to_the_first_tile() {
    let elements = vec![
        ProcessedElement::Way(way(1, &[])),
        ProcessedElement::Node(node(2, 100, 100)),
        relation(3, vec![]),
    ];
    let parts = partition_elements_by_tile(&elements, &four_tiles());
    assert_eq!(ids(&parts, (0, 0)), vec![1, 2, 3]);
    assert_eq!(parts.len(), 1);
}

#[test]
fn a_lone_tile_gets_every_element_in_order() {
    let elements = vec![
        ProcessedElement::Node(node(9, 500, 500)),
        ProcessedElement::Node(node(4, 33, 33)),
        ProcessedElement::Way(way(6, &[(32, 32), (33, 33)])),
    ];
    let tile = four_tiles()[3];
    let parts = partition_elements_by_tile(&elements, &[tile]);
    assert_eq!(ids(&parts, (1, 1)), vec![9, 4, 6]);
}

#[test]
fn without_tiles_nothing_is_listed() {
    let parts = partition_elements_by_tile(&[ProcessedElement::Node(node(1, 0, 0))], &[]);
    assert!(parts.is_empty());
}

#[test]
fn tiles_that_share_an_id_share_a_bucket() {
    let a = Tile { min_x: 0, min_z: 0, max_x: 9, max_z: 9, id: (5, 5) };
    let b = Tile { min_x: 5, min_z: 5, max_x: 20, max_z: 20, id: (5, 5) };
    let elements =
        vec![ProcessedElement::Node(node(1, 7, 7)), ProcessedElement::Node(node(2, 15, 15))];
    let parts = partition_elements_by_tile(&elements, &[a, b]);
    assert_eq!(ids(&parts, (5, 5)), vec![1, 1, 2]);
}

#[test]
fn sorting_in_two_parts_gives_the_same_order() {
    let tiles = four_tiles();
    let first = vec![ProcessedElement::Node(node(1, 0, 0)), ProcessedElement::Node(node(2, 63, 63))];
    let second = vec![ProcessedElement::Node(node(3, 1, 1))];
    let mut all = first.clone();
    all.extend(second.clone());
    let together = partition_elements_by_tile(&all, &tiles);
    let a = partition_elements_by_tile(&first, &tiles);
    let b = partition_elements_by_tile(&second, &tiles);
    for tile in &tiles {
        let mut joined = ids(&a, tile.id);
        joined.extend(ids(&b, tile.id));
        assert_eq!(ids(&together, tile.id), joined);
    }
}

#[test]
fn a_copy_of_an_element_keeps_everything() {
    let mut tags = Tags::new();
    tags.insert("highway".to_string(), "primary".to_string());
    let mut w = way(12, &[(3, 4)]);
    w.tags = tags;
    let elements = vec![ProcessedElement::Way(w)];
    let parts = partition_elements_by_tile(&elements, &four_tiles());
    match &get_bucket(&parts, (0, 0)).unwrap()[0] {
        ProcessedElement::Way(copy) => {
            assert_eq!(copy.id, 12);
            assert_eq!(copy.nodes.len(), 1);
            assert_eq!((copy.nodes[0].id, copy.nodes[0].x, copy.nodes[0].z), (1012, 3, 4));
            assert_eq!(copy.tags.get("highway"), Some(&"primary".to_string()));
        }
        _ => panic!("not a way"),
    }
}
