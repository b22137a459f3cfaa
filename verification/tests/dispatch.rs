use world_tiling::dispatch::{element_generator, Generator};
use world_tiling::elements::{ProcessedElement, ProcessedNode, ProcessedRelation, ProcessedWay};
use world_tiling::tags::Tags;

fn tags(pairs: &[(&str, &str)]) -> Tags {
    let mut tags = Tags::new();
    for (key, value) in pairs {
        tags.insert(key.to_string(), value.to_string());
    }
    tags
}

fn way(pairs: &[(&str, &str)]) -> Option<Generator> {
    let way = ProcessedWay { id: 1, nodes: vec![], tags: tags(pairs) };
    element_generator(&ProcessedElement::Way(way))
}

fn node(pairs: &[(&str, &str)]) -> Option<Generator> {
    let node = ProcessedNode { id: 1, tags: tags(pairs), x: 0, z: 0 };
    element_generator(&ProcessedElement::Node(node))
}

fn relation(pairs: &[(&str, &str)]) -> Option<Generator> {
    let relation = ProcessedRelation { id: 1, tags: tags(pairs), members: vec![] };
    element_generator(&ProcessedElement::Relation(relation))
}

#[test]
fn ways_by_tag() {
    let expected = [
        ("building", Some(Generator::Buildings)),
        ("building:part", Some(Generator::Buildings)),
        ("highway", Some(Generator::Highways)),
        ("landuse", Some(Generator::Landuse)),
        ("natural", Some(Generator::Natural)),
        ("amenity", Some(Generator::Amenities)),
        ("leisure", Some(Generator::Leisure)),
        ("barrier", Some(Generator::Barriers)),
        ("waterway", Some(Generator::Waterways)),
        ("bridge", None),
        ("railway", Some(Generator::Railways)),
        ("aeroway", Some(Generator::Aeroway)),
        ("area:aeroway", Some(Generator::Aeroway)),
        ("service", None),
        ("man_made", Some(Generator::ManMade)),
        ("tourism", None),
    ];
    for (key, generator) in expected {
        assert_eq!(way(&[(key, "yes")]), generator);
    }
    assert_eq!(way(&[("service", "siding")]), Some(Generator::Siding));
    assert_eq!(way(&[]), None);
}

#[test]
fn earlier_way_rules_win() {
    assert_eq!(way(&[("man_made", "x"), ("building", "yes")]), Some(Generator::Buildings));
    assert_eq!(way(&[("railway", "rail"), ("bridge", "yes")]), None);
    assert_eq!(way(&[("bridge", "yes"), ("highway", "x")]), Some(Generator::Highways));
    assert_eq!(way(&[("service", "siding"), ("railway", "rail")]), Some(Generator::Railways));
    assert_eq!(way(&[("service", "siding"), ("man_made", "x")]), Some(Generator::Siding));
}

#[test]
fn nodes_by_tag() {
    let expected = [
        ("door", Some(Generator::Doors)),
        ("entrance", Some(Generator::Doors)),
        ("natural", None),
        ("amenity", Some(Generator::Amenities)),
        ("barrier", Some(Generator::BarrierNodes)),
        ("highway", Some(Generator::Highways)),
        ("tourism", Some(Generator::Tourisms)),
        ("man_made", Some(Generator::ManMadeNodes)),
        ("building", None),
    ];
    for (key, generator) in expected {
        assert_eq!(node(&[(key, "yes")]), generator);
    }
    assert_eq!(node(&[("natural", "tree")]), Some(Generator::Natural));
    assert_eq!(node(&[("natural", "peak"), ("tourism", "x")]), Some(Generator::Tourisms));
    assert_eq!(node(&[("natural", "tree"), ("door", "x")]), Some(Generator::Doors));
}

#[test]
fn relations_by_tag() {
    let expected = [
        ("building", Some(Generator::BuildingFromRelation)),
        ("building:part", Some(Generator::BuildingFromRelation)),
        ("water", Some(Generator::WaterAreas)),
        ("natural", Some(Generator::NaturalFromRelation)),
        ("landuse", Some(Generator::LanduseFromRelation)),
        ("leisure", None),
        ("man_made", Some(Generator::ManMade)),
        ("highway", None),
    ];
    for (key, generator) in expected {
        assert_eq!(relation(&[(key, "yes")]), generator);
    }
    assert_eq!(relation(&[("natural", "water")]), Some(Generator::WaterAreas));
    assert_eq!(relation(&[("leisure", "park")]), Some(Generator::LeisureFromRelation));
    assert_eq!(
        relation(&[("leisure", "park"), ("landuse", "x")]),
        Some(Generator::LanduseFromRelation)
    );
}

#[test]
fn a_later_value_replaces_an_earlier_one() {
    let mut tags = tags(&[("natural", "tree"), ("amenity", "bench")]);
    tags.insert("natural".to_string(), "peak".to_string());
    assert_eq!(tags.get("natural"), Some(&"peak".to_string()));
    assert_eq!(tags.get("amenity"), Some(&"bench".to_string()));
    assert_eq!(tags.get("barrier"), None);
    assert!(tags.contains_key("amenity"));
    assert!(!tags.contains_key("Amenity"));
    assert!(tags.has_value("natural", "peak"));
    assert!(!tags.has_value("natural", "tree"));
    assert!(!tags.has_value("barrier", "peak"));
    let copy = tags.clone();
    assert_eq!(copy.get("natural"), Some(&"peak".to_string()));
}
