//! Which generator draws an element, tag by tag.

use crate::dispatch::{generator_of, is_first, rules_for, the_rules_decide, Generator};
use crate::elements::{ElementView, NodeView, RelationView, WayView};
use vstd::prelude::*;

verus! {

/// What draws a way: the first of its tags in this order decides, whatever
/// other tags it has. Buildings come first; a bridge is not drawn; a service
/// counts only as a siding.
pub proof fn ways_are_drawn_by_their_first_tag(way: WayView)
    ensures
        ({
            let t = way.tags;
            let outcome = generator_of(ElementView::Way(way));
            &&& (t.contains_key("building"@) || t.contains_key("building:part"@))
                ==> outcome == Some(Generator::Buildings)
            &&& !(t.contains_key("building"@) || t.contains_key("building:part"@))
                && t.contains_key("highway"@)
                ==> outcome == Some(Generator::Highways)
            &&& !(t.contains_key("building"@) || t.contains_key("building:part"@))
                && !t.contains_key("highway"@)
                && t.contains_key("landuse"@)
                ==> outcome == Some(Generator::Landuse)
            &&& !(t.contains_key("building"@) || t.contains_key("building:part"@))
                && !t.contains_key("highway"@)
                && !t.contains_key("landuse"@)
                && t.contains_key("natural"@)
                ==> outcome == Some(Generator::Natural)
            &&& !(t.contains_key("building"@) || t.contains_key("building:part"@))
                && !t.contains_key("highway"@)
                && !t.contains_key("landuse"@)
                && !t.contains_key("natural"@)
                && t.contains_key("amenity"@)
                ==> outcome == Some(Generator::Amenities)
            &&& !(t.contains_key("building"@) || t.contains_key("building:part"@))
                && !t.contains_key("highway"@)
                && !t.contains_key("landuse"@)
                && !t.contains_key("natural"@)
                && !t.contains_key("amenity"@)
                && t.contains_key("leisure"@)
                ==> outcome == Some(Generator::Leisure)
            &&& !(t.contains_key("building"@) || t.contains_key("building:part"@))
                && !t.contains_key("highway"@)
                && !t.contains_key("landuse"@)
                && !t.contains_key("natural"@)
                && !t.contains_key("amenity"@)
                && !t.contains_key("leisure"@)
                && t.contains_key("barrier"@)
                ==> outcome == Some(Generator::Barriers)
            &&& !(t.contains_key("building"@) || t.contains_key("building:part"@))
                && !t.contains_key("highway"@)
                && !t.contains_key("landuse"@)
                && !t.contains_key("natural"@)
                && !t.contains_key("amenity"@)
                && !t.contains_key("leisure"@)
                && !t.contains_key("barrier"@)
                && t.contains_key("waterway"@)
                ==> outcome == Some(Generator::Waterways)
            &&& !(t.contains_key("building"@) || t.contains_key("building:part"@))
                && !t.contains_key("highway"@)
                && !t.contains_key("landuse"@)
                && !t.contains_key("natural"@)
                && !t.contains_key("amenity"@)
                && !t.contains_key("leisure"@)
                && !t.contains_key("barrier"@)
                && !t.contains_key("waterway"@)
                && t.contains_key("bridge"@)
                ==> outcome == None::<Generator>
            &&& !(t.contains_key("building"@) || t.contains_key("building:part"@))
                && !t.contains_key("highway"@)
                && !t.contains_key("landuse"@)
                && !t.contains_key("natural"@)
                && !t.contains_key("amenity"@)
                && !t.contains_key("leisure"@)
                && !t.contains_key("barrier"@)
                && !t.contains_key("waterway"@)
                && !t.contains_key("bridge"@)
                && t.contains_key("railway"@)
                ==> outcome == Some(Generator::Railways)
            &&& !(t.contains_key("building"@) || t.contains_key("building:part"@))
                && !t.contains_key("highway"@)
                && !t.contains_key("landuse"@)
                && !t.contains_key("natural"@)
                && !t.contains_key("amenity"@)
                && !t.contains_key("leisure"@)
                && !t.contains_key("barrier"@)
                && !t.contains_key("waterway"@)
                && !t.contains_key("bridge"@)
                && !t.contains_key("railway"@)
                && (t.contains_key("aeroway"@) || t.contains_key("area:aeroway"@))
                ==> outcome == Some(Generator::Aeroway)
            &&& !(t.contains_key("building"@) || t.contains_key("building:part"@))
                && !t.contains_key("highway"@)
                && !t.contains_key("landuse"@)
                && !t.contains_key("natural"@)
                && !t.contains_key("amenity"@)
                && !t.contains_key("leisure"@)
                && !t.contains_key("barrier"@)
                && !t.contains_key("waterway"@)
                && !t.contains_key("bridge"@)
                && !t.contains_key("railway"@)
                && !(t.contains_key("aeroway"@) || t.contains_key("area:aeroway"@))
                && (t.contains_key("service"@) && t["service"@] == "siding"@)
                ==> outcome == Some(Generator::Siding)
            &&& !(t.contains_key("building"@) || t.contains_key("building:part"@))
                && !t.contains_key("highway"@)
                && !t.contains_key("landuse"@)
                && !t.contains_key("natural"@)
                && !t.contains_key("amenity"@)
                && !t.contains_key("leisure"@)
                && !t.contains_key("barrier"@)
                && !t.contains_key("waterway"@)
                && !t.contains_key("bridge"@)
                && !t.contains_key("railway"@)
                && !(t.contains_key("aeroway"@) || t.contains_key("area:aeroway"@))
                && !(t.contains_key("service"@) && t["service"@] == "siding"@)
                && t.contains_key("man_made"@)
                ==> outcome == Some(Generator::ManMade)
            &&& !(t.contains_key("building"@) || t.contains_key("building:part"@))
                && !t.contains_key("highway"@)
                && !t.contains_key("landuse"@)
                && !t.contains_key("natural"@)
                && !t.contains_key("amenity"@)
                && !t.contains_key("leisure"@)
                && !t.contains_key("barrier"@)
                && !t.contains_key("waterway"@)
                && !t.contains_key("bridge"@)
                && !t.contains_key("railway"@)
                && !(t.contains_key("aeroway"@) || t.contains_key("area:aeroway"@))
                && !(t.contains_key("service"@) && t["service"@] == "siding"@)
                && !t.contains_key("man_made"@)
                ==> outcome == None::<Generator>
        }),
{
    let element = ElementView::Way(way);
    let rules = rules_for(element);
    let outcome = generator_of(element);
    the_rules_decide(element, outcome);
    if exists|i: int| is_first(rules, i) && (#[trigger] rules[i]).generator == outcome {
        let i = choose|i: int| is_first(rules, i) && (#[trigger] rules[i]).generator == outcome;
        assert(i > 0 ==> !rules[0].applies);
        assert(i > 1 ==> !rules[1].applies);
        assert(i > 2 ==> !rules[2].applies);
        assert(i > 3 ==> !rules[3].applies);
        assert(i > 4 ==> !rules[4].applies);
        assert(i > 5 ==> !rules[5].applies);
        assert(i > 6 ==> !rules[6].applies);
        assert(i > 7 ==> !rules[7].applies);
        assert(i > 8 ==> !rules[8].applies);
        assert(i > 9 ==> !rules[9].applies);
        assert(i > 10 ==> !rules[10].applies);
        assert(i > 11 ==> !rules[11].applies);
        assert(i > 12 ==> !rules[12].applies);
    } else {
        assert(!rules[0].applies);
        assert(!rules[1].applies);
        assert(!rules[2].applies);
        assert(!rules[3].applies);
        assert(!rules[4].applies);
        assert(!rules[5].applies);
        assert(!rules[6].applies);
        assert(!rules[7].applies);
        assert(!rules[8].applies);
        assert(!rules[9].applies);
        assert(!rules[10].applies);
        assert(!rules[11].applies);
        assert(!rules[12].applies);
    }
}

/// What draws a node: the first of its tags in this order decides, whatever
/// other tags it has. Of the natural features only a tree counts.
pub proof fn nodes_are_drawn_by_their_first_tag(node: NodeView)
    ensures
        ({
            let t = node.tags;
            let outcome = generator_of(ElementView::Node(node));
            &&& (t.contains_key("door"@) || t.contains_key("entrance"@))
                ==> outcome == Some(Generator::Doors)
            &&& !(t.contains_key("door"@) || t.contains_key("entrance"@))
                && (t.contains_key("natural"@) && t["natural"@] == "tree"@)
                ==> outcome == Some(Generator::Natural)
            &&& !(t.contains_key("door"@) || t.contains_key("entrance"@))
                && !(t.contains_key("natural"@) && t["natural"@] == "tree"@)
                && t.contains_key("amenity"@)
                ==> outcome == Some(Generator::Amenities)
            &&& !(t.contains_key("door"@) || t.contains_key("entrance"@))
                && !(t.contains_key("natural"@) && t["natural"@] == "tree"@)
                && !t.contains_key("amenity"@)
                && t.contains_key("barrier"@)
                ==> outcome == Some(Generator::BarrierNodes)
            &&& !(t.contains_key("door"@) || t.contains_key("entrance"@))
                && !(t.contains_key("natural"@) && t["natural"@] == "tree"@)
                && !t.contains_key("amenity"@)
                && !t.contains_key("barrier"@)
                && t.contains_key("highway"@)
                ==> outcome == Some(Generator::Highways)
            &&& !(t.contains_key("door"@) || t.contains_key("entrance"@))
                && !(t.contains_key("natural"@) && t["natural"@] == "tree"@)
                && !t.contains_key("amenity"@)
                && !t.contains_key("barrier"@)
                && !t.contains_key("highway"@)
                && t.contains_key("tourism"@)
                ==> outcome == Some(Generator::Tourisms)
            &&& !(t.contains_key("door"@) || t.contains_key("entrance"@))
                && !(t.contains_key("natural"@) && t["natural"@] == "tree"@)
                && !t.contains_key("amenity"@)
                && !t.contains_key("barrier"@)
                && !t.contains_key("highway"@)
                && !t.contains_key("tourism"@)
                && t.contains_key("man_made"@)
                ==> outcome == Some(Generator::ManMadeNodes)
            &&& !(t.contains_key("door"@) || t.contains_key("entrance"@))
                && !(t.contains_key("natural"@) && t["natural"@] == "tree"@)
                && !t.contains_key("amenity"@)
                && !t.contains_key("barrier"@)
                && !t.contains_key("highway"@)
                && !t.contains_key("tourism"@)
                && !t.contains_key("man_made"@)
                ==> outcome == None::<Generator>
        }),
{
    let element = ElementView::Node(node);
    let rules = rules_for(element);
    let outcome = generator_of(element);
    the_rules_decide(element, outcome);
    if exists|i: int| is_first(rules, i) && (#[trigger] rules[i]).generator == outcome {
        let i = choose|i: int| is_first(rules, i) && (#[trigger] rules[i]).generator == outcome;
        assert(i > 0 ==> !rules[0].applies);
        assert(i > 1 ==> !rules[1].applies);
        assert(i > 2 ==> !rules[2].applies);
        assert(i > 3 ==> !rules[3].applies);
        assert(i > 4 ==> !rules[4].applies);
        assert(i > 5 ==> !rules[5].applies);
        assert(i > 6 ==> !rules[6].applies);
    } else {
        assert(!rules[0].applies);
        assert(!rules[1].applies);
        assert(!rules[2].applies);
        assert(!rules[3].applies);
        assert(!rules[4].applies);
        assert(!rules[5].applies);
        assert(!rules[6].applies);
    }
}

/// What draws a relation: the first of its tags in this order decides, whatever
/// other tags it has. Water comes before the other natural features, and of
/// leisure only a park counts.
pub proof fn relations_are_drawn_by_their_first_tag(relation: RelationView)
    ensures
        ({
            let t = relation.tags;
            let outcome = generator_of(ElementView::Relation(relation));
            &&& (t.contains_key("building"@) || t.contains_key("building:part"@))
                ==> outcome == Some(Generator::BuildingFromRelation)
            &&& !(t.contains_key("building"@) || t.contains_key("building:part"@))
                && (t.contains_key("water"@) || (t.contains_key("natural"@) && t["natural"@] == "water"@))
                ==> outcome == Some(Generator::WaterAreas)
            &&& !(t.contains_key("building"@) || t.contains_key("building:part"@))
                && !(t.contains_key("water"@) || (t.contains_key("natural"@) && t["natural"@] == "water"@))
                && t.contains_key("natural"@)
                ==> outcome == Some(Generator::NaturalFromRelation)
            &&& !(t.contains_key("building"@) || t.contains_key("building:part"@))
                && !(t.contains_key("water"@) || (t.contains_key("natural"@) && t["natural"@] == "water"@))
                && !t.contains_key("natural"@)
                && t.contains_key("landuse"@)
                ==> outcome == Some(Generator::LanduseFromRelation)
            &&& !(t.contains_key("building"@) || t.contains_key("building:part"@))
                && !(t.contains_key("water"@) || (t.contains_key("natural"@) && t["natural"@] == "water"@))
                && !t.contains_key("natural"@)
                && !t.contains_key("landuse"@)
                && (t.contains_key("leisure"@) && t["leisure"@] == "park"@)
                ==> outcome == Some(Generator::LeisureFromRelation)
            &&& !(t.contains_key("building"@) || t.contains_key("building:part"@))
                && !(t.contains_key("water"@) || (t.contains_key("natural"@) && t["natural"@] == "water"@))
                && !t.contains_key("natural"@)
                && !t.contains_key("landuse"@)
                && !(t.contains_key("leisure"@) && t["leisure"@] == "park"@)
                && t.contains_key("man_made"@)
                ==> outcome == Some(Generator::ManMade)
            &&& !(t.contains_key("building"@) || t.contains_key("building:part"@))
                && !(t.contains_key("water"@) || (t.contains_key("natural"@) && t["natural"@] == "water"@))
                && !t.contains_key("natural"@)
                && !t.contains_key("landuse"@)
                && !(t.contains_key("leisure"@) && t["leisure"@] == "park"@)
                && !t.contains_key("man_made"@)
                ==> outcome == None::<Generator>
        }),
{
    let element = ElementView::Relation(relation);
    let rules = rules_for(element);
    let outcome = generator_of(element);
    the_rules_decide(element, outcome);
    if exists|i: int| is_first(rules, i) && (#[trigger] rules[i]).generator == outcome {
        let i = choose|i: int| is_first(rules, i) && (#[trigger] rules[i]).generator == outcome;
        assert(i > 0 ==> !rules[0].applies);
        assert(i > 1 ==> !rules[1].applies);
        assert(i > 2 ==> !rules[2].applies);
        assert(i > 3 ==> !rules[3].applies);
        assert(i > 4 ==> !rules[4].applies);
        assert(i > 5 ==> !rules[5].applies);
    } else {
        assert(!rules[0].applies);
        assert(!rules[1].applies);
        assert(!rules[2].applies);
        assert(!rules[3].applies);
        assert(!rules[4].applies);
        assert(!rules[5].applies);
    }
}

/// Only an element's kind and tags decide what draws it: not its id, its place,
/// its nodes or its members.
pub proof fn only_the_tags_decide(
    node: NodeView,
    other_node: NodeView,
    way: WayView,
    other_way: WayView,
    relation: RelationView,
    other_relation: RelationView,
)
    requires
        node.tags == other_node.tags,
        way.tags == other_way.tags,
        relation.tags == other_relation.tags,
    ensures
        generator_of(ElementView::Node(node)) == generator_of(ElementView::Node(other_node)),
        generator_of(ElementView::Way(way)) == generator_of(ElementView::Way(other_way)),
        generator_of(ElementView::Relation(relation)) == generator_of(
            ElementView::Relation(other_relation),
        ),
{
}

} // verus!
