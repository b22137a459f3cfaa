//! Which generator draws an element, decided by its tags.

use crate::elements::{ElementView, ProcessedElement};
use crate::tags::Tags;
use vstd::prelude::*;

verus! {

/// The generators of the world's contents.
#[derive(Debug, Clone, Copy, PartialEq, Eq, Structural)]
pub enum Generator {
    Buildings,
    BuildingFromRelation,
    Highways,
    Aeroway,
    Siding,
    Landuse,
    LanduseFromRelation,
    Natural,
    NaturalFromRelation,
    Amenities,
    Leisure,
    LeisureFromRelation,
    Barriers,
    BarrierNodes,
    Waterways,
    WaterAreas,
    Railways,
    ManMade,
    ManMadeNodes,
    Doors,
    Tourisms,
}

/// A rule: whether it applies, and the generator that it then names. `None`
/// stands for drawing nothing.
pub struct Rule {
    pub applies: bool,
    pub generator: Option<Generator>,
}

pub open spec fn rule(applies: bool, generator: Generator) -> Rule {
    Rule { applies, generator: Some(generator) }
}

/// The outcome is that of the first rule that applies; with no such rule,
/// nothing is drawn.
pub open spec fn decided_by(rules: Seq<Rule>, outcome: Option<Generator>) -> bool {
    ||| exists|i: int| is_first(rules, i) && (#[trigger] rules[i]).generator == outcome
    ||| (forall|i: int| 0 <= i < rules.len() ==> !(#[trigger] rules[i]).applies) && outcome is None
}

/// The rule of index `i` is the first that applies.
pub open spec fn is_first(rules: Seq<Rule>, i: int) -> bool {
    &&& 0 <= i < rules.len()
    &&& rules[i].applies
    &&& forall|j: int| 0 <= j < i ==> !(#[trigger] rules[j]).applies
}

/// The tag `key` is present.
pub open spec fn tagged(tags: Map<Seq<char>, Seq<char>>, key: &str) -> bool {
    tags.contains_key(key@)
}

/// The tag `key` is present with the value `value`.
pub open spec fn tag_is(tags: Map<Seq<char>, Seq<char>>, key: &str, value: &str) -> bool {
    tags.contains_key(key@) && tags[key@] == value@
}

/// The rules for ways. Bridges are not drawn.
pub open spec fn way_rules(t: Map<Seq<char>, Seq<char>>) -> Seq<Rule> {
    seq![
        rule(tagged(t, "building") || tagged(t, "building:part"), Generator::Buildings),
        rule(tagged(t, "highway"), Generator::Highways),
        rule(tagged(t, "landuse"), Generator::Landuse),
        rule(tagged(t, "natural"), Generator::Natural),
        rule(tagged(t, "amenity"), Generator::Amenities),
        rule(tagged(t, "leisure"), Generator::Leisure),
        rule(tagged(t, "barrier"), Generator::Barriers),
        rule(tagged(t, "waterway"), Generator::Waterways),
        Rule { applies: tagged(t, "bridge"), generator: None },
        rule(tagged(t, "railway"), Generator::Railways),
        rule(tagged(t, "aeroway") || tagged(t, "area:aeroway"), Generator::Aeroway),
        rule(tag_is(t, "service", "siding"), Generator::Siding),
        rule(tagged(t, "man_made"), Generator::ManMade),
    ]
}

/// The rules for nodes.
pub open spec fn node_rules(t: Map<Seq<char>, Seq<char>>) -> Seq<Rule> {
    seq![
        rule(tagged(t, "door") || tagged(t, "entrance"), Generator::Doors),
        rule(tag_is(t, "natural", "tree"), Generator::Natural),
        rule(tagged(t, "amenity"), Generator::Amenities),
        rule(tagged(t, "barrier"), Generator::BarrierNodes),
        rule(tagged(t, "highway"), Generator::Highways),
        rule(tagged(t, "tourism"), Generator::Tourisms),
        rule(tagged(t, "man_made"), Generator::ManMadeNodes),
    ]
}

/// The rules for relations.
pub open spec fn relation_rules(t: Map<Seq<char>, Seq<char>>) -> Seq<Rule> {
    seq![
        rule(tagged(t, "building") || tagged(t, "building:part"), Generator::BuildingFromRelation),
        rule(tagged(t, "water") || tag_is(t, "natural", "water"), Generator::WaterAreas),
        rule(tagged(t, "natural"), Generator::NaturalFromRelation),
        rule(tagged(t, "landuse"), Generator::LanduseFromRelation),
        rule(tag_is(t, "leisure", "park"), Generator::LeisureFromRelation),
        rule(tagged(t, "man_made"), Generator::ManMade),
    ]
}

/// The rules for an element.
pub open spec fn rules_for(element: ElementView) -> Seq<Rule> {
    match element {
        ElementView::Node(node) => node_rules(node.tags),
        ElementView::Way(way) => way_rules(way.tags),
        ElementView::Relation(relation) => relation_rules(relation.tags),
    }
}

/// The generator that draws an element, if one does.
pub open spec fn generator_of(element: ElementView) -> Option<Generator> {
    choose|outcome: Option<Generator>| decided_by(rules_for(element), outcome)
}

/// Rules decide at most one outcome.
proof fn lemma_one_outcome(rules: Seq<Rule>, a: Option<Generator>, b: Option<Generator>)
    requires
        decided_by(rules, a),
        decided_by(rules, b),
    ensures
        a == b,
{
    if exists|i: int| is_first(rules, i) && (#[trigger] rules[i]).generator == a {
        let i = choose|i: int| is_first(rules, i) && (#[trigger] rules[i]).generator == a;
        if exists|j: int| is_first(rules, j) && (#[trigger] rules[j]).generator == b {
            let j = choose|j: int| is_first(rules, j) && (#[trigger] rules[j]).generator == b;
            if i < j {
                assert(!rules[i].applies);
            }
            if j < i {
                assert(!rules[j].applies);
            }
        }
    }
}

/// Among rules of which one applies, one is the first that does.
proof fn lemma_a_first(rules: Seq<Rule>, k: int) -> (i: int)
    requires
        0 <= k < rules.len(),
        rules[k].applies,
    ensures
        is_first(rules, i),
    decreases k,
{
    if exists|j: int| 0 <= j < k && (#[trigger] rules[j]).applies {
        let j = choose|j: int| 0 <= j < k && (#[trigger] rules[j]).applies;
        lemma_a_first(rules, j)
    } else {
        k
    }
}

/// The rules decide exactly one outcome for every element.
pub proof fn the_rules_decide(element: ElementView, outcome: Option<Generator>)
    ensures
        decided_by(rules_for(element), outcome) <==> outcome == generator_of(element),
{
    let rules = rules_for(element);
    if exists|k: int| 0 <= k < rules.len() && (#[trigger] rules[k]).applies {
        let k = choose|k: int| 0 <= k < rules.len() && (#[trigger] rules[k]).applies;
        let i = lemma_a_first(rules, k);
        assert(decided_by(rules, rules[i].generator));
    } else {
        assert(decided_by(rules, None));
    }
    assert(decided_by(rules, generator_of(element)));
    if decided_by(rules, outcome) {
        lemma_one_outcome(rules, outcome, generator_of(element));
    }
}

fn way_generator(tags: &Tags) -> (r: Option<Generator>)
    ensures
        decided_by(way_rules(tags@), r),
{
    let ghost rules = way_rules(tags@);
    if tags.contains_key("building") || tags.contains_key("building:part") {
        assert(is_first(rules, 0));
        Some(Generator::Buildings)
    } else if tags.contains_key("highway") {
        assert(is_first(rules, 1));
        Some(Generator::Highways)
    } else if tags.contains_key("landuse") {
        assert(is_first(rules, 2));
        Some(Generator::Landuse)
    } else if tags.contains_key("natural") {
        assert(is_first(rules, 3));
        Some(Generator::Natural)
    } else if tags.contains_key("amenity") {
        assert(is_first(rules, 4));
        Some(Generator::Amenities)
    } else if tags.contains_key("leisure") {
        assert(is_first(rules, 5));
        Some(Generator::Leisure)
    } else if tags.contains_key("barrier") {
        assert(is_first(rules, 6));
        Some(Generator::Barriers)
    } else if tags.contains_key("waterway") {
        assert(is_first(rules, 7));
        Some(Generator::Waterways)
    } else if tags.contains_key("bridge") {
        assert(is_first(rules, 8));
        None
    } else if tags.contains_key("railway") {
        assert(is_first(rules, 9));
        Some(Generator::Railways)
    } else if tags.contains_key("aeroway") || tags.contains_key("area:aeroway") {
        assert(is_first(rules, 10));
        Some(Generator::Aeroway)
    } else if tags.has_value("service", "siding") {
        assert(is_first(rules, 11));
        Some(Generator::Siding)
    } else if tags.contains_key("man_made") {
        assert(is_first(rules, 12));
        Some(Generator::ManMade)
    } else {
        None
    }
}

fn node_generator(tags: &Tags) -> (r: Option<Generator>)
    ensures
        decided_by(node_rules(tags@), r),
{
    let ghost rules = node_rules(tags@);
    if tags.contains_key("door") || tags.contains_key("entrance") {
        assert(is_first(rules, 0));
        Some(Generator::Doors)
    } else if tags.has_value("natural", "tree") {
        assert(is_first(rules, 1));
        Some(Generator::Natural)
    } else if tags.contains_key("amenity") {
        assert(is_first(rules, 2));
        Some(Generator::Amenities)
    } else if tags.contains_key("barrier") {
        assert(is_first(rules, 3));
        Some(Generator::BarrierNodes)
    } else if tags.contains_key("highway") {
        assert(is_first(rules, 4));
        Some(Generator::Highways)
    } else if tags.contains_key("tourism") {
        assert(is_first(rules, 5));
        Some(Generator::Tourisms)
    } else if tags.contains_key("man_made") {
        assert(is_first(rules, 6));
        Some(Generator::ManMadeNodes)
    } else {
        None
    }
}

fn relation_generator(tags: &Tags) -> (r: Option<Generator>)
    ensures
        decided_by(relation_rules(tags@), r),
{
    let ghost rules = relation_rules(tags@);
    if tags.contains_key("building") || tags.contains_key("building:part") {
        assert(is_first(rules, 0));
        Some(Generator::BuildingFromRelation)
    } else if tags.contains_key("water") || tags.has_value("natural", "water") {
        assert(is_first(rules, 1));
        Some(Generator::WaterAreas)
    } else if tags.contains_key("natural") {
        assert(is_first(rules, 2));
        Some(Generator::NaturalFromRelation)
    } else if tags.contains_key("landuse") {
        assert(is_first(rules, 3));
        Some(Generator::LanduseFromRelation)
    } else if tags.has_value("leisure", "park") {
        assert(is_first(rules, 4));
        Some(Generator::LeisureFromRelation)
    } else if tags.contains_key("man_made") {
        assert(is_first(rules, 5));
        Some(Generator::ManMade)
    } else {
        None
    }
}

/// Picks the generator for an element; `None` when nothing is drawn for it.
pub fn element_generator(element: &ProcessedElement) -> (r: Option<Generator>)
    ensures
        decided_by(rules_for(element@), r),
        r == generator_of(element@),
{
    let r = match element {
        ProcessedElement::Node(node) => node_generator(&node.tags),
        ProcessedElement::Way(way) => way_generator(&way.tags),
        ProcessedElement::Relation(relation) => relation_generator(&relation.tags),
    };
    proof {
        the_rules_decide(element@, r);
    }
    r
}

} // verus!
