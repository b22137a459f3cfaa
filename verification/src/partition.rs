//! Sorting elements into tiles.

use crate::batching::Tile;
use crate::buckets::{bucket_in, lists_no_empty_bucket, push_to_bucket};
use crate::elements::{element_views, node_ref_views, ElementView, ProcessedElement, ProcessedNode};
use std::collections::BTreeMap;
use vstd::prelude::*;

verus! {

/// One of the element's nodes lies in the tile.
pub open spec fn touches(tile: Tile, element: ElementView) -> bool {
    exists|i: int| 0 <= i < element.nodes().len() && #[trigger] node_in(tile, element, i)
}

/// The node of index `i` lies in the tile.
pub open spec fn node_in(tile: Tile, element: ElementView, i: int) -> bool {
    tile.rect().has(element.nodes()[i].x as int, element.nodes()[i].z as int)
}

/// The number of tiles with this id that the element touches.
pub open spec fn touched_count(tiles: Seq<Tile>, element: ElementView, id: (i32, i32)) -> nat
    decreases tiles.len(),
{
    if tiles.len() == 0 {
        0
    } else {
        touched_count(tiles.drop_last(), element, id) + if tiles.last().id == id && touches(
            tiles.last(),
            element,
        ) {
            1nat
        } else {
            0nat
        }
    }
}

/// The element touches one of the tiles.
pub open spec fn touches_any(tiles: Seq<Tile>, element: ElementView) -> bool {
    exists|j: int| 0 <= j < tiles.len() && touches(#[trigger] tiles[j], element)
}

/// How often an element is listed under an id: once for every tile with this
/// id that it touches. An element that touches no tile is listed once, under
/// the first tile's id.
pub open spec fn copies(tiles: Seq<Tile>, element: ElementView, id: (i32, i32)) -> nat {
    if touches_any(tiles, element) {
        touched_count(tiles, element, id)
    } else if tiles.len() > 0 && tiles[0].id == id {
        1
    } else {
        0
    }
}

/// The element, `n` times.
pub open spec fn repeated(element: ElementView, n: nat) -> Seq<ElementView> {
    Seq::new(n, |i: int| element)
}

/// What is listed under an id: the elements in their order, each as often as
/// `copies` says.
pub open spec fn bucket(elements: Seq<ElementView>, tiles: Seq<Tile>, id: (i32, i32)) -> Seq<
    ElementView,
>
    decreases elements.len(),
{
    if elements.len() == 0 {
        Seq::empty()
    } else {
        bucket(elements.drop_last(), tiles, id) + repeated(
            elements.last(),
            copies(tiles, elements.last(), id),
        )
    }
}

/// Whether the tile holds one of the nodes.
fn holds_a_node(tile: &Tile, nodes: &Vec<&ProcessedNode>) -> (r: bool)
    ensures
        r <==> exists|i: int|
            0 <= i < nodes@.len() && tile.rect().has(
                (#[trigger] node_ref_views(nodes@)[i]).x as int,
                node_ref_views(nodes@)[i].z as int,
            ),
{
    let mut i: usize = 0;
    while i < nodes.len()
        invariant
            i <= nodes@.len(),
            forall|k: int|
                0 <= k < i ==> !tile.rect().has(
                    (#[trigger] node_ref_views(nodes@)[k]).x as int,
                    node_ref_views(nodes@)[k].z as int,
                ),
        decreases nodes@.len() - i,
    {
        let p = nodes[i].xz();
        assert(node_ref_views(nodes@)[i as int] == nodes@[i as int]@);
        if tile.contains_point(p.x, p.z) {
            return true;
        }
        i = i + 1;
    }
    false
}

/// An element that touches no tile is counted under no id.
proof fn lemma_untouched(tiles: Seq<Tile>, element: ElementView, id: (i32, i32))
    requires
        !touches_any(tiles, element),
    ensures
        touched_count(tiles, element, id) == 0,
    decreases tiles.len(),
{
    if tiles.len() > 0 {
        assert(!touches(tiles[tiles.len() - 1], element));
        assert forall|j: int| 0 <= j < tiles.drop_last().len() implies !touches(
            #[trigger] tiles.drop_last()[j],
            element,
        ) by {
            assert(tiles.drop_last()[j] == tiles[j]);
        }
        lemma_untouched(tiles.drop_last(), element, id);
    }
}

/// Sorts elements into tile buckets. An element goes to every tile that
/// contains at least one of its nodes; a relation's nodes are those of its
/// member ways. An element with no node in any tile goes to the first tile.
/// Only ids that received an element are listed.
pub fn partition_elements_by_tile(elements: &[ProcessedElement], tiles: &[Tile]) -> (map: BTreeMap<
    (i32, i32),
    Vec<ProcessedElement>,
>)
    ensures
        forall|id: (i32, i32)|
            #[trigger] map@.contains_key(id) <==> bucket(
                element_views(elements@),
                tiles@,
                id,
            ).len() > 0,
        forall|id: (i32, i32)| #[trigger]
            map@.contains_key(id) ==> element_views(map@[id]@) == bucket(
                element_views(elements@),
                tiles@,
                id,
            ),
{
    let mut map: BTreeMap<(i32, i32), Vec<ProcessedElement>> = BTreeMap::new();
    let ghost views = element_views(elements@);
    let mut i: usize = 0;
    while i < elements.len()
        invariant
            i <= elements@.len(),
            views == element_views(elements@),
            lists_no_empty_bucket(map@),
            forall|id: (i32, i32)| #[trigger]
                bucket_in(map@, id) == bucket(views.take(i as int), tiles@, id),
        decreases elements@.len() - i,
    {
        let element = &elements[i];
        let ghost e = element@;
        let ghost before = map@;
        let nodes = element.nodes();
        let mut assigned: bool = false;
        let mut j: usize = 0;
        while j < tiles.len()
            invariant
                j <= tiles@.len(),
                e == element@,
                node_ref_views(nodes@) == e.nodes(),
                lists_no_empty_bucket(map@),
                assigned == touches_any(tiles@.take(j as int), e),
                forall|id: (i32, i32)| #[trigger]
                    bucket_in(map@, id) == bucket_in(before, id) + repeated(
                        e,
                        touched_count(tiles@.take(j as int), e, id),
                    ),
            decreases tiles@.len() - j,
        {
            let ghost seen = tiles@.take(j as int);
            let ghost upto = tiles@.take(j + 1);
            let ghost map_before = map@;
            let has_point = holds_a_node(&tiles[j], &nodes);
            proof {
                assert(upto.drop_last() =~= seen);
                assert(upto.last() == tiles@[j as int]);
                assert(has_point == touches(tiles@[j as int], e)) by {
                    if has_point {
                        let k = choose|k: int|
                            0 <= k < nodes@.len() && tiles@[j as int].rect().has(
                                (#[trigger] node_ref_views(nodes@)[k]).x as int,
                                node_ref_views(nodes@)[k].z as int,
                            );
                        assert(node_in(tiles@[j as int], e, k));
                    }
                    if touches(tiles@[j as int], e) {
                        let k = choose|k: int|
                            0 <= k < e.nodes().len() && #[trigger] node_in(tiles@[j as int], e, k);
                        assert(node_ref_views(nodes@)[k] == e.nodes()[k]);
                    }
                }
                assert(touches_any(upto, e) == (touches_any(seen, e) || has_point)) by {
                    if touches_any(upto, e) {
                        let k = choose|k: int|
                            0 <= k < upto.len() && touches(#[trigger] upto[k], e);
                        assert(k < j ==> seen[k] == upto[k]);
                    }
                    if touches_any(seen, e) {
                        let k = choose|k: int|
                            0 <= k < seen.len() && touches(#[trigger] seen[k], e);
                        assert(seen[k] == upto[k]);
                    }
                    if has_point {
                        assert(touches(upto[j as int], e));
                    }
                }
            }
            if has_point {
                push_to_bucket(&mut map, tiles[j].id, element.clone());
                assigned = true;
            }
            proof {
                assert forall|id: (i32, i32)| #[trigger]
                    bucket_in(map@, id) == bucket_in(before, id) + repeated(
                        e,
                        touched_count(upto, e, id),
                    ) by {
                    assert(bucket_in(map_before, id) == bucket_in(before, id) + repeated(
                        e,
                        touched_count(seen, e, id),
                    ));
                    assert(bucket_in(map@, id) =~= bucket_in(before, id) + repeated(
                        e,
                        touched_count(upto, e, id),
                    ));
                }
            }
            j = j + 1;
        }
        assert(tiles@.take(j as int) =~= tiles@);
        let ghost map_before = map@;
        if !assigned && tiles.len() > 0 {
            push_to_bucket(&mut map, tiles[0].id, element.clone());
        }
        proof {
            let upto = views.take(i + 1);
            assert(upto.drop_last() =~= views.take(i as int));
            assert(upto.last() == e);
            assert forall|id: (i32, i32)| #[trigger]
                bucket_in(map@, id) == bucket(upto, tiles@, id) by {
                assert(bucket_in(map_before, id) == bucket_in(before, id) + repeated(
                    e,
                    touched_count(tiles@, e, id),
                ));
                if !assigned {
                    lemma_untouched(tiles@, e, id);
                }
                assert(bucket_in(map@, id) =~= bucket_in(before, id) + repeated(
                    e,
                    copies(tiles@, e, id),
                ));
            }
        }
        i = i + 1;
    }
    proof {
        assert(views.take(i as int) =~= views);
        assert forall|id: (i32, i32)| #[trigger] map@.contains_key(id) <==> bucket(
            views,
            tiles@,
            id,
        ).len() > 0 by {
            assert(bucket_in(map@, id) == bucket(views, tiles@, id));
        }
        assert forall|id: (i32, i32)| #[trigger] map@.contains_key(id) implies element_views(
            map@[id]@,
        ) == bucket(views, tiles@, id) by {
            assert(bucket_in(map@, id) == bucket(views, tiles@, id));
        }
    }
    map
}

} // verus!
