//! What holds of the buckets of a set of elements as a whole.

use crate::batching::{tiling, tiling_fits, Tile};
use crate::coordinates::Rect;
use crate::elements::{
    element_views, member_nodes, ElementView, MemberView, NodeView, ProcessedElement, ProcessedNode,
    ProcessedRelation, ProcessedWay, RelationView,
};
use crate::partition::{bucket, copies, node_in, repeated, touched_count, touches, touches_any};
use crate::tile_laws::{
    a_column_is_in_the_tile_of_its_id, distinct_ids, id_of, tile_ids_are_distinct,
    tiles_cover_the_area_once,
};
use vstd::prelude::*;

verus! {

/// The counted tiles are among those with the id that the element touches.
proof fn lemma_counted(tiles: Seq<Tile>, element: ElementView, id: (i32, i32))
    ensures
        touched_count(tiles, element, id) > 0 <==> exists|j: int|
            0 <= j < tiles.len() && (#[trigger] tiles[j]).id == id && touches(tiles[j], element),
    decreases tiles.len(),
{
    if tiles.len() > 0 {
        let rest = tiles.drop_last();
        lemma_counted(rest, element, id);
        if exists|j: int|
            0 <= j < tiles.len() && (#[trigger] tiles[j]).id == id && touches(tiles[j], element) {
            let j = choose|j: int|
                0 <= j < tiles.len() && (#[trigger] tiles[j]).id == id && touches(
                    tiles[j],
                    element,
                );
            if j < rest.len() {
                assert(rest[j] == tiles[j]);
            }
        }
        if touched_count(rest, element, id) > 0 {
            let j = choose|j: int|
                0 <= j < rest.len() && (#[trigger] rest[j]).id == id && touches(rest[j], element);
            assert(tiles[j] == rest[j]);
        }
        assert(tiles[tiles.len() - 1] == tiles.last());
    }
}

/// Where no two tiles share an id, an element is counted at most once.
proof fn lemma_counted_once(tiles: Seq<Tile>, element: ElementView, id: (i32, i32))
    requires
        distinct_ids(tiles),
    ensures
        touched_count(tiles, element, id) <= 1,
    decreases tiles.len(),
{
    if tiles.len() > 0 {
        let rest = tiles.drop_last();
        assert forall|i: int, j: int|
            0 <= i < rest.len() && 0 <= j < rest.len() && i != j implies (#[trigger] rest[i]).id
            != (#[trigger] rest[j]).id by {
            assert(rest[i] == tiles[i] && rest[j] == tiles[j]);
        }
        lemma_counted_once(rest, element, id);
        if tiles.last().id == id && touched_count(rest, element, id) > 0 {
            lemma_counted(rest, element, id);
            let j = choose|j: int|
                0 <= j < rest.len() && (#[trigger] rest[j]).id == id && touches(rest[j], element);
            assert(tiles[j].id != tiles[tiles.len() - 1].id);
        }
    }
}

/// A bucket lists an element exactly if the element is among those given and
/// belongs under the bucket's id.
pub proof fn a_bucket_lists_what_belongs_there(
    elements: Seq<ElementView>,
    tiles: Seq<Tile>,
    id: (i32, i32),
    element: ElementView,
)
    ensures
        bucket(elements, tiles, id).contains(element) <==> elements.contains(element) && copies(
            tiles,
            element,
            id,
        ) > 0,
    decreases elements.len(),
{
    if elements.len() > 0 {
        let rest = elements.drop_last();
        let last = elements.last();
        a_bucket_lists_what_belongs_there(rest, tiles, id, element);
        let head = bucket(rest, tiles, id);
        let tail = repeated(last, copies(tiles, last, id));
        let all = head + tail;
        assert(elements.contains(element) <==> rest.contains(element) || element == last) by {
            assert(elements =~= rest.push(last));
            if rest.contains(element) {
                let k = choose|k: int| 0 <= k < rest.len() && rest[k] == element;
                assert(elements[k] == element);
            }
            if elements.contains(element) {
                let k = choose|k: int| 0 <= k < elements.len() && elements[k] == element;
                if k < rest.len() {
                    assert(rest[k] == element);
                }
            }
            assert(elements[elements.len() - 1] == last);
        }
        if all.contains(element) {
            let k = choose|k: int| 0 <= k < all.len() && all[k] == element;
            if k < head.len() {
                assert(head[k] == element);
                assert(head.contains(element));
            } else {
                assert(tail[k - head.len()] == element);
            }
        }
        if head.contains(element) {
            let k = choose|k: int| 0 <= k < head.len() && head[k] == element;
            assert(all[k] == element);
        }
        if element == last && copies(tiles, last, id) > 0 {
            assert(all[head.len() as int] == element);
        }
    }
}

/// An element is in the bucket of every tile that contains one of its nodes.
pub proof fn an_element_is_in_every_tile_it_touches(
    elements: Seq<ElementView>,
    tiles: Seq<Tile>,
    i: int,
    j: int,
)
    requires
        0 <= i < elements.len(),
        0 <= j < tiles.len(),
        touches(tiles[j], elements[i]),
    ensures
        bucket(elements, tiles, tiles[j].id).contains(elements[i]),
{
    let id = tiles[j].id;
    assert(touches_any(tiles, elements[i]));
    lemma_counted(tiles, elements[i], id);
    assert(tiles[j].id == id && touches(tiles[j], elements[i]));
    a_bucket_lists_what_belongs_there(elements, tiles, id, elements[i]);
}

/// A node of a member way is a node of the relation.
proof fn lemma_member_node(members: Seq<MemberView>, m: int, n: int)
    requires
        0 <= m < members.len(),
        0 <= n < members[m].way.nodes.len(),
    ensures
        member_nodes(members).contains(members[m].way.nodes[n]),
    decreases members.len(),
{
    let node = members[m].way.nodes[n];
    let head = member_nodes(members.drop_last());
    let all = member_nodes(members);
    if m == members.len() - 1 {
        assert(all[head.len() + n] == node);
    } else {
        assert(members.drop_last()[m] == members[m]);
        lemma_member_node(members.drop_last(), m, n);
        let k = choose|k: int| 0 <= k < head.len() && head[k] == node;
        assert(all[k] == node);
    }
}

/// A relation touches every tile that contains a node of one of its member
/// ways.
pub proof fn a_relation_touches_the_tiles_of_its_members(
    relation: RelationView,
    m: int,
    n: int,
    tile: Tile,
)
    requires
        0 <= m < relation.members.len(),
        0 <= n < relation.members[m].way.nodes.len(),
        tile.rect().has(
            relation.members[m].way.nodes[n].x as int,
            relation.members[m].way.nodes[n].z as int,
        ),
    ensures
        touches(tile, ElementView::Relation(relation)),
{
    lemma_member_node(relation.members, m, n);
    let nodes = member_nodes(relation.members);
    let k = choose|k: int|
        0 <= k < nodes.len() && nodes[k] == relation.members[m].way.nodes[n];
    assert(node_in(tile, ElementView::Relation(relation), k));
}

/// Where there is a tile, every element is in some bucket.
pub proof fn no_element_is_lost(elements: Seq<ElementView>, tiles: Seq<Tile>, i: int)
    requires
        0 <= i < elements.len(),
        tiles.len() > 0,
    ensures
        exists|j: int|
            0 <= j < tiles.len() && bucket(elements, tiles, (#[trigger] tiles[j]).id).contains(
                elements[i],
            ),
{
    let e = elements[i];
    if touches_any(tiles, e) {
        let j = choose|j: int| 0 <= j < tiles.len() && touches(#[trigger] tiles[j], e);
        an_element_is_in_every_tile_it_touches(elements, tiles, i, j);
    } else {
        a_bucket_lists_what_belongs_there(elements, tiles, tiles[0].id, e);
    }
}

/// Without tiles, nothing is listed.
pub proof fn without_tiles_nothing_is_listed(elements: Seq<ElementView>, id: (i32, i32))
    ensures
        bucket(elements, Seq::<Tile>::empty(), id).len() == 0,
    decreases elements.len(),
{
    if elements.len() > 0 {
        without_tiles_nothing_is_listed(elements.drop_last(), id);
    }
}

/// A tile that stands alone gets every element, once and in order.
pub proof fn a_lone_tile_gets_everything(elements: Seq<ElementView>, tile: Tile)
    ensures
        bucket(elements, seq![tile], tile.id) == elements,
    decreases elements.len(),
{
    if elements.len() > 0 {
        let last = elements.last();
        let tiles = seq![tile];
        a_lone_tile_gets_everything(elements.drop_last(), tile);
        assert(copies(tiles, last, tile.id) == 1) by {
            if touches_any(tiles, last) {
                let j = choose|j: int| 0 <= j < tiles.len() && touches(#[trigger] tiles[j], last);
                assert(tiles.drop_last() =~= Seq::empty());
                assert(touched_count(tiles.drop_last(), last, tile.id) == 0);
                assert(tiles.last() == tile);
            }
        }
        assert(bucket(elements, tiles, tile.id) =~= elements);
    } else {
        assert(bucket(elements, seq![tile], tile.id) =~= elements);
    }
}

/// Sorting two lists of elements one after the other gives the same buckets as
/// sorting them together.
pub proof fn buckets_follow_the_order_of_the_elements(
    first: Seq<ElementView>,
    second: Seq<ElementView>,
    tiles: Seq<Tile>,
    id: (i32, i32),
)
    ensures
        bucket(first + second, tiles, id) == bucket(first, tiles, id) + bucket(second, tiles, id),
    decreases second.len(),
{
    if second.len() == 0 {
        assert(first + second =~= first);
        assert(bucket(first, tiles, id) + bucket(second, tiles, id) =~= bucket(first, tiles, id));
    } else {
        assert((first + second).drop_last() =~= first + second.drop_last());
        assert((first + second).last() == second.last());
        buckets_follow_the_order_of_the_elements(first, second.drop_last(), tiles, id);
        assert(bucket(first + second, tiles, id) =~= bucket(first, tiles, id) + bucket(
            second,
            tiles,
            id,
        ));
    }
}

/// Over the tiles of an area, an element is listed at most once under an id.
pub proof fn an_element_is_listed_once_per_tile(
    area: Rect,
    tile_size: int,
    element: ElementView,
    id: (i32, i32),
)
    requires
        tiling_fits(area, tile_size),
    ensures
        copies(tiling(area, tile_size), element, id) <= 1,
{
    tile_ids_are_distinct(area, tile_size);
    lemma_counted_once(tiling(area, tile_size), element, id);
}

/// Over the tiles of an area, a node in the area is listed once, under the id
/// of the tile that holds it, and under no other id.
pub proof fn a_node_is_in_exactly_one_tile(
    area: Rect,
    tile_size: int,
    node: NodeView,
    id: (i32, i32),
)
    requires
        tiling_fits(area, tile_size),
        tile_size > 0,
        area.has(node.x as int, node.z as int),
    ensures
        copies(tiling(area, tile_size), ElementView::Node(node), id) == if id == id_of(
            area,
            tile_size,
            node.x as int,
            node.z as int,
        ) {
            1nat
        } else {
            0nat
        },
{
    let tiles = tiling(area, tile_size);
    let e = ElementView::Node(node);
    let x = node.x as int;
    let z = node.z as int;
    tiles_cover_the_area_once(area, tile_size, x, z);
    let k = choose|k: int| 0 <= k < tiles.len() && (#[trigger] tiles[k]).rect().has(x, z);
    a_column_is_in_the_tile_of_its_id(area, tile_size, k, x, z);
    assert(node_in(tiles[k], e, 0));
    assert(touches(tiles[k], e));
    assert(touches_any(tiles, e));
    an_element_is_listed_once_per_tile(area, tile_size, e, id);
    lemma_counted(tiles, e, id);
    if touched_count(tiles, e, id) > 0 {
        let j = choose|j: int|
            0 <= j < tiles.len() && (#[trigger] tiles[j]).id == id && touches(tiles[j], e);
        let n = choose|n: int| 0 <= n < e.nodes().len() && #[trigger] node_in(tiles[j], e, n);
        assert(e.nodes()[n] == node);
        a_column_is_in_the_tile_of_its_id(area, tile_size, j, x, z);
    }
}

/// A column, given by its coordinates, lies between the bounds of a tile.
pub open spec fn between(tile: Tile, x: i32, z: i32) -> bool {
    tile.min_x <= x && x <= tile.max_x && tile.min_z <= z && z <= tile.max_z
}

/// An element touches a tile where one of its nodes lies between the tile's
/// bounds.
proof fn lemma_touches_between(tile: Tile, element: ElementView)
    ensures
        touches(tile, element) <==> exists|n: int|
            0 <= n < element.nodes().len() && between(
                tile,
                (#[trigger] element.nodes()[n]).x,
                element.nodes()[n].z,
            ),
{
    if touches(tile, element) {
        let n = choose|n: int| 0 <= n < element.nodes().len() && #[trigger] node_in(tile, element, n);
        assert(between(tile, element.nodes()[n].x, element.nodes()[n].z));
    }
    if exists|n: int|
        0 <= n < element.nodes().len() && between(
            tile,
            (#[trigger] element.nodes()[n]).x,
            element.nodes()[n].z,
        ) {
        let n = choose|n: int|
            0 <= n < element.nodes().len() && between(
                tile,
                (#[trigger] element.nodes()[n]).x,
                element.nodes()[n].z,
            );
        assert(node_in(tile, element, n));
    }
}

/// Where no two tiles share an id, an element counts once under the id of a
/// tile that it touches, and once under the first id if it touches none.
proof fn lemma_copies_of_tile(tiles: Seq<Tile>, element: ElementView, j: int)
    requires
        distinct_ids(tiles),
        0 <= j < tiles.len(),
    ensures
        copies(tiles, element, tiles[j].id) == if touches(tiles[j], element) || (j == 0
            && !touches_any(tiles, element)) {
            1nat
        } else {
            0nat
        },
{
    let id = tiles[j].id;
    lemma_counted_once(tiles, element, id);
    lemma_counted(tiles, element, id);
    if touches(tiles[j], element) {
        assert(touches_any(tiles, element));
    }
    if touched_count(tiles, element, id) > 0 {
        let k = choose|k: int|
            0 <= k < tiles.len() && (#[trigger] tiles[k]).id == id && touches(tiles[k], element);
        assert(k == j);
    }
    assert(tiles[0].id == id ==> j == 0);
}

/// Where no two tiles share an id, the bucket of a tile is the list of the
/// given elements without those that do not belong there: an element belongs
/// there if one of its nodes lies between the tile's bounds, or if this is the
/// first tile and no node of the element lies in any tile.
pub proof fn a_bucket_is_a_selection_of_the_elements(
    elements: Seq<ElementView>,
    tiles: Seq<Tile>,
    j: int,
)
    requires
        distinct_ids(tiles),
        0 <= j < tiles.len(),
    ensures
        bucket(elements, tiles, tiles[j].id) == elements.filter(
            |e: ElementView|
                (exists|n: int|
                    0 <= n < e.nodes().len() && between(
                        tiles[j],
                        (#[trigger] e.nodes()[n]).x,
                        e.nodes()[n].z,
                    )) || (j == 0 && forall|k: int, n: int|
                    0 <= k < tiles.len() && 0 <= n < e.nodes().len() ==> !between(
                        #[trigger] tiles[k],
                        (#[trigger] e.nodes()[n]).x,
                        e.nodes()[n].z,
                    )),
        ),
    decreases elements.len(),
{
    reveal(Seq::filter);
    if elements.len() > 0 {
        let e = elements.last();
        a_bucket_is_a_selection_of_the_elements(elements.drop_last(), tiles, j);
        lemma_copies_of_tile(tiles, e, j);
        lemma_touches_between(tiles[j], e);
        assert(touches_any(tiles, e) <==> exists|k: int, n: int|
            0 <= k < tiles.len() && 0 <= n < e.nodes().len() && between(
                #[trigger] tiles[k],
                (#[trigger] e.nodes()[n]).x,
                e.nodes()[n].z,
            )) by {
            lemma_touches_any_between(tiles, e);
        }
        let selected = elements.filter(
            |e: ElementView|
                (exists|n: int|
                    0 <= n < e.nodes().len() && between(
                        tiles[j],
                        (#[trigger] e.nodes()[n]).x,
                        e.nodes()[n].z,
                    )) || (j == 0 && forall|k: int, n: int|
                    0 <= k < tiles.len() && 0 <= n < e.nodes().len() ==> !between(
                        #[trigger] tiles[k],
                        (#[trigger] e.nodes()[n]).x,
                        e.nodes()[n].z,
                    )),
        );
        assert(bucket(elements, tiles, tiles[j].id) =~= selected);
    }
}

proof fn lemma_touches_any_between(tiles: Seq<Tile>, e: ElementView)
    ensures
        touches_any(tiles, e) <==> exists|k: int, n: int|
            0 <= k < tiles.len() && 0 <= n < e.nodes().len() && between(
                #[trigger] tiles[k],
                (#[trigger] e.nodes()[n]).x,
                e.nodes()[n].z,
            ),
{
    if touches_any(tiles, e) {
        let k = choose|k: int| 0 <= k < tiles.len() && touches(#[trigger] tiles[k], e);
        lemma_touches_between(tiles[k], e);
        let n = choose|n: int|
            0 <= n < e.nodes().len() && between(
                tiles[k],
                (#[trigger] e.nodes()[n]).x,
                e.nodes()[n].z,
            );
        assert(between(tiles[k], e.nodes()[n].x, e.nodes()[n].z));
    }
    if exists|k: int, n: int|
        0 <= k < tiles.len() && 0 <= n < e.nodes().len() && between(
            #[trigger] tiles[k],
            (#[trigger] e.nodes()[n]).x,
            e.nodes()[n].z,
        ) {
        let (k, n) = choose|k: int, n: int|
            0 <= k < tiles.len() && 0 <= n < e.nodes().len() && between(
                #[trigger] tiles[k],
                (#[trigger] e.nodes()[n]).x,
                e.nodes()[n].z,
            );
        assert(between(tiles[k], e.nodes()[n].x, e.nodes()[n].z));
        lemma_touches_between(tiles[k], e);
        assert(touches(tiles[k], e));
    }
}

/// Whether an element is listed under a tile's id, in terms of its nodes.
proof fn lemma_listed(elements: Seq<ElementView>, tiles: Seq<Tile>, i: int, j: int)
    requires
        0 <= i < elements.len(),
        0 <= j < tiles.len(),
    ensures
        touches(tiles[j], elements[i]) ==> bucket(elements, tiles, tiles[j].id).contains(
            elements[i],
        ),
        distinct_ids(tiles) ==> (bucket(elements, tiles, tiles[j].id).contains(elements[i]) <==> (
        touches(tiles[j], elements[i]) || (j == 0 && !touches_any(tiles, elements[i])))),
{
    if touches(tiles[j], elements[i]) {
        an_element_is_in_every_tile_it_touches(elements, tiles, i, j);
    }
    a_bucket_lists_what_belongs_there(elements, tiles, tiles[j].id, elements[i]);
    if distinct_ids(tiles) {
        lemma_copies_of_tile(tiles, elements[i], j);
    }
}

/// A way is listed under the id of every tile between whose bounds one of the
/// way's own nodes lies, the first and the last included. Where no two tiles
/// share an id and some node of the way lies in some tile, the way is listed
/// under no other id.
pub proof fn a_way_is_listed_where_its_nodes_are(
    elements: Seq<ProcessedElement>,
    tiles: Seq<Tile>,
    i: int,
    way: ProcessedWay,
    j: int,
)
    requires
        0 <= i < elements.len(),
        elements[i] == ProcessedElement::Way(way),
        0 <= j < tiles.len(),
    ensures
        forall|n: int|
            0 <= n < way.nodes@.len() && between(
                tiles[j],
                (#[trigger] way.nodes@[n]).x,
                way.nodes@[n].z,
            ) ==> bucket(element_views(elements), tiles, tiles[j].id).contains(elements[i]@),
        distinct_ids(tiles) && (exists|k: int, n: int|
            0 <= k < tiles.len() && 0 <= n < way.nodes@.len() && between(
                #[trigger] tiles[k],
                (#[trigger] way.nodes@[n]).x,
                way.nodes@[n].z,
            )) && bucket(element_views(elements), tiles, tiles[j].id).contains(elements[i]@)
            ==> exists|n: int|
            0 <= n < way.nodes@.len() && between(
                tiles[j],
                (#[trigger] way.nodes@[n]).x,
                way.nodes@[n].z,
            ),
        distinct_ids(tiles) && !(exists|k: int, n: int|
            0 <= k < tiles.len() && 0 <= n < way.nodes@.len() && between(
                #[trigger] tiles[k],
                (#[trigger] way.nodes@[n]).x,
                way.nodes@[n].z,
            )) ==> (bucket(element_views(elements), tiles, tiles[j].id).contains(elements[i]@) <==> j
            == 0),
{
    let e = elements[i]@;
    let views = element_views(elements);
    assert(views[i] == e);
    assert(e.nodes().len() == way.nodes@.len());
    assert forall|n: int| 0 <= n < way.nodes@.len() implies (#[trigger] e.nodes()[n]).x
        == way.nodes@[n].x && e.nodes()[n].z == way.nodes@[n].z by {}
    lemma_listed(views, tiles, i, j);
    lemma_touches_between(tiles[j], e);
    lemma_touches_any_between(tiles, e);
    assert forall|n: int|
        0 <= n < way.nodes@.len() && between(
            tiles[j],
            (#[trigger] way.nodes@[n]).x,
            way.nodes@[n].z,
        ) implies touches(tiles[j], e) by {
        assert(between(tiles[j], e.nodes()[n].x, e.nodes()[n].z));
    }
    if touches(tiles[j], e) {
        let n = choose|n: int|
            0 <= n < e.nodes().len() && between(
                tiles[j],
                (#[trigger] e.nodes()[n]).x,
                e.nodes()[n].z,
            );
        assert(between(tiles[j], way.nodes@[n].x, way.nodes@[n].z));
    }
    if exists|k: int, n: int|
        0 <= k < tiles.len() && 0 <= n < way.nodes@.len() && between(
            #[trigger] tiles[k],
            (#[trigger] way.nodes@[n]).x,
            way.nodes@[n].z,
        ) {
        let (k, n) = choose|k: int, n: int|
            0 <= k < tiles.len() && 0 <= n < way.nodes@.len() && between(
                #[trigger] tiles[k],
                (#[trigger] way.nodes@[n]).x,
                way.nodes@[n].z,
            );
        assert(between(tiles[k], e.nodes()[n].x, e.nodes()[n].z));
    }
    if touches_any(tiles, e) {
        let (k, n) = choose|k: int, n: int|
            0 <= k < tiles.len() && 0 <= n < e.nodes().len() && between(
                #[trigger] tiles[k],
                (#[trigger] e.nodes()[n]).x,
                e.nodes()[n].z,
            );
        assert(between(tiles[k], way.nodes@[n].x, way.nodes@[n].z));
    }
}

/// A node is listed under the id of every tile between whose bounds it lies.
/// Where no two tiles share an id it is listed under no other id, unless it
/// lies in no tile: then it is listed under the first.
pub proof fn a_node_is_listed_where_it_is(
    elements: Seq<ProcessedElement>,
    tiles: Seq<Tile>,
    i: int,
    node: ProcessedNode,
    j: int,
)
    requires
        0 <= i < elements.len(),
        elements[i] == ProcessedElement::Node(node),
        0 <= j < tiles.len(),
    ensures
        between(tiles[j], node.x, node.z) ==> bucket(
            element_views(elements),
            tiles,
            tiles[j].id,
        ).contains(elements[i]@),
        distinct_ids(tiles) ==> (bucket(element_views(elements), tiles, tiles[j].id).contains(
            elements[i]@,
        ) <==> between(tiles[j], node.x, node.z) || (j == 0 && forall|k: int|
            0 <= k < tiles.len() ==> !between(#[trigger] tiles[k], node.x, node.z))),
{
    let e = elements[i]@;
    let views = element_views(elements);
    assert(views[i] == e);
    assert(e.nodes().len() == 1 && e.nodes()[0].x == node.x && e.nodes()[0].z == node.z);
    lemma_listed(views, tiles, i, j);
    lemma_touches_between(tiles[j], e);
    lemma_touches_any_between(tiles, e);
    if between(tiles[j], node.x, node.z) {
        assert(between(tiles[j], e.nodes()[0].x, e.nodes()[0].z));
    }
    assert(touches_any(tiles, e) <==> exists|k: int|
        0 <= k < tiles.len() && between(#[trigger] tiles[k], node.x, node.z)) by {
        if exists|k: int| 0 <= k < tiles.len() && between(#[trigger] tiles[k], node.x, node.z) {
            let k = choose|k: int|
                0 <= k < tiles.len() && between(#[trigger] tiles[k], node.x, node.z);
            assert(between(tiles[k], e.nodes()[0].x, e.nodes()[0].z));
        }
    }
}

/// A node is a node of the relation only if it is one of a member way.
proof fn lemma_from_a_member(members: Seq<MemberView>, k: int)
    requires
        0 <= k < member_nodes(members).len(),
    ensures
        exists|m: int, n: int|
            0 <= m < members.len() && 0 <= n < members[m].way.nodes.len()
                && #[trigger] members[m].way.nodes[n] == member_nodes(members)[k],
    decreases members.len(),
{
    if members.len() > 0 {
        let rest = members.drop_last();
        let head = member_nodes(rest);
        if k < head.len() {
            lemma_from_a_member(rest, k);
            let (m, n) = choose|m: int, n: int|
                0 <= m < rest.len() && 0 <= n < rest[m].way.nodes.len()
                    && #[trigger] rest[m].way.nodes[n] == head[k];
            assert(members[m].way.nodes[n] == member_nodes(members)[k]);
        } else {
            let m = members.len() - 1;
            assert(members[m].way.nodes[k - head.len()] == member_nodes(members)[k]);
        }
    }
}

/// A node of a member way lies between the bounds of the tile.
pub open spec fn member_between(tile: Tile, relation: ProcessedRelation, m: int, n: int) -> bool {
    &&& 0 <= m < relation.members@.len()
    &&& 0 <= n < relation.members@[m].way.nodes@.len()
    &&& between(
        tile,
        relation.members@[m].way.nodes@[n].x,
        relation.members@[m].way.nodes@[n].z,
    )
}

proof fn lemma_relation_touches(tile: Tile, relation: ProcessedRelation)
    ensures
        touches(tile, ElementView::Relation(relation@)) <==> exists|m: int, n: int|
            #[trigger] member_between(tile, relation, m, n),
{
    let e = ElementView::Relation(relation@);
    let members = relation@.members;
    lemma_touches_between(tile, e);
    if touches(tile, e) {
        let k = choose|k: int|
            0 <= k < e.nodes().len() && between(
                tile,
                (#[trigger] e.nodes()[k]).x,
                e.nodes()[k].z,
            );
        lemma_from_a_member(members, k);
        let (m, n) = choose|m: int, n: int|
            0 <= m < members.len() && 0 <= n < members[m].way.nodes.len()
                && #[trigger] members[m].way.nodes[n] == member_nodes(members)[k];
        assert(member_between(tile, relation, m, n));
    }
    if exists|m: int, n: int| #[trigger] member_between(tile, relation, m, n) {
        let (m, n) = choose|m: int, n: int| #[trigger] member_between(tile, relation, m, n);
        assert(members[m].way.nodes[n].x == relation.members@[m].way.nodes@[n].x);
        a_relation_touches_the_tiles_of_its_members(relation@, m, n, tile);
    }
}

/// A relation is listed under the id of every tile between whose bounds a node
/// of one of its member ways lies, whatever the member's role. Where no two
/// tiles share an id it is listed under no other id, unless no such node lies
/// in any tile: then it is listed under the first.
pub proof fn a_relation_is_listed_where_its_members_are(
    elements: Seq<ProcessedElement>,
    tiles: Seq<Tile>,
    i: int,
    relation: ProcessedRelation,
    j: int,
)
    requires
        0 <= i < elements.len(),
        elements[i] == ProcessedElement::Relation(relation),
        0 <= j < tiles.len(),
    ensures
        forall|m: int, n: int| #[trigger]
            member_between(tiles[j], relation, m, n) ==> bucket(
                element_views(elements),
                tiles,
                tiles[j].id,
            ).contains(elements[i]@),
        distinct_ids(tiles) ==> (bucket(element_views(elements), tiles, tiles[j].id).contains(
            elements[i]@,
        ) <==> (exists|m: int, n: int| #[trigger] member_between(tiles[j], relation, m, n)) || (j
            == 0 && forall|k: int, m: int, n: int|
            0 <= k < tiles.len() ==> !(#[trigger] member_between(tiles[k], relation, m, n)))),
{
    let e = elements[i]@;
    let views = element_views(elements);
    assert(views[i] == e);
    lemma_listed(views, tiles, i, j);
    lemma_relation_touches(tiles[j], relation);
    assert(touches_any(tiles, e) <==> exists|k: int, m: int, n: int|
        0 <= k < tiles.len() && #[trigger] member_between(tiles[k], relation, m, n)) by {
        if touches_any(tiles, e) {
            let k = choose|k: int| 0 <= k < tiles.len() && touches(#[trigger] tiles[k], e);
            lemma_relation_touches(tiles[k], relation);
            let (m, n) = choose|m: int, n: int| #[trigger] member_between(tiles[k], relation, m, n);
            assert(member_between(tiles[k], relation, m, n));
        }
        if exists|k: int, m: int, n: int|
            0 <= k < tiles.len() && #[trigger] member_between(tiles[k], relation, m, n) {
            let (k, m, n) = choose|k: int, m: int, n: int|
                0 <= k < tiles.len() && #[trigger] member_between(tiles[k], relation, m, n);
            lemma_relation_touches(tiles[k], relation);
            assert(touches(tiles[k], e));
        }
    }
}

/// Every tile counts for itself: for an element that already has a node in one
/// of the tiles, one more tile adds the element once under that tile's id if
/// one of its nodes lies between the tile's bounds, and changes nothing
/// otherwise.
pub proof fn one_more_tile_adds_at_most_itself(
    tiles: Seq<Tile>,
    tile: Tile,
    element: ElementView,
    id: (i32, i32),
)
    requires
        exists|k: int, n: int|
            0 <= k < tiles.len() && 0 <= n < element.nodes().len() && between(
                #[trigger] tiles[k],
                (#[trigger] element.nodes()[n]).x,
                element.nodes()[n].z,
            ),
    ensures
        bucket(seq![element], tiles.push(tile), id).len() == bucket(
            seq![element],
            tiles,
            id,
        ).len() + if tile.id == id && (exists|n: int|
            0 <= n < element.nodes().len() && between(
                tile,
                (#[trigger] element.nodes()[n]).x,
                element.nodes()[n].z,
            )) {
            1int
        } else {
            0int
        },
        forall|i: int|
            0 <= i < bucket(seq![element], tiles.push(tile), id).len() ==> #[trigger] bucket(
                seq![element],
                tiles.push(tile),
                id,
            )[i] == element,
{
    let more = tiles.push(tile);
    let one = seq![element];
    lemma_touches_any_between(tiles, element);
    lemma_touches_between(tile, element);
    let k = choose|k: int| 0 <= k < tiles.len() && touches(#[trigger] tiles[k], element);
    assert(more[k] == tiles[k]);
    assert(touches_any(more, element));
    assert(more.drop_last() =~= tiles);
    assert(more.last() == tile);
    assert(one.drop_last() =~= Seq::empty());
    assert(one.last() == element);
    assert(bucket(one.drop_last(), tiles, id) =~= Seq::empty());
    assert(bucket(one.drop_last(), more, id) =~= Seq::empty());
    assert(bucket(one, more, id) =~= repeated(element, copies(more, element, id)));
    assert(bucket(one, tiles, id) =~= repeated(element, copies(tiles, element, id)));
}

} // verus!
