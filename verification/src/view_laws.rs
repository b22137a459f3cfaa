//! The views leave nothing out: each says what the fields of the value say.

use crate::batching::Tile;
use crate::coordinates::Rect;
use crate::data_processing::{Task, TaskView};
use crate::elements::{
    element_views, member_nodes, member_views, node_ref_views, node_views, ElementView, MemberView,
    NodeView, ProcessedElement, ProcessedMember, ProcessedNode, ProcessedRelation, ProcessedWay,
    RelationView, WayView,
};
use vstd::prelude::*;

verus! {

/// A rectangle holds the columns between its bounds, the bounds included; it
/// is nonempty where there is such a column.
pub proof fn a_rect_holds_what_lies_between_its_bounds(r: Rect, x: int, z: int)
    ensures
        r.has(x, z) <==> r.min_x <= x && x <= r.max_x && r.min_z <= z && z <= r.max_z,
        r.nonempty() <==> r.min_x <= r.max_x && r.min_z <= r.max_z,
        r.in_range() <==> -0x8000_0000 <= r.min_x <= 0x7fff_ffff && -0x8000_0000 <= r.max_x
            <= 0x7fff_ffff && -0x8000_0000 <= r.min_z <= 0x7fff_ffff && -0x8000_0000 <= r.max_z
            <= 0x7fff_ffff,
{
}

/// Moving a rectangle moves its columns, and moving it back undoes that.
pub proof fn moving_a_rect_moves_its_columns(r: Rect, dx: int, dz: int, x: int, z: int)
    ensures
        r.moved(dx, dz).has(x + dx, z + dz) <==> r.has(x, z),
        r.moved(dx, dz).min_x - r.min_x == dx,
        r.moved(dx, dz).max_x - r.max_x == dx,
        r.moved(dx, dz).min_z - r.min_z == dz,
        r.moved(dx, dz).max_z - r.max_z == dz,
        r.moved(dx, dz).moved(-dx, -dz) == r,
{
}

/// A tile covers the columns between its bounds, the bounds included.
pub proof fn a_tile_covers_what_lies_between_its_bounds(tile: Tile, x: int, z: int)
    ensures
        tile.rect().has(x, z) <==> tile.min_x <= x && x <= tile.max_x && tile.min_z <= z && z
            <= tile.max_z,
        tile.rect().min_x == tile.min_x,
        tile.rect().min_z == tile.min_z,
        tile.rect().max_x == tile.max_x,
        tile.rect().max_z == tile.max_z,
        tile.spec_has_extent() <==> 0 <= tile.max_x - tile.min_x <= 0x7fff_ffff && 0 <= tile.max_z
            - tile.min_z <= 0x7fff_ffff,
{
}

/// The view of a node holds its id, its tags and its column.
pub proof fn a_node_view_says_what_the_node_is(node: ProcessedNode)
    ensures
        node@.id == node.id,
        node@.tags == node.tags@,
        node@.x == node.x,
        node@.z == node.z,
{
}

/// The view of a way holds its id, its tags and all its nodes in order.
pub proof fn a_way_view_says_what_the_way_is(way: ProcessedWay)
    ensures
        way@.id == way.id,
        way@.tags == way.tags@,
        way@.nodes.len() == way.nodes@.len(),
        forall|n: int|
            0 <= n < way.nodes@.len() ==> {
                &&& (#[trigger] way@.nodes[n]).id == way.nodes@[n].id
                &&& way@.nodes[n].tags == way.nodes@[n].tags@
                &&& way@.nodes[n].x == way.nodes@[n].x
                &&& way@.nodes[n].z == way.nodes@[n].z
            },
{
}

/// The view of a relation holds its id, its tags and all its members in order,
/// each with its role and its way.
pub proof fn a_relation_view_says_what_the_relation_is(relation: ProcessedRelation)
    ensures
        relation@.id == relation.id,
        relation@.tags == relation.tags@,
        relation@.members.len() == relation.members@.len(),
        forall|m: int|
            0 <= m < relation.members@.len() ==> {
                &&& (#[trigger] relation@.members[m]).role == relation.members@[m].role
                &&& relation@.members[m].way.id == relation.members@[m].way.id
                &&& relation@.members[m].way.tags == relation.members@[m].way.tags@
                &&& relation@.members[m].way.nodes.len() == relation.members@[m].way.nodes@.len()
            },
        forall|m: int, n: int|
            0 <= m < relation.members@.len() && 0 <= n < relation.members@[m].way.nodes@.len()
                ==> {
                &&& (#[trigger] relation@.members[m].way.nodes[n]).id
                    == relation.members@[m].way.nodes@[n].id
                &&& relation@.members[m].way.nodes[n].tags
                    == relation.members@[m].way.nodes@[n].tags@
                &&& relation@.members[m].way.nodes[n].x == relation.members@[m].way.nodes@[n].x
                &&& relation@.members[m].way.nodes[n].z == relation.members@[m].way.nodes@[n].z
            },
{
}

/// The view of an element is that of its node, way or relation.
pub proof fn an_element_view_says_what_the_element_is(element: ProcessedElement)
    ensures
        element matches ProcessedElement::Node(node) ==> element@ == ElementView::Node(node@),
        element matches ProcessedElement::Way(way) ==> element@ == ElementView::Way(way@),
        element matches ProcessedElement::Relation(relation) ==> element@ == ElementView::Relation(
            relation@,
        ),
{
}

/// The views of a list are those of its items, in order.
pub proof fn list_views_follow_the_lists(
    elements: Seq<ProcessedElement>,
    nodes: Seq<ProcessedNode>,
    borrowed: Seq<&ProcessedNode>,
    members: Seq<ProcessedMember>,
    i: int,
)
    ensures
        element_views(elements).len() == elements.len(),
        0 <= i < elements.len() ==> element_views(elements)[i] == elements[i]@,
        node_views(nodes).len() == nodes.len(),
        0 <= i < nodes.len() ==> node_views(nodes)[i] == nodes[i]@,
        node_ref_views(borrowed).len() == borrowed.len(),
        0 <= i < borrowed.len() ==> node_ref_views(borrowed)[i] == borrowed[i]@,
        member_views(members).len() == members.len(),
        0 <= i < members.len() ==> member_views(members)[i] == members[i]@ && members[i]@.role
            == members[i].role && members[i]@.way == members[i].way@,
{
}

/// A node's only node is the node itself; a way's nodes are those of its own
/// list, none left out and in the same order.
pub proof fn nodes_and_ways_have_their_own_nodes(node: NodeView, way: WayView)
    ensures
        ElementView::Node(node).nodes().len() == 1,
        ElementView::Node(node).nodes()[0] == node,
        ElementView::Way(way).nodes().len() == way.nodes.len(),
        forall|n: int|
            0 <= n < way.nodes.len() ==> #[trigger] ElementView::Way(way).nodes()[n] == way.nodes[n],
{
}

/// A relation without members has no nodes, one with a single member has the
/// nodes of that member's way whatever its role, and joining the members of two
/// relations joins their nodes.
pub proof fn a_relation_has_the_nodes_of_its_member_ways(
    relation: RelationView,
    member: MemberView,
    first: Seq<MemberView>,
    second: Seq<MemberView>,
)
    requires
        relation.members == first + second,
    ensures
        ElementView::Relation(relation).nodes() == ElementView::Relation(
            RelationView { members: first, ..relation },
        ).nodes() + ElementView::Relation(RelationView { members: second, ..relation }).nodes(),
        ElementView::Relation(RelationView { members: seq![member], ..relation }).nodes()
            == member.way.nodes,
        ElementView::Relation(RelationView { members: Seq::empty(), ..relation }).nodes().len()
            == 0,
    decreases second.len(),
{
    let one = seq![member];
    assert(one.drop_last() =~= Seq::empty());
    assert(member_nodes(one.drop_last()) =~= Seq::empty());
    assert(member_nodes(one) =~= member.way.nodes);
    let all = relation.members;
    if second.len() == 0 {
        assert(all =~= first);
        assert(member_nodes(second) =~= Seq::empty());
        assert(member_nodes(all) =~= member_nodes(first) + member_nodes(second));
    } else {
        let shorter = RelationView { members: first + second.drop_last(), ..relation };
        a_relation_has_the_nodes_of_its_member_ways(shorter, member, first, second.drop_last());
        assert(all.drop_last() =~= first + second.drop_last());
        assert(all.last() == second.last());
        assert(member_nodes(all) =~= member_nodes(first) + member_nodes(second));
    }
}

/// The view of a task holds everything that the task holds.
pub proof fn a_task_view_says_what_the_task_is(task: Task)
    ensures
        task matches Task::Open { bbox } ==> task@ == (TaskView::Open { area: bbox@ }),
        task matches Task::Draw { generator, element } ==> task@ == (TaskView::Draw {
            generator,
            element: element@,
        }),
        task matches Task::Ground { x, z, fill } ==> task@ == (TaskView::Ground { x, z, fill }),
        task matches Task::Save { regions } ==> task@ == (TaskView::Save { regions: regions@ }),
        task matches Task::Record { state } ==> task@ == (TaskView::Record {
            done: state.processed_tiles@,
        }),
        task is Advance ==> task@ is Advance,
{
}

} // verus!
