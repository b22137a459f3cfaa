//! Map elements: nodes, ways and relations.

use crate::coordinates::XZPoint;
use crate::tags::Tags;
use vstd::prelude::*;

verus! {

/// What a node is: its id, its tags and its column.
pub struct NodeView {
    pub id: u64,
    pub tags: Map<Seq<char>, Seq<char>>,
    pub x: i32,
    pub z: i32,
}

/// What a way is: its id, its nodes in order and its tags.
pub struct WayView {
    pub id: u64,
    pub nodes: Seq<NodeView>,
    pub tags: Map<Seq<char>, Seq<char>>,
}

/// What a member of a relation is: a way and its role.
pub struct MemberView {
    pub role: ProcessedMemberRole,
    pub way: WayView,
}

/// What a relation is: its id, its tags and its members in order.
pub struct RelationView {
    pub id: u64,
    pub tags: Map<Seq<char>, Seq<char>>,
    pub members: Seq<MemberView>,
}

/// What an element is.
pub enum ElementView {
    Node(NodeView),
    Way(WayView),
    Relation(RelationView),
}

/// The nodes of the members' ways, one way after the other.
pub open spec fn member_nodes(members: Seq<MemberView>) -> Seq<NodeView>
    decreases members.len(),
{
    if members.len() == 0 {
        Seq::empty()
    } else {
        member_nodes(members.drop_last()) + members.last().way.nodes
    }
}

impl ElementView {
    /// The nodes of an element: the node itself, a way's nodes, or the nodes
    /// of all member ways of a relation.
    pub open spec fn nodes(self) -> Seq<NodeView> {
        match self {
            ElementView::Node(node) => seq![node],
            ElementView::Way(way) => way.nodes,
            ElementView::Relation(relation) => member_nodes(relation.members),
        }
    }
}

#[derive(Debug)]
pub struct ProcessedNode {
    pub id: u64,
    pub tags: Tags,
    pub x: i32,
    pub z: i32,
}

impl View for ProcessedNode {
    type V = NodeView;

    open spec fn view(&self) -> NodeView {
        NodeView { id: self.id, tags: self.tags@, x: self.x, z: self.z }
    }
}

/// The views of a list of nodes.
pub open spec fn node_views(nodes: Seq<ProcessedNode>) -> Seq<NodeView> {
    nodes.map_values(|n: ProcessedNode| n@)
}

impl ProcessedNode {
    /// The node's column.
    pub fn xz(&self) -> (r: XZPoint)
        ensures
            r.x == self.x,
            r.z == self.z,
    {
        XZPoint { x: self.x, z: self.z }
    }
}

impl Clone for ProcessedNode {
    fn clone(&self) -> (r: Self)
        ensures
            r@ == self@,
    {
        ProcessedNode { id: self.id, tags: self.tags.clone(), x: self.x, z: self.z }
    }
}

#[derive(Debug)]
pub struct ProcessedWay {
    pub id: u64,
    pub nodes: Vec<ProcessedNode>,
    pub tags: Tags,
}

impl View for ProcessedWay {
    type V = WayView;

    open spec fn view(&self) -> WayView {
        WayView { id: self.id, nodes: node_views(self.nodes@), tags: self.tags@ }
    }
}

impl Clone for ProcessedWay {
    fn clone(&self) -> (r: Self)
        ensures
            r@ == self@,
    {
        let mut nodes: Vec<ProcessedNode> = Vec::new();
        let mut i: usize = 0;
        while i < self.nodes.len()
            invariant
                i <= self.nodes@.len(),
                node_views(nodes@) == node_views(self.nodes@).take(i as int),
            decreases self.nodes@.len() - i,
        {
            let ghost done = nodes@;
            nodes.push(self.nodes[i].clone());
            assert(node_views(nodes@) =~= node_views(done).push(self.nodes@[i as int]@));
            i = i + 1;
            assert(node_views(nodes@) =~= node_views(self.nodes@).take(i as int));
        }
        assert(node_views(nodes@) =~= node_views(self.nodes@));
        ProcessedWay { id: self.id, nodes, tags: self.tags.clone() }
    }
}

/// Whether a member bounds the relation's area from outside or from inside.
#[derive(Debug, Clone, Copy, PartialEq, Eq, Structural)]
pub enum ProcessedMemberRole {
    Outer,
    Inner,
}

#[derive(Debug)]
pub struct ProcessedMember {
    pub role: ProcessedMemberRole,
    pub way: ProcessedWay,
}

impl View for ProcessedMember {
    type V = MemberView;

    open spec fn view(&self) -> MemberView {
        MemberView { role: self.role, way: self.way@ }
    }
}

impl Clone for ProcessedMember {
    fn clone(&self) -> (r: Self)
        ensures
            r@ == self@,
    {
        ProcessedMember { role: self.role, way: self.way.clone() }
    }
}

#[derive(Debug)]
pub struct ProcessedRelation {
    pub id: u64,
    pub tags: Tags,
    pub members: Vec<ProcessedMember>,
}

/// The views of a list of members.
pub open spec fn member_views(members: Seq<ProcessedMember>) -> Seq<MemberView> {
    members.map_values(|m: ProcessedMember| m@)
}

impl View for ProcessedRelation {
    type V = RelationView;

    open spec fn view(&self) -> RelationView {
        RelationView { id: self.id, tags: self.tags@, members: member_views(self.members@) }
    }
}

impl Clone for ProcessedRelation {
    fn clone(&self) -> (r: Self)
        ensures
            r@ == self@,
    {
        let mut members: Vec<ProcessedMember> = Vec::new();
        let mut i: usize = 0;
        while i < self.members.len()
            invariant
                i <= self.members@.len(),
                member_views(members@) == member_views(self.members@).take(i as int),
            decreases self.members@.len() - i,
        {
            let ghost done = members@;
            members.push(self.members[i].clone());
            assert(member_views(members@) =~= member_views(done).push(self.members@[i as int]@));
            i = i + 1;
            assert(member_views(members@) =~= member_views(self.members@).take(i as int));
        }
        assert(member_views(members@) =~= member_views(self.members@));
        ProcessedRelation { id: self.id, tags: self.tags.clone(), members }
    }
}

#[derive(Debug)]
pub enum ProcessedElement {
    Node(ProcessedNode),
    Way(ProcessedWay),
    Relation(ProcessedRelation),
}

impl View for ProcessedElement {
    type V = ElementView;

    open spec fn view(&self) -> ElementView {
        match self {
            ProcessedElement::Node(node) => ElementView::Node(node@),
            ProcessedElement::Way(way) => ElementView::Way(way@),
            ProcessedElement::Relation(relation) => ElementView::Relation(relation@),
        }
    }
}

/// The views of a list of elements.
pub open spec fn element_views(elements: Seq<ProcessedElement>) -> Seq<ElementView> {
    elements.map_values(|e: ProcessedElement| e@)
}

impl Clone for ProcessedElement {
    fn clone(&self) -> (r: Self)
        ensures
            r@ == self@,
    {
        match self {
            ProcessedElement::Node(node) => ProcessedElement::Node(node.clone()),
            ProcessedElement::Way(way) => ProcessedElement::Way(way.clone()),
            ProcessedElement::Relation(relation) => ProcessedElement::Relation(relation.clone()),
        }
    }
}

/// The views of a list of borrowed nodes.
pub open spec fn node_ref_views(nodes: Seq<&ProcessedNode>) -> Seq<NodeView> {
    nodes.map_values(|n: &ProcessedNode| n@)
}

/// Adds the nodes of a way to `out`.
fn push_nodes<'a>(out: &mut Vec<&'a ProcessedNode>, nodes: &'a Vec<ProcessedNode>)
    ensures
        node_ref_views(final(out)@) == node_ref_views(old(out)@) + node_views(nodes@),
{
    let ghost before = node_ref_views(out@);
    let mut i: usize = 0;
    while i < nodes.len()
        invariant
            i <= nodes@.len(),
            node_ref_views(out@) == before + node_views(nodes@).take(i as int),
        decreases nodes@.len() - i,
    {
        let ghost done = out@;
        out.push(&nodes[i]);
        assert(node_ref_views(out@) =~= node_ref_views(done).push(nodes@[i as int]@));
        i = i + 1;
        assert(node_ref_views(out@) =~= before + node_views(nodes@).take(i as int));
    }
    assert(node_views(nodes@).take(i as int) =~= node_views(nodes@));
}

impl ProcessedElement {
    /// The nodes of the element, in order.
    pub fn nodes(&self) -> (r: Vec<&ProcessedNode>)
        ensures
            node_ref_views(r@) == self@.nodes(),
            self matches ProcessedElement::Node(node) ==> r@.len() == 1 && r@[0]@ == node@,
            self matches ProcessedElement::Way(way) ==> r@.len() == way.nodes@.len() && forall|
                i: int,
            |
                0 <= i < r@.len() ==> (#[trigger] r@[i])@ == way.nodes@[i]@,
    {
        let mut out: Vec<&ProcessedNode> = Vec::new();
        match self {
            ProcessedElement::Node(node) => {
                out.push(node);
            },
            ProcessedElement::Way(way) => {
                push_nodes(&mut out, &way.nodes);
            },
            ProcessedElement::Relation(relation) => {
                let members = &relation.members;
                let ghost views = member_views(members@);
                let mut i: usize = 0;
                while i < members.len()
                    invariant
                        i <= members@.len(),
                        views == member_views(members@),
                        node_ref_views(out@) == member_nodes(views.take(i as int)),
                    decreases members@.len() - i,
                {
                    push_nodes(&mut out, &members[i].way.nodes);
                    assert(views.take(i + 1).drop_last() =~= views.take(i as int));
                    assert(views.take(i + 1).last() == members@[i as int]@);
                    i = i + 1;
                }
                assert(views.take(i as int) =~= views);
            },
        }
        assert(node_ref_views(out@) =~= self@.nodes());
        proof {
            if let ProcessedElement::Way(way) = self {
                assert forall|i: int| 0 <= i < out@.len() implies (#[trigger] out@[i])@
                    == way.nodes@[i]@ by {
                    assert(node_ref_views(out@)[i] == node_views(way.nodes@)[i]);
                }
            }
            if let ProcessedElement::Node(node) = self {
                assert(node_ref_views(out@)[0] == node@);
            }
        }
        out
    }
}

} // verus!
