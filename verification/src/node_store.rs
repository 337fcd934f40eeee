//! The graph of nodes that the documents of a site are kept in.

use vstd::prelude::*;

use crate::text;
use crate::text::same;

verus! {

/// The number of a node in its store.
#[derive(Debug, Clone, Copy, PartialEq, Eq, PartialOrd, Ord, Hash, Structural)]
pub struct NodeId(pub usize);

/// What a node is.
#[derive(Debug)]
pub enum Node {
    Element(String),
    Text(String),
    Keyword(String),
    Integer(i64),
    Boolean(bool),
    Collection,
    Nil,
    Opaque,
}

/// How a node is tied to another.
#[derive(Debug)]
pub enum Edge {
    Child(NodeId),
    Attribute { name: String, value: NodeId },
    ConsistsOf { name: String, part: NodeId },
    Reference { name: String, target: NodeId },
}

/// A node with its edges, in the order in which they were added.
#[derive(Debug)]
pub struct NodeEntry {
    pub node: Node,
    pub edges: Vec<Edge>,
}

/// The nodes of a site, numbered in the order in which they were added.
#[derive(Debug)]
pub struct NodeStore {
    pub nodes: Vec<NodeEntry>,
}

/// The node with the given number, if there is one.
pub open spec fn node_at(store: NodeStore, id: NodeId) -> Option<Node> {
    if id.0 < store.nodes@.len() {
        Some(store.nodes@[id.0 as int].node)
    } else {
        None
    }
}

/// The edges of a node; one that is not in the store has none.
pub open spec fn edges_at(store: NodeStore, id: NodeId) -> Seq<Edge> {
    if id.0 < store.nodes@.len() {
        store.nodes@[id.0 as int].edges@
    } else {
        seq![]
    }
}

/// Whether a node is an element of the given name.
pub open spec fn is_element(store: NodeStore, id: NodeId, name: Seq<char>) -> bool {
    node_at(store, id) matches Some(Node::Element(n)) && n@ == name
}

/// The text of a node that is one.
pub open spec fn text_at(store: NodeStore, id: NodeId) -> Option<Seq<char>> {
    match node_at(store, id) {
        Some(Node::Text(s)) => Some(s@),
        _ => None,
    }
}

/// The nodes that child edges lead to, in order.
pub open spec fn child_ends(edges: Seq<Edge>) -> Seq<NodeId>
    decreases edges.len(),
{
    if edges.len() == 0 {
        seq![]
    } else {
        match edges.last() {
            Edge::Child(id) => child_ends(edges.drop_last()).push(id),
            _ => child_ends(edges.drop_last()),
        }
    }
}

/// The children of a node, in order.
pub open spec fn children_of(store: NodeStore, id: NodeId) -> Seq<NodeId> {
    child_ends(edges_at(store, id))
}

/// The nodes that reference edges lead to, in order.
pub open spec fn reference_ends(edges: Seq<Edge>) -> Seq<NodeId>
    decreases edges.len(),
{
    if edges.len() == 0 {
        seq![]
    } else {
        match edges.last() {
            Edge::Reference { target, .. } => reference_ends(edges.drop_last()).push(target),
            _ => reference_ends(edges.drop_last()),
        }
    }
}

/// The nodes that part edges lead to, in order.
pub open spec fn part_ends(edges: Seq<Edge>) -> Seq<NodeId>
    decreases edges.len(),
{
    if edges.len() == 0 {
        seq![]
    } else {
        match edges.last() {
            Edge::ConsistsOf { part, .. } => part_ends(edges.drop_last()).push(part),
            _ => part_ends(edges.drop_last()),
        }
    }
}

/// The text of the first attribute of the given name that has one.
pub open spec fn attr_among(store: NodeStore, edges: Seq<Edge>, name: Seq<char>) -> Option<Seq<char>>
    decreases edges.len(),
{
    if edges.len() == 0 {
        None
    } else {
        let rest = attr_among(store, edges.skip(1), name);
        match edges[0] {
            Edge::Attribute { name: n, value } => if n@ == name && text_at(store, value) is Some {
                text_at(store, value)
            } else {
                rest
            },
            _ => rest,
        }
    }
}

/// The text of an attribute of a node.
pub open spec fn attr_text(store: NodeStore, id: NodeId, name: Seq<char>) -> Option<Seq<char>> {
    attr_among(store, edges_at(store, id), name)
}

/// The first of the given nodes that is an element of the given name.
pub open spec fn first_named(store: NodeStore, ids: Seq<NodeId>, name: Seq<char>) -> Option<NodeId>
    decreases ids.len(),
{
    if ids.len() == 0 {
        None
    } else if is_element(store, ids[0], name) {
        Some(ids[0])
    } else {
        first_named(store, ids.skip(1), name)
    }
}

/// The first child of a node that is an element of the given name.
pub open spec fn child_named(store: NodeStore, id: NodeId, name: Seq<char>) -> Option<NodeId> {
    first_named(store, children_of(store, id), name)
}

impl NodeStore {
    /// The store without nodes.
    pub fn new() -> (r: NodeStore)
        ensures
            r.nodes@.len() == 0,
    {
        NodeStore { nodes: Vec::new() }
    }

    /// Take all nodes out of the store.
    pub fn clear(&mut self)
        ensures
            final(self).nodes@.len() == 0,
    {
        self.nodes = Vec::new();
    }

    /// Add a node without edges.
    pub fn add_node(&mut self, node: Node) -> (r: NodeId)
        ensures
            r.0 == old(self).nodes@.len(),
            final(self).nodes@.len() == old(self).nodes@.len() + 1,
            final(self).nodes@.drop_last() == old(self).nodes@,
            final(self).nodes@.last().node == node,
            final(self).nodes@.last().edges@ == Seq::<Edge>::empty(),
    {
        let id = NodeId(self.nodes.len());
        self.nodes.push(NodeEntry { node, edges: Vec::new() });
        proof {
            assert(self.nodes@.drop_last() =~= old(self).nodes@);
        }
        id
    }

    /// Add an edge to a node, behind its other edges.
    pub fn add_edge(&mut self, from: NodeId, edge: Edge)
        requires
            from.0 < old(self).nodes@.len(),
        ensures
            final(self).nodes@.len() == old(self).nodes@.len(),
            forall|i: int|
                0 <= i < old(self).nodes@.len() && i != from.0 ==> #[trigger] final(self).nodes@[i]
                    == old(self).nodes@[i],
            final(self).nodes@[from.0 as int].node == old(self).nodes@[from.0 as int].node,
            final(self).nodes@[from.0 as int].edges@ == old(self).nodes@[from.0 as int].edges@.push(
                edge,
            ),
    {
        self.nodes[from.0].edges.push(edge);
    }

    /// The node with the given number, if there is one.
    pub fn get(&self, id: NodeId) -> (r: Option<&Node>)
        ensures
            match r {
                Some(n) => node_at(*self, id) == Some(*n),
                None => node_at(*self, id) is None,
            },
    {
        if id.0 < self.nodes.len() {
            Some(&self.nodes[id.0].node)
        } else {
            None
        }
    }

    /// The edges of a node; one that is not in the store has none.
    fn edges(&self, id: NodeId) -> (r: Option<&Vec<Edge>>)
        ensures
            match r {
                Some(edges) => edges_at(*self, id) == edges@,
                None => edges_at(*self, id) == Seq::<Edge>::empty(),
            },
    {
        if id.0 < self.nodes.len() {
            Some(&self.nodes[id.0].edges)
        } else {
            None
        }
    }

    /// The children of a node, in order.
    pub fn children(&self, id: NodeId) -> (r: Vec<NodeId>)
        ensures
            r@ == children_of(*self, id),
    {
        let mut out: Vec<NodeId> = Vec::new();
        if let Some(edges) = self.edges(id) {
            let mut i: usize = 0;
            proof {
                assert(edges@.take(0) =~= Seq::empty());
            }
            while i < edges.len()
                invariant
                    i <= edges.len(),
                    out@ == child_ends(edges@.take(i as int)),
                decreases edges.len() - i,
            {
                proof {
                    assert(edges@.take(i + 1).drop_last() =~= edges@.take(i as int));
                    assert(edges@.take(i + 1).last() == edges@[i as int]);
                }
                if let Edge::Child(child) = &edges[i] {
                    out.push(*child);
                }
                i += 1;
            }
            proof {
                assert(edges@.take(i as int) =~= edges@);
            }
        }
        out
    }

    /// The nodes that a node refers to, in order.
    pub fn references(&self, id: NodeId) -> (r: Vec<NodeId>)
        ensures
            r@ == reference_ends(edges_at(*self, id)),
    {
        let mut out: Vec<NodeId> = Vec::new();
        if let Some(edges) = self.edges(id) {
            let mut i: usize = 0;
            proof {
                assert(edges@.take(0) =~= Seq::empty());
            }
            while i < edges.len()
                invariant
                    i <= edges.len(),
                    out@ == reference_ends(edges@.take(i as int)),
                decreases edges.len() - i,
            {
                proof {
                    assert(edges@.take(i + 1).drop_last() =~= edges@.take(i as int));
                    assert(edges@.take(i + 1).last() == edges@[i as int]);
                }
                if let Edge::Reference { name: _, target } = &edges[i] {
                    out.push(*target);
                }
                i += 1;
            }
            proof {
                assert(edges@.take(i as int) =~= edges@);
            }
        }
        out
    }

    /// The parts that a node consists of, in order.
    pub fn consists_of(&self, id: NodeId) -> (r: Vec<NodeId>)
        ensures
            r@ == part_ends(edges_at(*self, id)),
    {
        let mut out: Vec<NodeId> = Vec::new();
        if let Some(edges) = self.edges(id) {
            let mut i: usize = 0;
            proof {
                assert(edges@.take(0) =~= Seq::empty());
            }
            while i < edges.len()
                invariant
                    i <= edges.len(),
                    out@ == part_ends(edges@.take(i as int)),
                decreases edges.len() - i,
            {
                proof {
                    assert(edges@.take(i + 1).drop_last() =~= edges@.take(i as int));
                    assert(edges@.take(i + 1).last() == edges@[i as int]);
                }
                if let Edge::ConsistsOf { name: _, part } = &edges[i] {
                    out.push(*part);
                }
                i += 1;
            }
            proof {
                assert(edges@.take(i as int) =~= edges@);
            }
        }
        out
    }

    /// Whether a node is an element of the given name.
    pub fn is_named(&self, id: NodeId, name: &str) -> (r: bool)
        ensures
            r == is_element(*self, id, name@),
    {
        match self.get(id) {
            Some(Node::Element(n)) => same(n, name),
            _ => false,
        }
    }

    /// The text of a node that is one.
    pub fn text_of(&self, id: NodeId) -> (r: Option<String>)
        ensures
            text::opt_text(r) == text_at(*self, id),
    {
        match self.get(id) {
            Some(Node::Text(s)) => Some(s.clone()),
            _ => None,
        }
    }
}

/// The text of an attribute of a node.
pub fn find_attr_text(store: &NodeStore, id: NodeId, name: &str) -> (r: Option<String>)
    ensures
        text::opt_text(r) == attr_text(*store, id, name@),
{
    if let Some(edges) = store.edges(id) {
        let mut i: usize = 0;
        proof {
            assert(edges@.skip(0) =~= edges@);
        }
        while i < edges.len()
            invariant
                i <= edges.len(),
                edges@ == edges_at(*store, id),
                attr_among(*store, edges@.skip(i as int), name@) == attr_text(*store, id, name@),
            decreases edges.len() - i,
        {
            proof {
                assert(edges@.skip(i as int)[0] == edges@[i as int]);
                assert(edges@.skip(i as int).skip(1) =~= edges@.skip(i + 1));
            }
            if let Edge::Attribute { name: n, value } = &edges[i] {
                if same(n, name) {
                    let words = store.text_of(*value);
                    if words.is_some() {
                        return words;
                    }
                }
            }
            i += 1;
        }
    }
    None
}

/// The first child of a node that is an element of the given name.
pub fn find_child_by_name(store: &NodeStore, id: NodeId, name: &str) -> (r: Option<NodeId>)
    ensures
        r == child_named(*store, id, name@),
{
    let ids = store.children(id);
    let mut i: usize = 0;
    proof {
        assert(ids@.skip(0) =~= ids@);
    }
    while i < ids.len()
        invariant
            i <= ids.len(),
            first_named(*store, ids@.skip(i as int), name@) == child_named(*store, id, name@),
        decreases ids.len() - i,
    {
        proof {
            assert(ids@.skip(i as int)[0] == ids@[i as int]);
            assert(ids@.skip(i as int).skip(1) =~= ids@.skip(i + 1));
        }
        if store.is_named(ids[i], name) {
            return Some(ids[i]);
        }
        i += 1;
    }
    None
}

/// The first text among the given nodes.
pub open spec fn first_text(store: NodeStore, ids: Seq<NodeId>) -> Option<Seq<char>>
    decreases ids.len(),
{
    if ids.len() == 0 {
        None
    } else if text_at(store, ids[0]) is Some {
        text_at(store, ids[0])
    } else {
        first_text(store, ids.skip(1))
    }
}

/// The first text among the children of the given nodes.
pub open spec fn first_text_below(store: NodeStore, ids: Seq<NodeId>) -> Option<Seq<char>>
    decreases ids.len(),
{
    if ids.len() == 0 {
        None
    } else if first_text(store, children_of(store, ids[0])) is Some {
        first_text(store, children_of(store, ids[0]))
    } else {
        first_text_below(store, ids.skip(1))
    }
}

/// Whether a node is a slot of the given name.
pub open spec fn is_slot(store: NodeStore, id: NodeId, name: Seq<char>) -> bool {
    is_element(store, id, "slot"@) && attr_text(store, id, "name"@) == Some(name)
}

/// The first text in the first title slot that has one.
pub open spec fn title_among(store: NodeStore, ids: Seq<NodeId>) -> Option<Seq<char>>
    decreases ids.len(),
{
    if ids.len() == 0 {
        None
    } else {
        let words = first_text_below(store, children_of(store, ids[0]));
        if is_slot(store, ids[0], "title"@) && words is Some {
            words
        } else {
            title_among(store, ids.skip(1))
        }
    }
}

/// The title of a document: the text of the title slot in its preamble.
pub open spec fn document_title(store: NodeStore, root: NodeId) -> Option<Seq<char>> {
    match child_named(store, root, "preamble"@) {
        Some(preamble) => title_among(store, children_of(store, preamble)),
        None => None,
    }
}

/// The first text among the given nodes.
fn find_text(store: &NodeStore, ids: &Vec<NodeId>) -> (r: Option<String>)
    ensures
        text::opt_text(r) == first_text(*store, ids@),
{
    let mut i: usize = 0;
    proof {
        assert(ids@.skip(0) =~= ids@);
    }
    while i < ids.len()
        invariant
            i <= ids.len(),
            first_text(*store, ids@.skip(i as int)) == first_text(*store, ids@),
        decreases ids.len() - i,
    {
        proof {
            assert(ids@.skip(i as int)[0] == ids@[i as int]);
            assert(ids@.skip(i as int).skip(1) =~= ids@.skip(i + 1));
        }
        let words = store.text_of(ids[i]);
        if words.is_some() {
            return words;
        }
        i += 1;
    }
    None
}

/// The first text among the children of the given nodes.
fn find_text_below(store: &NodeStore, ids: &Vec<NodeId>) -> (r: Option<String>)
    ensures
        text::opt_text(r) == first_text_below(*store, ids@),
{
    let mut i: usize = 0;
    proof {
        assert(ids@.skip(0) =~= ids@);
    }
    while i < ids.len()
        invariant
            i <= ids.len(),
            first_text_below(*store, ids@.skip(i as int)) == first_text_below(*store, ids@),
        decreases ids.len() - i,
    {
        proof {
            assert(ids@.skip(i as int)[0] == ids@[i as int]);
            assert(ids@.skip(i as int).skip(1) =~= ids@.skip(i + 1));
        }
        let kids = store.children(ids[i]);
        let words = find_text(store, &kids);
        if words.is_some() {
            return words;
        }
        i += 1;
    }
    None
}

/// Whether a node is a slot of the given name.
pub fn is_slot_named(store: &NodeStore, id: NodeId, name: &str) -> (r: bool)
    ensures
        r == is_slot(*store, id, name@),
{
    if !store.is_named(id, "slot") {
        return false;
    }
    match find_attr_text(store, id, "name") {
        Some(n) => same(&n, name),
        None => false,
    }
}

/// The title of a document: the text of the title slot in its preamble.
pub fn find_document_title(store: &NodeStore, root: NodeId) -> (r: Option<String>)
    ensures
        text::opt_text(r) == document_title(*store, root),
{
    match find_child_by_name(store, root, "preamble") {
        None => None,
        Some(preamble) => {
            let ids = store.children(preamble);
            let mut i: usize = 0;
            proof {
                assert(ids@.skip(0) =~= ids@);
            }
            while i < ids.len()
                invariant
                    i <= ids.len(),
                    child_named(*store, root, "preamble"@) == Some(preamble),
                    ids@ == children_of(*store, preamble),
                    title_among(*store, ids@.skip(i as int)) == title_among(*store, ids@),
                decreases ids.len() - i,
            {
                proof {
                    assert(ids@.skip(i as int)[0] == ids@[i as int]);
                    assert(ids@.skip(i as int).skip(1) =~= ids@.skip(i + 1));
                }
                if is_slot_named(store, ids[i], "title") {
                    let kids = store.children(ids[i]);
                    let words = find_text_below(store, &kids);
                    if words.is_some() {
                        return words;
                    }
                }
                i += 1;
            }
            None
        },
    }
}

/// What a slot holds, as far as it decides how the slot is edited.
#[derive(Debug, Clone, Copy, PartialEq, Eq, Structural)]
pub enum SlotShape {
    /// One heading or paragraph.
    SingleText,
    /// Nothing.
    Empty,
    /// More than one element.
    Multi,
    /// One element that is no heading and no paragraph.
    NonText,
    /// There is no such slot.
    Missing,
}

/// The shape of a slot that is there.
pub open spec fn shape_of(store: NodeStore, slot: NodeId) -> SlotShape {
    let kids = children_of(store, slot);
    if kids.len() == 0 {
        SlotShape::Empty
    } else if kids.len() > 1 {
        SlotShape::Multi
    } else if is_element(store, kids[0], "heading"@) || is_element(store, kids[0], "paragraph"@) {
        SlotShape::SingleText
    } else {
        SlotShape::NonText
    }
}

/// The shape of a slot that is there.
pub fn slot_shape_for_node(store: &NodeStore, slot: NodeId) -> (r: SlotShape)
    ensures
        r == shape_of(*store, slot),
{
    let kids = store.children(slot);
    if kids.len() == 0 {
        SlotShape::Empty
    } else if kids.len() > 1 {
        SlotShape::Multi
    } else if store.is_named(kids[0], "heading") || store.is_named(kids[0], "paragraph") {
        SlotShape::SingleText
    } else {
        SlotShape::NonText
    }
}

/// The first of the given nodes that is a slot of the given name.
pub open spec fn slot_among(store: NodeStore, ids: Seq<NodeId>, name: Seq<char>) -> Option<NodeId>
    decreases ids.len(),
{
    if ids.len() == 0 {
        None
    } else if is_slot(store, ids[0], name) {
        Some(ids[0])
    } else {
        slot_among(store, ids.skip(1), name)
    }
}

/// The shape of a slot of a document.
pub open spec fn document_slot_shape(store: NodeStore, root: NodeId, name: Seq<char>) -> SlotShape {
    match child_named(store, root, "preamble"@) {
        Some(preamble) => match slot_among(store, children_of(store, preamble), name) {
            Some(slot) => shape_of(store, slot),
            None => SlotShape::Missing,
        },
        None => SlotShape::Missing,
    }
}

/// The shape of a slot of a document.
pub fn slot_shape(store: &NodeStore, root: NodeId, name: &str) -> (r: SlotShape)
    ensures
        r == document_slot_shape(*store, root, name@),
{
    match find_child_by_name(store, root, "preamble") {
        None => SlotShape::Missing,
        Some(preamble) => {
            let ids = store.children(preamble);
            let mut i: usize = 0;
            proof {
                assert(ids@.skip(0) =~= ids@);
            }
            while i < ids.len()
                invariant
                    i <= ids.len(),
                    child_named(*store, root, "preamble"@) == Some(preamble),
                    ids@ == children_of(*store, preamble),
                    slot_among(*store, ids@.skip(i as int), name@) == slot_among(
                        *store,
                        ids@,
                        name@,
                    ),
                decreases ids.len() - i,
            {
                proof {
                    assert(ids@.skip(i as int)[0] == ids@[i as int]);
                    assert(ids@.skip(i as int).skip(1) =~= ids@.skip(i + 1));
                }
                if is_slot_named(store, ids[i], name) {
                    return slot_shape_for_node(store, ids[i]);
                }
                i += 1;
            }
            SlotShape::Missing
        },
    }
}

/// The number of elements in the body of a document.
pub open spec fn body_length(store: NodeStore, root: NodeId) -> nat {
    match child_named(store, root, "body"@) {
        Some(body) => children_of(store, body).len(),
        None => 0,
    }
}

/// The number of elements in the body of a document.
pub fn count_body(store: &NodeStore, root: NodeId) -> (r: usize)
    ensures
        r == body_length(*store, root),
{
    match find_child_by_name(store, root, "body") {
        Some(body) => store.children(body).len(),
        None => 0,
    }
}

/// The page that a link expression leads to, where the node is one with a path.
pub open spec fn link_target_of(store: NodeStore, id: NodeId) -> Option<Seq<char>> {
    if is_element(store, id, "link-expression"@) {
        match child_named(store, id, "link-target"@) {
            Some(target) => if attr_text(store, target, "kind"@) == Some("path-ref"@) {
                attr_text(store, target, "value"@)
            } else {
                None
            },
            None => None,
        }
    } else {
        None
    }
}

/// The page that a link expression leads to, where the node is one with a path.
pub fn path_link_target(store: &NodeStore, id: NodeId) -> (r: Option<String>)
    ensures
        text::opt_text(r) == link_target_of(*store, id),
{
    if !store.is_named(id, "link-expression") {
        return None;
    }
    match find_child_by_name(store, id, "link-target") {
        None => None,
        Some(target) => match find_attr_text(store, target, "kind") {
            Some(kind) => if same(&kind, "path-ref") {
                find_attr_text(store, target, "value")
            } else {
                None
            },
            None => None,
        },
    }
}

/// The pages that the link expressions at a node and below it lead to, parents
/// before children, down to the given depth.
pub open spec fn targets_below(store: NodeStore, id: NodeId, depth: nat) -> Seq<Seq<char>>
    decreases depth, 0nat, 0nat,
{
    let own = match link_target_of(store, id) {
        Some(target) => seq![target],
        None => seq![],
    };
    if depth == 0 {
        own
    } else {
        own + targets_among(store, children_of(store, id), (depth - 1) as nat)
    }
}

/// The pages that the link expressions at the given nodes and below them lead
/// to, in order.
pub open spec fn targets_among(store: NodeStore, ids: Seq<NodeId>, depth: nat) -> Seq<Seq<char>>
    decreases depth, 1nat, ids.len(),
{
    if ids.len() == 0 {
        seq![]
    } else {
        targets_among(store, ids.drop_last(), depth) + targets_below(store, ids.last(), depth)
    }
}

/// Whether no path from a node down through children is longer than the given
/// depth.
pub open spec fn is_shallow(store: NodeStore, id: NodeId, depth: nat) -> bool
    decreases depth,
{
    if depth == 0 {
        children_of(store, id).len() == 0
    } else {
        forall|k: int|
            0 <= k < children_of(store, id).len() ==> is_shallow(
                store,
                #[trigger] children_of(store, id)[k],
                (depth - 1) as nat,
            )
    }
}

/// A walk reaches every link expression below a node: one that may go deeper
/// finds no more, once no path is longer.
pub proof fn law_walk_is_complete(store: NodeStore, id: NodeId, depth: nat, more: nat)
    requires
        is_shallow(store, id, depth),
        depth <= more,
    ensures
        targets_below(store, id, more) == targets_below(store, id, depth),
    decreases depth,
{
    let kids = children_of(store, id);
    if depth == 0 {
        if more > 0 {
            assert(targets_among(store, kids, (more - 1) as nat) =~= seq![]);
            assert(targets_below(store, id, more) =~= targets_below(store, id, depth));
        }
    } else {
        lemma_among_is_complete(store, kids, (depth - 1) as nat, (more - 1) as nat);
    }
}

/// The same of a list of nodes.
proof fn lemma_among_is_complete(store: NodeStore, ids: Seq<NodeId>, depth: nat, more: nat)
    requires
        forall|k: int| 0 <= k < ids.len() ==> is_shallow(store, #[trigger] ids[k], depth),
        depth <= more,
    ensures
        targets_among(store, ids, more) == targets_among(store, ids, depth),
    decreases depth, ids.len(),
{
    if ids.len() > 0 {
        assert forall|k: int| 0 <= k < ids.drop_last().len() implies is_shallow(
            store,
            #[trigger] ids.drop_last()[k],
            depth,
        ) by {
            assert(ids.drop_last()[k] == ids[k]);
        }
        lemma_among_is_complete(store, ids.drop_last(), depth, more);
        assert(is_shallow(store, ids[ids.len() - 1], depth));
        let id = ids.last();
        let kids = children_of(store, id);
        if depth == 0 {
            if more > 0 {
                assert(targets_among(store, kids, (more - 1) as nat) =~= seq![]);
                assert(targets_below(store, id, more) =~= targets_below(store, id, depth));
            }
        } else {
            lemma_among_is_complete(store, kids, (depth - 1) as nat, (more - 1) as nat);
        }
        assert(targets_below(store, id, more) == targets_below(store, id, depth));
        assert(targets_among(store, ids, more) == targets_among(store, ids.drop_last(), more)
            + targets_below(store, id, more));
        assert(targets_among(store, ids, depth) == targets_among(store, ids.drop_last(), depth)
            + targets_below(store, id, depth));
    }
}

/// Add the pages that the link expressions at a node and below it lead to, down
/// to the given depth.
fn collect_targets(store: &NodeStore, id: NodeId, depth: usize, out: &mut Vec<String>)
    ensures
        text::texts(final(out)@) == text::texts(old(out)@) + targets_below(
            *store,
            id,
            depth as nat,
        ),
    decreases depth,
{
    let ghost before = text::texts(out@);
    match path_link_target(store, id) {
        Some(target) => {
            out.push(target);
            proof {
                assert(text::texts(out@) =~= before + seq![target@]);
            }
        },
        None => {
            proof {
                assert(text::texts(out@) =~= before + seq![]);
            }
        },
    }
    if depth > 0 {
        let ghost own = text::texts(out@);
        let ids = store.children(id);
        let mut i: usize = 0;
        proof {
            assert(ids@.take(0) =~= seq![]);
            assert(own =~= own + targets_among(*store, ids@.take(0), (depth - 1) as nat));
        }
        while i < ids.len()
            invariant
                i <= ids.len(),
                depth > 0,
                text::texts(out@) == own + targets_among(
                    *store,
                    ids@.take(i as int),
                    (depth - 1) as nat,
                ),
            decreases ids.len() - i,
        {
            collect_targets(store, ids[i], depth - 1, out);
            proof {
                assert(ids@.take(i + 1).drop_last() =~= ids@.take(i as int));
                assert(ids@.take(i + 1).last() == ids@[i as int]);
                assert(text::texts(out@) =~= own + targets_among(
                    *store,
                    ids@.take(i + 1),
                    (depth - 1) as nat,
                ));
            }
            i += 1;
        }
        proof {
            assert(ids@.take(i as int) =~= ids@);
            assert(text::texts(out@) =~= before + targets_below(*store, id, depth as nat));
        }
    }
}

/// The pages that the link expressions at a node and below it lead to, parents
/// before children. A path down through children that does not come back to a
/// node is no longer than the number of nodes: that is how deep the walk goes.
pub fn link_targets(store: &NodeStore, id: NodeId) -> (r: Vec<String>)
    ensures
        text::texts(r@) == targets_below(*store, id, store.nodes@.len()),
{
    let mut out: Vec<String> = Vec::new();
    collect_targets(store, id, store.nodes.len(), &mut out);
    proof {
        assert(text::texts(Seq::<String>::empty()) =~= seq![]);
        assert(text::texts(out@) =~= targets_below(*store, id, store.nodes@.len()));
    }
    out
}

/// Whether a node is one of the given ones or lies above one of them, at most the
/// given number of steps up, without an element of the given name on the way.
pub open spec fn rises_to(
    store: NodeStore,
    from: Seq<NodeId>,
    name: Seq<char>,
    id: NodeId,
    steps: nat,
) -> bool
    decreases steps, 0nat,
{
    if steps == 0 {
        from.contains(id)
    } else {
        ||| rises_to(store, from, name, id, (steps - 1) as nat)
        ||| exists|k: int|
            0 <= k < children_of(store, id).len() && steps_up(
                store,
                from,
                name,
                #[trigger] children_of(store, id)[k],
                (steps - 1) as nat,
            )
    }
}

/// Whether a step up from a node leads on: the node is reached, is in the store,
/// and is no element of the given name.
pub open spec fn steps_up(
    store: NodeStore,
    from: Seq<NodeId>,
    name: Seq<char>,
    id: NodeId,
    steps: nat,
) -> bool
    decreases steps, 1nat,
{
    &&& id.0 < store.nodes@.len()
    &&& !is_element(store, id, name)
    &&& rises_to(store, from, name, id, steps)
}

/// Whether a node is one of the given ones or lies above one of them, without an
/// element of the given name on the way.
pub open spec fn is_reached(
    store: NodeStore,
    from: Seq<NodeId>,
    name: Seq<char>,
    id: NodeId,
) -> bool {
    exists|steps: nat| rises_to(store, from, name, id, steps)
}

/// The elements of the given name that are reached from the given nodes, among
/// the first nodes of the store, in the order of their numbers.
pub open spec fn nearest_above(
    store: NodeStore,
    from: Seq<NodeId>,
    name: Seq<char>,
    n: int,
) -> Seq<NodeId>
    decreases n,
{
    if n <= 0 {
        seq![]
    } else {
        let id = NodeId((n - 1) as usize);
        let before = nearest_above(store, from, name, n - 1);
        if is_element(store, id, name) && is_reached(store, from, name, id) {
            before.push(id)
        } else {
            before
        }
    }
}

/// The number of nodes that are not marked.
spec fn unmarked(marks: Seq<bool>) -> nat
    decreases marks.len(),
{
    if marks.len() == 0 {
        0
    } else {
        unmarked(marks.drop_last()) + if marks.last() {
            0nat
        } else {
            1nat
        }
    }
}

/// Marking one more node leaves one fewer that is not.
proof fn lemma_mark(marks: Seq<bool>, i: int)
    requires
        0 <= i < marks.len(),
        !marks[i],
    ensures
        unmarked(marks.update(i, true)) + 1 == unmarked(marks),
    decreases marks.len(),
{
    let after = marks.update(i, true);
    if i == marks.len() - 1 {
        assert(after.drop_last() =~= marks.drop_last());
    } else {
        lemma_mark(marks.drop_last(), i);
        assert(after.drop_last() =~= marks.drop_last().update(i, true));
    }
}

/// What the marks of a walk upwards mean: a marked node is reached.
spec fn marks_are_reached(
    store: NodeStore,
    from: Seq<NodeId>,
    name: Seq<char>,
    marks: Seq<bool>,
) -> bool {
    forall|i: int|
        0 <= i < marks.len() && #[trigger] marks[i] ==> is_reached(
            store,
            from,
            name,
            NodeId(i as usize),
        )
}

/// Whether a node has a marked child that leads on.
spec fn is_above_marked(
    store: NodeStore,
    name: Seq<char>,
    marks: Seq<bool>,
    id: NodeId,
) -> bool {
    exists|k: int|
        0 <= k < children_of(store, id).len() && is_marked(
            store,
            name,
            marks,
            #[trigger] children_of(store, id)[k],
        )
}

/// Whether a node is marked and leads on.
spec fn is_marked(store: NodeStore, name: Seq<char>, marks: Seq<bool>, id: NodeId) -> bool {
    id.0 < marks.len() && marks[id.0 as int] && !is_element(store, id, name)
}

/// Where nothing is left to mark, every node that is reached is marked.
proof fn lemma_all_reached(
    store: NodeStore,
    from: Seq<NodeId>,
    name: Seq<char>,
    marks: Seq<bool>,
    id: NodeId,
    steps: nat,
)
    requires
        marks.len() == store.nodes@.len(),
        forall|k: int|
            0 <= k < from.len() && (#[trigger] from[k]).0 < marks.len()
                ==> marks[from[k].0 as int],
        forall|i: int|
            0 <= i < marks.len() && is_above_marked(
                store,
                name,
                marks,
                NodeId(i as usize),
            ) ==> #[trigger] marks[i],
        rises_to(store, from, name, id, steps),
        id.0 < marks.len(),
    ensures
        marks[id.0 as int],
    decreases steps,
{
    if steps == 0 {
        let k = choose|k: int| 0 <= k < from.len() && from[k] == id;
        assert(from[k].0 < marks.len());
    } else if rises_to(store, from, name, id, (steps - 1) as nat) {
        lemma_all_reached(store, from, name, marks, id, (steps - 1) as nat);
    } else {
        let kids = children_of(store, id);
        let k = choose|k: int|
            0 <= k < kids.len() && steps_up(
                store,
                from,
                name,
                #[trigger] kids[k],
                (steps - 1) as nat,
            );
        lemma_all_reached(store, from, name, marks, kids[k], (steps - 1) as nat);
        assert(is_marked(store, name, marks, kids[k]));
        assert(is_above_marked(store, name, marks, id));
        assert(id == NodeId(id.0 as int as usize));
    }
}

/// A node above one that is reached and leads on is reached.
proof fn lemma_step_up(
    store: NodeStore,
    from: Seq<NodeId>,
    name: Seq<char>,
    id: NodeId,
    k: int,
)
    requires
        0 <= k < children_of(store, id).len(),
        children_of(store, id)[k].0 < store.nodes@.len(),
        !is_element(store, children_of(store, id)[k], name),
        is_reached(store, from, name, children_of(store, id)[k]),
    ensures
        is_reached(store, from, name, id),
{
    let kid = children_of(store, id)[k];
    let steps = choose|steps: nat| rises_to(store, from, name, kid, steps);
    assert(steps_up(store, from, name, kid, steps));
    assert(rises_to(store, from, name, id, steps + 1));
}

/// Whether a node has a marked child that leads on.
fn has_marked_child(store: &NodeStore, name: &str, marks: &Vec<bool>, id: NodeId) -> (r: bool)
    requires
        marks@.len() == store.nodes@.len(),
    ensures
        r == is_above_marked(*store, name@, marks@, id),
{
    let ids = store.children(id);
    let mut i: usize = 0;
    while i < ids.len()
        invariant
            i <= ids.len(),
            ids@ == children_of(*store, id),
            marks@.len() == store.nodes@.len(),
            forall|k: int|
                0 <= k < i ==> !is_marked(
                    *store,
                    name@,
                    marks@,
                    #[trigger] children_of(*store, id)[k],
                ),
        decreases ids.len() - i,
    {
        let kid = ids[i];
        if kid.0 < marks.len() && marks[kid.0] && !store.is_named(kid, name) {
            proof {
                assert(is_marked(*store, name@, marks@, children_of(*store, id)[i as int]));
            }
            return true;
        }
        i += 1;
    }
    false
}

/// Mark the nodes of the store that are reached from the given ones.
fn mark_reached(store: &NodeStore, from: &Vec<NodeId>, name: &str) -> (r: Vec<bool>)
    ensures
        r@.len() == store.nodes@.len(),
        forall|i: int|
            0 <= i < r@.len() ==> #[trigger] r@[i] == is_reached(
                *store,
                from@,
                name@,
                NodeId(i as usize),
            ),
{
    let n: usize = store.nodes.len();
    let mut marks: Vec<bool> = Vec::new();
    let mut i: usize = 0;
    while i < n
        invariant
            i <= n,
            marks@.len() == i,
            forall|k: int| 0 <= k < i ==> !(#[trigger] marks@[k]),
        decreases n - i,
    {
        marks.push(false);
        i += 1;
    }
    i = 0;
    while i < from.len()
        invariant
            i <= from.len(),
            marks@.len() == n,
            n == store.nodes@.len(),
            marks_are_reached(*store, from@, name@, marks@),
            forall|k: int|
                0 <= k < i && (#[trigger] from@[k]).0 < marks@.len() ==> marks@[from@[k].0 as int],
        decreases from.len() - i,
    {
        let id = from[i];
        if id.0 < n {
            marks.set(id.0, true);
            proof {
                assert(from@.contains(id));
                assert(rises_to(*store, from@, name@, id, 0));
                assert(id == NodeId(id.0 as int as usize));
            }
        }
        i += 1;
    }
    let mut changed: bool = true;
    while changed
        invariant
            marks@.len() == n,
            n == store.nodes@.len(),
            marks_are_reached(*store, from@, name@, marks@),
            forall|k: int|
                0 <= k < from@.len() && (#[trigger] from@[k]).0 < marks@.len()
                    ==> marks@[from@[k].0 as int],
            !changed ==> forall|j: int|
                0 <= j < n && is_above_marked(
                    *store,
                    name@,
                    marks@,
                    NodeId(j as usize),
                ) ==> #[trigger] marks@[j],
        decreases unmarked(marks@), changed as int,
    {
        let ghost start = marks@;
        changed = false;
        let mut j: usize = 0;
        while j < n
            invariant
                j <= n,
                marks@.len() == n,
                n == store.nodes@.len(),
                marks_are_reached(*store, from@, name@, marks@),
                forall|k: int|
                    0 <= k < from@.len() && (#[trigger] from@[k]).0 < marks@.len()
                        ==> marks@[from@[k].0 as int],
                changed ==> unmarked(marks@) < unmarked(start),
                !changed ==> marks@ == start,
                !changed ==> forall|m: int|
                    0 <= m < j && is_above_marked(
                        *store,
                        name@,
                        marks@,
                        NodeId(m as usize),
                    ) ==> #[trigger] marks@[m],
            decreases n - j,
        {
            if !marks[j] && has_marked_child(store, name, &marks, NodeId(j)) {
                proof {
                    let id = NodeId(j);
                    let kids = children_of(*store, id);
                    let k = choose|k: int|
                        0 <= k < kids.len() && is_marked(*store, name@, marks@, #[trigger] kids[k]);
                    assert(marks@[kids[k].0 as int]);
                    assert(kids[k] == NodeId(kids[k].0 as int as usize));
                    lemma_step_up(*store, from@, name@, id, k);
                    lemma_mark(marks@, j as int);
                    assert(NodeId(j as int as usize) == id);
                }
                marks.set(j, true);
                changed = true;
            }
            j += 1;
        }
    }
    proof {
        assert forall|k: int| 0 <= k < marks@.len() implies #[trigger] marks@[k] == is_reached(
            *store,
            from@,
            name@,
            NodeId(k as usize),
        ) by {
            let id = NodeId(k as usize);
            if is_reached(*store, from@, name@, id) {
                let steps = choose|steps: nat| rises_to(*store, from@, name@, id, steps);
                lemma_all_reached(*store, from@, name@, marks@, id, steps);
            }
        }
    }
    marks
}

/// The elements of the given name that are reached from the given nodes by going
/// up: a node itself, or the first such element above it. They come in the order
/// of their numbers, each once.
pub fn nearest_named(store: &NodeStore, from: &Vec<NodeId>, name: &str) -> (r: Vec<NodeId>)
    ensures
        r@ == nearest_above(*store, from@, name@, store.nodes@.len() as int),
{
    let marks = mark_reached(store, from, name);
    let mut out: Vec<NodeId> = Vec::new();
    let mut i: usize = 0;
    while i < store.nodes.len()
        invariant
            i <= store.nodes@.len(),
            marks@.len() == store.nodes@.len(),
            forall|k: int|
                0 <= k < marks@.len() ==> #[trigger] marks@[k] == is_reached(
                    *store,
                    from@,
                    name@,
                    NodeId(k as usize),
                ),
            out@ == nearest_above(*store, from@, name@, i as int),
        decreases store.nodes.len() - i,
    {
        if marks[i] && store.is_named(NodeId(i), name) {
            out.push(NodeId(i));
        }
        i += 1;
    }
    out
}

/// The documents that the given nodes belong to, in the order of their numbers,
/// each once.
pub fn source_docs_of(store: &NodeStore, selection: &Vec<NodeId>) -> (r: Vec<NodeId>)
    ensures
        r@ == nearest_above(*store, selection@, "document"@, store.nodes@.len() as int),
{
    nearest_named(store, selection, "document")
}

/// The documents of a selection are numbered in order, and each is a document
/// element that is reached from the selection; there are no others.
pub proof fn law_source_docs(store: NodeStore, selection: Seq<NodeId>, n: int)
    requires
        0 <= n <= store.nodes@.len(),
    ensures
        forall|i: int, j: int|
            0 <= i < j < nearest_above(store, selection, "document"@, n).len() ==> (
            #[trigger] nearest_above(store, selection, "document"@, n)[i]).0 < (
            #[trigger] nearest_above(store, selection, "document"@, n)[j]).0,
        forall|id: NodeId|
            #![trigger nearest_above(store, selection, "document"@, n).contains(id)]
            nearest_above(store, selection, "document"@, n).contains(id) <==> (id.0 < n
                && is_element(store, id, "document"@) && is_reached(
                store,
                selection,
                "document"@,
                id,
            )),
    decreases n,
{
    if n > 0 {
        law_source_docs(store, selection, n - 1);
        assert(store.nodes.len() == store.nodes@.len());
        let before = nearest_above(store, selection, "document"@, n - 1);
        let all = nearest_above(store, selection, "document"@, n);
        let last = NodeId((n - 1) as usize);
        let joins = is_element(store, last, "document"@) && is_reached(
            store,
            selection,
            "document"@,
            last,
        );
        assert forall|k: int| 0 <= k < before.len() implies (#[trigger] before[k]).0 < n - 1 by {
            assert(before.contains(before[k]));
        }
        assert forall|i: int, j: int| 0 <= i < j < all.len() implies (#[trigger] all[i]).0 < (
        #[trigger] all[j]).0 by {
            assert(all[i] == before[i]);
            if j < before.len() {
                assert(all[j] == before[j]);
            }
        }
        assert forall|id: NodeId| #[trigger] all.contains(id) <==> (id.0 < n && is_element(
            store,
            id,
            "document"@,
        ) && is_reached(store, selection, "document"@, id)) by {
            if all.contains(id) {
                let k = choose|k: int| 0 <= k < all.len() && all[k] == id;
                if k < before.len() {
                    assert(before[k] == id);
                    assert(before.contains(id));
                }
            }
            if id.0 < n - 1 {
                if before.contains(id) {
                    let k = choose|k: int| 0 <= k < before.len() && before[k] == id;
                    assert(all[k] == id);
                }
            } else if id.0 == n - 1 && joins {
                assert(all[before.len() as int] == id);
            }
        }
    }
}

/// The children of a node are the ends of its child edges, its references and parts those
/// of the edges of these kinds, each in the order of the edges.
pub proof fn law_ends_keep_the_order_of_edges(a: Seq<Edge>, b: Seq<Edge>)
    ensures
        child_ends(a + b) == child_ends(a) + child_ends(b),
        reference_ends(a + b) == reference_ends(a) + reference_ends(b),
        part_ends(a + b) == part_ends(a) + part_ends(b),
    decreases b.len(),
{
    if b.len() == 0 {
        assert(a + b =~= a);
        assert(child_ends(a) + child_ends(b) =~= child_ends(a));
        assert(reference_ends(a) + reference_ends(b) =~= reference_ends(a));
        assert(part_ends(a) + part_ends(b) =~= part_ends(a));
    } else {
        law_ends_keep_the_order_of_edges(a, b.drop_last());
        assert((a + b).drop_last() =~= a + b.drop_last());
        assert((a + b).last() == b.last());
        assert(child_ends(a + b) =~= child_ends(a) + child_ends(b));
        assert(reference_ends(a + b) =~= reference_ends(a) + reference_ends(b));
        assert(part_ends(a + b) =~= part_ends(a) + part_ends(b));
    }
}

/// A single edge has an end of its own kind, and of no other.
pub proof fn law_end_of_one_edge(edge: Edge)
    ensures
        child_ends(seq![edge]) == match edge {
            Edge::Child(id) => seq![id],
            _ => seq![],
        },
        reference_ends(seq![edge]) == match edge {
            Edge::Reference { target, .. } => seq![target],
            _ => seq![],
        },
        part_ends(seq![edge]) == match edge {
            Edge::ConsistsOf { part, .. } => seq![part],
            _ => seq![],
        },
{
    let one = seq![edge];
    assert(one.drop_last() =~= seq![]);
    assert(one.last() == edge);
    assert(child_ends(one.drop_last()) =~= seq![]);
    assert(reference_ends(one.drop_last()) =~= seq![]);
    assert(part_ends(one.drop_last()) =~= seq![]);
    assert(child_ends(one) =~= match edge {
        Edge::Child(id) => seq![id],
        _ => seq![],
    });
    assert(reference_ends(one) =~= match edge {
        Edge::Reference { target, .. } => seq![target],
        _ => seq![],
    });
    assert(part_ends(one) =~= match edge {
        Edge::ConsistsOf { part, .. } => seq![part],
        _ => seq![],
    });
}

/// Whether an edge is an attribute of the given name that leads to the given text.
pub open spec fn says(store: NodeStore, edge: Edge, name: Seq<char>, words: Seq<char>) -> bool {
    &&& edge is Attribute
    &&& edge->Attribute_name@ == name
    &&& edge->value.0 < store.nodes@.len()
    &&& store.nodes@[edge->value.0 as int].node is Text
    &&& store.nodes@[edge->value.0 as int].node->Text_0@ == words
}

/// The text of an attribute is that of the first edge that says it, and there is none
/// where no edge does.
pub proof fn law_first_attribute_counts(
    store: NodeStore,
    id: NodeId,
    name: Seq<char>,
    k: int,
    words: Seq<char>,
)
    requires
        id.0 < store.nodes@.len(),
    ensures
        0 <= k < store.nodes@[id.0 as int].edges@.len() && says(
            store,
            store.nodes@[id.0 as int].edges@[k],
            name,
            words,
        ) && (forall|j: int, w: Seq<char>|
            0 <= j < k ==> !#[trigger] says(
                store,
                store.nodes@[id.0 as int].edges@[j],
                name,
                w,
            ))
            ==> attr_text(store, id, name) == Some(words),
        (forall|j: int, w: Seq<char>|
            0 <= j < store.nodes@[id.0 as int].edges@.len() ==> !#[trigger] says(
                store,
                store.nodes@[id.0 as int].edges@[j],
                name,
                w,
            )) ==> attr_text(store, id, name) is None,
{
    let edges = store.nodes@[id.0 as int].edges@;
    if 0 <= k < edges.len() && says(store, edges[k], name, words) && forall|j: int, w: Seq<char>|
        0 <= j < k ==> !#[trigger] says(store, edges[j], name, w) {
        lemma_first_attribute(store, edges, name, k);
    }
    if forall|j: int, w: Seq<char>|
        0 <= j < edges.len() ==> !#[trigger] says(store, edges[j], name, w) {
        lemma_first_attribute(store, edges, name, edges.len() as int);
    }
}

/// Edges that do not say an attribute do not matter.
proof fn lemma_first_attribute(store: NodeStore, edges: Seq<Edge>, name: Seq<char>, k: int)
    requires
        0 <= k <= edges.len(),
        forall|j: int, w: Seq<char>| 0 <= j < k ==> !#[trigger] says(store, edges[j], name, w),
    ensures
        k < edges.len() ==> forall|w: Seq<char>| #[trigger]
            says(store, edges[k], name, w) ==> attr_among(store, edges, name) == Some(w),
        k == edges.len() ==> attr_among(store, edges, name) is None,
    decreases k,
{
    if k > 0 {
        let rest = edges.skip(1);
        assert forall|j: int, w: Seq<char>| 0 <= j < k - 1 implies !#[trigger] says(
            store,
            rest[j],
            name,
            w,
        ) by {
            assert(rest[j] == edges[j + 1]);
            assert(!says(store, edges[j + 1], name, w));
        }
        lemma_first_attribute(store, rest, name, k - 1);
        assert(attr_among(store, edges, name) == attr_among(store, rest, name)) by {
            match edges[0] {
                Edge::Attribute { name: n, value } => {
                    if n@ == name && text_at(store, value) is Some {
                        assert(says(store, edges[0], name, text_at(store, value)->0));
                    }
                },
                _ => {},
            }
        }
        if k < edges.len() {
            assert(rest[k - 1] == edges[k]);
        }
    }
}

/// The child of a name is the first child that is an element of that name.
pub proof fn law_first_child_of_the_name_counts(
    store: NodeStore,
    ids: Seq<NodeId>,
    name: Seq<char>,
    k: int,
)
    requires
        0 <= k <= ids.len(),
        forall|j: int| 0 <= j < k ==> !is_element(store, #[trigger] ids[j], name),
    ensures
        k < ids.len() && is_element(store, ids[k], name) ==> first_named(store, ids, name) == Some(
            ids[k],
        ),
        k == ids.len() ==> first_named(store, ids, name) is None,
    decreases k,
{
    if k > 0 {
        let rest = ids.skip(1);
        assert(!is_element(store, ids[0], name));
        assert forall|j: int| 0 <= j < k - 1 implies !is_element(
            store,
            #[trigger] rest[j],
            name,
        ) by {
            assert(rest[j] == ids[j + 1]);
        }
        law_first_child_of_the_name_counts(store, rest, name, k - 1);
        if k < ids.len() {
            assert(rest[k - 1] == ids[k]);
        }
    }
}

/// The slot of a name is the first slot node whose name attribute says it.
pub proof fn law_first_slot_of_the_name_counts(
    store: NodeStore,
    ids: Seq<NodeId>,
    name: Seq<char>,
    k: int,
)
    requires
        0 <= k <= ids.len(),
        forall|j: int|
            0 <= j < k ==> !(is_element(store, #[trigger] ids[j], "slot"@) && attr_text(
                store,
                ids[j],
                "name"@,
            ) == Some(name)),
    ensures
        k < ids.len() && is_element(store, ids[k], "slot"@) && attr_text(store, ids[k], "name"@)
            == Some(name) ==> slot_among(store, ids, name) == Some(ids[k]),
        k == ids.len() ==> slot_among(store, ids, name) is None,
    decreases k,
{
    if k > 0 {
        let rest = ids.skip(1);
        assert(!is_slot(store, ids[0], name));
        assert forall|j: int| 0 <= j < k - 1 implies !(is_element(store, #[trigger] rest[j], "slot"@)
            && attr_text(store, rest[j], "name"@) == Some(name)) by {
            assert(rest[j] == ids[j + 1]);
        }
        law_first_slot_of_the_name_counts(store, rest, name, k - 1);
        if k < ids.len() {
            assert(rest[k - 1] == ids[k]);
        }
    }
}

/// The shape of a slot goes by its children: none, more than one, a single heading or
/// paragraph, or a single element of another kind.
pub proof fn law_shapes_of_slots(store: NodeStore, slot: NodeId, id: NodeId)
    ensures
        shape_of(store, slot) is Empty <==> children_of(store, slot).len() == 0,
        shape_of(store, slot) is Multi <==> children_of(store, slot).len() > 1,
        children_of(store, slot) == seq![id] && (is_element(store, id, "heading"@) || is_element(
            store,
            id,
            "paragraph"@,
        )) ==> shape_of(store, slot) is SingleText,
        children_of(store, slot) == seq![id] && !is_element(store, id, "heading"@) && !is_element(
            store,
            id,
            "paragraph"@,
        ) ==> shape_of(store, slot) is NonText,
        !(shape_of(store, slot) is Missing),
{
}

/// The title of a document is the first text below its title slot.
pub proof fn law_title_stands_in_the_title_slot(
    store: NodeStore,
    root: NodeId,
    preamble: NodeId,
    slot: NodeId,
    element: NodeId,
    leaf: NodeId,
    words: Seq<char>,
)
    requires
        children_of(store, root) == seq![preamble],
        is_element(store, preamble, "preamble"@),
        children_of(store, preamble) == seq![slot],
        is_element(store, slot, "slot"@),
        attr_text(store, slot, "name"@) == Some("title"@),
        children_of(store, slot) == seq![element],
        children_of(store, element) == seq![leaf],
        text_at(store, leaf) == Some(words),
    ensures
        document_title(store, root) == Some(words),
{
    assert(first_text(store, seq![leaf]) == Some(words));
    assert(first_text_below(store, seq![element]) == Some(words));
    assert(seq![slot][0] == slot);
    assert(seq![preamble][0] == preamble);
}

/// A path that a link expression refers to is among the targets of every node that the
/// expression stands below.
pub proof fn law_targets_of_children_are_targets(
    store: NodeStore,
    id: NodeId,
    k: int,
    depth: nat,
    target: Seq<char>,
)
    requires
        0 <= k < children_of(store, id).len(),
    ensures
        targets_below(store, children_of(store, id)[k], depth).contains(target) ==> targets_below(
            store,
            id,
            depth + 1,
        ).contains(target),
        link_target_of(store, id) == Some(target) ==> targets_below(store, id, depth).contains(
            target,
        ),
{
    let kids = children_of(store, id);
    let own = match link_target_of(store, id) {
        Some(t) => seq![t],
        None => seq![],
    };
    if targets_below(store, kids[k], depth).contains(target) {
        lemma_targets_among(store, kids, k, depth, target);
        let rest = targets_among(store, kids, depth);
        let i = choose|i: int| 0 <= i < rest.len() && rest[i] == target;
        assert(targets_below(store, id, depth + 1) == own + rest);
        assert((own + rest)[own.len() + i] == target);
    }
    if link_target_of(store, id) == Some(target) {
        assert(targets_below(store, id, depth)[0] == target);
    }
}

/// The targets of one of several nodes are among those of all of them.
proof fn lemma_targets_among(
    store: NodeStore,
    ids: Seq<NodeId>,
    k: int,
    depth: nat,
    target: Seq<char>,
)
    requires
        0 <= k < ids.len(),
        targets_below(store, ids[k], depth).contains(target),
    ensures
        targets_among(store, ids, depth).contains(target),
    decreases ids.len(),
{
    let front = targets_among(store, ids.drop_last(), depth);
    let last = targets_below(store, ids.last(), depth);
    let all = targets_among(store, ids, depth);
    assert(all == front + last);
    if k == ids.len() - 1 {
        let i = choose|i: int| 0 <= i < last.len() && last[i] == target;
        assert(all[front.len() + i] == target);
    } else {
        lemma_targets_among(store, ids.drop_last(), k, depth, target);
        let i = choose|i: int| 0 <= i < front.len() && front[i] == target;
        assert(all[i] == target);
    }
}

/// The target of a link expression is the value of its target node, where that refers to
/// a path.
pub proof fn law_target_of_a_link_expression(
    store: NodeStore,
    id: NodeId,
    target: NodeId,
    value: Seq<char>,
)
    requires
        children_of(store, id) == seq![target],
        is_element(store, target, "link-target"@),
        attr_text(store, target, "value"@) == Some(value),
    ensures
        is_element(store, id, "link-expression"@) && attr_text(store, target, "kind"@) == Some(
            "path-ref"@,
        ) ==> link_target_of(store, id) == Some(value),
        !is_element(store, id, "link-expression"@) ==> link_target_of(store, id) is None,
        attr_text(store, target, "kind"@) != Some("path-ref"@) ==> link_target_of(store, id) is None,
{
    assert(seq![target][0] == target);
}

/// A node is reached from the nodes that are selected, and from every node that is reached
/// and has not the name that is looked for, by way of the nodes that it is a child of; and
/// in no other way.
pub proof fn law_nodes_are_reached_by_their_children(
    store: NodeStore,
    from: Seq<NodeId>,
    name: Seq<char>,
    id: NodeId,
    k: int,
)
    ensures
        from.contains(id) ==> is_reached(store, from, name, id),
        0 <= k < children_of(store, id).len() && children_of(store, id)[k].0 < store.nodes@.len()
            && !is_element(store, children_of(store, id)[k], name) && is_reached(
            store,
            from,
            name,
            children_of(store, id)[k],
        ) ==> is_reached(store, from, name, id),
        is_reached(store, from, name, id) ==> from.contains(id) || exists|j: int|
            0 <= j < children_of(store, id).len() && is_reached(
                store,
                from,
                name,
                #[trigger] children_of(store, id)[j],
            ) && !is_element(store, children_of(store, id)[j], name),
{
    if from.contains(id) {
        assert(rises_to(store, from, name, id, 0));
    }
    let kids = children_of(store, id);
    if 0 <= k < kids.len() && kids[k].0 < store.nodes@.len() && !is_element(store, kids[k], name)
        && is_reached(store, from, name, kids[k]) {
        let steps = choose|steps: nat| rises_to(store, from, name, kids[k], steps);
        assert(steps_up(store, from, name, children_of(store, id)[k], steps));
        assert(rises_to(store, from, name, id, steps + 1));
    }
    if is_reached(store, from, name, id) {
        let steps = choose|steps: nat| rises_to(store, from, name, id, steps);
        lemma_reached_by_a_child(store, from, name, id, steps);
    }
}

/// A node that is reached in some steps is selected or reached by one of its children.
proof fn lemma_reached_by_a_child(
    store: NodeStore,
    from: Seq<NodeId>,
    name: Seq<char>,
    id: NodeId,
    steps: nat,
)
    requires
        rises_to(store, from, name, id, steps),
    ensures
        from.contains(id) || exists|j: int|
            0 <= j < children_of(store, id).len() && is_reached(
                store,
                from,
                name,
                #[trigger] children_of(store, id)[j],
            ) && !is_element(store, children_of(store, id)[j], name),
    decreases steps,
{
    if steps > 0 {
        if rises_to(store, from, name, id, (steps - 1) as nat) {
            lemma_reached_by_a_child(store, from, name, id, (steps - 1) as nat);
        } else {
            let j = choose|j: int|
                0 <= j < children_of(store, id).len() && steps_up(
                    store,
                    from,
                    name,
                    #[trigger] children_of(store, id)[j],
                    (steps - 1) as nat,
                );
            assert(rises_to(store, from, name, children_of(store, id)[j], (steps - 1) as nat));
        }
    }
}

/// The length of a body is the number of children of the first child that is the body; a
/// document without a body has none. A slot that a document does not have is missing, and
/// one that it has has the shape of its node.
pub proof fn law_bodies_and_slots_of_documents(
    store: NodeStore,
    root: NodeId,
    body: NodeId,
    preamble: NodeId,
    name: Seq<char>,
)
    requires
        children_of(store, root) == seq![preamble, body],
        is_element(store, preamble, "preamble"@),
        is_element(store, body, "body"@),
    ensures
        body_length(store, root) == children_of(store, body).len(),
        document_slot_shape(store, root, name) == match slot_among(
            store,
            children_of(store, preamble),
            name,
        ) {
            Some(slot) => shape_of(store, slot),
            None => SlotShape::Missing,
        },
{
    reveal_strlit("preamble");
    reveal_strlit("body");
    assert("preamble"@.len() != "body"@.len());
    let kids = seq![preamble, body];
    assert(kids[0] == preamble);
    assert(kids.skip(1)[0] == body);
    assert(!is_element(store, preamble, "body"@));
    assert(first_named(store, kids, "preamble"@) == Some(preamble));
    assert(first_named(store, kids.skip(1), "body"@) == Some(body));
}

} // verus!
