//! Node graph editing: port kinds and their compatibility, connections,
//! the topology of a node graph (nodes, edges, cycle checks, ordering),
//! context menus and the snapshot history of the node editor.

use std::borrow::ToOwned;
use vstd::prelude::*;

verus! {

broadcast use {vstd::set::group_set_axioms, vstd::seq_lib::group_seq_properties};

/// Whether a port receives or emits values.
#[derive(Debug, Clone, Copy, PartialEq, Eq, Structural)]
pub enum PortDirection {
    Input,
    Output,
}

/// Value type carried by a port.
#[derive(Debug, Clone, Copy, PartialEq, Eq, Structural)]
pub enum PortKind {
    Float,
    Float2,
    Float3,
    Float4,
    Int,
    Bool,
    Color,
    Texture2D,
    TextureCube,
    Sampler,
    Matrix2,
    Matrix3,
    Matrix4,
    String,
    Any,
    Flow,
    Object,
}

/// Display label of a port kind.
pub open spec fn port_kind_label(k: PortKind) -> Seq<char> {
    match k {
        PortKind::Float => "float"@,
        PortKind::Float2 => "vec2"@,
        PortKind::Float3 => "vec3"@,
        PortKind::Float4 => "vec4"@,
        PortKind::Int => "int"@,
        PortKind::Bool => "bool"@,
        PortKind::Color => "color"@,
        PortKind::Texture2D => "Texture2D"@,
        PortKind::TextureCube => "TextureCube"@,
        PortKind::Sampler => "Sampler"@,
        PortKind::Matrix2 => "mat2"@,
        PortKind::Matrix3 => "mat3"@,
        PortKind::Matrix4 => "mat4"@,
        PortKind::String => "string"@,
        PortKind::Any => "any"@,
        PortKind::Flow => "flow"@,
        PortKind::Object => "object"@,
    }
}

/// The implicit conversions between distinct port kinds: a scalar widens to
/// vectors and colours, three- and four-component vectors and colours
/// convert into each other, and an integer widens to a scalar.
pub open spec fn is_numeric_promotion(a: PortKind, b: PortKind) -> bool {
    ||| (a == PortKind::Float && b == PortKind::Float2)
    ||| (a == PortKind::Float && b == PortKind::Float3)
    ||| (a == PortKind::Float && b == PortKind::Float4)
    ||| (a == PortKind::Float && b == PortKind::Color)
    ||| (a == PortKind::Float3 && b == PortKind::Color)
    ||| (a == PortKind::Float4 && b == PortKind::Color)
    ||| (a == PortKind::Color && b == PortKind::Float3)
    ||| (a == PortKind::Color && b == PortKind::Float4)
    ||| (a == PortKind::Int && b == PortKind::Float)
}

/// An output of kind `a` may feed an input of kind `b`.
pub open spec fn ports_compatible(a: PortKind, b: PortKind) -> bool {
    a == b || a == PortKind::Any || b == PortKind::Any || is_numeric_promotion(a, b)
}

impl PortKind {
    pub fn label(self) -> (r: &'static str)
        ensures
            r@ == port_kind_label(self),
    {
        match self {
            PortKind::Float => "float",
            PortKind::Float2 => "vec2",
            PortKind::Float3 => "vec3",
            PortKind::Float4 => "vec4",
            PortKind::Int => "int",
            PortKind::Bool => "bool",
            PortKind::Color => "color",
            PortKind::Texture2D => "Texture2D",
            PortKind::TextureCube => "TextureCube",
            PortKind::Sampler => "Sampler",
            PortKind::Matrix2 => "mat2",
            PortKind::Matrix3 => "mat3",
            PortKind::Matrix4 => "mat4",
            PortKind::String => "string",
            PortKind::Any => "any",
            PortKind::Flow => "flow",
            PortKind::Object => "object",
        }
    }

    pub fn can_connect_to(self, other: PortKind) -> (r: bool)
        ensures
            r == ports_compatible(self, other),
    {
        if self == other {
            return true;
        }
        if self == PortKind::Any || other == PortKind::Any {
            return true;
        }
        match (self, other) {
            (PortKind::Float, PortKind::Float2)
            | (PortKind::Float, PortKind::Float3)
            | (PortKind::Float, PortKind::Float4)
            | (PortKind::Float, PortKind::Color)
            | (PortKind::Float3, PortKind::Color)
            | (PortKind::Float4, PortKind::Color)
            | (PortKind::Color, PortKind::Float3)
            | (PortKind::Color, PortKind::Float4)
            | (PortKind::Int, PortKind::Float) => true,
            _ => false,
        }
    }
}

/// Every kind connects to itself.
pub proof fn lemma_port_compat_reflexive(k: PortKind)
    ensures
        ports_compatible(k, k),
{
}

/// `Any` connects to everything, in both directions.
pub proof fn lemma_port_any_connects(k: PortKind)
    ensures
        ports_compatible(PortKind::Any, k),
        ports_compatible(k, PortKind::Any),
{
}

/// Visual and processing state of a node.
#[derive(Debug, Clone, Copy, PartialEq, Eq, Structural)]
pub enum NodeState {
    Normal,
    Selected,
    Hovered,
    Error,
    Warning,
    Disabled,
    Processing,
    Dirty,
}

/// An edge from an output port of one node to an input port of another.
#[derive(Debug, Clone, Copy, PartialEq, Eq, Structural)]
pub struct Connection {
    pub id: u32,
    pub from_node: u32,
    pub from_port: u32,
    pub to_node: u32,
    pub to_port: u32,
}

impl Connection {
    pub fn new(id: u32, from_node: u32, from_port: u32, to_node: u32, to_port: u32) -> (r: Self)
        ensures
            r == (Connection { id, from_node, from_port, to_node, to_port }),
    {
        Connection { id, from_node, from_port, to_node, to_port }
    }
}

/// What the pointer is currently doing in the node editor (`Idle` when nothing).
#[derive(Debug, Clone, Copy, PartialEq, Eq, Structural)]
pub enum NodeEditorAction {
    Idle,
    DragNode(u32),
    DragConnection(u32, u32),
    DragSelect,
    Pan,
    Zoom,
}

/// An entry of the node editor's context menu: an action, a separator or a submenu.
#[derive(Debug)]
pub struct ContextMenuItem {
    pub label: String,
    pub shortcut: Option<String>,
    pub enabled: bool,
    pub separator_after: bool,
    pub action: String,
    pub children: Vec<ContextMenuItem>,
}

impl ContextMenuItem {
    /// An enabled entry that triggers `action`.
    pub fn action(label: &str, action: &str) -> (r: Self)
        ensures
            r.label@ == label@,
            r.action@ == action@,
            r.shortcut is None,
            r.enabled,
            !r.separator_after,
            r.children@.len() == 0,
    {
        ContextMenuItem {
            label: label.to_owned(),
            shortcut: None,
            enabled: true,
            separator_after: false,
            action: action.to_owned(),
            children: Vec::new(),
        }
    }

    /// A disabled divider line.
    pub fn separator() -> (r: Self)
        ensures
            r.label@ == "---"@,
            r.action@ == Seq::<char>::empty(),
            r.shortcut is None,
            !r.enabled,
            !r.separator_after,
            r.children@.len() == 0,
    {
        ContextMenuItem {
            label: "---".to_owned(),
            shortcut: None,
            enabled: false,
            separator_after: false,
            action: String::new(),
            children: Vec::new(),
        }
    }

    /// An enabled entry that opens `children`.
    pub fn submenu(label: &str, children: Vec<ContextMenuItem>) -> (r: Self)
        ensures
            r.label@ == label@,
            r.action@ == Seq::<char>::empty(),
            r.shortcut is None,
            r.enabled,
            !r.separator_after,
            r.children == children,
    {
        ContextMenuItem {
            label: label.to_owned(),
            shortcut: None,
            enabled: true,
            separator_after: false,
            action: String::new(),
            children,
        }
    }
}

/// `i` is an enabled entry labelled `label` that triggers `action`.
pub open spec fn action_item(i: ContextMenuItem, label: Seq<char>, action: Seq<char>) -> bool {
    &&& i.label@ == label
    &&& i.action@ == action
    &&& i.shortcut is None
    &&& i.enabled
    &&& !i.separator_after
    &&& i.children@.len() == 0
}

/// `i` is a divider line.
pub open spec fn separator_item(i: ContextMenuItem) -> bool {
    &&& i.label@ == "---"@
    &&& i.action@ == Seq::<char>::empty()
    &&& i.shortcut is None
    &&& !i.enabled
    &&& !i.separator_after
    &&& i.children@.len() == 0
}

/// The context menu's entries: over a node, its node commands; over the
/// empty canvas, a submenu of nodes to add and the canvas commands.
pub fn context_menu_items(on_node: bool) -> (r: Vec<ContextMenuItem>)
    ensures
        on_node ==> {
            &&& r@.len() == 7
            &&& action_item(r@[0], "Delete"@, "delete_selected"@)
            &&& action_item(r@[1], "Duplicate"@, "duplicate"@)
            &&& separator_item(r@[2])
            &&& action_item(r@[3], "Collapse"@, "collapse"@)
            &&& action_item(r@[4], "Add Comment"@, "add_comment"@)
            &&& separator_item(r@[5])
            &&& action_item(r@[6], "Properties"@, "properties"@)
        },
        !on_node ==> {
            &&& r@.len() == 6
            &&& r@[0].label@ == "Add Node"@
            &&& r@[0].action@ == Seq::<char>::empty()
            &&& r@[0].shortcut is None
            &&& r@[0].enabled
            &&& !r@[0].separator_after
            &&& r@[0].children@.len() == 3
            &&& action_item(r@[0].children@[0], "Add"@, "add_add_node"@)
            &&& action_item(r@[0].children@[1], "Multiply"@, "add_mul_node"@)
            &&& action_item(r@[0].children@[2], "Constant"@, "add_const_node"@)
            &&& separator_item(r@[1])
            &&& action_item(r@[2], "Select All"@, "select_all"@)
            &&& action_item(r@[3], "Auto Layout"@, "auto_layout"@)
            &&& separator_item(r@[4])
            &&& action_item(r@[5], "Paste"@, "paste"@)
        },
{
    let mut r: Vec<ContextMenuItem> = Vec::new();
    if on_node {
        r.push(ContextMenuItem::action("Delete", "delete_selected"));
        r.push(ContextMenuItem::action("Duplicate", "duplicate"));
        r.push(ContextMenuItem::separator());
        r.push(ContextMenuItem::action("Collapse", "collapse"));
        r.push(ContextMenuItem::action("Add Comment", "add_comment"));
        r.push(ContextMenuItem::separator());
        r.push(ContextMenuItem::action("Properties", "properties"));
    } else {
        let mut add: Vec<ContextMenuItem> = Vec::new();
        add.push(ContextMenuItem::action("Add", "add_add_node"));
        add.push(ContextMenuItem::action("Multiply", "add_mul_node"));
        add.push(ContextMenuItem::action("Constant", "add_const_node"));
        r.push(ContextMenuItem::submenu("Add Node", add));
        r.push(ContextMenuItem::separator());
        r.push(ContextMenuItem::action("Select All", "select_all"));
        r.push(ContextMenuItem::action("Auto Layout", "auto_layout"));
        r.push(ContextMenuItem::separator());
        r.push(ContextMenuItem::action("Paste", "paste"));
    }
    r
}

// ---------------------------------------------------------------------------
// Walks through the connections of a graph
// ---------------------------------------------------------------------------

/// Some connection leads from node `a` to node `b`.
pub open spec fn has_edge(conns: Seq<Connection>, a: u32, b: u32) -> bool {
    exists|i: int| 0 <= i < conns.len() && #[trigger] conns[i].from_node == a && conns[i].to_node == b
}

/// Step `k` of `p` follows a connection.
pub open spec fn walk_step(conns: Seq<Connection>, p: Seq<u32>, k: int) -> bool {
    has_edge(conns, p[k], p[k + 1])
}

/// `p` is a non-empty sequence of nodes, each joined to the next by a connection.
pub open spec fn is_walk(conns: Seq<Connection>, p: Seq<u32>) -> bool {
    &&& p.len() >= 1
    &&& forall|k: int| 0 <= k < p.len() - 1 ==> #[trigger] walk_step(conns, p, k)
}

/// Node `b` can be reached from node `a` by following connections
/// (every node reaches itself).
pub open spec fn reaches(conns: Seq<Connection>, a: u32, b: u32) -> bool {
    exists|p: Seq<u32>| #[trigger] is_walk(conns, p) && p[0] == a && p.last() == b
}

/// No walk of one or more steps returns to where it started.
pub open spec fn acyclic(conns: Seq<Connection>) -> bool {
    forall|p: Seq<u32>| #[trigger] is_walk(conns, p) && p.len() >= 2 ==> p[0] != p.last()
}

/// Every node reaches itself.
pub proof fn lemma_reaches_refl(conns: Seq<Connection>, a: u32)
    ensures
        reaches(conns, a, a),
{
    let p = seq![a];
    assert(is_walk(conns, p));
}

/// What a node reaches, followed by one more connection, it reaches too.
pub proof fn lemma_reaches_step(conns: Seq<Connection>, a: u32, b: u32, i: int)
    requires
        reaches(conns, a, b),
        0 <= i < conns.len(),
        conns[i].from_node == b,
    ensures
        reaches(conns, a, conns[i].to_node),
{
    let p = choose|p: Seq<u32>| #[trigger] is_walk(conns, p) && p[0] == a && p.last() == b;
    let q = p.push(conns[i].to_node);
    assert forall|k: int| 0 <= k < q.len() - 1 implies #[trigger] walk_step(conns, q, k) by {
        if k < p.len() - 1 {
            assert(walk_step(conns, p, k));
        } else {
            assert(conns[i].from_node == q[k] && conns[i].to_node == q[k + 1]);
        }
    }
    assert(is_walk(conns, q));
}

/// A set of nodes that holds `a` and is closed under connections holds
/// every node reachable from `a`.
pub proof fn lemma_closed_holds_reachable(conns: Seq<Connection>, r: Seq<u32>, a: u32, b: u32)
    requires
        r.contains(a),
        forall|i: int|
            0 <= i < conns.len() && r.contains(#[trigger] conns[i].from_node) ==> r.contains(
                conns[i].to_node,
            ),
        reaches(conns, a, b),
    ensures
        r.contains(b),
{
    let p = choose|p: Seq<u32>| #[trigger] is_walk(conns, p) && p[0] == a && p.last() == b;
    lemma_walk_in_closed(conns, r, p, p.len() - 1);
}

proof fn lemma_walk_in_closed(conns: Seq<Connection>, r: Seq<u32>, p: Seq<u32>, k: int)
    requires
        is_walk(conns, p),
        r.contains(p[0]),
        forall|i: int|
            0 <= i < conns.len() && r.contains(#[trigger] conns[i].from_node) ==> r.contains(
                conns[i].to_node,
            ),
        0 <= k < p.len(),
    ensures
        r.contains(p[k]),
    decreases k,
{
    if k > 0 {
        lemma_walk_in_closed(conns, r, p, k - 1);
        assert(walk_step(conns, p, k - 1));
        let i = choose|i: int|
            0 <= i < conns.len() && #[trigger] conns[i].from_node == p[k - 1] && conns[i].to_node
                == p[k];
    }
}


/// Every connection of `s1` is also a connection of `s2`.
pub open spec fn edges_within(s1: Seq<Connection>, s2: Seq<Connection>) -> bool {
    forall|i: int| 0 <= i < s1.len() ==> s2.contains(#[trigger] s1[i])
}

/// A walk along a subset of the connections is a walk along all of them.
pub proof fn lemma_walk_within(s1: Seq<Connection>, s2: Seq<Connection>, p: Seq<u32>)
    requires
        edges_within(s1, s2),
        is_walk(s1, p),
    ensures
        is_walk(s2, p),
{
    assert forall|k: int| 0 <= k < p.len() - 1 implies #[trigger] walk_step(s2, p, k) by {
        assert(walk_step(s1, p, k));
        let i = choose|i: int|
            0 <= i < s1.len() && #[trigger] s1[i].from_node == p[k] && s1[i].to_node == p[k + 1];
        assert(s2.contains(s1[i]));
        let j = choose|j: int| 0 <= j < s2.len() && s2[j] == s1[i];
        assert(s2[j].from_node == p[k]);
    }
}

/// Dropping connections keeps a graph acyclic.
pub proof fn lemma_acyclic_within(s1: Seq<Connection>, s2: Seq<Connection>)
    requires
        edges_within(s1, s2),
        acyclic(s2),
    ensures
        acyclic(s1),
{
    assert forall|p: Seq<u32>| #[trigger] is_walk(s1, p) && p.len() >= 2 implies p[0] != p.last() by {
        lemma_walk_within(s1, s2, p);
    }
}

/// The first position at which `x` occurs in `q`.
proof fn first_index_of(q: Seq<u32>, x: u32) -> (j: int)
    requires
        q.contains(x),
    ensures
        0 <= j < q.len(),
        q[j] == x,
        forall|m: int| 0 <= m < j ==> q[m] != x,
    decreases q.len(),
{
    let d = q.drop_last();
    if d.contains(x) {
        let j = first_index_of(d, x);
        assert(q[j] == d[j]);
        assert forall|m: int| 0 <= m < j implies q[m] != x by {
            assert(q[m] == d[m]);
        }
        j
    } else {
        assert forall|m: int| 0 <= m < q.len() - 1 implies q[m] != x by {
            assert(q[m] == d[m]);
        }
        let w = choose|w: int| 0 <= w < q.len() && q[w] == x;
        q.len() - 1
    }
}

/// Adding a connection `f -> t` to an acyclic graph in which `f` is not
/// reachable from `t` leaves it acyclic.
pub proof fn lemma_acyclic_push(g: Seq<Connection>, c: Connection)
    requires
        acyclic(g),
        !reaches(g, c.to_node, c.from_node),
    ensures
        acyclic(g.push(c)),
{
    let g2 = g.push(c);
    let f = c.from_node;
    let t = c.to_node;
    assert forall|p: Seq<u32>| #[trigger] is_walk(g2, p) && p.len() >= 2 implies p[0] != p.last() by {
        if p[0] == p.last() {
            if forall|k: int| 0 <= k < p.len() - 1 ==> #[trigger] walk_step(g, p, k) {
                assert(is_walk(g, p));
            } else {
                let k = choose|k: int| 0 <= k < p.len() - 1 && !#[trigger] walk_step(g, p, k);
                assert(walk_step(g2, p, k));
                let i = choose|i: int|
                    0 <= i < g2.len() && #[trigger] g2[i].from_node == p[k] && g2[i].to_node == p[k + 1];
                if i < g.len() {
                    assert(g[i] == g2[i]);
                    assert(walk_step(g, p, k));
                }
                assert(p[k] == f && p[k + 1] == t);
                // Rotate the closed walk so that it starts right after the new edge.
                let q = p.subrange(k + 1, p.len() as int) + p.subrange(1, k + 1);
                assert(q.len() == p.len() - 1);
                assert(q[0] == t);
                assert(q[q.len() - 1] == f);
                assert forall|m: int| 0 <= m < q.len() - 1 implies #[trigger] walk_step(g2, q, m) by {
                    let a = p.len() - 1 - k;
                    if m < a - 1 {
                        assert(q[m] == p[k + 1 + m] && q[m + 1] == p[k + 2 + m]);
                        assert(walk_step(g2, p, k + 1 + m));
                    } else if m == a - 1 {
                        assert(q[m] == p[p.len() - 1] && q[m + 1] == p[1]);
                        assert(walk_step(g2, p, 0));
                    } else {
                        assert(q[m] == p[m - a + 1] && q[m + 1] == p[m - a + 2]);
                        assert(walk_step(g2, p, m - a + 1));
                    }
                }
                assert(q.contains(f));
                let j = first_index_of(q, f);
                let r = q.subrange(0, j + 1);
                assert forall|m: int| 0 <= m < r.len() - 1 implies #[trigger] walk_step(g, r, m) by {
                    assert(walk_step(g2, q, m));
                    assert(r[m] == q[m] && r[m + 1] == q[m + 1]);
                    let i2 = choose|i2: int|
                        0 <= i2 < g2.len() && #[trigger] g2[i2].from_node == q[m] && g2[i2].to_node
                            == q[m + 1];
                    assert(q[m] != f);
                    assert(i2 < g.len());
                    assert(g[i2] == g2[i2]);
                }
                assert(is_walk(g, r));
                assert(r[0] == t && r.last() == f);
                assert(reaches(g, t, f));
            }
        }
    }
}

// ---------------------------------------------------------------------------
// Graph topology
// ---------------------------------------------------------------------------

/// The set of nodes that can possibly be reached from `start`: `start`
/// itself and every connection target.
pub open spec fn reach_universe(conns: Seq<Connection>, start: u32) -> Set<u32> {
    conns.map_values(|c: Connection| c.to_node).to_set().insert(start)
}

/// The nodes and connections of a node graph, with the id counters it
/// hands new nodes and connections from.
#[derive(Debug)]
pub struct GraphTopology {
    node_ids: Vec<u32>,
    connections: Vec<Connection>,
    next_node_id: u32,
    next_conn_id: u32,
    dirty: bool,
}

impl Clone for GraphTopology {
    /// A graph with the same nodes, connections, counters and dirty flag.
    fn clone(&self) -> (r: Self)
        ensures
            r.nodes() == self.nodes(),
            r.edges() == self.edges(),
            r.spec_next_node_id() == self.spec_next_node_id(),
            r.spec_next_conn_id() == self.spec_next_conn_id(),
            r.spec_dirty() == self.spec_dirty(),
            self.wf() ==> r.wf(),
    {
        let mut node_ids: Vec<u32> = Vec::new();
        for i in 0..self.node_ids.len()
            invariant
                node_ids@ == self.node_ids@.take(i as int),
        {
            node_ids.push(self.node_ids[i]);
            proof {
                assert(self.node_ids@.take(i + 1) == self.node_ids@.take(i as int).push(self.node_ids@[i as int]));
            }
        }
        let mut connections: Vec<Connection> = Vec::new();
        for i in 0..self.connections.len()
            invariant
                connections@ == self.connections@.take(i as int),
        {
            connections.push(self.connections[i]);
            proof {
                assert(self.connections@.take(i + 1) == self.connections@.take(i as int).push(self.connections@[i as int]));
            }
        }
        proof {
            assert(self.node_ids@.take(self.node_ids@.len() as int) == self.node_ids@);
            assert(self.connections@.take(self.connections@.len() as int) == self.connections@);
        }
        GraphTopology {
            node_ids,
            connections,
            next_node_id: self.next_node_id,
            next_conn_id: self.next_conn_id,
            dirty: self.dirty,
        }
    }
}

impl GraphTopology {
    /// Node ids, in insertion order.
    pub closed spec fn nodes(&self) -> Seq<u32> {
        self.node_ids@
    }

    /// Connections, in insertion order.
    pub closed spec fn edges(&self) -> Seq<Connection> {
        self.connections@
    }

    /// Id the next added node receives.
    pub closed spec fn spec_next_node_id(&self) -> u32 {
        self.next_node_id
    }

    /// Id the next added connection receives.
    pub closed spec fn spec_next_conn_id(&self) -> u32 {
        self.next_conn_id
    }

    /// Whether the graph changed since it was last marked clean.
    pub closed spec fn spec_dirty(&self) -> bool {
        self.dirty
    }

    /// Node ids are distinct and below the node counter, connection ids are
    /// below the connection counter, and every connection joins two nodes
    /// of the graph.
    pub closed spec fn wf(&self) -> bool {
        &&& self.node_ids@.no_duplicates()
        &&& forall|k: int| 0 <= k < self.node_ids@.len() ==> #[trigger] self.node_ids@[k] < self.next_node_id
        &&& forall|i: int| 0 <= i < self.connections@.len() ==> #[trigger] self.connections@[i].id < self.next_conn_id
        &&& forall|i: int| 0 <= i < self.connections@.len() ==> self.node_ids@.contains(#[trigger] self.connections@[i].from_node)
        &&& forall|i: int| 0 <= i < self.connections@.len() ==> self.node_ids@.contains(#[trigger] self.connections@[i].to_node)
    }

    pub fn new() -> (g: Self)
        ensures
            g.wf(),
            g.nodes() == Seq::<u32>::empty(),
            g.edges() == Seq::<Connection>::empty(),
            g.spec_next_node_id() == 1,
            g.spec_next_conn_id() == 1,
            !g.spec_dirty(),
            acyclic(g.edges()),
    {
        let g = GraphTopology {
            node_ids: Vec::new(),
            connections: Vec::new(),
            next_node_id: 1,
            next_conn_id: 1,
            dirty: false,
        };
        assert forall|p: Seq<u32>| #[trigger] is_walk(g.edges(), p) && p.len() >= 2 implies p[0] != p.last() by {
            assert(walk_step(g.edges(), p, 0));
        }
        g
    }

    /// Id the next added node receives.
    pub fn next_node_id(&self) -> (r: u32)
        ensures
            r == self.spec_next_node_id(),
    {
        self.next_node_id
    }

    /// Id the next added connection receives.
    pub fn next_conn_id(&self) -> (r: u32)
        ensures
            r == self.spec_next_conn_id(),
    {
        self.next_conn_id
    }

    pub fn node_ids(&self) -> (r: &Vec<u32>)
        ensures
            r@ == self.nodes(),
    {
        &self.node_ids
    }

    pub fn connections(&self) -> (r: &Vec<Connection>)
        ensures
            r@ == self.edges(),
    {
        &self.connections
    }

    pub fn is_dirty(&self) -> (r: bool)
        ensures
            r == self.spec_dirty(),
    {
        self.dirty
    }

    pub fn mark_clean(&mut self)
        requires
            old(self).wf(),
        ensures
            final(self).wf(),
            final(self).nodes() == old(self).nodes(),
            final(self).edges() == old(self).edges(),
            final(self).spec_next_node_id() == old(self).spec_next_node_id(),
            final(self).spec_next_conn_id() == old(self).spec_next_conn_id(),
            !final(self).spec_dirty(),
    {
        self.dirty = false;
    }

    /// Whether a node with this id is in the graph.
    pub fn has_node(&self, id: u32) -> (r: bool)
        ensures
            r == self.nodes().contains(id),
    {
        let mut k: usize = 0;
        while k < self.node_ids.len()
            invariant
                0 <= k <= self.node_ids@.len(),
                forall|j: int| 0 <= j < k ==> self.node_ids@[j] != id,
            decreases self.node_ids@.len() - k,
        {
            if self.node_ids[k] == id {
                return true;
            }
            k += 1;
        }
        false
    }

    /// Adds a node and returns the id it was given.
    pub fn add_node(&mut self) -> (id: u32)
        requires
            old(self).wf(),
            old(self).spec_next_node_id() < u32::MAX,
        ensures
            final(self).wf(),
            id == old(self).spec_next_node_id(),
            final(self).nodes() == old(self).nodes().push(id),
            final(self).edges() == old(self).edges(),
            final(self).spec_next_node_id() == id + 1,
            final(self).spec_next_conn_id() == old(self).spec_next_conn_id(),
            final(self).spec_dirty(),
    {
        let id = self.next_node_id;
        self.next_node_id = id + 1;
        self.node_ids.push(id);
        self.dirty = true;
        proof {
            assert(!old(self).node_ids@.contains(id));
            assert forall|i: int| 0 <= i < self.connections@.len() implies self.node_ids@.contains(
                #[trigger] self.connections@[i].from_node,
            ) && self.node_ids@.contains(self.connections@[i].to_node) by {
                assert(old(self).node_ids@.contains(self.connections@[i].from_node));
                assert(old(self).node_ids@.contains(self.connections@[i].to_node));
            }
        }
        id
    }

    /// Removes a node and every connection that touches it.
    pub fn remove_node(&mut self, id: u32)
        requires
            old(self).wf(),
        ensures
            final(self).wf(),
            final(self).nodes() == old(self).nodes().filter(|n: u32| n != id),
            final(self).edges() == old(self).edges().filter(
                |c: Connection| c.from_node != id && c.to_node != id,
            ),
            acyclic(old(self).edges()) ==> acyclic(final(self).edges()),
            final(self).spec_next_node_id() == old(self).spec_next_node_id(),
            final(self).spec_next_conn_id() == old(self).spec_next_conn_id(),
            final(self).spec_dirty(),
    {
        broadcast use Seq::lemma_filter_push;

        let mut nodes: Vec<u32> = Vec::new();
        let mut k: usize = 0;
        while k < self.node_ids.len()
            invariant
                0 <= k <= self.node_ids@.len(),
                nodes@ == self.node_ids@.take(k as int).filter((|n: u32| n != id)),
            decreases self.node_ids@.len() - k,
        {
            assert(self.node_ids@.take(k + 1) == self.node_ids@.take(k as int).push(self.node_ids@[k as int]));
            proof {
                self.node_ids@.take(k as int).lemma_filter_push(self.node_ids@[k as int], (|n: u32| n != id));
            }
            if self.node_ids[k] != id {
                nodes.push(self.node_ids[k]);
            }
            k += 1;
        }
        assert(self.node_ids@.take(self.node_ids@.len() as int) == self.node_ids@);
        let mut conns: Vec<Connection> = Vec::new();
        let mut i: usize = 0;
        while i < self.connections.len()
            invariant
                0 <= i <= self.connections@.len(),
                conns@ == self.connections@.take(i as int).filter((|c: Connection| c.from_node != id && c.to_node != id)),
            decreases self.connections@.len() - i,
        {
            assert(self.connections@.take(i + 1) == self.connections@.take(i as int).push(self.connections@[i as int]));
            proof {
                self.connections@.take(i as int).lemma_filter_push(self.connections@[i as int], (|c: Connection| c.from_node != id && c.to_node != id));
            }
            let c = self.connections[i];
            if c.from_node != id && c.to_node != id {
                conns.push(c);
            }
            i += 1;
        }
        assert(self.connections@.take(self.connections@.len() as int) == self.connections@);
        proof {
            let on = self.node_ids@;
            let oc = self.connections@;
            lemma_filter_subseq(on, (|n: u32| n != id));
            lemma_filter_subseq(oc, (|c: Connection| c.from_node != id && c.to_node != id));
            lemma_filter_no_dup(on, (|n: u32| n != id));
            assert forall|j: int| 0 <= j < conns@.len() implies nodes@.contains(#[trigger] conns@[j].from_node)
                && nodes@.contains(conns@[j].to_node) by {
                let c = conns@[j];
                assert(oc.filter((|c: Connection| c.from_node != id && c.to_node != id)).contains(c));
                assert((|c: Connection| c.from_node != id && c.to_node != id)(c));
                assert(on.contains(c.from_node) && on.contains(c.to_node));
                lemma_filter_keeps(on, (|n: u32| n != id), c.from_node);
                lemma_filter_keeps(on, (|n: u32| n != id), c.to_node);
            }
            if acyclic(oc) {
                assert forall|j: int| 0 <= j < conns@.len() implies oc.contains(#[trigger] conns@[j]) by {}
                lemma_acyclic_within(conns@, oc);
            }
        }
        self.node_ids = nodes;
        self.connections = conns;
        self.dirty = true;
    }

    /// Removes the connection with this id.
    pub fn disconnect(&mut self, conn_id: u32)
        requires
            old(self).wf(),
        ensures
            final(self).wf(),
            final(self).nodes() == old(self).nodes(),
            final(self).edges() == old(self).edges().filter(|c: Connection| c.id != conn_id),
            acyclic(old(self).edges()) ==> acyclic(final(self).edges()),
            final(self).spec_next_node_id() == old(self).spec_next_node_id(),
            final(self).spec_next_conn_id() == old(self).spec_next_conn_id(),
            final(self).spec_dirty(),
    {
        let conns = retain_connections_without_id(&self.connections, conn_id);
        proof {
            lemma_filter_subseq(self.connections@, |c: Connection| c.id != conn_id);
            if acyclic(self.connections@) {
                lemma_acyclic_within(conns@, self.connections@);
            }
        }
        self.connections = conns;
        self.dirty = true;
    }
}

impl GraphTopology {
    /// Whether adding a connection `from -> to` would close a cycle, that
    /// is whether `from` is reachable from `to`.
    pub fn would_create_cycle(&self, from: u32, to: u32) -> (r: bool)
        ensures
            r == reaches(self.edges(), to, from),
    {
        reachable_from(&self.connections, to, from)
    }

    /// Whether `connect(from_node, _, to_node, to_port)` would add a
    /// connection: both nodes exist and, once any connection into
    /// `to_node.to_port` is dropped, `to_node` does not reach `from_node`.
    pub fn connect_would_succeed(&self, from_node: u32, to_node: u32, to_port: u32) -> (r: bool)
        ensures
            r == (self.nodes().contains(from_node) && self.nodes().contains(to_node) && !reaches(
                self.edges().filter(|c: Connection| !(c.to_node == to_node && c.to_port == to_port)),
                to_node,
                from_node,
            )),
    {
        if !self.has_node(from_node) || !self.has_node(to_node) {
            return false;
        }
        let kept = retain_connections_not_into(&self.connections, to_node, to_port);
        !reachable_from(&kept, to_node, from_node)
    }

    /// Connects `from_node.from_port` to `to_node.to_port`.  An input port
    /// takes at most one connection, so any connection already feeding
    /// `to_node.to_port` is removed first (also when the new connection is
    /// then refused because it would close a cycle).
    pub fn connect(&mut self, from_node: u32, from_port: u32, to_node: u32, to_port: u32) -> (r:
        Result<u32, &'static str>)
        requires
            old(self).wf(),
            old(self).nodes().contains(from_node) && old(self).nodes().contains(to_node) && !reaches(
                old(self).edges().filter(|c: Connection| !(c.to_node == to_node && c.to_port == to_port)),
                to_node,
                from_node,
            ) ==> old(self).spec_next_conn_id() < u32::MAX,
        ensures
            final(self).wf(),
            final(self).nodes() == old(self).nodes(),
            final(self).spec_next_node_id() == old(self).spec_next_node_id(),
            acyclic(old(self).edges()) ==> acyclic(final(self).edges()),
            !old(self).nodes().contains(from_node) ==> {
                &&& r matches Err(msg) && msg@ == "source node not found"@
                &&& final(self).edges() == old(self).edges()
                &&& final(self).spec_next_conn_id() == old(self).spec_next_conn_id()
                &&& final(self).spec_dirty() == old(self).spec_dirty()
            },
            old(self).nodes().contains(from_node) && !old(self).nodes().contains(to_node) ==> {
                &&& r matches Err(msg) && msg@ == "target node not found"@
                &&& final(self).edges() == old(self).edges()
                &&& final(self).spec_next_conn_id() == old(self).spec_next_conn_id()
                &&& final(self).spec_dirty() == old(self).spec_dirty()
            },
            old(self).nodes().contains(from_node) && old(self).nodes().contains(to_node) ==> {
                let kept = old(self).edges().filter(
                    |c: Connection| !(c.to_node == to_node && c.to_port == to_port),
                );
                if reaches(kept, to_node, from_node) {
                    &&& r matches Err(msg) && msg@ == "connection would create cycle"@
                    &&& final(self).edges() == kept
                    &&& final(self).spec_next_conn_id() == old(self).spec_next_conn_id()
                    &&& final(self).spec_dirty() == old(self).spec_dirty()
                } else {
                    &&& r == Ok::<u32, &'static str>(old(self).spec_next_conn_id())
                    &&& final(self).edges() == kept.push(
                        Connection {
                            id: old(self).spec_next_conn_id(),
                            from_node,
                            from_port,
                            to_node,
                            to_port,
                        },
                    )
                    &&& final(self).spec_next_conn_id() == old(self).spec_next_conn_id() + 1
                    &&& final(self).spec_dirty()
                }
            },
    {
        if !self.has_node(from_node) {
            return Err("source node not found");
        }
        if !self.has_node(to_node) {
            return Err("target node not found");
        }
        let kept = retain_connections_not_into(&self.connections, to_node, to_port);
        proof {
            lemma_filter_subseq(
                self.connections@,
                |c: Connection| !(c.to_node == to_node && c.to_port == to_port),
            );
        }
        proof {
            let oc = self.connections@;
            let pred = |c: Connection| !(c.to_node == to_node && c.to_port == to_port);
            assert forall|i: int| 0 <= i < kept@.len() implies oc.contains(#[trigger] kept@[i]) by {
                assert(oc.contains(oc.filter(pred)[i]));
            }
            if acyclic(oc) {
                lemma_acyclic_within(kept@, oc);
            }
        }
        self.connections = kept;
        if self.would_create_cycle(from_node, to_node) {
            return Err("connection would create cycle");
        }
        let id = self.next_conn_id;
        self.next_conn_id = id + 1;
        let ghost before = self.connections@;
        let c = Connection::new(id, from_node, from_port, to_node, to_port);
        self.connections.push(c);
        proof {
            if acyclic(old(self).edges()) {
                lemma_acyclic_push(before, c);
            }
        }
        self.dirty = true;
        Ok(id)
    }

    /// Source nodes of the connections into `node_id`, in connection order.
    pub fn upstream_nodes(&self, node_id: u32) -> (r: Vec<u32>)
        ensures
            r@ == self.edges().filter(|c: Connection| c.to_node == node_id).map_values(
                |c: Connection| c.from_node,
            ),
    {
        let ghost pred = |c: Connection| c.to_node == node_id;
        let mut out: Vec<u32> = Vec::new();
        let mut i: usize = 0;
        while i < self.connections.len()
            invariant
                pred == (|c: Connection| c.to_node == node_id),
                0 <= i <= self.connections@.len(),
                out@ == self.connections@.take(i as int).filter(pred).map_values(
                    |c: Connection| c.from_node,
                ),
            decreases self.connections@.len() - i,
        {
            let c = self.connections[i];
            proof {
                assert(self.connections@.take(i + 1) == self.connections@.take(i as int).push(c));
                self.connections@.take(i as int).lemma_filter_push(c, pred);
            }
            if c.to_node == node_id {
                out.push(c.from_node);
            }
            i += 1;
        }
        assert(self.connections@.take(self.connections@.len() as int) == self.connections@);
        out
    }

    /// Target nodes of the connections out of `node_id`, in connection order.
    pub fn downstream_nodes(&self, node_id: u32) -> (r: Vec<u32>)
        ensures
            r@ == self.edges().filter(|c: Connection| c.from_node == node_id).map_values(
                |c: Connection| c.to_node,
            ),
    {
        let ghost pred = |c: Connection| c.from_node == node_id;
        let mut out: Vec<u32> = Vec::new();
        let mut i: usize = 0;
        while i < self.connections.len()
            invariant
                pred == (|c: Connection| c.from_node == node_id),
                0 <= i <= self.connections@.len(),
                out@ == self.connections@.take(i as int).filter(pred).map_values(
                    |c: Connection| c.to_node,
                ),
            decreases self.connections@.len() - i,
        {
            let c = self.connections[i];
            proof {
                assert(self.connections@.take(i + 1) == self.connections@.take(i as int).push(c));
                self.connections@.take(i as int).lemma_filter_push(c, pred);
            }
            if c.from_node == node_id {
                out.push(c.to_node);
            }
            i += 1;
        }
        assert(self.connections@.take(self.connections@.len() as int) == self.connections@);
        out
    }
}

/// The connections of `conns` that do not feed input `to_port` of `to_node`, in order.
fn retain_connections_not_into(conns: &Vec<Connection>, to_node: u32, to_port: u32) -> (r: Vec<
    Connection,
>)
    ensures
        r@ == conns@.filter(|c: Connection| !(c.to_node == to_node && c.to_port == to_port)),
{
    let ghost pred = |c: Connection| !(c.to_node == to_node && c.to_port == to_port);
    let mut out: Vec<Connection> = Vec::new();
    let mut i: usize = 0;
    while i < conns.len()
        invariant
            pred == (|c: Connection| !(c.to_node == to_node && c.to_port == to_port)),
            0 <= i <= conns@.len(),
            out@ == conns@.take(i as int).filter(pred),
        decreases conns@.len() - i,
    {
        let c = conns[i];
        proof {
            assert(conns@.take(i + 1) == conns@.take(i as int).push(c));
            conns@.take(i as int).lemma_filter_push(c, pred);
        }
        if !(c.to_node == to_node && c.to_port == to_port) {
            out.push(c);
        }
        i += 1;
    }
    assert(conns@.take(conns@.len() as int) == conns@);
    out
}

// ---------------------------------------------------------------------------
// Topological order (Kahn's algorithm)
// ---------------------------------------------------------------------------

/// Connection `i` enters `t` from a node not in `done`, and is not one of
/// the connections out of `n` among the first `e` connections.
pub open spec fn counted(conns: Seq<Connection>, t: u32, done: Seq<u32>, n: u32, e: int, i: int) -> bool {
    conns[i].to_node == t && !done.contains(conns[i].from_node) && !(i < e && conns[i].from_node == n)
}

/// Number of connections among the first `hi` that are `counted`.
pub open spec fn count_counted(conns: Seq<Connection>, t: u32, done: Seq<u32>, n: u32, e: int, hi: int) -> nat
    decreases hi,
{
    if hi <= 0 {
        0
    } else {
        count_counted(conns, t, done, n, e, hi - 1) + if counted(conns, t, done, n, e, hi - 1) {
            1nat
        } else {
            0nat
        }
    }
}

/// Number of connections into `t` whose source is not in `done`.
pub open spec fn pending_in(conns: Seq<Connection>, t: u32, done: Seq<u32>) -> nat {
    count_counted(conns, t, done, 0, 0, conns.len() as int)
}

proof fn lemma_count_agree(
    conns: Seq<Connection>,
    t: u32,
    d1: Seq<u32>,
    n1: u32,
    e1: int,
    d2: Seq<u32>,
    n2: u32,
    e2: int,
    hi: int,
)
    requires
        forall|i: int| 0 <= i < hi ==> counted(conns, t, d1, n1, e1, i) == counted(conns, t, d2, n2, e2, i),
    ensures
        count_counted(conns, t, d1, n1, e1, hi) == count_counted(conns, t, d2, n2, e2, hi),
    decreases hi,
{
    if hi > 0 {
        lemma_count_agree(conns, t, d1, n1, e1, d2, n2, e2, hi - 1);
    }
}

proof fn lemma_count_zero(conns: Seq<Connection>, t: u32, d: Seq<u32>, n: u32, e: int, hi: int, j: int)
    requires
        count_counted(conns, t, d, n, e, hi) == 0,
        0 <= j < hi,
    ensures
        !counted(conns, t, d, n, e, j),
    decreases hi,
{
    if j < hi - 1 {
        lemma_count_zero(conns, t, d, n, e, hi - 1, j);
    }
}

proof fn lemma_count_pos(conns: Seq<Connection>, t: u32, d: Seq<u32>, n: u32, e: int, hi: int, j: int)
    requires
        counted(conns, t, d, n, e, j),
        0 <= j < hi,
    ensures
        count_counted(conns, t, d, n, e, hi) >= 1,
    decreases hi,
{
    if j < hi - 1 {
        lemma_count_pos(conns, t, d, n, e, hi - 1, j);
    }
}

/// Moving the boundary `e` past connection `e` (out of `n`) removes it from the count.
proof fn lemma_count_step(conns: Seq<Connection>, t: u32, d: Seq<u32>, n: u32, e: int, hi: int)
    requires
        0 <= e < hi,
    ensures
        count_counted(conns, t, d, n, e, hi) == count_counted(conns, t, d, n, e + 1, hi) + if counted(
            conns,
            t,
            d,
            n,
            e,
            e,
        ) && !counted(conns, t, d, n, e + 1, e) {
            1nat
        } else {
            0nat
        },
    decreases hi,
{
    if hi - 1 > e {
        lemma_count_step(conns, t, d, n, e, hi - 1);
    } else {
        lemma_count_agree(conns, t, d, n, e, d, n, e + 1, hi - 1);
    }
}

/// Index of node `x` in the node list.
fn index_of_node(nodes: &Vec<u32>, x: u32) -> (k: usize)
    requires
        nodes@.contains(x),
    ensures
        k < nodes@.len(),
        nodes@[k as int] == x,
{
    let mut k: usize = 0;
    while k < nodes.len()
        invariant
            0 <= k <= nodes@.len(),
            nodes@.contains(x),
            forall|j: int| 0 <= j < k ==> nodes@[j] != x,
        decreases nodes@.len() - k,
    {
        if nodes[k] == x {
            return k;
        }
        k += 1;
    }
    assert(false);
    0
}

/// A sequence without duplicates drawn from a list is no longer than it.
proof fn lemma_no_dup_within_len(s: Seq<u32>, nodes: Seq<u32>)
    requires
        s.no_duplicates(),
        forall|k: int| 0 <= k < s.len() ==> nodes.contains(#[trigger] s[k]),
    ensures
        s.len() <= nodes.len(),
{
    s.unique_seq_to_set();
    nodes.lemma_cardinality_of_set();
    assert(s.to_set().subset_of(nodes.to_set()));
    vstd::set_lib::lemma_len_subset(s.to_set(), nodes.to_set());
}

/// Every node reached by the ordering has all its predecessors earlier in it.
pub open spec fn respects_edges(conns: Seq<Connection>, order: Seq<u32>) -> bool {
    forall|i: int, b: int|
        0 <= i < conns.len() && 0 <= b < order.len() && #[trigger] order[b] == #[trigger] conns[i].to_node
            ==> exists|a: int| 0 <= a < b && order[a] == conns[i].from_node
}

/// The nodes of `nodes.take(k)` with no incoming connection, in list order:
/// the first work list of Kahn's walk.
pub open spec fn kahn_seed(conns: Seq<Connection>, nodes: Seq<u32>, k: int) -> Seq<u32>
    decreases k,
{
    if k <= 0 {
        Seq::empty()
    } else {
        kahn_seed(conns, nodes, k - 1) + if pending_in(conns, nodes[k - 1], Seq::empty()) == 0 {
            seq![nodes[k - 1]]
        } else {
            Seq::empty()
        }
    }
}

/// The nodes released while the connections `0..e` out of `n` are crossed
/// off, `done` having been emitted before `n`: a target is released when
/// its last pending connection is crossed off.
pub open spec fn kahn_released(conns: Seq<Connection>, done: Seq<u32>, n: u32, e: int) -> Seq<u32>
    decreases e,
{
    if e <= 0 {
        Seq::empty()
    } else {
        kahn_released(conns, done, n, e - 1) + if conns[e - 1].from_node == n && count_counted(
            conns,
            conns[e - 1].to_node,
            done,
            n,
            e,
            conns.len() as int,
        ) == 0 {
            seq![conns[e - 1].to_node]
        } else {
            Seq::empty()
        }
    }
}

/// Kahn's walk from the emitted `order` and the work list `work`: take the
/// most recently added node of the work list, emit it, and add the nodes it
/// releases; stop when the work list is empty (or after `fuel` steps).
pub open spec fn kahn_run(conns: Seq<Connection>, order: Seq<u32>, work: Seq<u32>, fuel: nat) -> Seq<u32>
    decreases fuel,
{
    if work.len() == 0 || fuel == 0 {
        order
    } else {
        let n = work.last();
        kahn_run(
            conns,
            order.push(n),
            work.drop_last() + kahn_released(conns, order, n, conns.len() as int),
            (fuel - 1) as nat,
        )
    }
}

/// The order Kahn's walk emits: its work list starts with the nodes that
/// have no incoming connection, in list order, and is used last in, first
/// out.
pub open spec fn kahn_order(conns: Seq<Connection>, nodes: Seq<u32>) -> Seq<u32> {
    kahn_run(conns, Seq::empty(), kahn_seed(conns, nodes, nodes.len() as int), nodes.len())
}

impl GraphTopology {
    /// An order of nodes in which every node comes after all its
    /// predecessors, as Kahn's walk emits it (`kahn_order`): the work list
    /// starts with the sources in node order and is used last in, first out.
    /// Nodes on or behind a cycle are left out; in an acyclic graph every
    /// node appears.
    pub fn topological_order(&self) -> (r: Vec<u32>)
        requires
            self.wf(),
        ensures
            r@.no_duplicates(),
            forall|k: int| 0 <= k < r@.len() ==> self.nodes().contains(#[trigger] r@[k]),
            respects_edges(self.edges(), r@),
            forall|v: u32| #[trigger] self.nodes().contains(v) ==> (r@.contains(v) <==> !behind_cycle(self.edges(), v)),
            acyclic(self.edges()) ==> r@.len() == self.nodes().len(),
            r@ == kahn_order(self.edges(), self.nodes()),
    {
        let nodes = &self.node_ids;
        let conns = &self.connections;
        let ghost empty = Seq::<u32>::empty();
        // Count the connections into every node.
        let mut in_deg: Vec<usize> = Vec::new();
        let mut k: usize = 0;
        while k < nodes.len()
            invariant
                0 <= k <= nodes@.len(),
                in_deg@.len() == k,
                forall|j: int| 0 <= j < k ==> #[trigger] in_deg@[j] == 0,
            decreases nodes@.len() - k,
        {
            in_deg.push(0);
            k += 1;
        }
        let mut e: usize = 0;
        while e < conns.len()
            invariant
                self.wf(),
                nodes == &self.node_ids,
                conns == &self.connections,
                0 <= e <= conns@.len(),
                empty == Seq::<u32>::empty(),
                in_deg@.len() == nodes@.len(),
                forall|j: int| 0 <= j < nodes@.len() ==> #[trigger] in_deg@[j] == count_counted(conns@, nodes@[j], empty, 0, 0, e as int),
                forall|j: int| 0 <= j < nodes@.len() ==> #[trigger] in_deg@[j] <= e,
            decreases conns@.len() - e,
        {
            let t = conns[e].to_node;
            let ti = index_of_node(nodes, t);
            in_deg.set(ti, in_deg[ti] + 1);
            proof {
                assert forall|j: int| 0 <= j < nodes@.len() implies #[trigger] in_deg@[j] == count_counted(conns@, nodes@[j], empty, 0, 0, e + 1) by {
                    assert(!empty.contains(conns@[e as int].from_node));
                    assert(count_counted(conns@, nodes@[j], empty, 0, 0, e + 1) == count_counted(conns@, nodes@[j], empty, 0, 0, e as int)
                        + if counted(conns@, nodes@[j], empty, 0, 0, e as int) { 1nat } else { 0nat });
                    if j == ti as int {
                    } else {
                        assert(nodes@[j] != t) by {
                            assert(nodes@.no_duplicates());
                        }
                    }
                }
            }
            e += 1;
        }
        // Seed the work list with the nodes that have no incoming connection.
        let mut order: Vec<u32> = Vec::new();
        let mut queue: Vec<u32> = Vec::new();
        let mut k: usize = 0;
        while k < nodes.len()
            invariant
                self.wf(),
                nodes == &self.node_ids,
                conns == &self.connections,
                0 <= k <= nodes@.len(),
                empty == Seq::<u32>::empty(),
                in_deg@.len() == nodes@.len(),
                order@ == empty,
                forall|j: int| 0 <= j < nodes@.len() ==> #[trigger] in_deg@[j] == pending_in(conns@, nodes@[j], order@),
                queue@.no_duplicates(),
                forall|q: int| 0 <= q < queue@.len() ==> nodes@.contains(#[trigger] queue@[q]),
                forall|j: int| 0 <= j < nodes@.len() && queue@.contains(#[trigger] nodes@[j]) ==> j < k && in_deg@[j] == 0,
                forall|j: int| 0 <= j < k && #[trigger] in_deg@[j] == 0 ==> queue@.contains(nodes@[j]),
                queue@ == kahn_seed(conns@, nodes@, k as int),
            decreases nodes@.len() - k,
        {
            if in_deg[k] == 0 {
                let ghost before_q = queue@;
                proof {
                    assert(!before_q.contains(nodes@[k as int]));
                }
                queue.push(nodes[k]);
                proof {
                    assert forall|j: int| 0 <= j < nodes@.len() && queue@.contains(#[trigger] nodes@[j]) implies j < k + 1 && in_deg@[j] == 0 by {
                        let q = choose|q: int| 0 <= q < queue@.len() && queue@[q] == nodes@[j];
                        if q < before_q.len() {
                            assert(before_q[q] == queue@[q]);
                            assert(before_q.contains(nodes@[j]));
                        } else {
                            assert(nodes@[j] == nodes@[k as int]);
                            assert(nodes@.no_duplicates());
                        }
                    }
                    assert forall|j: int| 0 <= j < k + 1 && #[trigger] in_deg@[j] == 0 implies queue@.contains(nodes@[j]) by {
                        if j < k {
                            let q = choose|q: int| 0 <= q < before_q.len() && before_q[q] == nodes@[j];
                            assert(queue@[q] == before_q[q]);
                        } else {
                            assert(queue@[before_q.len() as int] == nodes@[j]);
                        }
                    }
                }
            }
            k += 1;
        }
        proof {
            assert forall|j: int| 0 <= j < nodes@.len() && #[trigger] in_deg@[j] == 0 implies queue@.contains(nodes@[j]) || order@.contains(nodes@[j]) by {}
        }
        // Repeatedly emit a node whose predecessors have all been emitted.
        while queue.len() > 0
            invariant
                self.wf(),
                nodes == &self.node_ids,
                conns == &self.connections,
                in_deg@.len() == nodes@.len(),
                forall|j: int| 0 <= j < nodes@.len() ==> #[trigger] in_deg@[j] == pending_in(conns@, nodes@[j], order@),
                order@.no_duplicates(),
                queue@.no_duplicates(),
                forall|q: int| 0 <= q < queue@.len() ==> !order@.contains(#[trigger] queue@[q]),
                forall|q: int| 0 <= q < queue@.len() ==> nodes@.contains(#[trigger] queue@[q]),
                forall|q: int| 0 <= q < order@.len() ==> nodes@.contains(#[trigger] order@[q]),
                forall|j: int| 0 <= j < nodes@.len() && queue@.contains(#[trigger] nodes@[j]) ==> in_deg@[j] == 0,
                forall|j: int| 0 <= j < nodes@.len() && order@.contains(#[trigger] nodes@[j]) ==> in_deg@[j] == 0,
                forall|j: int| 0 <= j < nodes@.len() && #[trigger] in_deg@[j] == 0 ==> queue@.contains(nodes@[j]) || order@.contains(nodes@[j]),
                respects_edges(conns@, order@),
                order@.len() <= nodes@.len(),
                kahn_order(conns@, nodes@) == kahn_run(conns@, order@, queue@, (nodes@.len() - order@.len()) as nat),
            decreases nodes@.len() - order@.len(),
        {
            let ghost q0 = queue@;
            let n = queue.pop().unwrap();
            let ghost done = order@;
            let ghost qrest = queue@;
            let ghost ni = nodes@.index_of(n);
            proof {
                assert(nodes@.contains(n));
                assert(nodes@[ni] == n);
                assert(in_deg@[ni] == 0);
                assert forall|i: int| 0 <= i < conns@.len() && #[trigger] conns@[i].to_node == n implies done.contains(conns@[i].from_node) by {
                    lemma_count_zero(conns@, n, done, 0, 0, conns@.len() as int, i);
                }
                lemma_no_dup_within_len(done.push(n), nodes@);
            }
            order.push(n);
            proof {
                assert forall|i: int, b: int|
                    0 <= i < conns@.len() && 0 <= b < order@.len() && #[trigger] order@[b] == #[trigger] conns@[i].to_node
                        implies exists|a: int| 0 <= a < b && order@[a] == conns@[i].from_node by {
                    if b < done.len() {
                        assert(order@[b] == done[b]);
                        let a = choose|a: int| 0 <= a < b && done[a] == conns@[i].from_node;
                        assert(order@[a] == done[a]);
                    } else {
                        assert(done.contains(conns@[i].from_node));
                        let a = choose|a: int| 0 <= a < done.len() && done[a] == conns@[i].from_node;
                        assert(order@[a] == done[a]);
                    }
                }
                assert forall|j: int| 0 <= j < nodes@.len() implies #[trigger] in_deg@[j] == count_counted(conns@, nodes@[j], done, n, 0, conns@.len() as int) by {
                    lemma_count_agree(conns@, nodes@[j], done, n, 0, done, 0, 0, conns@.len() as int);
                }
            }
            let mut e: usize = 0;
            while e < conns.len()
                invariant
                    self.wf(),
                    nodes == &self.node_ids,
                    conns == &self.connections,
                    0 <= e <= conns@.len(),
                    in_deg@.len() == nodes@.len(),
                    order@ == done.push(n),
                    !done.contains(n),
                    nodes@.contains(n),
                    forall|j: int| 0 <= j < nodes@.len() ==> #[trigger] in_deg@[j] == count_counted(conns@, nodes@[j], done, n, e as int, conns@.len() as int),
                    order@.no_duplicates(),
                    queue@.no_duplicates(),
                    forall|q: int| 0 <= q < queue@.len() ==> !order@.contains(#[trigger] queue@[q]),
                    forall|q: int| 0 <= q < queue@.len() ==> nodes@.contains(#[trigger] queue@[q]),
                    forall|q: int| 0 <= q < order@.len() ==> nodes@.contains(#[trigger] order@[q]),
                    forall|j: int| 0 <= j < nodes@.len() && queue@.contains(#[trigger] nodes@[j]) ==> in_deg@[j] == 0,
                    forall|j: int| 0 <= j < nodes@.len() && order@.contains(#[trigger] nodes@[j]) ==> in_deg@[j] == 0,
                    forall|j: int| 0 <= j < nodes@.len() && #[trigger] in_deg@[j] == 0 ==> queue@.contains(nodes@[j]) || order@.contains(nodes@[j]),
                    queue@ == qrest + kahn_released(conns@, done, n, e as int),
                decreases conns@.len() - e,
            {
                let c = conns[e];
                if c.from_node == n {
                    let t = c.to_node;
                    let ti = index_of_node(nodes, t);
                    proof {
                        assert(counted(conns@, t, done, n, e as int, e as int));
                        lemma_count_pos(conns@, t, done, n, e as int, conns@.len() as int, e as int);
                        assert forall|j: int| 0 <= j < nodes@.len() implies count_counted(conns@, nodes@[j], done, n, e as int, conns@.len() as int)
                            == count_counted(conns@, nodes@[j], done, n, e + 1, conns@.len() as int) + if j == ti as int { 1nat } else { 0nat } by {
                            lemma_count_step(conns@, nodes@[j], done, n, e as int, conns@.len() as int);
                            if j != ti as int {
                                assert(nodes@.no_duplicates());
                                assert(nodes@[j] != t);
                            }
                        }
                    }
                    let ghost before_q = queue@;
                    in_deg.set(ti, in_deg[ti] - 1);
                    if in_deg[ti] == 0 {
                        proof {
                            assert(!before_q.contains(t));
                            assert(!order@.contains(t));
                        }
                        queue.push(t);
                        proof {
                            assert forall|j: int| 0 <= j < nodes@.len() && queue@.contains(#[trigger] nodes@[j]) implies in_deg@[j] == 0 by {
                                if nodes@[j] != t {
                                    let q = choose|q: int| 0 <= q < queue@.len() && queue@[q] == nodes@[j];
                                    assert(before_q.contains(nodes@[j])) by {
                                        assert(q < before_q.len());
                                        assert(before_q[q] == queue@[q]);
                                    }
                                } else {
                                    assert(nodes@.no_duplicates());
                                }
                            }
                            assert forall|j: int| 0 <= j < nodes@.len() && #[trigger] in_deg@[j] == 0 implies queue@.contains(nodes@[j]) || order@.contains(nodes@[j]) by {
                                if j == ti as int {
                                    assert(queue@[queue@.len() - 1] == t);
                                } else if before_q.contains(nodes@[j]) {
                                    let q = choose|q: int| 0 <= q < before_q.len() && before_q[q] == nodes@[j];
                                    assert(queue@[q] == before_q[q]);
                                }
                            }
                        }
                    } else {
                        proof {
                            assert forall|j: int| 0 <= j < nodes@.len() && queue@.contains(#[trigger] nodes@[j]) implies in_deg@[j] == 0 by {
                                if j == ti as int {
                                    assert(before_q.contains(t));
                                }
                            }
                        }
                    }
                } else {
                    proof {
                        assert forall|j: int| 0 <= j < nodes@.len() implies #[trigger] in_deg@[j] == count_counted(conns@, nodes@[j], done, n, e + 1, conns@.len() as int) by {
                            lemma_count_step(conns@, nodes@[j], done, n, e as int, conns@.len() as int);
                        }
                    }
                }
                e += 1;
            }
            proof {
                assert forall|j: int| 0 <= j < nodes@.len() implies #[trigger] in_deg@[j] == pending_in(conns@, nodes@[j], order@) by {
                    lemma_count_agree(conns@, nodes@[j], done, n, conns@.len() as int, order@, 0, 0, conns@.len() as int);
                }
            }
        }
        proof {
            assert forall|x: u32| nodes@.contains(x) && !order@.contains(x) implies #[trigger] has_pending_pred(conns@, order@, nodes@, x) by {
                let j = nodes@.index_of(x);
                assert(nodes@[j] == x);
                assert(in_deg@[j] != 0);
                let i = lemma_count_witness(conns@, x, order@, 0, 0, conns@.len() as int);
                assert(nodes@.contains(conns@[i].from_node));
            }
            assert forall|v: u32| #[trigger] nodes@.contains(v) implies (order@.contains(v) <==> !behind_cycle(conns@, v)) by {
                if order@.contains(v) {
                    let b = order@.index_of(v);
                    lemma_ordered_not_behind_cycle(conns@, order@, b);
                } else {
                    lemma_stuck_behind_cycle(conns@, nodes@, order@, v);
                }
            }
            if acyclic(conns@) {
                lemma_stuck_nodes_form_cycle(conns@, nodes@, order@);
            }
        }
        order
    }
}

/// `v` lies on a cycle or can be reached from one.
pub open spec fn behind_cycle(conns: Seq<Connection>, v: u32) -> bool {
    exists|c: Seq<u32>| #[trigger] is_walk(conns, c) && c.len() >= 2 && c[0] == c.last() && reaches(conns, c[0], v)
}

/// Walking a path backwards through an order that respects the edges
/// reaches its first node at an earlier position (strictly earlier when the
/// path has a step).
proof fn lemma_walk_back_in_order(conns: Seq<Connection>, order: Seq<u32>, w: Seq<u32>, b: int) -> (a: int)
    requires
        is_walk(conns, w),
        respects_edges(conns, order),
        0 <= b < order.len(),
        order[b] == w.last(),
    ensures
        0 <= a <= b,
        order[a] == w[0],
        w.len() >= 2 ==> a < b,
    decreases w.len(),
{
    if w.len() == 1 {
        b
    } else {
        let k = w.len() - 2;
        assert(walk_step(conns, w, k));
        let i = choose|i: int| 0 <= i < conns.len() && #[trigger] conns[i].from_node == w[k] && conns[i].to_node == w[k + 1];
        assert(order[b] == conns[i].to_node);
        let a1 = choose|a1: int| 0 <= a1 < b && order[a1] == conns[i].from_node;
        let w1 = w.drop_last();
        assert forall|m: int| 0 <= m < w1.len() - 1 implies #[trigger] walk_step(conns, w1, m) by {
            assert(walk_step(conns, w, m));
        }
        lemma_walk_back_in_order(conns, order, w1, a1)
    }
}

/// Nodes of an order that respects the edges and has no repeats are not
/// behind a cycle.
proof fn lemma_ordered_not_behind_cycle(conns: Seq<Connection>, order: Seq<u32>, b: int)
    requires
        respects_edges(conns, order),
        order.no_duplicates(),
        0 <= b < order.len(),
    ensures
        !behind_cycle(conns, order[b]),
{
    if behind_cycle(conns, order[b]) {
        let c = choose|c: Seq<u32>| #[trigger] is_walk(conns, c) && c.len() >= 2 && c[0] == c.last() && reaches(conns, c[0], order[b]);
        let p = choose|p: Seq<u32>| #[trigger] is_walk(conns, p) && p[0] == c[0] && p.last() == order[b];
        let a = lemma_walk_back_in_order(conns, order, p, b);
        let a2 = lemma_walk_back_in_order(conns, order, c, a);
        assert(order[a2] == order[a]);
    }
}

/// When every node outside `order` has a predecessor outside it, walking
/// back from such a node eventually repeats a node: it is behind a cycle.
proof fn lemma_stuck_behind_cycle(conns: Seq<Connection>, nodes: Seq<u32>, order: Seq<u32>, x: u32)
    requires
        nodes.contains(x),
        !order.contains(x),
        forall|y: u32| nodes.contains(y) && !order.contains(y) ==> #[trigger] has_pending_pred(conns, order, nodes, y),
    ensures
        behind_cycle(conns, x),
{
    let s = back_walk(conns, nodes, order, x, nodes.len());
    if s.no_duplicates() {
        lemma_no_dup_within_len(s, nodes);
    }
    let (i, j) = choose|i: int, j: int| 0 <= i < s.len() && 0 <= j < s.len() && i != j && s[i] == s[j];
    let lo = if i < j { i } else { j };
    let hi = if i < j { j } else { i };
    let c = Seq::new((hi - lo + 1) as nat, |m: int| s[hi - m]);
    assert forall|m: int| 0 <= m < c.len() - 1 implies #[trigger] walk_step(conns, c, m) by {
        assert(c[m] == s[hi - m] && c[m + 1] == s[hi - m - 1]);
        assert(has_edge(conns, s[(hi - m - 1) + 1], s[hi - m - 1]));
    }
    assert(is_walk(conns, c));
    let w = Seq::new((lo + 1) as nat, |m: int| s[lo - m]);
    assert forall|m: int| 0 <= m < w.len() - 1 implies #[trigger] walk_step(conns, w, m) by {
        assert(w[m] == s[lo - m] && w[m + 1] == s[lo - m - 1]);
        assert(has_edge(conns, s[(lo - m - 1) + 1], s[lo - m - 1]));
    }
    assert(is_walk(conns, w));
    assert(w[0] == c[0] && w.last() == x);
    assert(reaches(conns, c[0], x));
}

/// Some connection into `x` comes from a node of `nodes` outside `order`.
pub open spec fn has_pending_pred(conns: Seq<Connection>, order: Seq<u32>, nodes: Seq<u32>, x: u32) -> bool {
    exists|i: int|
        0 <= i < conns.len() && #[trigger] conns[i].to_node == x && !order.contains(conns[i].from_node)
            && nodes.contains(conns[i].from_node)
}

proof fn lemma_count_witness(conns: Seq<Connection>, t: u32, d: Seq<u32>, n: u32, e: int, hi: int) -> (i: int)
    requires
        count_counted(conns, t, d, n, e, hi) > 0,
    ensures
        0 <= i < hi,
        counted(conns, t, d, n, e, i),
    decreases hi,
{
    if hi <= 0 {
        0
    } else if counted(conns, t, d, n, e, hi - 1) {
        hi - 1
    } else {
        lemma_count_witness(conns, t, d, n, e, hi - 1)
    }
}

/// Walking backwards from a node outside `order` through predecessors outside `order`.
proof fn back_walk(conns: Seq<Connection>, nodes: Seq<u32>, order: Seq<u32>, x: u32, len: nat) -> (s: Seq<u32>)
    requires
        nodes.contains(x),
        !order.contains(x),
        forall|y: u32| nodes.contains(y) && !order.contains(y) ==> #[trigger] has_pending_pred(conns, order, nodes, y),
    ensures
        s.len() == len + 1,
        s[0] == x,
        forall|m: int| 0 <= m < s.len() ==> nodes.contains(#[trigger] s[m]) && !order.contains(s[m]),
        forall|m: int| 0 <= m < len ==> #[trigger] has_edge(conns, s[m + 1], s[m]),
    decreases len,
{
    if len == 0 {
        seq![x]
    } else {
        let s0 = back_walk(conns, nodes, order, x, (len - 1) as nat);
        let y = s0[len - 1];
        assert(has_pending_pred(conns, order, nodes, y));
        let i = choose|i: int|
            0 <= i < conns.len() && #[trigger] conns[i].to_node == y && !order.contains(conns[i].from_node)
                && nodes.contains(conns[i].from_node);
        let s = s0.push(conns[i].from_node);
        assert forall|m: int| 0 <= m < len implies #[trigger] has_edge(conns, s[m + 1], s[m]) by {
            if m < len - 1 {
                assert(has_edge(conns, s0[m + 1], s0[m]));
            } else {
                assert(conns[i].from_node == s[m + 1] && conns[i].to_node == s[m]);
            }
        }
        s
    }
}

proof fn lemma_stuck_nodes_form_cycle(conns: Seq<Connection>, nodes: Seq<u32>, order: Seq<u32>)
    requires
        acyclic(conns),
        nodes.no_duplicates(),
        order.no_duplicates(),
        forall|k: int| 0 <= k < order.len() ==> nodes.contains(#[trigger] order[k]),
        forall|y: u32| nodes.contains(y) && !order.contains(y) ==> #[trigger] has_pending_pred(conns, order, nodes, y),
    ensures
        order.len() == nodes.len(),
{
    lemma_no_dup_within_len(order, nodes);
    if order.len() < nodes.len() {
        if forall|k: int| 0 <= k < nodes.len() ==> order.contains(#[trigger] nodes[k]) {
            lemma_no_dup_within_len(nodes, order);
        } else {
            let k = choose|k: int| 0 <= k < nodes.len() && !order.contains(#[trigger] nodes[k]);
            let x = nodes[k];
            let s = back_walk(conns, nodes, order, x, nodes.len());
            if s.no_duplicates() {
                lemma_no_dup_within_len(s, nodes);
            }
            let (i, j) = choose|i: int, j: int| 0 <= i < s.len() && 0 <= j < s.len() && i != j && s[i] == s[j];
            let lo = if i < j { i } else { j };
            let hi = if i < j { j } else { i };
            let p = Seq::new((hi - lo + 1) as nat, |m: int| s[hi - m]);
            assert forall|m: int| 0 <= m < p.len() - 1 implies #[trigger] walk_step(conns, p, m) by {
                assert(p[m] == s[hi - m] && p[m + 1] == s[hi - m - 1]);
                assert(has_edge(conns, s[(hi - m - 1) + 1], s[hi - m - 1]));
            }
            assert(is_walk(conns, p));
            assert(p[0] == p.last());
        }
    }
}

/// Whether `x` occurs in `v`.
fn vec_contains_u32(v: &Vec<u32>, x: u32) -> (r: bool)
    ensures
        r == v@.contains(x),
{
    let mut k: usize = 0;
    while k < v.len()
        invariant
            0 <= k <= v@.len(),
            forall|j: int| 0 <= j < k ==> v@[j] != x,
        decreases v@.len() - k,
    {
        if v[k] == x {
            return true;
        }
        k += 1;
    }
    false
}

/// Whether `target` can be reached from `start` along `conns`
/// (breadth-first search; every node reaches itself).
fn reachable_from(conns: &Vec<Connection>, start: u32, target: u32) -> (r: bool)
    ensures
        r == reaches(conns@, start, target),
{
    let ghost u = reach_universe(conns@, start);
    let mut reached: Vec<u32> = Vec::new();
    reached.push(start);
    let mut i: usize = 0;
    proof {
        lemma_reaches_refl(conns@, start);
        assert(reached@[0] == start);
    }
    while i < reached.len()
        invariant
            u == reach_universe(conns@, start),
            u.finite(),
            0 <= i <= reached@.len(),
            reached@.len() >= 1,
            reached@[0] == start,
            reached@.no_duplicates(),
            forall|k: int| 0 <= k < reached@.len() ==> u.contains(#[trigger] reached@[k]),
            forall|k: int| 0 <= k < reached@.len() ==> reaches(conns@, start, #[trigger] reached@[k]),
            forall|k: int| 0 <= k < i ==> #[trigger] reached@[k] != target,
            forall|e: int, k: int|
                0 <= e < conns@.len() && 0 <= k < i && #[trigger] conns@[e].from_node == #[trigger] reached@[k]
                    ==> reached@.contains(conns@[e].to_node),
        decreases u.len() - i,
    {
        proof {
            reached@.unique_seq_to_set();
            assert(reached@.to_set().subset_of(u));
            vstd::set_lib::lemma_len_subset(reached@.to_set(), u);
        }
        let n = reached[i];
        if n == target {
            return true;
        }
        let ghost before = reached@;
        let mut e: usize = 0;
        while e < conns.len()
            invariant
                u == reach_universe(conns@, start),
                0 <= i < before.len(),
                n == before[i as int],
                0 <= e <= conns@.len(),
                reached@.len() >= before.len(),
                reached@.subrange(0, before.len() as int) == before,
                reached@.no_duplicates(),
                forall|k: int| 0 <= k < reached@.len() ==> u.contains(#[trigger] reached@[k]),
                forall|k: int| 0 <= k < reached@.len() ==> reaches(conns@, start, #[trigger] reached@[k]),
                forall|f: int| 0 <= f < e && #[trigger] conns@[f].from_node == n ==> reached@.contains(conns@[f].to_node),
                forall|f: int, k: int|
                    0 <= f < conns@.len() && 0 <= k < i && #[trigger] conns@[f].from_node == #[trigger] before[k]
                        ==> before.contains(conns@[f].to_node),
            decreases conns@.len() - e,
        {
            let c = conns[e];
            if c.from_node == n {
                if !vec_contains_u32(&reached, c.to_node) {
                    proof {
                        lemma_reaches_step(conns@, start, n, e as int);
                        assert(conns@.map_values(|c: Connection| c.to_node)[e as int] == c.to_node);
                        assert(u.contains(c.to_node));
                    }
                    let ghost prev = reached@;
                    reached.push(c.to_node);
                    proof {
                        assert(reached@.subrange(0, before.len() as int) == prev.subrange(0, before.len() as int));
                        assert forall|k: int| 0 <= k < reached@.len() implies reaches(conns@, start, #[trigger] reached@[k]) by {
                            if k < prev.len() {
                                assert(reached@[k] == prev[k]);
                            }
                        }
                        assert forall|f: int| 0 <= f <= e && #[trigger] conns@[f].from_node == n implies reached@.contains(conns@[f].to_node) by {
                            if f < e {
                                let w = choose|w: int| 0 <= w < prev.len() && prev[w] == conns@[f].to_node;
                                assert(reached@[w] == prev[w]);
                            } else {
                                assert(reached@[prev.len() as int] == c.to_node);
                            }
                        }
                    }
                }
            }
            e += 1;
        }
        proof {
            assert forall|f: int, k: int|
                0 <= f < conns@.len() && 0 <= k < i + 1 && #[trigger] conns@[f].from_node == #[trigger] reached@[k]
                    implies reached@.contains(conns@[f].to_node) by {
                assert(reached@[k] == before[k]);
                if k < i {
                    assert(before.contains(conns@[f].to_node));
                    let w = choose|w: int| 0 <= w < before.len() && before[w] == conns@[f].to_node;
                    assert(reached@[w] == before[w]);
                }
            }
            assert forall|k: int| 0 <= k < i + 1 implies #[trigger] reached@[k] != target by {
                assert(reached@[k] == before[k]);
            }
        }
        i += 1;
    }
    proof {
        assert forall|e: int| 0 <= e < conns@.len() && reached@.contains(#[trigger] conns@[e].from_node)
            implies reached@.contains(conns@[e].to_node) by {
            let k = choose|k: int| 0 <= k < reached@.len() && reached@[k] == conns@[e].from_node;
        }
        assert(reached@.contains(start));
        if reaches(conns@, start, target) {
            lemma_closed_holds_reachable(conns@, reached@, start, target);
            let k = choose|k: int| 0 <= k < reached@.len() && reached@[k] == target;
            assert(false);
        }
    }
    false
}

/// The connections of `conns` whose id differs from `conn_id`, in order.
fn retain_connections_without_id(conns: &Vec<Connection>, conn_id: u32) -> (r: Vec<Connection>)
    ensures
        r@ == conns@.filter(|c: Connection| c.id != conn_id),
{
    let mut out: Vec<Connection> = Vec::new();
    let mut i: usize = 0;
    while i < conns.len()
        invariant
            0 <= i <= conns@.len(),
            out@ == conns@.take(i as int).filter(|c: Connection| c.id != conn_id),
        decreases conns@.len() - i,
    {
        assert(conns@.take(i + 1) == conns@.take(i as int).push(conns@[i as int]));
        proof {
            conns@.take(i as int).lemma_filter_push(conns@[i as int], |c: Connection| c.id != conn_id);
        }
        if conns[i].id != conn_id {
            out.push(conns[i]);
        }
        i += 1;
    }
    assert(conns@.take(conns@.len() as int) == conns@);
    out
}

/// Every element of a filtered sequence comes from the unfiltered one and satisfies the filter.
pub proof fn lemma_filter_subseq<A>(s: Seq<A>, pred: spec_fn(A) -> bool)
    ensures
        forall|j: int| 0 <= j < s.filter(pred).len() ==> s.contains(#[trigger] s.filter(pred)[j]) && pred(s.filter(pred)[j]),
    decreases s.len(),
{
    reveal(Seq::filter);
    if s.len() > 0 {
        lemma_filter_subseq(s.drop_last(), pred);
        assert forall|j: int| 0 <= j < s.filter(pred).len() implies s.contains(#[trigger] s.filter(pred)[j]) && pred(s.filter(pred)[j]) by {
            let d = s.drop_last();
            if j < d.filter(pred).len() {
                assert(d.contains(d.filter(pred)[j]));
                let w = choose|w: int| 0 <= w < d.len() && d[w] == d.filter(pred)[j];
                assert(s[w] == d[w]);
            } else {
                assert(s[s.len() - 1] == s.last());
            }
        }
    }
}

/// An element of the sequence that satisfies the filter survives it.
pub proof fn lemma_filter_keeps<A>(s: Seq<A>, pred: spec_fn(A) -> bool, x: A)
    requires
        s.contains(x),
        pred(x),
    ensures
        s.filter(pred).contains(x),
{
    let i = choose|i: int| 0 <= i < s.len() && s[i] == x;
    s.lemma_filter_contains(pred, i);
}

/// Filtering a sequence without duplicates leaves no duplicates.
pub proof fn lemma_filter_no_dup<A>(s: Seq<A>, pred: spec_fn(A) -> bool)
    requires
        s.no_duplicates(),
    ensures
        s.filter(pred).no_duplicates(),
    decreases s.len(),
{
    reveal(Seq::filter);
    if s.len() > 0 {
        let d = s.drop_last();
        assert(d.no_duplicates());
        lemma_filter_no_dup(d, pred);
        lemma_filter_subseq(d, pred);
        if pred(s.last()) {
            assert forall|j: int| 0 <= j < d.filter(pred).len() implies d.filter(pred)[j] != s.last() by {
                assert(d.contains(d.filter(pred)[j]));
            }
        }
    }
}

// ---------------------------------------------------------------------------
// Layered layout
// ---------------------------------------------------------------------------

/// `ls` gives each node of `nodes` (by position) a layer, where `free`
/// tells the nodes that may lie past layer 0: a node not free is in layer
/// 0; a free node lies past the layers of all its predecessors, and directly
/// past one of them unless it is in layer 0.
pub open spec fn layer_rules(conns: Seq<Connection>, nodes: Seq<u32>, ls: Seq<u32>, free: spec_fn(int) -> bool) -> bool {
    &&& ls.len() == nodes.len()
    &&& forall|k: int| 0 <= k < nodes.len() && !#[trigger] free(k) ==> ls[k] == 0
    &&& forall|i: int, a: int, b: int|
        0 <= i < conns.len() && 0 <= a < nodes.len() && 0 <= b < nodes.len() && #[trigger] conns[i].from_node
            == #[trigger] nodes[a] && conns[i].to_node == #[trigger] nodes[b] && free(b) ==> ls[a] + 1 <= ls[b]
    &&& forall|b: int|
        0 <= b < nodes.len() && #[trigger] free(b) && ls[b] > 0 ==> exists|i: int, a: int|
            0 <= i < conns.len() && 0 <= a < nodes.len() && #[trigger] conns[i].from_node == #[trigger] nodes[a]
                && conns[i].to_node == nodes[b] && ls[a] + 1 == ls[b]
}

/// `ls` gives each node of `nodes` (by position) its layer: a node on or
/// behind a cycle is in layer 0; every other node lies past the layers of
/// all its predecessors, and directly past one of them unless it is in
/// layer 0. So a node's layer is the length of the longest chain of
/// connections that leads to it.
pub open spec fn layered(conns: Seq<Connection>, nodes: Seq<u32>, ls: Seq<u32>) -> bool {
    layer_rules(conns, nodes, ls, |k: int| !behind_cycle(conns, nodes[k]))
}

/// Distinct ids below `m` number at most `m`.
proof fn lemma_ids_below(s: Seq<u32>, m: u32)
    requires
        s.no_duplicates(),
        forall|k: int| 0 <= k < s.len() ==> #[trigger] s[k] < m,
    ensures
        s.len() <= m,
{
    let all = Seq::new(m as nat, |j: int| j as u32);
    assert forall|k: int| 0 <= k < s.len() implies all.contains(#[trigger] s[k]) by {
        assert(all[s[k] as int] == s[k]);
    }
    lemma_no_dup_within_len(s, all);
}

/// One past the deepest layer among the predecessors of `v`, all of them
/// already placed; 0 when `v` has none.
fn layer_past_preds(
    nodes: &Vec<u32>,
    conns: &Vec<Connection>,
    ls: &Vec<u32>,
    done: &Vec<bool>,
    v: u32,
    Ghost(bound): Ghost<int>,
) -> (l: u32)
    requires
        nodes@.no_duplicates(),
        forall|i: int| 0 <= i < conns@.len() ==> nodes@.contains(#[trigger] conns@[i].from_node),
        ls@.len() == nodes@.len(),
        done@.len() == nodes@.len(),
        forall|i: int, a: int|
            0 <= i < conns@.len() && 0 <= a < nodes@.len() && #[trigger] conns@[i].from_node == #[trigger] nodes@[a]
                && conns@[i].to_node == v ==> done@[a],
        forall|j: int| 0 <= j < nodes@.len() && done@[j] ==> #[trigger] ls@[j] < bound,
        0 <= bound <= u32::MAX,
    ensures
        l <= bound,
        forall|i: int, a: int|
            0 <= i < conns@.len() && 0 <= a < nodes@.len() && #[trigger] conns@[i].from_node == #[trigger] nodes@[a]
                && conns@[i].to_node == v ==> ls@[a] + 1 <= l,
        l == 0 || exists|i: int, a: int|
            0 <= i < conns@.len() && 0 <= a < nodes@.len() && #[trigger] conns@[i].from_node == #[trigger] nodes@[a]
                && conns@[i].to_node == v && ls@[a] + 1 == l,
{
    let n = nodes.len();
    let mut l: u32 = 0;
    for i in 0..conns.len()
        invariant
            n == nodes@.len(),
            l <= bound,
            0 <= bound <= u32::MAX,
            nodes@.no_duplicates(),
            forall|i2: int| 0 <= i2 < conns@.len() ==> nodes@.contains(#[trigger] conns@[i2].from_node),
            ls@.len() == n,
            done@.len() == n,
            forall|i2: int, a: int|
                0 <= i2 < conns@.len() && 0 <= a < n && #[trigger] conns@[i2].from_node == #[trigger] nodes@[a]
                    && conns@[i2].to_node == v ==> done@[a],
            forall|j: int| 0 <= j < n && done@[j] ==> #[trigger] ls@[j] < bound,
            forall|i2: int, a: int|
                0 <= i2 < i && 0 <= a < n && #[trigger] conns@[i2].from_node == #[trigger] nodes@[a]
                    && conns@[i2].to_node == v ==> ls@[a] + 1 <= l,
            l == 0 || exists|i2: int, a: int|
                0 <= i2 < i && 0 <= a < n && #[trigger] conns@[i2].from_node == #[trigger] nodes@[a]
                    && conns@[i2].to_node == v && ls@[a] + 1 == l,
    {
        if conns[i].to_node == v {
            proof {
                assert(nodes@.contains(conns@[i as int].from_node));
            }
            let pa = index_of_node(nodes, conns[i].from_node);
            proof {
                assert(done@[pa as int]);
            }
            if ls[pa] + 1 > l {
                l = ls[pa] + 1;
            }
            proof {
                assert forall|a: int|
                    0 <= a < n && #[trigger] nodes@[a] == conns@[i as int].from_node implies ls@[a] + 1 <= l by {
                    assert(a == pa as int);
                }
            }
        }
    }
    l
}

impl GraphTopology {
    /// The layer of each node, in node order (see `layered`): the columns of
    /// the automatic layout.
    pub fn layers(&self) -> (r: Vec<u32>)
        requires
            self.wf(),
        ensures
            layered(self.edges(), self.nodes(), r@),
    {
        let order = self.topological_order();
        let nodes = &self.node_ids;
        let conns = &self.connections;
        let n = nodes.len();
        proof {
            lemma_ids_below(nodes@, self.next_node_id);
            lemma_no_dup_within_len(order@, nodes@);
        }
        let mut ls: Vec<u32> = Vec::new();
        let mut done: Vec<bool> = Vec::new();
        for j in 0..n
            invariant
                ls@.len() == j,
                done@.len() == j,
                forall|k: int| 0 <= k < j ==> ls@[k] == 0 && !done@[k],
        {
            ls.push(0);
            done.push(false);
        }
        for b in 0..order.len()
            invariant
                self.wf(),
                n == nodes@.len(),
                nodes == &self.node_ids,
                conns == &self.connections,
                n <= u32::MAX,
                order@.len() <= n,
                order@.no_duplicates(),
                forall|k: int| 0 <= k < order@.len() ==> nodes@.contains(#[trigger] order@[k]),
                respects_edges(conns@, order@),
                ls@.len() == n,
                done@.len() == n,
                forall|j: int| 0 <= j < n ==> (#[trigger] done@[j] <==> order@.take(b as int).contains(nodes@[j])),
                forall|j: int| 0 <= j < n && !done@[j] ==> #[trigger] ls@[j] == 0,
                forall|j: int| 0 <= j < n && done@[j] ==> #[trigger] ls@[j] < b,
                forall|i: int, a: int, c: int|
                    0 <= i < conns@.len() && 0 <= a < n && 0 <= c < n && #[trigger] conns@[i].from_node
                        == #[trigger] nodes@[a] && conns@[i].to_node == #[trigger] nodes@[c] && done@[c] ==> done@[a]
                        && ls@[a] + 1 <= ls@[c],
                forall|c: int|
                    0 <= c < n && done@[c] && #[trigger] ls@[c] > 0 ==> exists|i: int, a: int|
                        0 <= i < conns@.len() && 0 <= a < n && #[trigger] conns@[i].from_node == #[trigger] nodes@[a]
                            && conns@[i].to_node == nodes@[c] && ls@[a] + 1 == ls@[c],
        {
            let v = order[b];
            proof {
                assert(nodes@.contains(order@[b as int]));
            }
            let pv = index_of_node(nodes, v);
            proof {
                // v is not yet placed: it is not among the first b of the order
                let t0 = order@.take(b as int);
                if t0.contains(v) {
                    let q = choose|q: int| 0 <= q < t0.len() && #[trigger] t0[q] == v;
                    assert(order@[q] == order@[b as int]);
                }
            }
            proof {
                assert forall|i: int, a: int|
                    0 <= i < conns@.len() && 0 <= a < n && #[trigger] conns@[i].from_node == #[trigger] nodes@[a]
                        && conns@[i].to_node == v implies done@[a] by {
                    let q = choose|q: int| 0 <= q < b && #[trigger] order@[q] == conns@[i].from_node;
                    assert(order@.take(b as int)[q] == nodes@[a]);
                }
            }
            let l = layer_past_preds(nodes, conns, &ls, &done, v, Ghost(b as int));
            let ghost before_ls = ls@;
            let ghost before_done = done@;
            ls.set(pv, l);
            done.set(pv, true);
            proof {
                let t0 = order@.take(b as int);
                let t1 = order@.take(b + 1);
                assert(t1 =~= t0.push(v));
                assert forall|j: int| 0 <= j < n implies (#[trigger] done@[j] <==> t1.contains(nodes@[j])) by {
                    if j == pv as int {
                        assert(t1[b as int] == v);
                    } else {
                        assert(nodes@[j] != v);
                        if t1.contains(nodes@[j]) {
                            let q = choose|q: int| 0 <= q < t1.len() && #[trigger] t1[q] == nodes@[j];
                            assert(q != b);
                            assert(t0[q] == nodes@[j]);
                        }
                        if t0.contains(nodes@[j]) {
                            let q = choose|q: int| 0 <= q < t0.len() && #[trigger] t0[q] == nodes@[j];
                            assert(t1[q] == nodes@[j]);
                        }
                    }
                }
                assert forall|i: int, a: int, c: int|
                    0 <= i < conns@.len() && 0 <= a < n && 0 <= c < n && #[trigger] conns@[i].from_node
                        == #[trigger] nodes@[a] && conns@[i].to_node == #[trigger] nodes@[c] && done@[c] implies done@[a]
                    && ls@[a] + 1 <= ls@[c] by {
                    if c == pv as int {
                        assert(conns@[i].to_node == v);
                        assert(before_done[a] && before_ls[a] + 1 <= l);
                        assert(a != pv as int);
                    } else {
                        assert(before_done[c]);
                        assert(before_done[a] && before_ls[a] + 1 <= before_ls[c]);
                        assert(a != pv as int);
                    }
                }
                assert forall|c: int|
                    0 <= c < n && done@[c] && #[trigger] ls@[c] > 0 implies exists|i: int, a: int|
                        0 <= i < conns@.len() && 0 <= a < n && #[trigger] conns@[i].from_node == #[trigger] nodes@[a]
                            && conns@[i].to_node == nodes@[c] && ls@[a] + 1 == ls@[c] by {
                    if c == pv as int {
                        let (i2, a) = choose|i2: int, a: int|
                            0 <= i2 < conns@.len() && 0 <= a < n && #[trigger] conns@[i2].from_node == #[trigger] nodes@[a]
                                && conns@[i2].to_node == v && before_ls[a] + 1 == l;
                        assert(before_done[a]);
                        assert(a != pv as int);
                        assert(ls@[a] == before_ls[a]);
                    } else {
                        assert(before_done[c] && before_ls[c] > 0);
                        let (i2, a) = choose|i2: int, a: int|
                            0 <= i2 < conns@.len() && 0 <= a < n && #[trigger] conns@[i2].from_node == #[trigger] nodes@[a]
                                && conns@[i2].to_node == nodes@[c] && before_ls[a] + 1 == before_ls[c];
                        assert(before_done[a]);
                        assert(a != pv as int);
                        assert(ls@[a] == before_ls[a]);
                    }
                }
            }
        }
        proof {
            assert(order@.take(order@.len() as int) =~= order@);
            assert forall|k: int| 0 <= k < n && behind_cycle(conns@, #[trigger] nodes@[k]) implies ls@[k] == 0 by {
                assert(self.nodes().contains(nodes@[k]));
            }
            assert forall|i: int, a: int, c: int|
                0 <= i < conns@.len() && 0 <= a < n && 0 <= c < n && #[trigger] conns@[i].from_node == #[trigger] nodes@[a]
                    && conns@[i].to_node == #[trigger] nodes@[c] && !behind_cycle(conns@, nodes@[c]) implies ls@[a] + 1
                <= ls@[c] by {
                assert(self.nodes().contains(nodes@[c]));
            }
            assert forall|c: int|
                0 <= c < n && !behind_cycle(conns@, #[trigger] nodes@[c]) && ls@[c] > 0 implies exists|i: int, a: int|
                    0 <= i < conns@.len() && 0 <= a < n && #[trigger] conns@[i].from_node == #[trigger] nodes@[a]
                        && conns@[i].to_node == nodes@[c] && ls@[a] + 1 == ls@[c] by {
                assert(self.nodes().contains(nodes@[c]));
            }
        }
        ls
    }
}

proof fn lemma_layer_agrees(
    conns: Seq<Connection>,
    nodes: Seq<u32>,
    l1: Seq<u32>,
    l2: Seq<u32>,
    free: spec_fn(int) -> bool,
    b: int,
)
    requires
        layer_rules(conns, nodes, l1, free),
        layer_rules(conns, nodes, l2, free),
        0 <= b < nodes.len(),
    ensures
        l1[b] == l2[b],
    decreases l1[b] + l2[b],
{
    if !free(b) {
        return;
    }
    if l1[b] > 0 {
        let (i, a) = choose|i: int, a: int|
            0 <= i < conns.len() && 0 <= a < nodes.len() && #[trigger] conns[i].from_node == #[trigger] nodes[a]
                && conns[i].to_node == nodes[b] && l1[a] + 1 == l1[b];
        assert(l2[a] + 1 <= l2[b]);
        lemma_layer_agrees(conns, nodes, l1, l2, free, a);
    }
    if l2[b] > 0 {
        let (i, a) = choose|i: int, a: int|
            0 <= i < conns.len() && 0 <= a < nodes.len() && #[trigger] conns[i].from_node == #[trigger] nodes[a]
                && conns[i].to_node == nodes[b] && l2[a] + 1 == l2[b];
        assert(l1[a] + 1 <= l1[b]);
        lemma_layer_agrees(conns, nodes, l1, l2, free, a);
    }
}

/// A graph has one layering: the layers of the automatic layout are
/// determined by the nodes and connections alone.
pub proof fn lemma_layers_unique(conns: Seq<Connection>, nodes: Seq<u32>, l1: Seq<u32>, l2: Seq<u32>)
    requires
        layered(conns, nodes, l1),
        layered(conns, nodes, l2),
    ensures
        l1 == l2,
{
    let free = |k: int| !behind_cycle(conns, nodes[k]);
    assert forall|b: int| 0 <= b < l1.len() implies l1[b] == l2[b] by {
        lemma_layer_agrees(conns, nodes, l1, l2, free, b);
    }
    assert(l1 =~= l2);
}

/// How many of the first `k` entries of `ls` equal `l`.
pub open spec fn count_before(ls: Seq<u32>, k: int, l: u32) -> nat
    decreases k,
{
    if k <= 0 {
        0
    } else {
        count_before(ls, k - 1, l) + if ls[k - 1] == l {
            1nat
        } else {
            0nat
        }
    }
}

proof fn lemma_count_before_bound(ls: Seq<u32>, k: int, l: u32)
    ensures
        count_before(ls, k, l) <= if k < 0 { 0 } else { k },
    decreases k,
{
    if k > 0 {
        lemma_count_before_bound(ls, k - 1, l);
    }
}

/// The row of each entry within its layer: how many earlier entries share
/// its layer (the rows of the automatic layout, nodes taken in order).
pub fn rows_in_layers(ls: &[u32]) -> (r: Vec<u32>)
    requires
        ls@.len() <= u32::MAX,
    ensures
        r@.len() == ls@.len(),
        forall|k: int| 0 <= k < ls@.len() ==> #[trigger] r@[k] == count_before(ls@, k, ls@[k]),
{
    let mut r: Vec<u32> = Vec::new();
    for k in 0..ls.len()
        invariant
            ls@.len() <= u32::MAX,
            r@.len() == k,
            forall|j: int| 0 <= j < k ==> #[trigger] r@[j] == count_before(ls@, j, ls@[j]),
    {
        let mut c: u32 = 0;
        for j in 0..k
            invariant
                k < ls@.len() <= u32::MAX,
                c == count_before(ls@, j as int, ls@[k as int]),
        {
            proof {
                lemma_count_before_bound(ls@, j as int, ls@[k as int]);
            }
            if ls[j] == ls[k] {
                c = c + 1;
            }
        }
        r.push(c);
    }
    r
}

} // verus!
