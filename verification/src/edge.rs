//! Edges: connections between one subnet and one component port, stored in
//! edge-query format.

use vstd::prelude::*;

verus! {

/// Which way data flows over an edge, derived from the port's type.
#[derive(Debug, PartialEq, Eq, Structural, Clone, Copy)]
pub enum EdgeDirection {
    ToComponent,
    ToSubnet,
    Bidirectional,
}

/// A connection between a subnet and one port of a component.
#[derive(Debug, PartialEq, Eq, Structural, Clone, Copy)]
pub struct Edge {
    pub subnet: i32,
    pub component: i32,
    pub port: usize,
    pub direction: EdgeDirection,
}

impl Edge {
    pub fn new(subnet: i32, component: i32, port: usize, direction: EdgeDirection) -> (r: Self)
        ensures
            r == (Edge { subnet, component, port, direction }),
    {
        Edge { subnet, component, port, direction }
    }

    /// Whether two edges join the same subnet to the same component port,
    /// regardless of direction.
    pub open spec fn spec_same_nodes(self, other: Edge) -> bool {
        self.subnet == other.subnet && self.component == other.component && self.port == other.port
    }

    pub fn same_nodes(&self, other: &Edge) -> (r: bool)
        ensures
            r == self.spec_same_nodes(*other),
    {
        self.subnet == other.subnet && self.component == other.component && self.port == other.port
    }

    /// Widens the edge to bidirectional if a second direction is merged in.
    pub fn add_direction(self, direction: EdgeDirection) -> (r: Self)
        ensures
            r == if self.direction == direction {
                self
            } else {
                Edge { direction: EdgeDirection::Bidirectional, ..self }
            },
    {
        if self.direction == direction {
            self
        } else {
            Edge { direction: EdgeDirection::Bidirectional, ..self }
        }
    }
}

/// Whether two edges occupy the same component port.
pub open spec fn same_port(a: Edge, b: Edge) -> bool {
    a.component == b.component && a.port == b.port
}

/// An edge list respects the one-net-per-port rule: no two entries occupy
/// the same component port (so in particular no entry is duplicated).
pub open spec fn edges_distinct(s: Seq<Edge>) -> bool {
    forall|i: int, j: int| 0 <= i < j < s.len() ==> !same_port(s[i], s[j])
}

/// Whether some edge in the list connects the given component port.
pub open spec fn port_connected(s: Seq<Edge>, component: i32, port: usize) -> bool {
    exists|i: int| 0 <= i < s.len() && s[i].component == component && s[i].port == port
}

/// The subnet the given component port is wired to; meaningful only when
/// `port_connected` holds (unique under `edges_distinct`).
pub open spec fn port_subnet(s: Seq<Edge>, component: i32, port: usize) -> i32 {
    let i = choose|i: int| 0 <= i < s.len() && s[i].component == component && s[i].port == port;
    s[i].subnet
}

/// The full edge record attached to the given component port; meaningful
/// only when `port_connected` holds.
pub open spec fn port_edge(s: Seq<Edge>, component: i32, port: usize) -> Edge {
    let i = choose|i: int| 0 <= i < s.len() && s[i].component == component && s[i].port == port;
    s[i]
}

/// One-net-per-port implies no edge value occurs twice in the list.
pub proof fn lemma_edges_value_distinct(s: Seq<Edge>)
    requires
        edges_distinct(s),
    ensures
        forall|i: int, j: int| 0 <= i < j < s.len() ==> s[i] != s[j],
{
    assert forall|i: int, j: int| 0 <= i < j < s.len() implies s[i] != s[j] by {
        assert(!same_port(s[i], s[j]));
    }
}

/// Index-preserving removal keeps the one-net-per-port rule.
pub proof fn lemma_remove_preserves_distinct(s: Seq<Edge>, i: int)
    requires
        edges_distinct(s),
        0 <= i < s.len(),
    ensures
        edges_distinct(s.remove(i)),
{
    let r = s.remove(i);
    assert forall|a: int, b: int| 0 <= a < b < r.len() implies !same_port(r[a], r[b]) by {
        if b < i {
            assert(r[a] == s[a] && r[b] == s[b]);
        } else if a < i {
            assert(r[a] == s[a] && r[b] == s[b + 1]);
        } else {
            assert(r[a] == s[a + 1] && r[b] == s[b + 1]);
        }
    }
}

/// The index of the edge attached to a component port, if any.
pub fn find_port_index(edges: &Vec<Edge>, component: i32, port: usize) -> (r: Option<usize>)
    ensures
        match r {
            Some(i) => {
                let e = edges@[i as int];
                i < edges@.len() && e.component == component && e.port == port
            },
            None => !port_connected(edges@, component, port),
        },
{
    let mut i: usize = 0;
    while i < edges.len()
        invariant
            i <= edges@.len(),
            forall|j: int|
                0 <= j < i ==> !(edges@[j].component == component && edges@[j].port == port),
        decreases edges@.len() - i,
    {
        let e = edges[i];
        if e.component == component && e.port == port {
            return Some(i);
        }
        i = i + 1;
    }
    None
}

/// Looks up the edge attached to a component port, if any.
pub fn find_port_edge(edges: &Vec<Edge>, component: i32, port: usize) -> (r: Option<Edge>)
    requires
        edges_distinct(edges@),
    ensures
        match r {
            Some(e) => port_connected(edges@, component, port) && e == port_edge(
                edges@,
                component,
                port,
            ) && edges@.contains(e),
            None => !port_connected(edges@, component, port),
        },
{
    let mut i: usize = 0;
    while i < edges.len()
        invariant
            i <= edges@.len(),
            edges_distinct(edges@),
            forall|j: int|
                0 <= j < i ==> !(edges@[j].component == component && edges@[j].port == port),
        decreases edges@.len() - i,
    {
        let e = edges[i];
        if e.component == component && e.port == port {
            proof {
                lemma_port_edge_unique(edges@, i as int);
                assert(edges@.contains(edges@[i as int]));
            }
            return Some(e);
        }
        i = i + 1;
    }
    None
}

/// Under the one-net-per-port rule, every edge on a connected port is the
/// one `port_edge` denotes.
pub proof fn lemma_port_edge_unique(s: Seq<Edge>, i: int)
    requires
        edges_distinct(s),
        0 <= i < s.len(),
    ensures
        port_connected(s, s[i].component, s[i].port),
        port_edge(s, s[i].component, s[i].port) == s[i],
        port_subnet(s, s[i].component, s[i].port) == s[i].subnet,
{
    let c = s[i].component;
    let p = s[i].port;
    assert(0 <= i < s.len() && s[i].component == c && s[i].port == p);
    let j = choose|j: int| 0 <= j < s.len() && s[j].component == c && s[j].port == p;
    assert(0 <= j < s.len() && s[j].component == c && s[j].port == p);
    if i < j {
        assert(same_port(s[i], s[j]));
        assert(false);
    }
    if j < i {
        assert(same_port(s[j], s[i]));
        assert(false);
    }
    assert(j == i);
}

} // verus!
