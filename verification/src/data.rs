//! The network facade: owns the component store, the subnet store, the edge
//! index and the propagation engine, and exposes the structural edits and
//! queries a host drives the simulator through.

use crate::component::{Component, PortType};
use crate::edge::{
    edges_distinct, find_port_edge, lemma_edges_value_distinct, port_connected, port_subnet, Edge,
    EdgeDirection,
};
use crate::idmap::IdMap;
use crate::simulator::{
    dirty_sets, edges_components_live, edges_subnets_live, engine_state, lemma_remove_contains,
    mark_waves, pure_driver, same_shape, seq_distinct, spec_advance, spec_mark, spec_mark_all,
    spec_react, spec_settle, spec_tick_clocks, EngineState, Simulator,
};
use crate::subnet::{Subnet, SubnetState};
use vstd::prelude::*;

verus! {

/// The data the backend keeps track of: the live network and its engine.
pub struct Data {
    pub components: IdMap<Component>,
    pub components_free: Vec<i32>,
    pub subnets: IdMap<Subnet>,
    pub edges: Vec<Edge>,
    pub clocks: Vec<i32>,
    pub simulation: Simulator,
}

impl Data {
    /// An edge record is consistent with the live network: both endpoints
    /// exist, the port is real, and the direction is the one the port's
    /// type dictates.
    pub open spec fn edge_valid(self, e: Edge) -> bool {
        &&& self.components@.contains_key(e.component)
        &&& self.subnets@.contains_key(e.subnet)
        &&& match self.components@[e.component].spec_port_type(e.port) {
            Some(t) => e.direction == t.spec_to_edge_direction(),
            None => false,
        }
    }

    /// How many component ids are in use or parked on the free list.
    pub open spec fn total_ids(self) -> int {
        self.components.keys@.len() + self.components_free@.len() as int
    }

    /// Well-formedness: the stores are maps, every edge is valid and no
    /// component port carries two edges, and the id allocator's free list
    /// together with the live ids covers exactly `1..=total_ids`.
    pub open spec fn wf(self) -> bool {
        &&& self.components.wf()
        &&& self.subnets.wf()
        &&& self.simulation.wf()
        &&& edges_distinct(self.edges@)
        &&& forall|i: int| 0 <= i < self.edges@.len() ==> self.edge_valid(#[trigger] self.edges@[i])
        &&& seq_distinct(self.components_free@)
        &&& forall|x: i32|
            #[trigger] self.components@.contains_key(x) ==> 1 <= x && x <= self.total_ids()
                && !self.components_free@.contains(x)
        &&& forall|x: i32|
            #[trigger] self.components_free@.contains(x) ==> 1 <= x && x <= self.total_ids()
        &&& forall|x: i32|
            1 <= x && x <= self.total_ids() ==> (#[trigger] self.components@.contains_key(x)
                || self.components_free@.contains(x))
    }

    /// The engine has nothing pending.
    pub open spec fn quiescent(self) -> bool {
        self.simulation.dirty_empty()
    }

    pub fn new() -> (r: Self)
        ensures
            r.wf(),
            r.components@ == Map::<i32, Component>::empty(),
            r.subnets@ == Map::<i32, Subnet>::empty(),
            r.edges@ == Seq::<Edge>::empty(),
            r.clocks@ == Seq::<i32>::empty(),
            r.components_free@ == Seq::<i32>::empty(),
            r.quiescent(),
            r.simulation.changed_subnets@ == Map::<i32, SubnetState>::empty(),
    {
        let r = Data {
            components: IdMap::new(),
            components_free: Vec::new(),
            subnets: IdMap::new(),
            edges: Vec::new(),
            clocks: Vec::new(),
            simulation: Simulator::new(),
        };
        proof {
            assert(r.edges@ =~= Seq::<Edge>::empty());
            assert(r.clocks@ =~= Seq::<i32>::empty());
            assert(r.components_free@ =~= Seq::<i32>::empty());
        }
        r
    }

    /// Adds a subnet under the given id; false (changing nothing at all)
    /// if the id is already taken.
    pub fn add_subnet(&mut self, id: i32) -> (r: bool)
        requires
            old(self).wf(),
        ensures
            final(self).wf(),
            r == !old(self).subnets@.contains_key(id),
            !r ==> *final(self) == *old(self),
            r ==> final(self).subnets@ == old(self).subnets@.insert(
                id,
                Subnet { state: SubnetState::Floating },
            ),
            final(self).components == old(self).components,
            final(self).components_free == old(self).components_free,
            final(self).edges == old(self).edges,
            final(self).clocks == old(self).clocks,
            final(self).simulation == old(self).simulation,
    {
        if self.subnets.contains_key(id) {
            return false;
        }
        self.subnets.insert(id, Subnet::new());
        true
    }

    /// Removes a subnet and severs every edge touching it; false if the id
    /// is unknown.
    pub fn remove_subnet(&mut self, subnet: i32) -> (r: bool)
        requires
            old(self).wf(),
        ensures
            final(self).wf(),
            r == old(self).subnets@.contains_key(subnet),
            !r ==> *final(self) == *old(self),
            final(self).subnets@ == old(self).subnets@.remove(subnet),
            forall|e: Edge|
                #[trigger] final(self).edges@.contains(e) <==> old(self).edges@.contains(e)
                    && e.subnet != subnet,
            final(self).components == old(self).components,
            final(self).components_free == old(self).components_free,
            final(self).clocks == old(self).clocks,
            final(self).simulation == old(self).simulation,
    {
        match self.subnets.remove(subnet) {
            None => {
                proof {
                    assert(old(self).subnets@.remove(subnet) =~= old(self).subnets@);
                    assert forall|e: Edge| old(self).edges@.contains(e) implies e.subnet
                        != subnet by {
                        let i = choose|i: int|
                            0 <= i < old(self).edges@.len() && old(self).edges@[i] == e;
                        assert(old(self).edge_valid(old(self).edges@[i]));
                    }
                }
                false
            }
            Some(_) => {
                let mut i: usize = 0;
                while i < self.edges.len()
                    invariant
                        i <= self.edges@.len(),
                        edges_distinct(self.edges@),
                        forall|j: int| 0 <= j < i ==> self.edges@[j].subnet != subnet,
                        forall|e: Edge|
                            #[trigger] self.edges@.contains(e) ==> old(self).edges@.contains(e),
                        forall|e: Edge|
                            old(self).edges@.contains(e) && e.subnet != subnet
                                ==> #[trigger] self.edges@.contains(e),
                        self.components == old(self).components,
                        self.components_free == old(self).components_free,
                        self.clocks == old(self).clocks,
                        self.simulation == old(self).simulation,
                        self.subnets.wf(),
                        self.subnets@ == old(self).subnets@.remove(subnet),
                    decreases self.edges@.len() - i,
                {
                    if self.edges[i].subnet == subnet {
                        let ghost pre = self.edges@;
                        proof {
                            lemma_edges_value_distinct(pre);
                        }
                        self.edges.remove(i);
                        proof {
                            assert forall|e: Edge| #[trigger] self.edges@.contains(e) implies
                            pre.contains(e) && e != pre[i as int] by {
                                lemma_remove_contains(pre, i as int, e);
                            }
                            assert forall|e: Edge|
                                pre.contains(e) && e.subnet != subnet implies
                            #[trigger] self.edges@.contains(e) by {
                                lemma_remove_contains(pre, i as int, e);
                            }
                            assert forall|a: int, b: int|
                                0 <= a < b < self.edges@.len() implies !crate::edge::same_port(
                                self.edges@[a],
                                self.edges@[b],
                            ) by {
                                if b < i {
                                    assert(self.edges@[a] == pre[a] && self.edges@[b] == pre[b]);
                                } else if a < i {
                                    assert(self.edges@[a] == pre[a] && self.edges@[b] == pre[b
                                        + 1]);
                                } else {
                                    assert(self.edges@[a] == pre[a + 1] && self.edges@[b] == pre[b
                                        + 1]);
                                }
                            }
                        }
                    } else {
                        i = i + 1;
                    }
                }
                proof {
                    assert forall|i: int| 0 <= i < self.edges@.len() implies self.edge_valid(
                        #[trigger] self.edges@[i],
                    ) by {
                        assert(self.edges@.contains(self.edges@[i]));
                        let e = self.edges@[i];
                        let j = choose|j: int|
                            0 <= j < old(self).edges@.len() && old(self).edges@[j] == e;
                        assert(old(self).edge_valid(old(self).edges@[j]));
                    }
                }
                true
            }
        }
    }

    /// The direction an edge on the given component port would carry, or
    /// `None` if the component or port does not exist.
    pub fn port_direction_component(&self, component: i32, port: usize) -> (r: Option<
        EdgeDirection,
    >)
        requires
            self.wf(),
        ensures
            r == match self.components@.contains_key(component) {
                true => match self.components@[component].spec_port_type(port) {
                    Some(t) => Some(t.spec_to_edge_direction()),
                    None => None::<EdgeDirection>,
                },
                false => None::<EdgeDirection>,
            },
    {
        match self.components.get(component) {
            None => None,
            Some(c) => match c.port_type(port) {
                None => None,
                Some(t) => Some(t.to_edge_direction()),
            },
        }
    }

    /// The state of a subnet, or `None` if the id is unknown.
    pub fn subnet_state(&self, subnet: i32) -> (r: Option<SubnetState>)
        requires
            self.wf(),
        ensures
            r == if self.subnets@.contains_key(subnet) {
                Some(self.subnets@[subnet].state)
            } else {
                None::<SubnetState>
            },
    {
        match self.subnets.get(subnet) {
            None => None,
            Some(s) => Some(s.val()),
        }
    }

    /// The state of the subnet a component port is wired to, or `None` if
    /// no subnet is attached there.
    pub fn port_state(&self, component: i32, port: usize) -> (r: Option<SubnetState>)
        requires
            self.wf(),
        ensures
            r == if port_connected(self.edges@, component, port) {
                Some(self.subnets@[port_subnet(self.edges@, component, port)].state)
            } else {
                None::<SubnetState>
            },
    {
        match find_port_edge(&self.edges, component, port) {
            None => None,
            Some(e) => {
                proof {
                    let i = choose|i: int| 0 <= i < self.edges@.len() && self.edges@[i] == e;
                    assert(self.edge_valid(self.edges@[i]));
                }
                match self.subnets.get(e.subnet) {
                    None => None,
                    Some(s) => Some(s.val()),
                }
            }
        }
    }

    /// Registers a component as a clock, to be advanced on every tick.
    pub fn clock(&mut self, clock_id: i32)
        requires
            old(self).wf(),
        ensures
            final(self).wf(),
            final(self).clocks@ == old(self).clocks@.push(clock_id),
            final(self).components == old(self).components,
            final(self).components_free == old(self).components_free,
            final(self).subnets == old(self).subnets,
            final(self).edges == old(self).edges,
            final(self).simulation == old(self).simulation,
    {
        self.clocks.push(clock_id);
    }

    /// Overwrites a subnet's value without waking the engine (a test and
    /// setup aid).
    pub fn update_silent(&mut self, subnet: i32, state: SubnetState)
        requires
            old(self).wf(),
            old(self).subnets@.contains_key(subnet),
        ensures
            final(self).wf(),
            final(self).subnets@ == old(self).subnets@.insert(subnet, Subnet { state }),
            final(self).components == old(self).components,
            final(self).components_free == old(self).components_free,
            final(self).edges == old(self).edges,
            final(self).clocks == old(self).clocks,
            final(self).simulation == old(self).simulation,
    {
        self.subnets.insert(subnet, Subnet { state });
    }

    /// Connects a subnet to a component port.  If the port already carries
    /// an edge, that edge is dropped first: one net per port.
    pub fn add_edge(&mut self, subnet: i32, component: i32, port: usize, direction: EdgeDirection)
        requires
            old(self).wf(),
            old(self).components@.contains_key(component),
            old(self).subnets@.contains_key(subnet),
            match old(self).components@[component].spec_port_type(port) {
                Some(t) => direction == t.spec_to_edge_direction(),
                None => false,
            },
        ensures
            final(self).wf(),
            forall|e: Edge|
                #[trigger] final(self).edges@.contains(e) <==> (old(self).edges@.contains(e) && !(
                e.component == component && e.port == port)) || e == (Edge {
                    subnet,
                    component,
                    port,
                    direction,
                }),
            !port_connected(old(self).edges@, component, port) ==> final(self).edges@ == old(
                self,
            ).edges@.push(Edge { subnet, component, port, direction }),
            final(self).components == old(self).components,
            final(self).components_free == old(self).components_free,
            final(self).subnets == old(self).subnets,
            final(self).clocks == old(self).clocks,
            final(self).simulation == old(self).simulation,
    {
        let edge = Edge::new(subnet, component, port, direction);
        match crate::edge::find_port_index(&self.edges, component, port) {
            Some(i) => {
                let ghost pre = self.edges@;
                proof {
                    lemma_edges_value_distinct(pre);
                    crate::edge::lemma_remove_preserves_distinct(pre, i as int);
                }
                self.edges.remove(i);
                proof {
                    assert forall|e: Edge| #[trigger] self.edges@.contains(e) <==> pre.contains(e)
                        && !(e.component == component && e.port == port) by {
                        lemma_remove_contains(pre, i as int, e);
                        if pre.contains(e) && e != pre[i as int] && e.component == component
                            && e.port == port {
                            let j = choose|j: int| 0 <= j < pre.len() && pre[j] == e;
                            assert(j != i);
                            if j < i {
                                assert(crate::edge::same_port(pre[j], pre[i as int]));
                            } else {
                                assert(crate::edge::same_port(pre[i as int], pre[j]));
                            }
                            assert(false);
                        }
                    }
                }
            }
            None => {
                proof {
                    assert forall|e: Edge| #[trigger] self.edges@.contains(e) implies !(
                    e.component == component && e.port == port) by {
                        let j = choose|j: int|
                            0 <= j < self.edges@.len() && self.edges@[j] == e;
                        assert(!(self.edges@[j].component == component && self.edges@[j].port
                            == port));
                    }
                }
            }
        }
        let ghost mid = self.edges@;
        self.edges.push(edge);
        proof {
            assert forall|e: Edge| #[trigger] self.edges@.contains(e) <==> mid.contains(e) || e
                == edge by {
                crate::simulator::lemma_push_contains(mid, edge, e);
            }
            assert forall|a: int, b: int|
                0 <= a < b < self.edges@.len() implies !crate::edge::same_port(
                self.edges@[a],
                self.edges@[b],
            ) by {
                if b == self.edges@.len() - 1 {
                    assert(mid.contains(mid[a]));
                    assert(self.edges@[a] == mid[a]);
                } else {
                    assert(self.edges@[a] == mid[a] && self.edges@[b] == mid[b]);
                }
            }
            assert forall|i: int| 0 <= i < self.edges@.len() implies self.edge_valid(
                #[trigger] self.edges@[i],
            ) by {
                if i < self.edges@.len() - 1 {
                    assert(mid.contains(mid[i]));
                    let e = self.edges@[i];
                    assert(old(self).edges@.contains(e));
                    let j = choose|j: int|
                        0 <= j < old(self).edges@.len() && old(self).edges@[j] == e;
                    assert(old(self).edge_valid(old(self).edges@[j]));
                }
            }
        }
    }

    /// Removes exactly the given edge; false if it is not present.
    pub fn remove_edge(&mut self, edge: &Edge) -> (r: bool)
        requires
            old(self).wf(),
        ensures
            final(self).wf(),
            r == old(self).edges@.contains(*edge),
            !r ==> *final(self) == *old(self),
            forall|e: Edge|
                #[trigger] final(self).edges@.contains(e) <==> old(self).edges@.contains(e) && e
                    != *edge,
            final(self).components == old(self).components,
            final(self).components_free == old(self).components_free,
            final(self).subnets == old(self).subnets,
            final(self).clocks == old(self).clocks,
            final(self).simulation == old(self).simulation,
    {
        let mut i: usize = 0;
        while i < self.edges.len()
            invariant
                i <= self.edges@.len(),
                forall|j: int| 0 <= j < i ==> self.edges@[j] != *edge,
                *self == *old(self),
                self.wf(),
            decreases self.edges@.len() - i,
        {
            if self.edges[i].same_nodes(edge) && self.edges[i].direction == edge.direction {
                let ghost pre = self.edges@;
                proof {
                    assert(pre[i as int] == *edge);
                    assert(pre.contains(*edge));
                    lemma_edges_value_distinct(pre);
                    crate::edge::lemma_remove_preserves_distinct(pre, i as int);
                }
                self.edges.remove(i);
                proof {
                    assert forall|e: Edge| #[trigger] self.edges@.contains(e) <==> pre.contains(e)
                        && e != *edge by {
                        lemma_remove_contains(pre, i as int, e);
                    }
                    assert forall|k: int| 0 <= k < self.edges@.len() implies self.edge_valid(
                        #[trigger] self.edges@[k],
                    ) by {
                        assert(self.edges@.contains(self.edges@[k]));
                        let e = self.edges@[k];
                        let j = choose|j: int| 0 <= j < pre.len() && pre[j] == e;
                        assert(old(self).edge_valid(pre[j]));
                    }
                }
                return true;
            }
            i = i + 1;
        }
        proof {
            assert forall|e: Edge| old(self).edges@.contains(e) implies e != *edge by {
                let j = choose|j: int| 0 <= j < self.edges@.len() && self.edges@[j] == e;
            }
        }
        false
    }

    /// Allocates an id for a component and stores it: the smallest freed id
    /// is reused first, else the next unused one.
    pub fn alloc_component(&mut self, component: Component) -> (idx: i32)
        requires
            old(self).wf(),
            old(self).total_ids() < i32::MAX as int,
        ensures
            final(self).wf(),
            !old(self).components@.contains_key(idx),
            final(self).components@ == old(self).components@.insert(idx, component),
            final(self).total_ids() == old(self).total_ids() + if old(
                self,
            ).components_free@.len() == 0 {
                1int
            } else {
                0int
            },
            old(self).components_free@.len() == 0 ==> idx == old(self).components.keys@.len() + 1
                && final(self).components_free == old(self).components_free,
            old(self).components_free@.len() > 0 ==> {
                &&& old(self).components_free@.contains(idx)
                &&& forall|y: i32| old(self).components_free@.contains(y) ==> idx <= y
                &&& forall|y: i32|
                    #[trigger] final(self).components_free@.contains(y) <==> old(
                    self,
                    ).components_free@.contains(y) && y != idx
            },
            final(self).subnets == old(self).subnets,
            final(self).edges == old(self).edges,
            final(self).clocks == old(self).clocks,
            final(self).simulation == old(self).simulation,
    {
        let idx: i32;
        if self.components_free.len() == 0 {
            proof {
                assert(self.components.keys@.len() < i32::MAX as int);
            }
            idx = (self.components.len() as i32) + 1;
            proof {
                if self.components@.contains_key(idx) {
                    assert(idx <= self.total_ids());
                    assert(false);
                }
            }
        } else {
            let mut mi: usize = 0;
            let mut j: usize = 1;
            while j < self.components_free.len()
                invariant
                    1 <= j <= self.components_free@.len(),
                    mi < j,
                    forall|k: int|
                        0 <= k < j ==> self.components_free@[mi as int]
                            <= self.components_free@[k],
                decreases self.components_free@.len() - j,
            {
                if self.components_free[j] < self.components_free[mi] {
                    mi = j;
                }
                j = j + 1;
            }
            idx = self.components_free[mi];
            let ghost freepre = self.components_free@;
            self.components_free.remove(mi);
            proof {
                assert(freepre.contains(idx));
                assert forall|y: i32| old(self).components_free@.contains(y) implies idx <= y by {
                    let k = choose|k: int| 0 <= k < freepre.len() && freepre[k] == y;
                }
                assert forall|y: i32|
                    #[trigger] self.components_free@.contains(y) <==> freepre.contains(y) && y
                        != idx by {
                    lemma_remove_contains(freepre, mi as int, y);
                }
                assert forall|a: int, b: int|
                    0 <= a < b < self.components_free@.len() implies self.components_free@[a]
                    != self.components_free@[b] by {
                    if b < mi {
                        assert(self.components_free@[a] == freepre[a] && self.components_free@[b]
                            == freepre[b]);
                    } else if a < mi {
                        assert(self.components_free@[a] == freepre[a] && self.components_free@[b]
                            == freepre[b + 1]);
                    } else {
                        assert(self.components_free@[a] == freepre[a + 1]
                            && self.components_free@[b] == freepre[b + 1]);
                    }
                }
                if self.components@.contains_key(idx) {
                    assert(!old(self).components_free@.contains(idx));
                    assert(false);
                }
            }
        }
        self.components.insert(idx, component);
        proof {
            assert forall|x: i32| #[trigger] self.components@.contains_key(x) implies 1 <= x && x
                <= self.total_ids() && !self.components_free@.contains(x) by {
                if x != idx {
                    assert(old(self).components@.contains_key(x));
                }
            }
            assert forall|x: i32| #[trigger] self.components_free@.contains(x) implies 1 <= x && x
                <= self.total_ids() by {
                if old(self).components_free@.len() > 0 {
                    assert(old(self).components_free@.contains(x));
                }
            }
            assert forall|x: i32| 1 <= x && x <= self.total_ids() implies (
            #[trigger] self.components@.contains_key(x) || self.components_free@.contains(x)) by {
                if x == idx {
                } else if x <= old(self).total_ids() {
                    assert(old(self).components@.contains_key(x) || old(
                        self,
                    ).components_free@.contains(x));
                }
            }
        }
        idx
    }

    /// Stores a new component and wires every given port to its subnet;
    /// fails (changing nothing) if the port list does not match the
    /// component's port count, or if a wired port names a subnet that does
    /// not exist.
    pub fn add_component(&mut self, component: Component, ports: Vec<Option<i32>>) -> (res: Result<
        i32,
        (),
    >)
        requires
            old(self).wf(),
            old(self).total_ids() < i32::MAX as int,
        ensures
            final(self).wf(),
            final(self).total_ids() <= old(self).total_ids() + 1,
            res matches Err(_) <==> (ports@.len() != component.spec_ports() || exists|i: int|
                0 <= i < ports@.len() && (#[trigger] ports@[i] matches Some(s) && !old(
                    self,
                ).subnets@.contains_key(s))),
            res matches Err(_) ==> *final(self) == *old(self),
            res matches Ok(idx) ==> {
                &&& !old(self).components@.contains_key(idx)
                &&& final(self).components@ == old(self).components@.insert(idx, component)
                &&& final(self).edges@ == old(self).edges@ + wired_edges(
                    idx,
                    component,
                    ports@,
                    ports@.len() as int,
                )
                &&& final(self).subnets == old(self).subnets
                &&& final(self).clocks == old(self).clocks
                &&& final(self).simulation == old(self).simulation
                &&& (old(self).components_free@.len() == 0 ==> idx == old(
                    self,
                ).components.keys@.len() + 1)
                &&& (old(self).components_free@.len() > 0 ==> old(
                    self,
                ).components_free@.contains(idx) && (forall|y: i32|
                    old(self).components_free@.contains(y) ==> idx <= y))
            },
    {
        if ports.len() != component.ports() {
            return Err(());
        }
        let mut pi: usize = 0;
        while pi < ports.len()
            invariant
                pi <= ports@.len(),
                *self == *old(self),
                self.wf(),
                forall|j: int|
                    0 <= j < pi ==> (#[trigger] ports@[j] matches Some(s) ==> self.subnets@.contains_key(
                        s,
                    )),
            decreases ports@.len() - pi,
        {
            match ports[pi] {
                Some(s) => {
                    if !self.subnets.contains_key(s) {
                        proof {
                            assert(ports@[pi as int] matches Some(ss) && !old(
                                self,
                            ).subnets@.contains_key(ss));
                        }
                        return Err(());
                    }
                }
                None => {}
            }
            pi = pi + 1;
        }
        let idx = self.alloc_component(component);
        let ghost after_alloc = *self;
        proof {
            assert forall|j: int| 0 <= j < self.edges@.len() implies self.edges@[
                j
            ].component != idx by {
                assert(old(self).edge_valid(self.edges@[j]));
            }
        }
        let mut i: usize = 0;
        while i < ports.len()
            invariant
                i <= ports@.len(),
                ports@.len() == component.spec_ports(),
                self.wf(),
                self.components == after_alloc.components,
                self.components_free == after_alloc.components_free,
                self.subnets == after_alloc.subnets,
                self.clocks == after_alloc.clocks,
                self.simulation == after_alloc.simulation,
                self.components@.contains_key(idx),
                self.components@[idx] == component,
                forall|j: int|
                    0 <= j < ports@.len() ==> (#[trigger] ports@[j] matches Some(s)
                        ==> self.subnets@.contains_key(s)),
                self.edges@ == after_alloc.edges@ + wired_edges(idx, component, ports@, i as int),
                forall|j: int|
                    0 <= j < after_alloc.edges@.len() ==> after_alloc.edges@[j].component != idx,
            decreases ports@.len() - i,
        {
            let ghost pre = *self;
            match ports[i] {
                Some(s) => {
                    let t = match component.port_type(i) {
                        Some(t) => t,
                        None => PortType::Input,
                    };
                    proof {
                        assert(component.spec_port_type(i as usize) is Some);
                        assert(!port_connected(self.edges@, idx, i as usize)) by {
                            if port_connected(self.edges@, idx, i as usize) {
                                let j = choose|j: int|
                                    0 <= j < self.edges@.len() && self.edges@[j].component == idx
                                        && self.edges@[j].port == i as usize;
                                let w = wired_edges(idx, component, ports@, i as int);
                                if j < after_alloc.edges@.len() {
                                    assert(after_alloc.edges@[j].component != idx);
                                } else {
                                    lemma_wired_edges_ports(
                                        idx,
                                        component,
                                        ports@,
                                        i as int,
                                        j - after_alloc.edges@.len(),
                                    );
                                }
                                assert(false);
                            }
                        }
                    }
                    self.add_edge(s, idx, i, t.to_edge_direction());
                    proof {
                        assert(self.edges@ =~= after_alloc.edges@ + wired_edges(
                            idx,
                            component,
                            ports@,
                            i + 1,
                        ));
                    }
                }
                None => {
                    proof {
                        assert(wired_edges(idx, component, ports@, i + 1) == wired_edges(
                            idx,
                            component,
                            ports@,
                            i as int,
                        ));
                    }
                }
            }
            i = i + 1;
        }
        Ok(idx)
    }

    /// Removes a component: its edges are severed, every subnet it drove is
    /// marked dirty, its id returns to the free list, and the network
    /// resettles.  False if the id is unknown.
    pub fn remove_component(&mut self, id: i32) -> (r: bool)
        requires
            old(self).wf(),
        ensures
            final(self).wf(),
            r == old(self).components@.contains_key(id),
            !r ==> *final(self) == *old(self),
            r ==> {
                &&& forall|c: i32|
                    #[trigger] final(self).components@.contains_key(c) <==> old(
                    self,
                    ).components@.contains_key(c) && c != id
                &&& same_shape(old(self).components@.remove(id), final(self).components@)
                &&& forall|e: Edge|
                    #[trigger] final(self).edges@.contains(e) <==> old(self).edges@.contains(e)
                        && e.component != id
                &&& (forall|n: i32|
                    final(self).subnets@.contains_key(n) <==> old(self).subnets@.contains_key(n))
                &&& (forall|y: i32|
                    #[trigger] final(self).components_free@.contains(y) <==> old(
                    self,
                    ).components_free@.contains(y) || y == id)
                &&& final(self).clocks == old(self).clocks
                &&& engine_state(
                    final(self).simulation,
                    final(self).components,
                    final(self).subnets,
                ) == spec_settle(
                    final(self).edges@,
                    spec_mark_all(
                        (EngineState {
                            components: old(self).components@.remove(id),
                            subnets: old(self).subnets@,
                            changed: old(self).simulation.changed_subnets@,
                            dirty: dirty_sets(old(self).simulation),
                        }),
                        driven_subnets(old(self).edges@, id),
                    ),
                    1000,
                )
            },
    {
        if !self.components.contains_key(id) {
            return false;
        }
        proof {
            assert(mark_waves(
                dirty_sets(self.simulation),
                removed_driven(self.edges@, self.edges@, id),
            ) == dirty_sets(self.simulation)) by {
                assert forall|n: i32|
                    !(#[trigger] removed_driven(self.edges@, self.edges@, id).contains(n)) by {
                    if removed_driven(self.edges@, self.edges@, id).contains(n) {
                        let e = choose|e: Edge|
                            self.edges@.contains(e) && e.component == id && e.direction
                                != EdgeDirection::ToComponent && e.subnet == n
                                && !self.edges@.contains(e);
                        assert(false);
                    }
                }
            }
        }
        let mut i: usize = 0;
        while i < self.edges.len()
            invariant
                i <= self.edges@.len(),
                self.wf(),
                forall|j: int| 0 <= j < i ==> self.edges@[j].component != id,
                forall|e: Edge|
                    #[trigger] self.edges@.contains(e) ==> old(self).edges@.contains(e),
                forall|e: Edge|
                    old(self).edges@.contains(e) && e.component != id
                        ==> #[trigger] self.edges@.contains(e),
                self.components == old(self).components,
                self.components_free == old(self).components_free,
                self.subnets == old(self).subnets,
                self.clocks == old(self).clocks,
                self.simulation.wf(),
                self.simulation.changed_subnets == old(self).simulation.changed_subnets,
                dirty_sets(self.simulation) == mark_waves(
                    dirty_sets(old(self).simulation),
                    removed_driven(old(self).edges@, self.edges@, id),
                ),
            decreases self.edges@.len() - i,
        {
            let e = self.edges[i];
            if e.component == id {
                let ghost pre = self.edges@;
                let ghost sim_pre = self.simulation;
                let ghost m_pre = removed_driven(old(self).edges@, pre, id);
                proof {
                    lemma_edges_value_distinct(pre);
                    crate::edge::lemma_remove_preserves_distinct(pre, i as int);
                }
                self.edges.remove(i);
                proof {
                    assert forall|ee: Edge|
                        #[trigger] self.edges@.contains(ee) <==> pre.contains(ee) && ee != pre[
                        i as int
                    ] by {
                        lemma_remove_contains(pre, i as int, ee);
                    }
                    assert forall|ee: Edge| #[trigger] self.edges@.contains(ee) implies
                    pre.contains(ee) by {
                        lemma_remove_contains(pre, i as int, ee);
                    }
                    assert forall|ee: Edge|
                        pre.contains(ee) && ee.component != id implies
                    #[trigger] self.edges@.contains(ee) by {
                        lemma_remove_contains(pre, i as int, ee);
                    }
                    assert forall|k: int| 0 <= k < self.edges@.len() implies self.edge_valid(
                        #[trigger] self.edges@[k],
                    ) by {
                        assert(self.edges@.contains(self.edges@[k]));
                        let ee = self.edges@[k];
                        let j = choose|j: int| 0 <= j < pre.len() && pre[j] == ee;
                        assert(self.edge_valid(pre[j]));
                    }
                }
                let ghost m_mid = removed_driven(old(self).edges@, self.edges@, id);
                let dirty_it = match e.direction {
                    EdgeDirection::ToComponent => false,
                    _ => true,
                };
                proof {
                    assert(pre[i as int] == e);
                    assert(pre.contains(e));
                    assert(old(self).edges@.contains(e));
                    if dirty_it {
                        assert(m_mid =~= m_pre.insert(e.subnet)) by {
                            assert forall|n: i32|
                                #[trigger] m_mid.contains(n) <==> m_pre.insert(e.subnet).contains(
                                n,
                            ) by {
                                if m_mid.contains(n) {
                                    let ee = choose|ee: Edge|
                                        old(self).edges@.contains(ee) && ee.component == id
                                            && ee.direction != EdgeDirection::ToComponent
                                            && ee.subnet == n && !self.edges@.contains(ee);
                                    if ee != e {
                                        assert(!pre.contains(ee));
                                        assert(m_pre.contains(n));
                                    }
                                }
                                if m_pre.contains(n) {
                                    let ee = choose|ee: Edge|
                                        old(self).edges@.contains(ee) && ee.component == id
                                            && ee.direction != EdgeDirection::ToComponent
                                            && ee.subnet == n && !pre.contains(ee);
                                    assert(!self.edges@.contains(ee));
                                    assert(m_mid.contains(n));
                                }
                                if n == e.subnet {
                                    assert(!self.edges@.contains(e));
                                    assert(m_mid.contains(n));
                                }
                            }
                        }
                    } else {
                        assert(m_mid =~= m_pre) by {
                            assert forall|n: i32| #[trigger] m_mid.contains(n) <==> m_pre.contains(
                                n,
                            ) by {
                                if m_mid.contains(n) {
                                    let ee = choose|ee: Edge|
                                        old(self).edges@.contains(ee) && ee.component == id
                                            && ee.direction != EdgeDirection::ToComponent
                                            && ee.subnet == n && !self.edges@.contains(ee);
                                    assert(ee != e);
                                    assert(!pre.contains(ee));
                                }
                                if m_pre.contains(n) {
                                    let ee = choose|ee: Edge|
                                        old(self).edges@.contains(ee) && ee.component == id
                                            && ee.direction != EdgeDirection::ToComponent
                                            && ee.subnet == n && !pre.contains(ee);
                                    assert(!self.edges@.contains(ee));
                                }
                            }
                        }
                    }
                }
                if dirty_it {
                    self.simulation.dirty_subnet(e.subnet);
                    proof {
                        crate::simulator::lemma_mark_more(
                            dirty_sets(old(self).simulation),
                            sim_pre,
                            self.simulation,
                            m_pre,
                            e.subnet,
                        );
                        assert(m_mid == m_pre.insert(e.subnet));
                    }
                } else {
                    proof {
                        assert(m_mid == m_pre);
                    }
                }
            } else {
                i = i + 1;
            }
        }
        proof {
            assert(removed_driven(old(self).edges@, self.edges@, id) =~= driven_subnets(
                old(self).edges@,
                id,
            )) by {
                assert forall|n: i32|
                    #[trigger] removed_driven(old(self).edges@, self.edges@, id).contains(n) <==>
                driven_subnets(old(self).edges@, id).contains(n) by {
                    if removed_driven(old(self).edges@, self.edges@, id).contains(n) {
                        let ee = choose|ee: Edge|
                            old(self).edges@.contains(ee) && ee.component == id && ee.direction
                                != EdgeDirection::ToComponent && ee.subnet == n
                                && !self.edges@.contains(ee);
                        let j = choose|j: int|
                            0 <= j < old(self).edges@.len() && old(self).edges@[j] == ee;
                        assert(driven_subnets(old(self).edges@, id).contains(n));
                    }
                    if driven_subnets(old(self).edges@, id).contains(n) {
                        let j = choose|j: int|
                            0 <= j < old(self).edges@.len() && old(self).edges@[j].component == id
                                && old(self).edges@[j].direction != EdgeDirection::ToComponent
                                && old(self).edges@[j].subnet == n;
                        let ee = old(self).edges@[j];
                        assert(old(self).edges@.contains(ee));
                        if self.edges@.contains(ee) {
                            let k = choose|k: int|
                                0 <= k < self.edges@.len() && self.edges@[k] == ee;
                            assert(self.edges@[k].component != id);
                            assert(false);
                        }
                        assert(removed_driven(old(self).edges@, self.edges@, id).contains(n));
                    }
                }
            }
        }
        self.components.remove(id);
        self.components_free.push(id);
        proof {
            assert forall|y: i32| #[trigger] self.components_free@.contains(y) <==> old(
                self,
            ).components_free@.contains(y) || y == id by {
                crate::simulator::lemma_push_contains(old(self).components_free@, id, y);
            }
            assert forall|a: int, b: int|
                0 <= a < b < self.components_free@.len() implies self.components_free@[a]
                != self.components_free@[b] by {
                if b == self.components_free@.len() - 1 {
                    assert(old(self).components_free@.contains(old(self).components_free@[a]));
                    assert(self.components_free@[a] == old(self).components_free@[a]);
                } else {
                    assert(self.components_free@[a] == old(self).components_free@[a]
                        && self.components_free@[b] == old(self).components_free@[b]);
                }
            }
            assert forall|k: int| 0 <= k < self.edges@.len() implies self.edge_valid(
                #[trigger] self.edges@[k],
            ) by {
                assert(self.edges@.contains(self.edges@[k]));
                assert(self.edges@[k].component != id);
            }
            lemma_wf_lives(*self);
        }
        let ghost mid = *self;
        self.simulation.process_until_clean(&mut self.components, &mut self.subnets, &self.edges);
        proof {
            assert(same_shape(mid.components@, self.components@));
            assert forall|k: int| 0 <= k < self.edges@.len() implies self.edge_valid(
                #[trigger] self.edges@[k],
            ) by {
                assert(mid.edge_valid(self.edges@[k]));
                let e = self.edges@[k];
                assert(mid.components@.contains_key(e.component));
                crate::component::lemma_kind_shape(
                    mid.components@[e.component],
                    self.components@[e.component],
                );
            }
            assert forall|x: i32| #[trigger] self.components@.contains_key(x) implies 1 <= x && x
                <= self.total_ids() && !self.components_free@.contains(x) by {
                assert(mid.components@.contains_key(x));
            }
            assert forall|x: i32| 1 <= x && x <= self.total_ids() implies (
            #[trigger] self.components@.contains_key(x) || self.components_free@.contains(x)) by {
                assert(mid.components@.contains_key(x) || mid.components_free@.contains(x));
            }
            assert(engine_state(mid.simulation, mid.components, mid.subnets) == spec_mark_all(
                (EngineState {
                    components: old(self).components@.remove(id),
                    subnets: old(self).subnets@,
                    changed: old(self).simulation.changed_subnets@,
                    dirty: dirty_sets(old(self).simulation),
                }),
                driven_subnets(old(self).edges@, id),
            ));
            assert(engine_state(self.simulation, self.components, self.subnets) == spec_settle(
                self.edges@,
                engine_state(mid.simulation, mid.components, mid.subnets),
                1000,
            ));
        }
        true
    }

    /// Wires a component port to a subnet (displacing whatever the port
    /// carried before), lets the component's outputs take effect at once,
    /// and resettles.  False if the component, port or subnet is unknown.
    pub fn link(&mut self, component: i32, port: usize, subnet: i32) -> (r: bool)
        requires
            old(self).wf(),
        ensures
            final(self).wf(),
            r == (old(self).components@.contains_key(component) && (old(self).components@[
                component
            ].spec_port_type(port) is Some) && old(self).subnets@.contains_key(subnet)),
            !r ==> *final(self) == *old(self),
            r ==> {
                let new_edge = Edge {
                    subnet,
                    component,
                    port,
                    direction: old(self).components@[component].spec_port_type(
                        port,
                    )->Some_0.spec_to_edge_direction(),
                };
                &&& forall|e: Edge|
                    #[trigger] final(self).edges@.contains(e) <==> (old(self).edges@.contains(e)
                        && !(e.component == component && e.port == port)) || e == new_edge
                &&& port_connected(final(self).edges@, component, port)
                &&& port_subnet(final(self).edges@, component, port) == subnet
                &&& same_shape(old(self).components@, final(self).components@)
                &&& (forall|n: i32|
                    final(self).subnets@.contains_key(n) <==> old(self).subnets@.contains_key(n))
                &&& final(self).clocks == old(self).clocks
                &&& final(self).components_free == old(self).components_free
            },
            r ==> engine_state(final(self).simulation, final(self).components, final(self).subnets)
                == spec_settle(
                final(self).edges@,
                spec_react(
                    final(self).edges@,
                    engine_state(old(self).simulation, old(self).components, old(self).subnets),
                    component,
                ),
                1000,
            ),
            (r && old(self).components@[component].is_sink() && old(self).quiescent()) ==> {
                &&& final(self).subnets@ == old(self).subnets@
                &&& final(self).quiescent()
                &&& final(self).simulation.changed_subnets@ == Map::<i32, SubnetState>::empty()
                &&& final(self).components@ == old(self).components@
            },
    {
        let direction = match self.port_direction_component(component, port) {
            Some(t) => t,
            None => {
                return false;
            }
        };
        if !self.subnets.contains_key(subnet) {
            return false;
        }
        self.add_edge(subnet, component, port, direction);
        let ghost mid = *self;
        proof {
            lemma_wf_lives(*self);
        }
        self.simulation.update_component(component, &mut self.components, &mut self.subnets, &self.edges);
        proof {
            self.lemma_engine_step_wf(mid);
        }
        let ghost mid2 = *self;
        proof {
            lemma_wf_lives(*self);
        }
        self.simulation.process_until_clean(&mut self.components, &mut self.subnets, &self.edges);
        proof {
            self.lemma_engine_step_wf(mid2);
            assert(engine_state(mid.simulation, mid.components, mid.subnets) == engine_state(
                old(self).simulation,
                old(self).components,
                old(self).subnets,
            ));
            assert(engine_state(mid2.simulation, mid2.components, mid2.subnets) == spec_react(
                self.edges@,
                engine_state(old(self).simulation, old(self).components, old(self).subnets),
                component,
            ));
            assert(engine_state(self.simulation, self.components, self.subnets) == spec_settle(
                self.edges@,
                engine_state(mid2.simulation, mid2.components, mid2.subnets),
                1000,
            ));
            assert(port_connected(self.edges@, component, port)) by {
                let new_edge = Edge { subnet, component, port, direction };
                assert(self.edges@.contains(new_edge));
                let i = choose|i: int| 0 <= i < self.edges@.len() && self.edges@[i] == new_edge;
            }
            assert(port_subnet(self.edges@, component, port) == subnet) by {
                let i = choose|i: int|
                    0 <= i < self.edges@.len() && self.edges@[i].component == component
                        && self.edges@[i].port == port;
                assert(self.edges@.contains(self.edges@[i]));
            }
        }
        true
    }

    /// Severs the edge between a component port and a subnet, marks the
    /// subnet dirty, re-evaluates the component and resettles.  False if
    /// the component or port is unknown or no such edge exists.
    pub fn unlink(&mut self, component: i32, port: usize, subnet: i32) -> (r: bool)
        requires
            old(self).wf(),
        ensures
            final(self).wf(),
            r == (old(self).components@.contains_key(component) && match old(self).components@[
                component
            ].spec_port_type(port) {
                Some(t) => old(self).edges@.contains(
                    Edge { subnet, component, port, direction: t.spec_to_edge_direction() },
                ),
                None => false,
            }),
            !r ==> *final(self) == *old(self),
            r ==> {
                let gone = Edge {
                    subnet,
                    component,
                    port,
                    direction: old(self).components@[component].spec_port_type(
                        port,
                    )->Some_0.spec_to_edge_direction(),
                };
                &&& forall|e: Edge|
                    #[trigger] final(self).edges@.contains(e) <==> old(self).edges@.contains(e)
                        && e != gone
                &&& same_shape(old(self).components@, final(self).components@)
                &&& (forall|n: i32|
                    final(self).subnets@.contains_key(n) <==> old(self).subnets@.contains_key(n))
                &&& final(self).clocks == old(self).clocks
                &&& final(self).components_free == old(self).components_free
            },
            r ==> engine_state(final(self).simulation, final(self).components, final(self).subnets)
                == spec_settle(
                final(self).edges@,
                spec_react(
                    final(self).edges@,
                    spec_mark(
                        engine_state(
                            old(self).simulation,
                            old(self).components,
                            old(self).subnets,
                        ),
                        subnet,
                    ),
                    component,
                ),
                1000,
            ),
            (r && old(self).components@[component].is_sink() && old(self).quiescent() && (forall|
                e: Edge,
            |
                old(self).edges@.contains(e) && e.subnet == subnet && !(e.component == component
                    && e.port == port) ==> e.direction == EdgeDirection::ToSubnet)) ==> {
                &&& final(self).subnets@ == old(self).subnets@
                &&& final(self).quiescent()
                &&& final(self).simulation.changed_subnets@ == Map::<i32, SubnetState>::empty()
                &&& final(self).components@ == old(self).components@
            },
    {
        let direction = match self.port_direction_component(component, port) {
            Some(t) => t,
            None => {
                return false;
            }
        };
        if !self.remove_edge(&Edge::new(subnet, component, port, direction)) {
            return false;
        }
        let ghost quiet_net = forall|e: Edge|
            self.edges@.contains(e) && e.subnet == subnet ==> e.direction
                == EdgeDirection::ToSubnet;
        let ghost before_mark = *self;
        self.simulation.dirty_subnet(subnet);
        let ghost mid = *self;
        proof {
            lemma_wf_lives(*self);
            if old(self).quiescent() {
                assert(self.simulation.dirty_view() =~= seq![Seq::<i32>::empty().push(subnet)]);
            }
            assert(engine_state(mid.simulation, mid.components, mid.subnets) == spec_mark(
                engine_state(old(self).simulation, old(self).components, old(self).subnets),
                subnet,
            )) by {
                let s0 = engine_state(
                    old(self).simulation,
                    old(self).components,
                    old(self).subnets,
                );
                let dv0 = before_mark.simulation.dirty_view();
                assert(s0.dirty == dirty_sets(before_mark.simulation));
                assert(mid.simulation.dirty_view() == crate::simulator::dirty_add(dv0, subnet));
                let sm = spec_mark(s0, subnet);
                assert(dirty_sets(mid.simulation) =~~= sm.dirty) by {
                    let d1s = if dv0.len() == 0 {
                        seq![Seq::<i32>::empty()]
                    } else {
                        dv0
                    };
                    assert(dirty_sets(mid.simulation).len() == sm.dirty.len());
                    assert forall|w: int|
                        0 <= w < sm.dirty.len() implies dirty_sets(mid.simulation)[w] =~= sm.dirty[
                        w
                    ] by {
                        if w == 0 {
                            assert forall|x: i32|
                                #[trigger] dirty_sets(mid.simulation)[0].contains(x) <==> sm.dirty[
                            0].contains(x) by {
                                if d1s[0].contains(subnet) {
                                    assert(mid.simulation.dirty_view()[0] == d1s[0]);
                                } else {
                                    assert(mid.simulation.dirty_view()[0] == d1s[0].push(subnet));
                                    crate::simulator::lemma_push_contains(d1s[0], subnet, x);
                                }
                            }
                        } else {
                            assert(mid.simulation.dirty_view()[w] == d1s[w]);
                        }
                    }
                }
            }
        }
        self.simulation.update_component(component, &mut self.components, &mut self.subnets, &self.edges);
        proof {
            self.lemma_engine_step_wf(mid);
        }
        let ghost mid2 = *self;
        proof {
            lemma_wf_lives(*self);
            if old(self).quiescent() && old(self).components@[component].is_sink() && quiet_net {
                assert(mid2.simulation.dirty_view().len() == 1);
                assert forall|i: int|
                    0 <= i < self.edges@.len() && mid2.simulation.dirty_view()[0].contains(
                        #[trigger] self.edges@[i].subnet,
                    ) implies self.edges@[i].direction == EdgeDirection::ToSubnet by {
                    crate::simulator::lemma_push_contains(
                        Seq::<i32>::empty(),
                        subnet,
                        self.edges@[i].subnet,
                    );
                    assert(self.edges@[i].subnet == subnet);
                    assert(self.edges@.contains(self.edges@[i]));
                }
            }
        }
        self.simulation.process_until_clean(&mut self.components, &mut self.subnets, &self.edges);
        proof {
            self.lemma_engine_step_wf(mid2);
            assert(engine_state(mid2.simulation, mid2.components, mid2.subnets) == spec_react(
                self.edges@,
                spec_mark(
                    engine_state(old(self).simulation, old(self).components, old(self).subnets),
                    subnet,
                ),
                component,
            ));
            assert(engine_state(self.simulation, self.components, self.subnets) == spec_settle(
                self.edges@,
                engine_state(mid2.simulation, mid2.components, mid2.subnets),
                1000,
            ));
        }
        true
    }

    /// Presses a manual source component (its latch goes on), propagates
    /// the change and resettles; reports the level the source now drives.
    /// `None` if the component is unknown.
    pub fn press_component(&mut self, id: i32) -> (r: Option<SubnetState>)
        requires
            old(self).wf(),
        ensures
            final(self).wf(),
            r is Some <==> old(self).components@.contains_key(id),
            r is None ==> *final(self) == *old(self),
            r matches Some(st) ==> {
                &&& st == if old(self).components@[id].is_manual_source() {
                    SubnetState::On
                } else {
                    SubnetState::Floating
                }
                &&& same_shape(old(self).components@, final(self).components@)
                &&& (forall|n: i32|
                    final(self).subnets@.contains_key(n) <==> old(self).subnets@.contains_key(n))
                &&& final(self).edges == old(self).edges
                &&& final(self).clocks == old(self).clocks
                &&& final(self).components_free == old(self).components_free
            },
            r matches Some(st) ==> {
                &&& (old(self).components@[id].is_manual_source()
                    ==> final(self).components@[id] == old(self).components@[id].spec_with_latch(
                        true,
                    ))
                &&& engine_state(
                    final(self).simulation,
                    final(self).components,
                    final(self).subnets,
                ) == spec_settle(
                    old(self).edges@,
                    spec_react(
                        old(self).edges@,
                        (EngineState {
                            components: old(self).components@.insert(
                                id,
                                (if old(self).components@[id].is_manual_source() {
                                    old(self).components@[id].spec_with_latch(true)
                                } else {
                                    old(self).components@[id]
                                }),
                            ),
                            subnets: old(self).subnets@,
                            changed: old(self).simulation.changed_subnets@,
                            dirty: dirty_sets(old(self).simulation),
                        }),
                        id,
                    ),
                    1000,
                )
            },
    {
        let c0 = match self.components.get(id) {
            Some(c) => c,
            None => {
                return None;
            }
        };
        let mut c = c0;
        let st = c.pressed();
        self.components.insert(id, c);
        proof {
            crate::component::lemma_with_latch_kind(c0, true);
            self.lemma_latch_update_wf(*old(self), id);
        }
        let ghost mid = *self;
        proof {
            lemma_wf_lives(*self);
        }
        self.simulation.update_component(id, &mut self.components, &mut self.subnets, &self.edges);
        proof {
            self.lemma_engine_step_wf(mid);
        }
        let ghost mid2 = *self;
        proof {
            lemma_wf_lives(*self);
        }
        self.simulation.process_until_clean(&mut self.components, &mut self.subnets, &self.edges);
        proof {
            self.lemma_engine_step_wf(mid2);
            assert(engine_state(mid.simulation, mid.components, mid.subnets) == (EngineState {
                components: old(self).components@.insert(
                    id,
                    (if old(self).components@[id].is_manual_source() {
                        old(self).components@[id].spec_with_latch(true)
                    } else {
                        old(self).components@[id]
                    }),
                ),
                subnets: old(self).subnets@,
                changed: old(self).simulation.changed_subnets@,
                dirty: dirty_sets(old(self).simulation),
            }));
            assert(engine_state(mid2.simulation, mid2.components, mid2.subnets) == spec_react(
                self.edges@,
                engine_state(mid.simulation, mid.components, mid.subnets),
                id,
            ));
            assert(engine_state(self.simulation, self.components, self.subnets) == spec_settle(
                self.edges@,
                engine_state(mid2.simulation, mid2.components, mid2.subnets),
                1000,
            ));
            if old(self).components@[id].is_manual_source() {
                assert(pure_driver(self.edges@, id)) by {
                    assert forall|i: int|
                        0 <= i < self.edges@.len() && (#[trigger] self.edges@[i]).component == id
                            implies self.edges@[i].direction == EdgeDirection::ToSubnet by {
                        assert(old(self).edge_valid(old(self).edges@[i]));
                        assert(old(self).components@[id].spec_port_type(self.edges@[i].port)
                            is Some);
                        assert(self.edges@[i].port == 0);
                    }
                }
                assert(mid2.components@[id] == old(self).components@[id].spec_with_latch(true));
                assert(self.components@[id] == mid2.components@[id]);
            }
        }
        Some(st)
    }

    /// Releases a manual source component (its latch goes off), propagates
    /// the change and resettles; reports the level the source now drives.
    /// `None` if the component is unknown.
    pub fn release_component(&mut self, id: i32) -> (r: Option<SubnetState>)
        requires
            old(self).wf(),
        ensures
            final(self).wf(),
            r is Some <==> old(self).components@.contains_key(id),
            r is None ==> *final(self) == *old(self),
            r matches Some(st) ==> {
                &&& st == if old(self).components@[id].is_manual_source() {
                    SubnetState::Off
                } else {
                    SubnetState::Floating
                }
                &&& same_shape(old(self).components@, final(self).components@)
                &&& (forall|n: i32|
                    final(self).subnets@.contains_key(n) <==> old(self).subnets@.contains_key(n))
                &&& final(self).edges == old(self).edges
                &&& final(self).clocks == old(self).clocks
                &&& final(self).components_free == old(self).components_free
            },
            r matches Some(st) ==> {
                &&& (old(self).components@[id].is_manual_source()
                    ==> final(self).components@[id] == old(self).components@[id].spec_with_latch(
                        false,
                    ))
                &&& engine_state(
                    final(self).simulation,
                    final(self).components,
                    final(self).subnets,
                ) == spec_settle(
                    old(self).edges@,
                    spec_react(
                        old(self).edges@,
                        (EngineState {
                            components: old(self).components@.insert(
                                id,
                                (if old(self).components@[id].is_manual_source() {
                                    old(self).components@[id].spec_with_latch(false)
                                } else {
                                    old(self).components@[id]
                                }),
                            ),
                            subnets: old(self).subnets@,
                            changed: old(self).simulation.changed_subnets@,
                            dirty: dirty_sets(old(self).simulation),
                        }),
                        id,
                    ),
                    1000,
                )
            },
    {
        let c0 = match self.components.get(id) {
            Some(c) => c,
            None => {
                return None;
            }
        };
        let mut c = c0;
        let st = c.released();
        self.components.insert(id, c);
        proof {
            crate::component::lemma_with_latch_kind(c0, false);
            self.lemma_latch_update_wf(*old(self), id);
        }
        let ghost mid = *self;
        proof {
            lemma_wf_lives(*self);
        }
        self.simulation.update_component(id, &mut self.components, &mut self.subnets, &self.edges);
        proof {
            self.lemma_engine_step_wf(mid);
        }
        let ghost mid2 = *self;
        proof {
            lemma_wf_lives(*self);
        }
        self.simulation.process_until_clean(&mut self.components, &mut self.subnets, &self.edges);
        proof {
            self.lemma_engine_step_wf(mid2);
            assert(engine_state(mid.simulation, mid.components, mid.subnets) == (EngineState {
                components: old(self).components@.insert(
                    id,
                    (if old(self).components@[id].is_manual_source() {
                        old(self).components@[id].spec_with_latch(false)
                    } else {
                        old(self).components@[id]
                    }),
                ),
                subnets: old(self).subnets@,
                changed: old(self).simulation.changed_subnets@,
                dirty: dirty_sets(old(self).simulation),
            }));
            assert(engine_state(mid2.simulation, mid2.components, mid2.subnets) == spec_react(
                self.edges@,
                engine_state(mid.simulation, mid.components, mid.subnets),
                id,
            ));
            assert(engine_state(self.simulation, self.components, self.subnets) == spec_settle(
                self.edges@,
                engine_state(mid2.simulation, mid2.components, mid2.subnets),
                1000,
            ));
            if old(self).components@[id].is_manual_source() {
                assert(pure_driver(self.edges@, id)) by {
                    assert forall|i: int|
                        0 <= i < self.edges@.len() && (#[trigger] self.edges@[i]).component == id
                            implies self.edges@[i].direction == EdgeDirection::ToSubnet by {
                        assert(old(self).edge_valid(old(self).edges@[i]));
                        assert(old(self).components@[id].spec_port_type(self.edges@[i].port)
                            is Some);
                        assert(self.edges@[i].port == 0);
                    }
                }
                assert(mid2.components@[id] == old(self).components@[id].spec_with_latch(false));
                assert(self.components@[id] == mid2.components@[id]);
            }
        }
        Some(st)
    }

    /// Assigns a subnet's value through the engine, so the change enters
    /// the current wave and will propagate on the next advance.
    pub fn update_subnet(&mut self, subnet: i32, state: SubnetState)
        requires
            old(self).wf(),
            old(self).subnets@.contains_key(subnet),
        ensures
            final(self).wf(),
            final(self).subnets@ == old(self).subnets@.insert(subnet, Subnet { state }),
            old(self).subnets@[subnet].state != state ==> {
                &&& final(self).simulation.dirty_view() == crate::simulator::dirty_add(
                    old(self).simulation.dirty_view(),
                    subnet,
                )
                &&& final(self).simulation.changed_subnets@ == old(
                    self,
                ).simulation.changed_subnets@.insert(subnet, old(self).subnets@[subnet].state)
            },
            old(self).subnets@[subnet].state == state ==> final(self).simulation == old(
                self,
            ).simulation && final(self).subnets@ == old(self).subnets@,
            final(self).components == old(self).components,
            final(self).components_free == old(self).components_free,
            final(self).edges == old(self).edges,
            final(self).clocks == old(self).clocks,
    {
        self.simulation.update_subnet(subnet, state, &mut self.subnets);
        proof {
            assert forall|i: int| 0 <= i < self.edges@.len() implies self.edge_valid(
                #[trigger] self.edges@[i],
            ) by {
                assert(old(self).edge_valid(self.edges@[i]));
            }
        }
    }

    /// Advances one wave of the engine (a test and inspection aid).
    pub fn advance_time(&mut self)
        requires
            old(self).wf(),
        ensures
            final(self).wf(),
            same_shape(old(self).components@, final(self).components@),
            forall|n: i32|
                final(self).subnets@.contains_key(n) <==> old(self).subnets@.contains_key(n),
            final(self).edges == old(self).edges,
            final(self).clocks == old(self).clocks,
            final(self).components_free == old(self).components_free,
            old(self).quiescent() ==> *final(self) == *old(self),
            engine_state(final(self).simulation, final(self).components, final(self).subnets)
                == spec_advance(
                old(self).edges@,
                engine_state(old(self).simulation, old(self).components, old(self).subnets),
            ),
    {
        let ghost pre = *self;
        proof {
            lemma_wf_lives(*self);
        }
        self.simulation.advance_time(&mut self.components, &mut self.subnets, &self.edges);
        proof {
            self.lemma_engine_step_wf(pre);
        }
    }

    /// Toggles every registered clock and settles the network: each clock
    /// that only drives subnets advances its free-running latch exactly
    /// once per tick.
    pub fn time_step(&mut self)
        requires
            old(self).wf(),
        ensures
            final(self).wf(),
            same_shape(old(self).components@, final(self).components@),
            forall|n: i32|
                final(self).subnets@.contains_key(n) <==> old(self).subnets@.contains_key(n),
            final(self).edges == old(self).edges,
            final(self).clocks == old(self).clocks,
            final(self).components_free == old(self).components_free,
            seq_distinct(old(self).clocks@) ==> forall|c: i32|
                (#[trigger] old(self).components@.contains_key(c) && (old(self).components@[c]
                    is Clock) && pure_driver(old(self).edges@, c)) ==> final(self).components@[c]
                    == (if old(self).clocks@.contains(c) {
                    Component::Clock { state: !old(self).components@[c].spec_latch() }
                } else {
                    old(self).components@[c]
                }),
            engine_state(final(self).simulation, final(self).components, final(self).subnets)
                == spec_settle(
                old(self).edges@,
                spec_tick_clocks(
                    old(self).edges@,
                    engine_state(old(self).simulation, old(self).components, old(self).subnets),
                    old(self).clocks@,
                    old(self).clocks@.len() as int,
                ),
                1000,
            ),
    {
        let ghost pre = *self;
        proof {
            lemma_wf_lives(*self);
        }
        self.simulation.time_step(&self.clocks, &mut self.components, &mut self.subnets, &self.edges);
        proof {
            self.lemma_engine_step_wf(pre);
        }
    }

    /// Re-establishes the facade invariant after an engine call that kept
    /// the component shape, the key counts and the subnet domain.
    proof fn lemma_engine_step_wf(self, pre: Data)
        requires
            pre.wf(),
            self.components.wf(),
            self.subnets.wf(),
            self.simulation.wf(),
            self.edges == pre.edges,
            self.components_free == pre.components_free,
            self.clocks == pre.clocks,
            same_shape(pre.components@, self.components@),
            self.components.spec_len() == pre.components.spec_len(),
            forall|n: i32| self.subnets@.contains_key(n) <==> pre.subnets@.contains_key(n),
        ensures
            self.wf(),
    {
        assert forall|i: int| 0 <= i < self.edges@.len() implies self.edge_valid(
            #[trigger] self.edges@[i],
        ) by {
            assert(pre.edge_valid(pre.edges@[i]));
            let e = self.edges@[i];
            assert(pre.components@.contains_key(e.component));
            crate::component::lemma_kind_shape(
                pre.components@[e.component],
                self.components@[e.component],
            );
        }
        assert(self.total_ids() == pre.total_ids());
        assert forall|x: i32| #[trigger] self.components@.contains_key(x) implies 1 <= x && x
            <= self.total_ids() && !self.components_free@.contains(x) by {
            assert(pre.components@.contains_key(x));
        }
        assert forall|x: i32| 1 <= x && x <= self.total_ids() implies (
        #[trigger] self.components@.contains_key(x) || self.components_free@.contains(x)) by {
            assert(pre.components@.contains_key(x) || pre.components_free@.contains(x));
        }
    }

    /// Re-establishes the facade invariant after one component's latch is
    /// replaced in place.
    proof fn lemma_latch_update_wf(self, pre: Data, id: i32)
        requires
            pre.wf(),
            pre.components@.contains_key(id),
            self.components.wf(),
            self.components.spec_len() == pre.components.spec_len(),
            self.components@ == pre.components@.insert(id, self.components@[id]),
            self.components@[id].spec_kind() == pre.components@[id].spec_kind(),
            self.subnets == pre.subnets,
            self.simulation == pre.simulation,
            self.edges == pre.edges,
            self.components_free == pre.components_free,
            self.clocks == pre.clocks,
        ensures
            self.wf(),
            same_shape(pre.components@, self.components@),
    {
        assert forall|i: int| 0 <= i < self.edges@.len() implies self.edge_valid(
            #[trigger] self.edges@[i],
        ) by {
            assert(pre.edge_valid(pre.edges@[i]));
            let e = self.edges@[i];
            crate::component::lemma_kind_shape(
                pre.components@[e.component],
                self.components@[e.component],
            );
        }
        assert(self.total_ids() == pre.total_ids());
        assert forall|x: i32| #[trigger] self.components@.contains_key(x) implies 1 <= x && x
            <= self.total_ids() && !self.components_free@.contains(x) by {
            assert(pre.components@.contains_key(x));
        }
        assert forall|x: i32| 1 <= x && x <= self.total_ids() implies (
        #[trigger] self.components@.contains_key(x) || self.components_free@.contains(x)) by {
            assert(pre.components@.contains_key(x) || pre.components_free@.contains(x));
        }
    }
}

/// The subnets a component drives through an output or bidirectional
/// port: removing the component marks exactly these dirty.
pub open spec fn driven_subnets(edges: Seq<Edge>, id: i32) -> Set<i32> {
    Set::new(
        |n: i32|
            exists|j: int|
                0 <= j < edges.len() && edges[j].component == id && edges[j].direction
                    != EdgeDirection::ToComponent && edges[j].subnet == n,
    )
}

/// The driven subnets whose edge has already been severed, while a
/// removal walks the edge list.
pub open spec fn removed_driven(old_edges: Seq<Edge>, cur: Seq<Edge>, id: i32) -> Set<i32> {
    Set::new(
        |n: i32|
            exists|e: Edge|
                old_edges.contains(e) && e.component == id && e.direction
                    != EdgeDirection::ToComponent && e.subnet == n && !cur.contains(e),
    )
}

/// The edges a new component's wired ports contribute, in port order.
pub open spec fn wired_edges(idx: i32, c: Component, ports: Seq<Option<i32>>, n: int) -> Seq<Edge>
    decreases n,
{
    if n <= 0 {
        Seq::empty()
    } else {
        let rest = wired_edges(idx, c, ports, n - 1);
        match ports[n - 1] {
            Some(s) => rest.push(
                Edge {
                    subnet: s,
                    component: idx,
                    port: (n - 1) as usize,
                    direction: match c.spec_port_type((n - 1) as usize) {
                        Some(t) => t.spec_to_edge_direction(),
                        None => EdgeDirection::ToComponent,
                    },
                },
            ),
            None => rest,
        }
    }
}

/// Every wired edge belongs to the new component, on a port below `n`.
pub proof fn lemma_wired_edges_ports(idx: i32, c: Component, ports: Seq<Option<i32>>, n: int, k: int)
    requires
        0 <= k < wired_edges(idx, c, ports, n).len(),
    ensures
        wired_edges(idx, c, ports, n)[k].component == idx,
        (wired_edges(idx, c, ports, n)[k].port as int) < n,
    decreases n,
{
    if n > 0 {
        let rest = wired_edges(idx, c, ports, n - 1);
        if k < rest.len() {
            lemma_wired_edges_ports(idx, c, ports, n - 1, k);
        }
    }
}

/// Bridges the facade's invariant to the engine's liveness requirements.
pub proof fn lemma_wf_lives(d: Data)
    requires
        d.wf(),
    ensures
        edges_subnets_live(d.edges@, d.subnets@),
        edges_components_live(d.edges@, d.components@),
{
    assert forall|i: int| 0 <= i < d.edges@.len() implies d.subnets@.contains_key(
        #[trigger] d.edges@[i].subnet,
    ) by {
        assert(d.edge_valid(d.edges@[i]));
    }
    assert forall|i: int| 0 <= i < d.edges@.len() implies d.components@.contains_key(
        #[trigger] d.edges@[i].component,
    ) by {
        assert(d.edge_valid(d.edges@[i]));
    }
}

/// Law (round trip): `link` then `unlink` on the same component, port and
/// subnet restores the pre-link network, provided the port was unconnected
/// before and nothing changed any subnet value in between.  The premises
/// are exactly what the contracts of `link` and `unlink` give when the
/// component is a pure sink and the engine starts quiet; the conclusion is
/// that both the edge set and every subnet state return to where they
/// were.  (A driving port does not round-trip in general: once its value
/// has been applied, removing the driver leaves the subnet holding the
/// driven value until something proposes anew.)
pub proof fn lemma_link_unlink_round_trip(
    before: Data,
    linked: Data,
    after: Data,
    component: i32,
    port: usize,
    subnet: i32,
    direction: EdgeDirection,
)
    requires
        !port_connected(before.edges@, component, port),
        forall|x: Edge|
            #[trigger] linked.edges@.contains(x) <==> (before.edges@.contains(x) && !(x.component
                == component && x.port == port)) || x == (Edge {
                subnet,
                component,
                port,
                direction,
            }),
        linked.subnets@ == before.subnets@,
        forall|x: Edge|
            #[trigger] after.edges@.contains(x) <==> linked.edges@.contains(x) && x != (Edge {
                subnet,
                component,
                port,
                direction,
            }),
        after.subnets@ == linked.subnets@,
    ensures
        after.subnets@ == before.subnets@,
        forall|x: Edge| #[trigger] after.edges@.contains(x) <==> before.edges@.contains(x),
{
    assert forall|x: Edge| #[trigger] after.edges@.contains(x) <==> before.edges@.contains(
        x,
    ) by {
        if before.edges@.contains(x) && x.component == component && x.port == port {
            let i = choose|i: int| 0 <= i < before.edges@.len() && before.edges@[i] == x;
            assert(port_connected(before.edges@, component, port));
            assert(false);
        }
    }
}

} // verus!
