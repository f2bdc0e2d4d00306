//! The propagation engine: a queue of dirty-subnet waves, a record of what
//! changed while the current wave was assembled, and the per-wave
//! evaluate/resolve/apply cycle.

use crate::component::{Component, InputStates, PortType, StateChange};
use crate::edge::{port_connected, port_subnet, Edge, EdgeDirection};
use crate::edge::edges_distinct;
use crate::idmap::{kv_map, lemma_kv_dom, lemma_kv_index, lemma_kv_update, IdMap};
use crate::subnet::{resolve_seq, Subnet, SubnetState};
use vstd::pervasive::VecAdditionalExecFns;
use vstd::prelude::*;

verus! {

/// No element of the sequence occurs twice.
pub open spec fn seq_distinct<T>(s: Seq<T>) -> bool {
    forall|i: int, j: int| 0 <= i < j < s.len() ==> s[i] != s[j]
}

/// Membership after a push: the pushed element, and everything already
/// present.
pub proof fn lemma_push_contains<T>(s: Seq<T>, x: T, y: T)
    ensures
        s.push(x).contains(y) <==> s.contains(y) || y == x,
{
    if s.push(x).contains(y) {
        let i = choose|i: int| 0 <= i < s.push(x).len() && s.push(x)[i] == y;
        if i < s.len() {
            assert(s[i] == y);
        }
    }
    if s.contains(y) {
        let i = choose|i: int| 0 <= i < s.len() && s[i] == y;
        assert(s.push(x)[i] == y);
    }
    assert(s.push(x)[s.len() as int] == x);
}

/// Membership after removing one index from a duplicate-free sequence:
/// everything but the removed element.
pub proof fn lemma_remove_contains<T>(s: Seq<T>, i: int, y: T)
    requires
        0 <= i < s.len(),
        seq_distinct(s),
    ensures
        s.remove(i).contains(y) <==> s.contains(y) && y != s[i],
{
    let r = s.remove(i);
    if r.contains(y) {
        let j = choose|j: int| 0 <= j < r.len() && r[j] == y;
        if j < i {
            assert(s[j] == y);
        } else {
            assert(s[j + 1] == y);
        }
    }
    if s.contains(y) && y != s[i] {
        let j = choose|j: int| 0 <= j < s.len() && s[j] == y;
        if j < i {
            assert(r[j] == y);
        } else {
            assert(j > i);
            assert(r[j - 1] == y);
        }
    }
}

/// Whether a vector holds the given id.
fn vec_contains_i32(v: &Vec<i32>, x: i32) -> (r: bool)
    ensures
        r == v@.contains(x),
{
    let mut i: usize = 0;
    while i < v.len()
        invariant
            i <= v@.len(),
            forall|j: int| 0 <= j < i ==> v@[j] != x,
        decreases v@.len() - i,
    {
        if v[i] == x {
            proof {
                assert(v@.contains(x));
            }
            return true;
        }
        i = i + 1;
    }
    false
}

/// Whether a vector holds the given state.
fn vec_contains_state(v: &Vec<SubnetState>, x: SubnetState) -> (r: bool)
    ensures
        r == v@.contains(x),
{
    let mut i: usize = 0;
    while i < v.len()
        invariant
            i <= v@.len(),
            forall|j: int| 0 <= j < i ==> v@[j] != x,
        decreases v@.len() - i,
    {
        if v[i] == x {
            proof {
                assert(v@.contains(x));
            }
            return true;
        }
        i = i + 1;
    }
    false
}

/// Whether a component other than the given one still drives the subnet.
fn has_standing_driver(edges: &Vec<Edge>, other_than: i32, n: i32) -> (r: bool)
    ensures
        r == standing_driver(edges@, other_than, n),
{
    let mut i: usize = 0;
    while i < edges.len()
        invariant
            i <= edges@.len(),
            forall|j: int|
                0 <= j < i ==> !(edges@[j].subnet == n && edges@[j].direction
                    != EdgeDirection::ToComponent && edges@[j].component != other_than),
        decreases edges@.len() - i,
    {
        let e = edges[i];
        let drives = match e.direction {
            EdgeDirection::ToComponent => false,
            _ => true,
        };
        if e.subnet == n && drives && e.component != other_than {
            return true;
        }
        i = i + 1;
    }
    false
}

/// Whether a component outside the evaluated set still drives the subnet.
fn has_standing_driver_except(edges: &Vec<Edge>, evaluated: &Vec<i32>, n: i32) -> (r: bool)
    ensures
        r == (exists|i: int|
            0 <= i < edges@.len() && edges@[i].subnet == n && edges@[i].direction
                != EdgeDirection::ToComponent && !evaluated@.contains(edges@[i].component)),
{
    let mut i: usize = 0;
    while i < edges.len()
        invariant
            i <= edges@.len(),
            forall|j: int|
                0 <= j < i ==> !(edges@[j].subnet == n && edges@[j].direction
                    != EdgeDirection::ToComponent && !evaluated@.contains(edges@[j].component)),
        decreases edges@.len() - i,
    {
        let e = edges[i];
        let drives = match e.direction {
            EdgeDirection::ToComponent => false,
            _ => true,
        };
        if e.subnet == n && drives && !vec_contains_i32(evaluated, e.component) {
            return true;
        }
        i = i + 1;
    }
    false
}

/// The proposals gathered for a round, per subnet: which values the
/// evaluated components want each subnet to take.
pub struct StateDiff {
    pub nets: Vec<i32>,
    pub buckets: Vec<Vec<SubnetState>>,
}

impl View for StateDiff {
    type V = Map<i32, Seq<SubnetState>>;

    open spec fn view(&self) -> Map<i32, Seq<SubnetState>> {
        kv_map(self.nets@, self.buckets@.map_values(|b: Vec<SubnetState>| b@))
    }
}

/// Merging one proposal into the gathered diff: open a bucket for a new
/// subnet, or extend its bucket with a value not yet proposed.
pub open spec fn diff_add(
    m: Map<i32, Seq<SubnetState>>,
    subnet: i32,
    state: SubnetState,
) -> Map<i32, Seq<SubnetState>> {
    if m.contains_key(subnet) {
        if m[subnet].contains(state) {
            m
        } else {
            m.insert(subnet, m[subnet].push(state))
        }
    } else {
        m.insert(subnet, seq![state])
    }
}

impl StateDiff {
    /// Subnet uniqueness and alignment of the two vectors.
    pub open spec fn wf(&self) -> bool {
        &&& self.nets@.len() == self.buckets@.len()
        &&& forall|a: int, b: int| 0 <= a < b < self.nets@.len() ==> self.nets@[a] != self.nets@[b]
    }

    pub open spec fn spec_len(&self) -> nat {
        self.nets@.len()
    }

    pub fn new() -> (r: Self)
        ensures
            r.wf(),
            r@ == Map::<i32, Seq<SubnetState>>::empty(),
            r.spec_len() == 0,
    {
        StateDiff { nets: Vec::new(), buckets: Vec::new() }
    }

    /// Records that some component proposes `state` for `subnet`.
    pub fn add_proposal(&mut self, subnet: i32, state: SubnetState)
        requires
            old(self).wf(),
        ensures
            final(self).wf(),
            final(self)@ == diff_add(old(self)@, subnet, state),
            forall|n: i32|
                final(self)@.contains_key(n) <==> old(self)@.contains_key(n) || n == subnet,
            old(self)@.contains_key(subnet) ==> final(self).nets@ == old(self).nets@,
    {
        proof {
            lemma_kv_dom(self.nets@, self.buckets@.map_values(|b: Vec<SubnetState>| b@));
        }
        let mut i: usize = 0;
        while i < self.nets.len()
            invariant
                i <= self.nets@.len(),
                forall|j: int| 0 <= j < i ==> self.nets@[j] != subnet,
                self == old(self),
                self.wf(),
            decreases self.nets@.len() - i,
        {
            if self.nets[i] == subnet {
                proof {
                    assert(self.nets@.contains(subnet));
                    lemma_kv_index(
                        self.nets@,
                        self.buckets@.map_values(|b: Vec<SubnetState>| b@),
                        i as int,
                    );
                }
                let mut b: Vec<SubnetState> = Vec::new();
                self.buckets.set_and_swap(i, &mut b);
                if !vec_contains_state(&b, state) {
                    b.push(state);
                }
                self.buckets.set_and_swap(i, &mut b);
                proof {
                    let vals0 = old(self).buckets@.map_values(|b: Vec<SubnetState>| b@);
                    let newb = if old(self)@[subnet].contains(state) {
                        old(self)@[subnet]
                    } else {
                        old(self)@[subnet].push(state)
                    };
                    assert(self.buckets@.map_values(|b: Vec<SubnetState>| b@) =~= vals0.update(
                        i as int,
                        newb,
                    ));
                    lemma_kv_update(old(self).nets@, vals0, i as int, newb);
                    assert(self@ =~= diff_add(old(self)@, subnet, state));
                    lemma_kv_dom(
                        self.nets@,
                        self.buckets@.map_values(|b: Vec<SubnetState>| b@),
                    );
                }
                return ;
            }
            i = i + 1;
        }
        self.nets.push(subnet);
        let mut b: Vec<SubnetState> = Vec::new();
        b.push(state);
        self.buckets.push(b);
        proof {
            let vals1 = self.buckets@.map_values(|bb: Vec<SubnetState>| bb@);
            let vals0 = old(self).buckets@.map_values(|bb: Vec<SubnetState>| bb@);
            assert(self.nets@.drop_last() =~= old(self).nets@);
            assert(vals1.drop_last() =~= vals0);
            assert(vals1.last() =~= seq![state]);
            assert(self@ =~= diff_add(old(self)@, subnet, state));
            lemma_kv_dom(self.nets@, vals1);
        }
    }

    pub fn len(&self) -> (n: usize)
        ensures
            n == self.spec_len(),
    {
        self.nets.len()
    }
}

/// With distinct subnets, the bucket at an index is what the diff maps its
/// subnet to.
pub proof fn lemma_diff_index(d: StateDiff, i: int)
    requires
        d.wf(),
        0 <= i < d.nets@.len(),
    ensures
        d@.contains_key(d.nets@[i]),
        d@[d.nets@[i]] == d.buckets@[i]@,
{
    lemma_kv_index(d.nets@, d.buckets@.map_values(|b: Vec<SubnetState>| b@), i);
}

/// The wave queue after one subnet is marked dirty: the front wave gains
/// the subnet (a fresh wave is opened when none is pending).
pub open spec fn dirty_add(d: Seq<Seq<i32>>, subnet: i32) -> Seq<Seq<i32>> {
    let d1 = if d.len() == 0 {
        seq![Seq::<i32>::empty()]
    } else {
        d
    };
    if d1[0].contains(subnet) {
        d1
    } else {
        d1.update(0, d1[0].push(subnet))
    }
}

/// The change a connected input port sees: its subnet's current value, and
/// the value that subnet had before the round being processed (its current
/// value again if it did not change).
pub open spec fn input_change(
    edges: Seq<Edge>,
    component: i32,
    p: usize,
    old_state: Map<i32, SubnetState>,
    subnets: Map<i32, Subnet>,
) -> StateChange {
    let s = port_subnet(edges, component, p);
    let cur = subnets[s].state;
    let prev = if old_state.contains_key(s) {
        old_state[s]
    } else {
        cur
    };
    StateChange { previous: prev, current: cur }
}

/// Whether a port takes part in the input snapshot: it is an input (or
/// bidirectional) port and a subnet is attached to it.
pub open spec fn input_port(edges: Seq<Edge>, component: i32, comp: Component, p: usize) -> bool {
    match comp.spec_port_type(p) {
        Some(t) => t != PortType::Output && port_connected(edges, component, p),
        None => false,
    }
}

/// The input snapshot a component is evaluated against: one entry for every
/// connected non-output port.
pub open spec fn sim_inputs(
    edges: Seq<Edge>,
    component: i32,
    comp: Component,
    old_state: Map<i32, SubnetState>,
    subnets: Map<i32, Subnet>,
) -> Map<usize, StateChange> {
    Map::new(
        |p: usize| input_port(edges, component, comp, p),
        |p: usize| input_change(edges, component, p, old_state, subnets),
    )
}

/// The proposals one component's outputs make, walked left to right: each
/// output port that is wired to a subnet proposes its value there.
pub open spec fn sim_diff_upto(
    outputs: Seq<(usize, SubnetState)>,
    edges: Seq<Edge>,
    component: i32,
    comp: Component,
    n: int,
) -> Map<i32, Seq<SubnetState>>
    decreases n,
{
    if n <= 0 {
        Map::empty()
    } else {
        let m = sim_diff_upto(outputs, edges, component, comp, n - 1);
        let p = outputs[n - 1].0;
        let v = outputs[n - 1].1;
        if comp.spec_port_type(p) == Some(PortType::Output) && port_connected(edges, component, p) {
            diff_add(m, port_subnet(edges, component, p), v)
        } else {
            m
        }
    }
}

/// The proposals one component's evaluation makes for its wired subnets.
pub open spec fn sim_diff(
    outputs: Seq<(usize, SubnetState)>,
    edges: Seq<Edge>,
    component: i32,
    comp: Component,
) -> Map<i32, Seq<SubnetState>> {
    sim_diff_upto(outputs, edges, component, comp, outputs.len() as int)
}

/// Whether applying a diff actually moves the given subnet's value.
pub open spec fn net_changed(
    diff: Map<i32, Seq<SubnetState>>,
    subnets: Map<i32, Subnet>,
    n: i32,
) -> bool {
    diff.contains_key(n) && subnets.contains_key(n) && resolve_seq(diff[n]) != subnets[n].state
}

/// Every edge points at a subnet that exists.
pub open spec fn edges_subnets_live(edges: Seq<Edge>, subnets: Map<i32, Subnet>) -> bool {
    forall|i: int| 0 <= i < edges.len() ==> subnets.contains_key(#[trigger] edges[i].subnet)
}

/// Every edge points at a component that exists.
pub open spec fn edges_components_live(edges: Seq<Edge>, components: Map<i32, Component>) -> bool {
    forall|i: int| 0 <= i < edges.len() ==> components.contains_key(#[trigger] edges[i].component)
}

/// The same components exist and none has changed kind (only latches may
/// differ): settling evaluates components, it never rebuilds the network.
pub open spec fn same_shape(m0: Map<i32, Component>, m1: Map<i32, Component>) -> bool {
    &&& forall|c: i32| m1.contains_key(c) <==> m0.contains_key(c)
    &&& forall|c: i32| #[trigger] m0.contains_key(c) ==> m1[c].spec_kind() == m0[c].spec_kind()
}

/// Whether some component other than `c` still drives the subnet: an
/// output or bidirectional edge of another component is attached to it.
pub open spec fn standing_driver(edges: Seq<Edge>, c: i32, n: i32) -> bool {
    exists|i: int|
        0 <= i < edges.len() && edges[i].subnet == n && edges[i].direction
            != EdgeDirection::ToComponent && edges[i].component != c
}

/// A round's proposals with standing drives folded in: a subnet that keeps
/// an output edge from a component outside the round contributes its
/// present value, so a drive that was not re-evaluated is not forgotten
/// (two live drivers that disagree surface as `Error`).
pub open spec fn with_standing_drives(
    m: Map<i32, Seq<SubnetState>>,
    edges: Seq<Edge>,
    c: i32,
    subnets: Map<i32, Subnet>,
) -> Map<i32, Seq<SubnetState>> {
    Map::new(
        |n: i32| m.contains_key(n),
        |n: i32|
            if standing_driver(edges, c, n) && !m[n].contains(subnets[n].state) {
                m[n].push(subnets[n].state)
            } else {
                m[n]
            },
    )
}

/// The standing drives folded in for the first `i` subnets of the diff's
/// walk only.
pub open spec fn augment_upto(
    m: Map<i32, Seq<SubnetState>>,
    nets: Seq<i32>,
    edges: Seq<Edge>,
    c: i32,
    subnets: Map<i32, Subnet>,
    i: int,
) -> Map<i32, Seq<SubnetState>> {
    Map::new(
        |n: i32| m.contains_key(n),
        |n: i32|
            if (exists|j: int| 0 <= j < i && nets[j] == n) && standing_driver(edges, c, n) && !m[
                n
            ].contains(subnets[n].state) {
                m[n].push(subnets[n].state)
            } else {
                m[n]
            },
    )
}

/// A component never proposes an empty bucket: every subnet it targets
/// receives at least one value.
pub proof fn lemma_sim_diff_nonempty(
    outputs: Seq<(usize, SubnetState)>,
    edges: Seq<Edge>,
    component: i32,
    comp: Component,
    n: int,
    k: i32,
)
    requires
        sim_diff_upto(outputs, edges, component, comp, n).contains_key(k),
    ensures
        sim_diff_upto(outputs, edges, component, comp, n)[k].len() > 0,
    decreases n,
{
    if n > 0 {
        let m = sim_diff_upto(outputs, edges, component, comp, n - 1);
        if m.contains_key(k) {
            lemma_sim_diff_nonempty(outputs, edges, component, comp, n - 1, k);
        }
    }
}

/// The set of subnets a wave holds (waves carry each subnet at most once,
/// so only membership matters to the semantics).
pub open spec fn wave_set(s: Seq<i32>) -> Set<i32> {
    Set::new(|x: i32| s.contains(x))
}

/// The components one wave wakes: those that read, through an input or
/// bidirectional port, a subnet belonging to the wave.
pub open spec fn fanout(edges: Seq<Edge>, wave: Set<i32>) -> Set<i32> {
    Set::new(
        |c: i32|
            exists|i: int|
                0 <= i < edges.len() && edges[i].component == c && wave.contains(edges[i].subnet)
                    && edges[i].direction != EdgeDirection::ToSubnet,
    )
}

/// The proposals one component's evaluation makes, as a function of the
/// network state at the start of the round.
pub open spec fn comp_diff(
    edges: Seq<Edge>,
    c: i32,
    components: Map<i32, Component>,
    old_state: Map<i32, SubnetState>,
    subnets: Map<i32, Subnet>,
) -> Map<i32, Seq<SubnetState>> {
    sim_diff(
        components[c].spec_outputs(sim_inputs(edges, c, components[c], old_state, subnets)),
        edges,
        c,
        components[c],
    )
}

/// Whether one of the first `m` evaluated components proposes for `n`.
pub open spec fn merged_contains(
    edges: Seq<Edge>,
    sims: Seq<i32>,
    m: int,
    components: Map<i32, Component>,
    old_state: Map<i32, SubnetState>,
    subnets: Map<i32, Subnet>,
    n: i32,
) -> bool {
    exists|j: int|
        0 <= j < m && comp_diff(edges, sims[j], components, old_state, subnets).contains_key(n)
}

/// Whether one of the first `m` evaluated components proposes `v` for `n`.
pub open spec fn merged_value(
    edges: Seq<Edge>,
    sims: Seq<i32>,
    m: int,
    components: Map<i32, Component>,
    old_state: Map<i32, SubnetState>,
    subnets: Map<i32, Subnet>,
    n: i32,
    v: SubnetState,
) -> bool {
    exists|j: int|
        0 <= j < m && comp_diff(edges, sims[j], components, old_state, subnets).contains_key(n)
            && comp_diff(edges, sims[j], components, old_state, subnets)[n].contains(v)
}

/// Whether any component of the wave's fan-out proposes a value for `n`.
pub open spec fn wave_proposes(
    edges: Seq<Edge>,
    wave: Set<i32>,
    components: Map<i32, Component>,
    old_state: Map<i32, SubnetState>,
    subnets: Map<i32, Subnet>,
    n: i32,
) -> bool {
    exists|c: i32|
        #[trigger] fanout(edges, wave).contains(c) && comp_diff(
            edges,
            c,
            components,
            old_state,
            subnets,
        ).contains_key(n)
}

/// A drive on `n` from outside the wave's fan-out still stands.
pub open spec fn standing_outside_fanout(edges: Seq<Edge>, wave: Set<i32>, n: i32) -> bool {
    exists|i: int|
        0 <= i < edges.len() && edges[i].subnet == n && edges[i].direction
            != EdgeDirection::ToComponent && !fanout(edges, wave).contains(edges[i].component)
}

/// The set of values in play for `n` this round: everything the fan-out
/// proposes, and the subnet's present value where a drive from outside the
/// fan-out still stands.
pub open spec fn wave_proposals(
    edges: Seq<Edge>,
    wave: Set<i32>,
    components: Map<i32, Component>,
    old_state: Map<i32, SubnetState>,
    subnets: Map<i32, Subnet>,
    n: i32,
) -> Set<SubnetState> {
    Set::new(
        |v: SubnetState|
            (exists|c: i32|
                #[trigger] fanout(edges, wave).contains(c) && comp_diff(
                    edges,
                    c,
                    components,
                    old_state,
                    subnets,
                ).contains_key(n) && comp_diff(edges, c, components, old_state, subnets)[
                    n
                ].contains(v)) || (v == subnets[n].state && standing_outside_fanout(
                edges,
                wave,
                n,
            )),
    )
}

/// The value a subnet holds once the wave is applied: the conflict rule
/// over the values in play where anything was proposed, its old value
/// otherwise.
pub open spec fn wave_value(
    edges: Seq<Edge>,
    wave: Set<i32>,
    components: Map<i32, Component>,
    old_state: Map<i32, SubnetState>,
    subnets: Map<i32, Subnet>,
    n: i32,
) -> SubnetState {
    if wave_proposes(edges, wave, components, old_state, subnets, n) {
        crate::subnet::resolve_set(wave_proposals(edges, wave, components, old_state, subnets, n))
    } else {
        subnets[n].state
    }
}

/// A component that only drives: every edge it has carries data towards a
/// subnet, so no wave ever re-evaluates it.
pub open spec fn pure_driver(edges: Seq<Edge>, c: i32) -> bool {
    forall|i: int|
        0 <= i < edges.len() && (#[trigger] edges[i]).component == c ==> edges[i].direction
            == EdgeDirection::ToSubnet
}

/// Whether applying the wave actually moves the given subnet's value.
pub open spec fn wave_changed(
    edges: Seq<Edge>,
    wave: Set<i32>,
    components: Map<i32, Component>,
    old_state: Map<i32, SubnetState>,
    subnets: Map<i32, Subnet>,
    n: i32,
) -> bool {
    subnets.contains_key(n) && wave_proposes(edges, wave, components, old_state, subnets, n)
        && wave_value(edges, wave, components, old_state, subnets, n) != subnets[n].state
}

/// The component store once the wave is applied: every fan-out member has
/// evaluated exactly once against the start-of-round snapshot.
pub open spec fn wave_components(
    edges: Seq<Edge>,
    wave: Set<i32>,
    components: Map<i32, Component>,
    old_state: Map<i32, SubnetState>,
    subnets: Map<i32, Subnet>,
) -> Map<i32, Component> {
    Map::new(
        |c: i32| components.contains_key(c),
        |c: i32|
            if fanout(edges, wave).contains(c) {
                components[c].spec_next(sim_inputs(edges, c, components[c], old_state, subnets))
            } else {
                components[c]
            },
    )
}

/// The engine's semantic state: everything one settling round reads and
/// writes, with waves abstracted to the sets of subnets they hold (a wave
/// carries each subnet at most once, so only membership matters).
pub struct EngineState {
    pub components: Map<i32, Component>,
    pub subnets: Map<i32, Subnet>,
    pub changed: Map<i32, SubnetState>,
    pub dirty: Seq<Set<i32>>,
}

/// The wave queue as a sequence of subnet sets.
pub open spec fn dirty_sets(sim: Simulator) -> Seq<Set<i32>> {
    sim.dirty_view().map_values(|w: Seq<i32>| wave_set(w))
}

/// The semantic state held jointly by the engine and the two stores.
pub open spec fn engine_state(
    sim: Simulator,
    components: IdMap<Component>,
    subnets: IdMap<Subnet>,
) -> EngineState {
    EngineState {
        components: components@,
        subnets: subnets@,
        changed: sim.changed_subnets@,
        dirty: dirty_sets(sim),
    }
}

/// One wave of settling as a state transition: pop the front wave,
/// evaluate its fan-out against the recorded previous values, resolve the
/// values in play for each proposed subnet, apply them, and open or extend
/// the next wave with the subnets that moved.
pub open spec fn spec_advance(edges: Seq<Edge>, s: EngineState) -> EngineState {
    if s.dirty.len() == 0 {
        s
    } else {
        let wave = s.dirty[0];
        let moved = Set::new(
            |n: i32| wave_changed(edges, wave, s.components, s.changed, s.subnets, n),
        );
        let rest = s.dirty.drop_first();
        EngineState {
            components: wave_components(edges, wave, s.components, s.changed, s.subnets),
            subnets: Map::new(
                |n: i32| s.subnets.contains_key(n),
                |n: i32|
                    Subnet {
                        state: wave_value(edges, wave, s.components, s.changed, s.subnets, n),
                    },
            ),
            changed: Map::new(
                |n: i32| wave_changed(edges, wave, s.components, s.changed, s.subnets, n),
                |n: i32| s.subnets[n].state,
            ),
            dirty: if forall|n: i32|
                !wave_changed(edges, wave, s.components, s.changed, s.subnets, n) {
                rest
            } else if rest.len() == 0 {
                seq![moved]
            } else {
                rest.update(0, rest[0].union(moved))
            },
        }
    }
}

/// Settling as iterated waves; the engine's bounded-effort loop performs
/// exactly this many rounds.
pub open spec fn spec_settle(edges: Seq<Edge>, s: EngineState, rounds: nat) -> EngineState
    decreases rounds,
{
    if rounds == 0 {
        s
    } else {
        spec_settle(edges, spec_advance(edges, s), (rounds - 1) as nat)
    }
}

/// Law: one more settling round is one more wave applied at the end.
pub proof fn lemma_settle_step(edges: Seq<Edge>, s: EngineState, rounds: nat)
    ensures
        spec_settle(edges, s, rounds + 1) == spec_advance(edges, spec_settle(edges, s, rounds)),
    decreases rounds,
{
    if rounds == 0 {
        assert(spec_settle(edges, s, 1) == spec_settle(edges, spec_advance(edges, s), 0));
        assert(spec_settle(edges, spec_advance(edges, s), 0) == spec_advance(edges, s));
    } else {
        lemma_settle_step(edges, spec_advance(edges, s), (rounds - 1) as nat);
        assert(spec_settle(edges, s, rounds + 1) == spec_settle(
            edges,
            spec_advance(edges, s),
            rounds,
        ));
        assert(spec_settle(edges, s, rounds) == spec_settle(
            edges,
            spec_advance(edges, s),
            (rounds - 1) as nat,
        ));
    }
}

/// Force-evaluating one component as a state transition: the change record
/// is consumed as the evaluation's snapshot of previous values and rebuilt
/// from what this round moves.
pub open spec fn spec_react(edges: Seq<Edge>, s: EngineState, c: i32) -> EngineState {
    let inputs = sim_inputs(edges, c, s.components[c], s.changed, s.subnets);
    let d = with_standing_drives(
        sim_diff(s.components[c].spec_outputs(inputs), edges, c, s.components[c]),
        edges,
        c,
        s.subnets,
    );
    let moved = Set::new(|n: i32| net_changed(d, s.subnets, n));
    EngineState {
        components: s.components.insert(c, s.components[c].spec_next(inputs)),
        subnets: Map::new(
            |n: i32| s.subnets.contains_key(n),
            |n: i32|
                if d.contains_key(n) {
                    Subnet { state: resolve_seq(d[n]) }
                } else {
                    s.subnets[n]
                },
        ),
        changed: changed_map(d, s.subnets),
        dirty: if forall|n: i32| !net_changed(d, s.subnets, n) {
            s.dirty
        } else if s.dirty.len() == 0 {
            seq![moved]
        } else {
            s.dirty.update(0, s.dirty[0].union(moved))
        },
    }
}

/// Marking one subnet dirty as a state transition: the front wave gains it
/// (a fresh wave opens when none is pending).
pub open spec fn spec_mark(s: EngineState, n: i32) -> EngineState {
    let d1 = if s.dirty.len() == 0 {
        seq![Set::<i32>::empty()]
    } else {
        s.dirty
    };
    EngineState {
        components: s.components,
        subnets: s.subnets,
        changed: s.changed,
        dirty: d1.update(0, d1[0].insert(n)),
    }
}

/// Marking a set of subnets dirty at once; with none to mark the queue is
/// not even opened.
pub open spec fn mark_waves(d: Seq<Set<i32>>, ns: Set<i32>) -> Seq<Set<i32>> {
    if forall|n: i32| !ns.contains(n) {
        d
    } else {
        let d1 = if d.len() == 0 {
            seq![Set::<i32>::empty()]
        } else {
            d
        };
        d1.update(0, d1[0].union(ns))
    }
}

/// Marking a set of subnets dirty as a state transition.
pub open spec fn spec_mark_all(s: EngineState, ns: Set<i32>) -> EngineState {
    EngineState {
        components: s.components,
        subnets: s.subnets,
        changed: s.changed,
        dirty: mark_waves(s.dirty, ns),
    }
}

/// Marking one more subnet dirty extends the marked set: the wave queues
/// agree once the new subnet joins the set.
pub proof fn lemma_mark_more(
    d0: Seq<Set<i32>>,
    sim_prev: Simulator,
    sim_new: Simulator,
    ns: Set<i32>,
    n: i32,
)
    requires
        dirty_sets(sim_prev) == mark_waves(d0, ns),
        sim_new.dirty_view() == dirty_add(sim_prev.dirty_view(), n),
    ensures
        dirty_sets(sim_new) == mark_waves(d0, ns.insert(n)),
{
    let prev = sim_prev.dirty_view();
    let d1v = if prev.len() == 0 {
        seq![Seq::<i32>::empty()]
    } else {
        prev
    };
    let target = mark_waves(d0, ns.insert(n));
    assert(ns.insert(n).contains(n));
    let base = if d0.len() == 0 {
        seq![Set::<i32>::empty()]
    } else {
        d0
    };
    assert(target == base.update(0, base[0].union(ns.insert(n))));
    assert(dirty_sets(sim_prev).len() == prev.len());
    assert(dirty_sets(sim_new).len() == sim_new.dirty_view().len());
    if forall|m: i32| !ns.contains(m) {
        assert(mark_waves(d0, ns) == d0);
        assert(prev.len() == d0.len());
    } else {
        assert(mark_waves(d0, ns) == base.update(0, base[0].union(ns)));
        assert(prev.len() == base.len());
        assert(prev.len() > 0);
    }
    assert(dirty_sets(sim_new).len() == target.len()) by {
        if prev.len() == 0 {
            assert(sim_new.dirty_view().len() == 1);
            assert(d0.len() == 0);
        } else {
            assert(sim_new.dirty_view().len() == prev.len());
        }
    }
    assert forall|w: int| 0 <= w < target.len() implies dirty_sets(sim_new)[w] =~= target[w] by {
        if w == 0 {
            assert forall|x: i32|
                #[trigger] dirty_sets(sim_new)[0].contains(x) <==> target[0].contains(x) by {
                let lhs_seq = sim_new.dirty_view()[0];
                assert(dirty_sets(sim_new)[0] == wave_set(lhs_seq));
                if d1v[0].contains(n) {
                    assert(lhs_seq == d1v[0]);
                    assert(lhs_seq.contains(x) <==> d1v[0].contains(x) || x == n);
                } else {
                    assert(lhs_seq == d1v[0].push(n));
                    lemma_push_contains(d1v[0], n, x);
                    assert(lhs_seq.contains(x) <==> d1v[0].contains(x) || x == n);
                }
                assert(d1v[0].contains(x) <==> base[0].contains(x) || ns.contains(x)) by {
                    if prev.len() == 0 {
                        assert(!d1v[0].contains(x));
                        assert(dirty_sets(sim_prev).len() == 0);
                        assert(mark_waves(d0, ns).len() == 0);
                        assert(forall|m: i32| !ns.contains(m));
                        assert(d0.len() == 0);
                        assert(base[0] =~= Set::<i32>::empty());
                        assert(!base[0].contains(x) && !ns.contains(x));
                    } else {
                        assert(d1v[0] == prev[0]);
                        assert(dirty_sets(sim_prev)[0] == wave_set(prev[0]));
                        assert(wave_set(prev[0]).contains(x) == prev[0].contains(x));
                        if forall|m: i32| !ns.contains(m) {
                            assert(dirty_sets(sim_prev) == d0);
                            assert(d0.len() > 0);
                            assert(base == d0);
                            assert(dirty_sets(sim_prev)[0] == base[0]);
                        } else {
                            assert(dirty_sets(sim_prev) == base.update(0, base[0].union(ns)));
                            assert(dirty_sets(sim_prev)[0] == base[0].union(ns));
                        }
                    }
                }
                assert(target[0] == base[0].union(ns.insert(n)));
                assert(target[0].contains(x) <==> base[0].contains(x) || ns.contains(x) || x
                    == n);
            }
        } else {
            assert(dirty_sets(sim_new)[w] == wave_set(sim_new.dirty_view()[w]));
            assert(sim_new.dirty_view()[w] == d1v[w]);
            if prev.len() == 0 {
                assert(sim_new.dirty_view().len() == 1);
                assert(false);
            } else {
                assert(d1v[w] == prev[w]);
                assert(dirty_sets(sim_prev)[w] == wave_set(prev[w]));
                if forall|m: i32| !ns.contains(m) {
                    assert(dirty_sets(sim_prev) == d0);
                    assert(base == d0);
                    assert(dirty_sets(sim_prev)[w] == d0[w]);
                    assert(target[w] == base[w]);
                } else {
                    assert(dirty_sets(sim_prev) == base.update(0, base[0].union(ns)));
                    assert(dirty_sets(sim_prev)[w] == base[w]);
                    assert(target[w] == base[w]);
                }
            }
        }
    }
    assert(dirty_sets(sim_new) =~~= target);
}

/// Force-evaluating the first `i` registered clocks in order, skipping ids
/// that are no longer live components.
pub open spec fn spec_tick_clocks(
    edges: Seq<Edge>,
    s: EngineState,
    clocks: Seq<i32>,
    i: int,
) -> EngineState
    decreases i,
{
    if i <= 0 {
        s
    } else {
        let s1 = spec_tick_clocks(edges, s, clocks, i - 1);
        if s1.components.contains_key(clocks[i - 1]) {
            spec_react(edges, s1, clocks[i - 1])
        } else {
            s1
        }
    }
}

/// The record of previous values for the subnets a diff actually moves.
pub open spec fn changed_map(
    diff: Map<i32, Seq<SubnetState>>,
    subnets: Map<i32, Subnet>,
) -> Map<i32, SubnetState> {
    Map::new(|n: i32| net_changed(diff, subnets, n), |n: i32| subnets[n].state)
}

/// The same record restricted to the first `i` subnets of the diff's walk.
pub open spec fn changed_map_upto(
    nets: Seq<i32>,
    diff: Map<i32, Seq<SubnetState>>,
    subnets: Map<i32, Subnet>,
    i: int,
) -> Map<i32, SubnetState> {
    Map::new(
        |n: i32| (exists|j: int| 0 <= j < i && nets[j] == n) && net_changed(diff, subnets, n),
        |n: i32| subnets[n].state,
    )
}

/// The event loop state: the waves of subnets still to propagate, and for
/// subnets changed while the current wave was assembled, their value before
/// the change.
pub struct Simulator {
    pub dirty_subnets: Vec<Vec<i32>>,
    pub changed_subnets: IdMap<SubnetState>,
}

impl Simulator {
    /// The queue as a sequence of waves of subnet ids.
    pub open spec fn dirty_view(&self) -> Seq<Seq<i32>> {
        self.dirty_subnets@.map_values(|w: Vec<i32>| w@)
    }

    /// No wave repeats a subnet, and the change record is a map.
    pub open spec fn wf(&self) -> bool {
        &&& self.changed_subnets.wf()
        &&& forall|w: int|
            0 <= w < self.dirty_subnets@.len() ==> seq_distinct(#[trigger] self.dirty_subnets@[w]@)
    }

    /// Nothing is pending: settling is a no-op in this state.
    pub open spec fn dirty_empty(&self) -> bool {
        self.dirty_subnets@.len() == 0
    }

    pub fn new() -> (r: Self)
        ensures
            r.wf(),
            r.dirty_empty(),
            r.changed_subnets@ == Map::<i32, SubnetState>::empty(),
            r.dirty_view() == Seq::<Seq<i32>>::empty(),
    {
        let r = Simulator { dirty_subnets: Vec::new(), changed_subnets: IdMap::new() };
        proof {
            assert(r.dirty_view() =~= Seq::<Seq<i32>>::empty());
        }
        r
    }

    /// Forces a subnet into the current wave without changing its value.
    pub fn dirty_subnet(&mut self, subnet: i32)
        requires
            old(self).wf(),
        ensures
            final(self).wf(),
            final(self).dirty_view() == dirty_add(old(self).dirty_view(), subnet),
            final(self).changed_subnets == old(self).changed_subnets,
    {
        if self.dirty_subnets.len() == 0 {
            let w: Vec<i32> = Vec::new();
            self.dirty_subnets.push(w);
            proof {
                assert(self.dirty_view() =~= seq![Seq::<i32>::empty()]);
            }
        }
        let ghost d1 = self.dirty_view();
        let mut w = self.dirty_subnets.remove(0);
        if !vec_contains_i32(&w, subnet) {
            w.push(subnet);
        }
        self.dirty_subnets.insert(0, w);
        proof {
            if d1[0].contains(subnet) {
                assert(self.dirty_view() =~= d1);
            } else {
                assert(self.dirty_view() =~= d1.update(0, d1[0].push(subnet)));
            }
            assert(self.dirty_view() =~= dirty_add(old(self).dirty_view(), subnet));
        }
    }

    /// Assigns a subnet's value; if the value actually changed, the subnet
    /// joins the current wave and its previous value is recorded.
    pub fn update_subnet(&mut self, subnet: i32, state: SubnetState, subnets: &mut IdMap<Subnet>)
        requires
            old(self).wf(),
            old(subnets).wf(),
            old(subnets)@.contains_key(subnet),
        ensures
            final(self).wf(),
            final(subnets).wf(),
            final(subnets)@ == old(subnets)@.insert(subnet, Subnet { state }),
            old(subnets)@[subnet].state != state ==> {
                &&& final(self).dirty_view() == dirty_add(old(self).dirty_view(), subnet)
                &&& final(self).changed_subnets@ == old(self).changed_subnets@.insert(
                    subnet,
                    old(subnets)@[subnet].state,
                )
            },
            old(subnets)@[subnet].state == state ==> {
                &&& *final(self) == *old(self)
                &&& final(subnets)@ == old(subnets)@
            },
    {
        let mut sub = match subnets.get(subnet) {
            Some(s) => s,
            None => Subnet::new(),
        };
        let old_val = sub.val();
        let ch = sub.update(state);
        subnets.insert(subnet, sub);
        proof {
            if old(subnets)@[subnet].state == state {
                assert(final(subnets)@ =~= old(subnets)@);
            }
        }
        if ch {
            self.dirty_subnet(subnet);
            self.changed_subnets.insert(subnet, old_val);
        }
    }

    /// Evaluates one component against the given snapshot of previous
    /// subnet values and gathers the proposals its outputs make.  The
    /// component's latch advances exactly as its evaluation law says.
    pub fn simulate(
        &self,
        component: i32,
        old_state: &IdMap<SubnetState>,
        components: &mut IdMap<Component>,
        subnets: &IdMap<Subnet>,
        edges: &Vec<Edge>,
    ) -> (r: StateDiff)
        requires
            old(components).wf(),
            subnets.wf(),
            old_state.wf(),
            old(components)@.contains_key(component),
            edges_distinct(edges@),
            forall|i: int|
                0 <= i < edges@.len() ==> subnets@.contains_key(#[trigger] edges@[i].subnet),
        ensures
            final(components).wf(),
            final(components).spec_len() == old(components).spec_len(),
            final(components)@ == old(components)@.insert(
                component,
                old(components)@[component].spec_next(
                    sim_inputs(edges@, component, old(components)@[component], old_state@, subnets@),
                ),
            ),
            r.wf(),
            r@ == sim_diff(
                old(components)@[component].spec_outputs(
                    sim_inputs(edges@, component, old(components)@[component], old_state@, subnets@),
                ),
                edges@,
                component,
                old(components)@[component],
            ),
            forall|n: i32| #[trigger] r@.contains_key(n) ==> subnets@.contains_key(n),
    {
        let comp0 = match components.get(component) {
            Some(c) => c,
            None => Component::Buffer,
        };
        let ghost inputs_map = sim_inputs(edges@, component, comp0, old_state@, subnets@);
        let nports = comp0.ports();

        let mut states = InputStates::new();
        let mut p: usize = 0;
        while p < nports
            invariant
                p <= nports,
                nports == comp0.spec_ports(),
                states.wf(),
                subnets.wf(),
                old_state.wf(),
                edges_distinct(edges@),
                forall|i: int|
                    0 <= i < edges@.len() ==> subnets@.contains_key(#[trigger] edges@[i].subnet),
                inputs_map == sim_inputs(edges@, component, comp0, old_state@, subnets@),
                states@ =~= Map::new(
                    |q: usize| q < p && input_port(edges@, component, comp0, q),
                    |q: usize| input_change(edges@, component, q, old_state@, subnets@),
                ),
            decreases nports - p,
        {
            let pt = comp0.port_type(p);
            let is_input = match pt {
                Some(PortType::Output) => false,
                Some(_) => true,
                None => false,
            };
            if is_input {
                match crate::edge::find_port_edge(edges, component, p) {
                    Some(e) => {
                        proof {
                            assert(subnets@.contains_key(e.subnet)) by {
                                let i = choose|i: int|
                                    0 <= i < edges@.len() && edges@[i] == e;
                                assert(subnets@.contains_key(edges@[i].subnet));
                            }
                        }
                        let cur = match subnets.get(e.subnet) {
                            Some(s) => s.val(),
                            None => SubnetState::Floating,
                        };
                        let prev = match old_state.get(e.subnet) {
                            Some(v) => v,
                            None => cur,
                        };
                        states.insert(p, StateChange::new(prev, cur));
                        proof {
                            assert(e.subnet == port_subnet(edges@, component, p));
                            assert(states@ =~= Map::new(
                                |q: usize| q < p + 1 && input_port(edges@, component, comp0, q),
                                |q: usize| input_change(edges@, component, q, old_state@, subnets@),
                            ));
                        }
                    },
                    None => {
                        proof {
                            assert(states@ =~= Map::new(
                                |q: usize| q < p + 1 && input_port(edges@, component, comp0, q),
                                |q: usize| input_change(edges@, component, q, old_state@, subnets@),
                            ));
                        }
                    },
                }
            } else {
                proof {
                    assert(states@ =~= Map::new(
                        |q: usize| q < p + 1 && input_port(edges@, component, comp0, q),
                        |q: usize| input_change(edges@, component, q, old_state@, subnets@),
                    ));
                }
            }
            p = p + 1;
        }
        proof {
            assert forall|q: usize| input_port(edges@, component, comp0, q) implies q
                < comp0.spec_ports() by {
                if q >= comp0.spec_ports() {
                    assert(comp0.spec_port_type(q) is None);
                }
            }
            assert(states@ =~= inputs_map);
        }
        let mut comp = comp0;
        let res = comp.evaluate(&states);
        components.insert(component, comp);

        let ghost outputs = comp0.spec_outputs(inputs_map);
        let mut updating = StateDiff::new();
        let mut k: usize = 0;
        while k < res.len()
            invariant
                k <= res@.len(),
                res@ == outputs,
                edges_distinct(edges@),
                forall|i: int|
                    0 <= i < edges@.len() ==> subnets@.contains_key(#[trigger] edges@[i].subnet),
                updating.wf(),
                updating@ == sim_diff_upto(outputs, edges@, component, comp0, k as int),
                forall|n: i32|
                    #[trigger] updating@.contains_key(n) ==> subnets@.contains_key(n),
            decreases res@.len() - k,
        {
            let (p, v) = res[k];
            let is_output = match comp0.port_type(p) {
                Some(PortType::Output) => true,
                _ => false,
            };
            if is_output {
                match crate::edge::find_port_edge(edges, component, p) {
                    Some(e) => {
                        proof {
                            assert(subnets@.contains_key(e.subnet)) by {
                                let i = choose|i: int|
                                    0 <= i < edges@.len() && edges@[i] == e;
                                assert(subnets@.contains_key(edges@[i].subnet));
                            }
                            assert(e.subnet == port_subnet(edges@, component, p));
                        }
                        updating.add_proposal(e.subnet, v);
                    },
                    None => {},
                }
            }
            k = k + 1;
        }
        updating
    }

    /// Resolves the gathered proposals and applies them: every subnet with
    /// proposals takes the resolved value, and the ones whose value moved
    /// join the current wave with their previous value recorded.
    pub fn apply_state_diff(&mut self, diff: StateDiff, subnets: &mut IdMap<Subnet>)
        requires
            old(self).wf(),
            old(subnets).wf(),
            diff.wf(),
            forall|n: i32| #[trigger] diff@.contains_key(n) ==> old(subnets)@.contains_key(n),
        ensures
            final(self).wf(),
            final(subnets).wf(),
            forall|n: i32| final(subnets)@.contains_key(n) <==> old(subnets)@.contains_key(n),
            forall|n: i32|
                old(subnets)@.contains_key(n) ==> final(subnets)@[n].state == (
                if diff@.contains_key(n) {
                    resolve_seq(diff@[n])
                } else {
                    old(subnets)@[n].state
                }),
            final(self).changed_subnets@ == old(self).changed_subnets@.union_prefer_right(
                changed_map(diff@, old(subnets)@),
            ),
            (forall|n: i32| !net_changed(diff@, old(subnets)@, n)) ==> *final(self) == *old(self),
            (exists|n: i32| net_changed(diff@, old(subnets)@, n)) ==> {
                let d0 = old(self).dirty_view();
                let d1 = final(self).dirty_view();
                &&& d1.len() == if d0.len() == 0 {
                    1int
                } else {
                    d0.len() as int
                }
                &&& forall|w: int| 1 <= w < d1.len() ==> d1[w] == d0[w]
                &&& forall|n: i32|
                    #[trigger] d1[0].contains(n) <==> (d0.len() > 0 && d0[0].contains(n))
                        || net_changed(diff@, old(subnets)@, n)
            },
            diff.spec_len() == 0 ==> *final(self) == *old(self) && *final(subnets) == *old(
                subnets,
            ),
    {
        let ghost diff0 = diff@;
        let ghost subnets0 = old(subnets)@;
        let mut i: usize = 0;
        while i < diff.nets.len()
            invariant
                diff.wf(),
                diff@ == diff0,
                self.wf(),
                subnets.wf(),
                i <= diff.nets@.len(),
                forall|n: i32| #[trigger] diff0.contains_key(n) ==> subnets0.contains_key(n),
                forall|n: i32| subnets@.contains_key(n) <==> subnets0.contains_key(n),
                forall|n: i32|
                    subnets0.contains_key(n) ==> subnets@[n] == (
                    if exists|j: int| 0 <= j < i && diff.nets@[j] == n {
                        Subnet { state: resolve_seq(diff0[n]) }
                    } else {
                        subnets0[n]
                    }),
                self.changed_subnets@ == old(self).changed_subnets@.union_prefer_right(
                    changed_map_upto(diff.nets@, diff0, subnets0, i as int),
                ),
                (forall|n: i32|
                    !((exists|j: int| 0 <= j < i && diff.nets@[j] == n) && net_changed(
                        diff0,
                        subnets0,
                        n,
                    ))) ==> *self == *old(self),
                (exists|n: i32|
                    (exists|j: int| 0 <= j < i && diff.nets@[j] == n) && net_changed(
                        diff0,
                        subnets0,
                        n,
                    )) ==> {
                    let d0 = old(self).dirty_view();
                    let d1 = self.dirty_view();
                    &&& d1.len() == if d0.len() == 0 {
                        1int
                    } else {
                        d0.len() as int
                    }
                    &&& forall|w: int| 1 <= w < d1.len() ==> d1[w] == d0[w]
                    &&& forall|n: i32|
                        #[trigger] d1[0].contains(n) <==> (d0.len() > 0 && d0[0].contains(n)) || ((
                        exists|j: int| 0 <= j < i && diff.nets@[j] == n) && net_changed(
                            diff0,
                            subnets0,
                            n,
                        ))
                },
                i == 0 ==> *self == *old(self) && *subnets == *old(subnets),
            decreases diff.nets@.len() - i,
        {
            let n = diff.nets[i];
            proof {
                lemma_diff_index(diff, i as int);
                assert(diff0.contains_key(n));
            }
            let value = SubnetState::work_out_diff(&diff.buckets[i]);
            proof {
                assert(value == resolve_seq(diff0[n]));
                assert(!(exists|j: int| 0 <= j < i && diff.nets@[j] == n));
                assert(subnets@[n] == subnets0[n]);
            }
            let ghost self_pre = *self;
            let ghost changed_here = value != subnets0[n].state;
            self.update_subnet(n, value, subnets);
            proof {
                assert(changed_here == net_changed(diff0, subnets0, n));
                assert forall|m: i32| subnets0.contains_key(m) implies subnets@[m] == (
                if exists|j: int| 0 <= j < i + 1 && diff.nets@[j] == m {
                    Subnet { state: resolve_seq(diff0[m]) }
                } else {
                    subnets0[m]
                }) by {
                    if m == n {
                        assert(diff.nets@[i as int] == n);
                        assert(exists|j: int| 0 <= j < i + 1 && diff.nets@[j] == m);
                    } else {
                        assert((exists|j: int| 0 <= j < i + 1 && diff.nets@[j] == m) <==> (
                        exists|j: int| 0 <= j < i && diff.nets@[j] == m));
                    }
                }
                let cm_i = changed_map_upto(diff.nets@, diff0, subnets0, i as int);
                let cm_i1 = changed_map_upto(diff.nets@, diff0, subnets0, i + 1);
                assert forall|m: i32| #[trigger] cm_i1.contains_key(m) <==> cm_i.contains_key(m)
                    || (m == n && changed_here) by {
                    assert(diff.nets@[i as int] == n);
                    if cm_i1.contains_key(m) && m != n {
                        let j = choose|j: int| 0 <= j < i + 1 && diff.nets@[j] == m;
                        assert(0 <= j < i);
                    }
                }
                if changed_here {
                    assert(self.changed_subnets@ == self_pre.changed_subnets@.insert(
                        n,
                        subnets0[n].state,
                    ));
                    assert(self.changed_subnets@ =~= old(self).changed_subnets@.union_prefer_right(
                        cm_i1,
                    ));
                    let d_pre = self_pre.dirty_view();
                    let d0 = old(self).dirty_view();
                    let d1 = self.dirty_view();
                    assert(d1 == dirty_add(d_pre, n));
                    let dp1 = if d_pre.len() == 0 {
                        seq![Seq::<i32>::empty()]
                    } else {
                        d_pre
                    };
                    assert forall|m: i32| #[trigger] d1[0].contains(m) <==> dp1[0].contains(m)
                        || m == n by {
                        if dp1[0].contains(n) {
                            assert(d1[0] == dp1[0]);
                        } else {
                            assert(d1[0] == dp1[0].push(n));
                            lemma_push_contains(dp1[0], n, m);
                        }
                    }
                    if exists|m: i32|
                        (exists|j: int| 0 <= j < i && diff.nets@[j] == m) && net_changed(
                            diff0,
                            subnets0,
                            m,
                        ) {
                        // earlier rounds already opened or extended the wave
                        assert(d_pre.len() == if d0.len() == 0 {
                            1int
                        } else {
                            d0.len() as int
                        });
                        assert(d_pre.len() > 0);
                        assert(dp1 == d_pre);
                        assert(forall|w: int| 1 <= w < d1.len() ==> d1[w] == d_pre[w]);
                    } else {
                        // this is the first value that actually moved
                        assert(self_pre == *old(self));
                        assert(d_pre == d0);
                        assert(forall|w: int| 1 <= w < d1.len() ==> d1[w] == dp1[w]);
                        if d0.len() == 0 {
                            assert(forall|m: i32| !(#[trigger] dp1[0].contains(m)));
                        }
                    }
                    assert forall|m: i32| #[trigger] d1[0].contains(m) <==> (d0.len() > 0
                        && d0[0].contains(m)) || ((exists|j: int|
                        0 <= j < i + 1 && diff.nets@[j] == m) && net_changed(
                        diff0,
                        subnets0,
                        m,
                    )) by {
                    if m == n {
                        assert(diff.nets@[i as int] == n);
                        assert(d1[0].contains(m));
                    }
                    }
                } else {
                    assert(*self == self_pre);
                    assert(cm_i1 =~= cm_i);
                    assert forall|m: i32|
                        ((exists|j: int| 0 <= j < i + 1 && diff.nets@[j] == m) && net_changed(
                            diff0,
                            subnets0,
                            m,
                        )) implies ((exists|j: int| 0 <= j < i && diff.nets@[j] == m)
                        && net_changed(diff0, subnets0, m)) by {
                        assert(m != n || !changed_here);
                    }
                }
            }
            i = i + 1;
        }
        proof {
            lemma_kv_dom(diff.nets@, diff.buckets@.map_values(|b: Vec<SubnetState>| b@));
            assert forall|n: i32|
                #[trigger] diff0.contains_key(n) <==> (exists|j: int|
                0 <= j < diff.nets@.len() && diff.nets@[j] == n) by {
                if diff0.contains_key(n) {
                    assert(diff.nets@.contains(n));
                }
                if exists|j: int| 0 <= j < diff.nets@.len() && diff.nets@[j] == n {
                    let j = choose|j: int| 0 <= j < diff.nets@.len() && diff.nets@[j] == n;
                    assert(diff.nets@.contains(n));
                }
            }
            assert(changed_map_upto(diff.nets@, diff0, subnets0, diff.nets@.len() as int)
                =~= changed_map(diff0, subnets0));
        }
    }

    /// Advances one wave: pops the front wave, re-evaluates every component
    /// that reads one of its subnets, resolves the values in play for each
    /// proposed subnet (standing drives from outside the fan-out included)
    /// and applies them.  With nothing pending this does nothing at all.
    #[verifier::rlimit(80)]
    pub fn advance_time(
        &mut self,
        components: &mut IdMap<Component>,
        subnets: &mut IdMap<Subnet>,
        edges: &Vec<Edge>,
    )
        requires
            old(self).wf(),
            old(components).wf(),
            old(subnets).wf(),
            edges_distinct(edges@),
            edges_subnets_live(edges@, old(subnets)@),
            edges_components_live(edges@, old(components)@),
        ensures
            final(self).wf(),
            final(components).wf(),
            final(subnets).wf(),
            final(components).spec_len() == old(components).spec_len(),
            same_shape(old(components)@, final(components)@),
            forall|n: i32| final(subnets)@.contains_key(n) <==> old(subnets)@.contains_key(n),
            engine_state(*final(self), *final(components), *final(subnets)) == spec_advance(
                edges@,
                engine_state(*old(self), *old(components), *old(subnets)),
            ),
            old(self).dirty_empty() ==> *final(self) == *old(self) && *final(components) == *old(
                components,
            ) && *final(subnets) == *old(subnets),
            !old(self).dirty_empty() ==> {
                &&& final(components)@ == wave_components(
                    edges@,
                    wave_set(old(self).dirty_view()[0]),
                    old(components)@,
                    old(self).changed_subnets@,
                    old(subnets)@,
                )
                &&& forall|n: i32|
                    old(subnets)@.contains_key(n) ==> final(subnets)@[n].state == wave_value(
                        edges@,
                        wave_set(old(self).dirty_view()[0]),
                        old(components)@,
                        old(self).changed_subnets@,
                        old(subnets)@,
                        n,
                    )
                &&& final(self).changed_subnets@ == Map::new(
                    |n: i32|
                        wave_changed(
                            edges@,
                            wave_set(old(self).dirty_view()[0]),
                            old(components)@,
                            old(self).changed_subnets@,
                            old(subnets)@,
                            n,
                        ),
                    |n: i32| old(subnets)@[n].state,
                )
                &&& ((forall|n: i32|
                    !wave_changed(
                        edges@,
                        wave_set(old(self).dirty_view()[0]),
                        old(components)@,
                        old(self).changed_subnets@,
                        old(subnets)@,
                        n,
                    )) ==> final(self).dirty_view() == old(self).dirty_view().drop_first())
                &&& ((exists|n: i32|
                    wave_changed(
                        edges@,
                        wave_set(old(self).dirty_view()[0]),
                        old(components)@,
                        old(self).changed_subnets@,
                        old(subnets)@,
                        n,
                    )) ==> {
                    let d0 = old(self).dirty_view().drop_first();
                    let d1 = final(self).dirty_view();
                    &&& d1.len() == if d0.len() == 0 {
                        1int
                    } else {
                        d0.len() as int
                    }
                    &&& forall|w: int| 1 <= w < d1.len() ==> d1[w] == d0[w]
                    &&& forall|n: i32|
                        #[trigger] d1[0].contains(n) <==> (d0.len() > 0 && d0[0].contains(n))
                            || wave_changed(
                            edges@,
                            wave_set(old(self).dirty_view()[0]),
                            old(components)@,
                            old(self).changed_subnets@,
                            old(subnets)@,
                            n,
                        )
                })
            },
            (!old(self).dirty_empty() && (forall|i: int|
                0 <= i < edges@.len() && old(self).dirty_view()[0].contains(
                    #[trigger] edges@[i].subnet,
                ) ==> edges@[i].direction == EdgeDirection::ToSubnet)) ==> {
                &&& *final(components) == *old(components)
                &&& *final(subnets) == *old(subnets)
                &&& final(self).dirty_view() == old(self).dirty_view().drop_first()
                &&& final(self).changed_subnets@ == Map::<i32, SubnetState>::empty()
            },
    {
        if self.dirty_subnets.len() == 0 {
            proof {
                assert(dirty_sets(*self).len() == 0);
            }
            return ;
        }
        let ghost quiet = forall|i: int|
            0 <= i < edges@.len() && old(self).dirty_view()[0].contains(
                #[trigger] edges@[i].subnet,
            ) ==> edges@[i].direction == EdgeDirection::ToSubnet;
        let wave = self.dirty_subnets.remove(0);
        proof {
            assert(wave@ == old(self).dirty_view()[0]);
            assert(self.dirty_view() =~= old(self).dirty_view().drop_first());
        }
        let mut simulating: Vec<i32> = Vec::new();
        let mut ei: usize = 0;
        while ei < edges.len()
            invariant
                ei <= edges@.len(),
                wave@ == old(self).dirty_view()[0],
                quiet == (forall|i: int|
                    0 <= i < edges@.len() && old(self).dirty_view()[0].contains(
                        #[trigger] edges@[i].subnet,
                    ) ==> edges@[i].direction == EdgeDirection::ToSubnet),
                edges_components_live(edges@, old(components)@),
                forall|j: int|
                    0 <= j < simulating@.len() ==> old(components)@.contains_key(
                        #[trigger] simulating@[j],
                    ),
                seq_distinct(simulating@),
                forall|x: i32|
                    #[trigger] simulating@.contains(x) <==> exists|i: int|
                        0 <= i < ei && edges@[i].component == x && wave@.contains(edges@[i].subnet)
                            && edges@[i].direction != EdgeDirection::ToSubnet,
                quiet ==> simulating@.len() == 0,
            decreases edges@.len() - ei,
        {
            let e = edges[ei];
            let to_subnet = match e.direction {
                EdgeDirection::ToSubnet => true,
                _ => false,
            };
            let ghost sims_pre = simulating@;
            if !to_subnet && vec_contains_i32(&wave, e.subnet) {
                if !vec_contains_i32(&simulating, e.component) {
                    proof {
                        assert(old(components)@.contains_key(edges@[ei as int].component));
                        if quiet {
                            assert(edges@[ei as int].direction == EdgeDirection::ToSubnet);
                            assert(false);
                        }
                    }
                    simulating.push(e.component);
                    proof {
                        assert forall|x: i32| #[trigger] simulating@.contains(x) <==> sims_pre.contains(
                            x,
                        ) || x == e.component by {
                            lemma_push_contains(sims_pre, e.component, x);
                        }
                        assert forall|a: int, b: int|
                            0 <= a < b < simulating@.len() implies simulating@[a]
                            != simulating@[b] by {
                            if b == simulating@.len() - 1 {
                                assert(sims_pre.contains(sims_pre[a]));
                            }
                        }
                        assert forall|x: i32| #[trigger] simulating@.contains(x) implies exists|
                            i: int,
                        |
                            0 <= i < ei + 1 && edges@[i].component == x && wave@.contains(
                                edges@[i].subnet,
                            ) && edges@[i].direction != EdgeDirection::ToSubnet by {
                            if x == e.component {
                                assert(0 <= ei < ei + 1 && edges@[ei as int].component == x
                                    && wave@.contains(edges@[ei as int].subnet) && edges@[
                                    ei as int
                                ].direction != EdgeDirection::ToSubnet);
                            }
                        }
                    }
                }
            }
            ei = ei + 1;
        }
        proof {
            assert forall|x: i32| #[trigger] simulating@.contains(x) <==> fanout(
                edges@,
                wave_set(wave@),
            ).contains(x) by {}
        }
        let old_state = self.changed_subnets.take();
        let mut diff = StateDiff::new();
        let mut si: usize = 0;
        while si < simulating.len()
            invariant
                si <= simulating@.len(),
                self.wf(),
                components.wf(),
                subnets.wf(),
                subnets == old(subnets),
                old_state.wf(),
                old_state@ == old(self).changed_subnets@,
                edges_distinct(edges@),
                edges_subnets_live(edges@, subnets@),
                forall|j: int|
                    0 <= j < simulating@.len() ==> old(components)@.contains_key(
                        #[trigger] simulating@[j],
                    ),
                seq_distinct(simulating@),
                same_shape(old(components)@, components@),
                components.spec_len() == old(components).spec_len(),
                components@ == Map::new(
                    |c: i32| old(components)@.contains_key(c),
                    |c: i32|
                        if exists|j: int| 0 <= j < si && simulating@[j] == c {
                            old(components)@[c].spec_next(
                                sim_inputs(edges@, c, old(components)@[c], old_state@, subnets@),
                            )
                        } else {
                            old(components)@[c]
                        },
                ),
                diff.wf(),
                forall|n: i32| #[trigger] diff@.contains_key(n) ==> subnets@.contains_key(n),
                forall|n: i32|
                    #[trigger] diff@.contains_key(n) <==> merged_contains(
                        edges@,
                        simulating@,
                        si as int,
                        old(components)@,
                        old_state@,
                        subnets@,
                        n,
                    ),
                forall|n: i32, v: SubnetState|
                    #![trigger diff@[n].contains(v)]
                    (diff@.contains_key(n) && diff@[n].contains(v)) <==> merged_value(
                        edges@,
                        simulating@,
                        si as int,
                        old(components)@,
                        old_state@,
                        subnets@,
                        n,
                        v,
                    ),
                simulating@.len() == 0 ==> *components == *old(components) && diff.spec_len()
                    == 0,
            decreases simulating@.len() - si,
        {
            let c = simulating[si];
            proof {
                assert(old(components)@.contains_key(simulating@[si as int]));
                assert(components@.contains_key(c));
                assert(!(exists|j: int| 0 <= j < si && simulating@[j] == c));
                assert(components@[c] == old(components)@[c]);
            }
            let ghost components_pre = components@;
            let ghost diff_pre = diff@;
            let d = self.simulate(c, &old_state, components, subnets, edges);
            proof {
                crate::component::lemma_next_kind(
                    components_pre[c],
                    sim_inputs(edges@, c, components_pre[c], old_state@, subnets@),
                );
                assert(same_shape(old(components)@, components@));
                assert(components@ =~= Map::new(
                    |x: i32| old(components)@.contains_key(x),
                    |x: i32|
                        if exists|j: int| 0 <= j < si + 1 && simulating@[j] == x {
                            old(components)@[x].spec_next(
                                sim_inputs(edges@, x, old(components)@[x], old_state@, subnets@),
                            )
                        } else {
                            old(components)@[x]
                        },
                )) by {
                    assert forall|x: i32| old(components)@.contains_key(x) implies components@[x]
                        == (if exists|j: int| 0 <= j < si + 1 && simulating@[j] == x {
                        old(components)@[x].spec_next(
                            sim_inputs(edges@, x, old(components)@[x], old_state@, subnets@),
                        )
                    } else {
                        old(components)@[x]
                    }) by {
                        if x == c {
                            assert(simulating@[si as int] == x);
                            assert(exists|j: int| 0 <= j < si + 1 && simulating@[j] == x);
                        } else {
                            assert((exists|j: int| 0 <= j < si + 1 && simulating@[j] == x) <==> (
                            exists|j: int| 0 <= j < si && simulating@[j] == x));
                        }
                    }
                }
                assert(d@ == comp_diff(edges@, c, old(components)@, old_state@, subnets@));
            }
            let mut k: usize = 0;
            while k < d.nets.len()
                invariant
                    k <= d.nets@.len(),
                    d.wf(),
                    d@ == comp_diff(edges@, c, old(components)@, old_state@, subnets@),
                    forall|n: i32| #[trigger] d@.contains_key(n) ==> subnets@.contains_key(n),
                    diff.wf(),
                    forall|n: i32| #[trigger] diff@.contains_key(n) ==> subnets@.contains_key(n),
                    forall|n: i32|
                        #[trigger] diff@.contains_key(n) <==> diff_pre.contains_key(n) || (
                        exists|kk: int| 0 <= kk < k && d.nets@[kk] == n),
                    forall|n: i32, v: SubnetState|
                        #![trigger diff@[n].contains(v)]
                        (diff@.contains_key(n) && diff@[n].contains(v)) <==> (
                        diff_pre.contains_key(n) && diff_pre[n].contains(v)) || (exists|kk: int|
                            0 <= kk < k && d.nets@[kk] == n && d.buckets@[kk]@.contains(v)),
                decreases d.nets@.len() - k,
            {
                let nn = d.nets[k];
                proof {
                    lemma_diff_index(d, k as int);
                    lemma_sim_diff_nonempty(
                        old(components)@[c].spec_outputs(
                            sim_inputs(edges@, c, old(components)@[c], old_state@, subnets@),
                        ),
                        edges@,
                        c,
                        old(components)@[c],
                        old(components)@[c].spec_outputs(
                            sim_inputs(edges@, c, old(components)@[c], old_state@, subnets@),
                        ).len() as int,
                        nn,
                    );
                    assert(d.buckets@[k as int]@.len() > 0);
                }
                let mut bi: usize = 0;
                while bi < d.buckets[k].len()
                    invariant
                        k < d.nets@.len(),
                        d.wf(),
                        nn == d.nets@[k as int],
                        d@.contains_key(nn),
                        d@[nn] == d.buckets@[k as int]@,
                        subnets@.contains_key(nn),
                        bi <= d.buckets@[k as int]@.len(),
                        diff.wf(),
                        forall|n: i32|
                            #[trigger] diff@.contains_key(n) ==> subnets@.contains_key(n),
                        forall|n: i32|
                            #[trigger] diff@.contains_key(n) <==> diff_pre.contains_key(n) || (
                            exists|kk: int| 0 <= kk < k && d.nets@[kk] == n) || (n == nn && bi
                                > 0),
                        forall|n: i32, v: SubnetState|
                            #![trigger diff@[n].contains(v)]
                            (diff@.contains_key(n) && diff@[n].contains(v)) <==> (
                            diff_pre.contains_key(n) && diff_pre[n].contains(v)) || (exists|
                                kk: int,
                            | 0 <= kk < k && d.nets@[kk] == n && d.buckets@[kk]@.contains(v)) || (
                            n == nn && (exists|b: int|
                                0 <= b < bi && d.buckets@[k as int]@[b] == v)),
                    decreases d.buckets@[k as int]@.len() - bi,
                {
                    let v = d.buckets[k][bi];
                    let ghost dm_pre = diff@;
                    diff.add_proposal(nn, v);
                    proof {
                        assert(d.buckets@[k as int]@[bi as int] == v);
                        assert forall|n: i32, w: SubnetState|
                            #![trigger diff@[n].contains(w)]
                            (diff@.contains_key(n) && diff@[n].contains(w)) <==> (
                        dm_pre.contains_key(n) && dm_pre[n].contains(w)) || (n == nn && w
                            == v) by {
                            if n == nn {
                                if dm_pre.contains_key(nn) {
                                    if dm_pre[nn].contains(v) {
                                        assert(diff@ == dm_pre);
                                    } else {
                                        assert(diff@[nn] == dm_pre[nn].push(v));
                                        lemma_push_contains(dm_pre[nn], v, w);
                                    }
                                } else {
                                    assert(diff@[nn] == seq![v]);
                                    if w == v {
                                        assert(diff@[nn][0] == v);
                                        assert(diff@[nn].contains(v));
                                    }
                                    if diff@[nn].contains(w) {
                                        let b = choose|b: int|
                                            0 <= b < diff@[nn].len() && diff@[nn][b] == w;
                                        assert(w == v);
                                    }
                                }
                            }
                        }
                        assert forall|n: i32, w: SubnetState|
                            #![trigger diff@[n].contains(w)]
                            (diff@.contains_key(n) && diff@[n].contains(w)) <==> (
                        diff_pre.contains_key(n) && diff_pre[n].contains(w)) || (exists|kk: int|
                            0 <= kk < k && d.nets@[kk] == n && d.buckets@[kk]@.contains(w)) || (n
                            == nn && (exists|b: int|
                            0 <= b < bi + 1 && d.buckets@[k as int]@[b] == w)) by {
                            if n == nn && w == v {
                                assert(0 <= bi < bi + 1 && d.buckets@[k as int]@[bi as int] == w);
                            }
                            if n == nn && (exists|b: int|
                                0 <= b < bi + 1 && d.buckets@[k as int]@[b] == w) && !(exists|
                                b: int,
                            | 0 <= b < bi && d.buckets@[k as int]@[b] == w) {
                                let b = choose|b: int|
                                    0 <= b < bi + 1 && d.buckets@[k as int]@[b] == w;
                                assert(b == bi);
                                assert(w == v);
                            }
                        }
                    }
                    bi = bi + 1;
                }
                proof {
                    assert forall|n: i32|
                        #[trigger] diff@.contains_key(n) <==> diff_pre.contains_key(n) || (
                    exists|kk: int| 0 <= kk < k + 1 && d.nets@[kk] == n) by {
                        if n == nn {
                            assert(d.nets@[k as int] == nn);
                            assert(exists|kk: int| 0 <= kk < k + 1 && d.nets@[kk] == nn);
                        }
                        if (exists|kk: int| 0 <= kk < k + 1 && d.nets@[kk] == n) && !(exists|
                            kk: int,
                        | 0 <= kk < k && d.nets@[kk] == n) {
                            let kk = choose|kk: int| 0 <= kk < k + 1 && d.nets@[kk] == n;
                            assert(kk == k);
                            assert(n == nn);
                            assert(d.buckets@[k as int]@.len() > 0);
                            assert(diff@.contains_key(nn));
                        }
                    }
                    assert forall|n: i32, v: SubnetState|
                        #![trigger diff@[n].contains(v)]
                        (diff@.contains_key(n) && diff@[n].contains(v)) <==> (
                    diff_pre.contains_key(n) && diff_pre[n].contains(v)) || (exists|kk: int|
                        0 <= kk < k + 1 && d.nets@[kk] == n && d.buckets@[kk]@.contains(v)) by {
                        if n == nn {
                            assert(d.nets@[k as int] == nn);
                        }
                        if exists|kk: int|
                            0 <= kk < k + 1 && d.nets@[kk] == n && d.buckets@[kk]@.contains(v) {
                            let kk = choose|kk: int|
                                0 <= kk < k + 1 && d.nets@[kk] == n && d.buckets@[kk]@.contains(
                                    v,
                                );
                            if kk == k {
                                assert(n == nn);
                                assert(exists|b: int|
                                    0 <= b < d.buckets@[k as int]@.len() && d.buckets@[
                                    k as int
                                ]@[b] == v);
                            }
                        }
                    }
                }
                k = k + 1;
            }
            proof {
                assert forall|n: i32|
                    #[trigger] diff@.contains_key(n) <==> merged_contains(
                    edges@,
                    simulating@,
                    si + 1,
                    old(components)@,
                    old_state@,
                    subnets@,
                    n,
                ) by {
                    lemma_kv_dom(d.nets@, d.buckets@.map_values(|b: Vec<SubnetState>| b@));
                    if exists|kk: int| 0 <= kk < d.nets@.len() && d.nets@[kk] == n {
                        let kk = choose|kk: int| 0 <= kk < d.nets@.len() && d.nets@[kk] == n;
                        assert(d.nets@.contains(n));
                        assert(d@.contains_key(n));
                        assert(comp_diff(
                            edges@,
                            simulating@[si as int],
                            old(components)@,
                            old_state@,
                            subnets@,
                        ).contains_key(n));
                        assert(merged_contains(
                            edges@,
                            simulating@,
                            si + 1,
                            old(components)@,
                            old_state@,
                            subnets@,
                            n,
                        ));
                    }
                    if diff_pre.contains_key(n) {
                        let j = choose|j: int|
                            0 <= j < si && comp_diff(
                                edges@,
                                simulating@[j],
                                old(components)@,
                                old_state@,
                                subnets@,
                            ).contains_key(n);
                        assert(merged_contains(
                            edges@,
                            simulating@,
                            si + 1,
                            old(components)@,
                            old_state@,
                            subnets@,
                            n,
                        ));
                    }
                    if merged_contains(
                        edges@,
                        simulating@,
                        si + 1,
                        old(components)@,
                        old_state@,
                        subnets@,
                        n,
                    ) {
                        let j = choose|j: int|
                            0 <= j < si + 1 && comp_diff(
                                edges@,
                                simulating@[j],
                                old(components)@,
                                old_state@,
                                subnets@,
                            ).contains_key(n);
                        if j == si {
                            assert(d@.contains_key(n));
                            assert(d.nets@.contains(n));
                        } else {
                            assert(merged_contains(
                                edges@,
                                simulating@,
                                si as int,
                                old(components)@,
                                old_state@,
                                subnets@,
                                n,
                            ));
                        }
                    }
                }
                assert forall|n: i32, v: SubnetState|
                    #![trigger diff@[n].contains(v)]
                    (diff@.contains_key(n) && diff@[n].contains(v)) <==> merged_value(
                    edges@,
                    simulating@,
                    si + 1,
                    old(components)@,
                    old_state@,
                    subnets@,
                    n,
                    v,
                ) by {
                    lemma_kv_dom(d.nets@, d.buckets@.map_values(|b: Vec<SubnetState>| b@));
                    if exists|kk: int|
                        0 <= kk < d.nets@.len() && d.nets@[kk] == n && d.buckets@[kk]@.contains(
                            v,
                        ) {
                        let kk = choose|kk: int|
                            0 <= kk < d.nets@.len() && d.nets@[kk] == n && d.buckets@[
                            kk
                        ]@.contains(v);
                        lemma_diff_index(d, kk);
                        assert(d@.contains_key(n) && d@[n].contains(v));
                        assert(merged_value(
                            edges@,
                            simulating@,
                            si + 1,
                            old(components)@,
                            old_state@,
                            subnets@,
                            n,
                            v,
                        ));
                    }
                    if diff_pre.contains_key(n) && diff_pre[n].contains(v) {
                        let j = choose|j: int|
                            0 <= j < si && comp_diff(
                                edges@,
                                simulating@[j],
                                old(components)@,
                                old_state@,
                                subnets@,
                            ).contains_key(n) && comp_diff(
                                edges@,
                                simulating@[j],
                                old(components)@,
                                old_state@,
                                subnets@,
                            )[n].contains(v);
                        assert(merged_value(
                            edges@,
                            simulating@,
                            si + 1,
                            old(components)@,
                            old_state@,
                            subnets@,
                            n,
                            v,
                        ));
                    }
                    if merged_value(
                        edges@,
                        simulating@,
                        si + 1,
                        old(components)@,
                        old_state@,
                        subnets@,
                        n,
                        v,
                    ) {
                        let j = choose|j: int|
                            0 <= j < si + 1 && comp_diff(
                                edges@,
                                simulating@[j],
                                old(components)@,
                                old_state@,
                                subnets@,
                            ).contains_key(n) && comp_diff(
                                edges@,
                                simulating@[j],
                                old(components)@,
                                old_state@,
                                subnets@,
                            )[n].contains(v);
                        if j == si {
                            assert(d@.contains_key(n) && d@[n].contains(v));
                            assert(d.nets@.contains(n));
                            let kk = choose|kk: int|
                                0 <= kk < d.nets@.len() && d.nets@[kk] == n;
                            lemma_diff_index(d, kk);
                            assert(d.buckets@[kk]@.contains(v));
                        } else {
                            assert(merged_value(
                                edges@,
                                simulating@,
                                si as int,
                                old(components)@,
                                old_state@,
                                subnets@,
                                n,
                                v,
                            ));
                        }
                    }
                }
            }
            si = si + 1;
        }
        let ghost diff_m = diff@;
        let ghost nets_m = diff.nets@;
        let mut ai: usize = 0;
        while ai < diff.nets.len()
            invariant
                diff.wf(),
                subnets.wf(),
                subnets == old(subnets),
                ai <= diff.nets@.len(),
                diff.nets@ == nets_m,
                forall|x: i32| #[trigger] simulating@.contains(x) <==> fanout(
                    edges@,
                    wave_set(old(self).dirty_view()[0]),
                ).contains(x),
                forall|n: i32| #[trigger] diff@.contains_key(n) ==> subnets@.contains_key(n),
                forall|n: i32| #[trigger] diff@.contains_key(n) <==> diff_m.contains_key(n),
                forall|n: i32, v: SubnetState|
                    #![trigger diff@[n].contains(v)]
                    (diff@.contains_key(n) && diff@[n].contains(v)) <==> (diff_m.contains_key(n)
                        && (diff_m[n].contains(v) || (v == subnets@[n].state && (exists|jj: int|
                        0 <= jj < ai && nets_m[jj] == n) && standing_outside_fanout(
                        edges@,
                        wave_set(old(self).dirty_view()[0]),
                        n,
                    )))),
                quiet ==> diff.spec_len() == 0,
            decreases diff.nets@.len() - ai,
        {
            let n = diff.nets[ai];
            proof {
                lemma_kv_dom(diff.nets@, diff.buckets@.map_values(|b: Vec<SubnetState>| b@));
                assert(diff.nets@.contains(n));
                assert(diff@.contains_key(n));
            }
            let ghost da_pre = diff@;
            let standing = has_standing_driver_except(edges, &simulating, n);
            proof {
                assert(standing == standing_outside_fanout(
                    edges@,
                    wave_set(old(self).dirty_view()[0]),
                    n,
                )) by {
                    if standing {
                        let i = choose|i: int|
                            0 <= i < edges@.len() && edges@[i].subnet == n && edges@[i].direction
                                != EdgeDirection::ToComponent && !simulating@.contains(
                                edges@[i].component,
                            );
                        assert(!fanout(edges@, wave_set(old(self).dirty_view()[0])).contains(
                            edges@[i].component,
                        ));
                    }
                    if standing_outside_fanout(edges@, wave_set(old(self).dirty_view()[0]), n) {
                        let i = choose|i: int|
                            0 <= i < edges@.len() && edges@[i].subnet == n && edges@[i].direction
                                != EdgeDirection::ToComponent && !fanout(
                                edges@,
                                wave_set(old(self).dirty_view()[0]),
                            ).contains(edges@[i].component);
                        assert(!simulating@.contains(edges@[i].component));
                    }
                }
            }
            if standing {
                let cur = match subnets.get(n) {
                    Some(sb) => sb.val(),
                    None => SubnetState::Floating,
                };
                diff.add_proposal(n, cur);
                proof {
                    assert forall|m: i32, w: SubnetState|
                        #![trigger diff@[m].contains(w)]
                        (diff@.contains_key(m) && diff@[m].contains(w)) <==> (
                    da_pre.contains_key(m) && (da_pre[m].contains(w) || (m == n && w
                        == cur))) by {
                        if m == n {
                            if da_pre[n].contains(cur) {
                                assert(diff@ == da_pre);
                            } else {
                                assert(diff@[n] == da_pre[n].push(cur));
                                lemma_push_contains(da_pre[n], cur, w);
                            }
                        }
                    }
                }
            }
            proof {
                assert(!(exists|jj: int| 0 <= jj < ai && nets_m[jj] == n));
                assert forall|m: i32, w: SubnetState|
                    #![trigger diff@[m].contains(w)]
                    (diff@.contains_key(m) && diff@[m].contains(w)) <==> (diff_m.contains_key(m)
                        && (diff_m[m].contains(w) || (w == subnets@[m].state && (exists|jj: int|
                        0 <= jj < ai + 1 && nets_m[jj] == m) && standing_outside_fanout(
                        edges@,
                        wave_set(old(self).dirty_view()[0]),
                        m,
                    )))) by {
                    if m == n {
                        assert(nets_m[ai as int] == n);
                        assert(exists|jj: int| 0 <= jj < ai + 1 && nets_m[jj] == m);
                    } else {
                        assert((exists|jj: int| 0 <= jj < ai + 1 && nets_m[jj] == m) <==> (
                        exists|jj: int| 0 <= jj < ai && nets_m[jj] == m));
                    }
                }
            }
            ai = ai + 1;
        }
        proof {
            if quiet {
                assert(diff.spec_len() == 0);
            }
            lemma_kv_dom(diff.nets@, diff.buckets@.map_values(|b: Vec<SubnetState>| b@));
            assert forall|n: i32| #[trigger] diff_m.contains_key(n) implies (exists|jj: int|
                0 <= jj < nets_m.len() && nets_m[jj] == n) by {
                assert(diff@.contains_key(n));
                assert(diff.nets@.contains(n));
            }
        }
        let ghost diff_final = diff@;
        let ghost sb_pre = subnets@;
        self.apply_state_diff(diff, subnets);
        proof {
            let wave0 = wave_set(old(self).dirty_view()[0]);
            let cb = old(components)@;
            let os = old(self).changed_subnets@;
            assert forall|n: i32| #[trigger] diff_final.contains_key(n) <==> wave_proposes(
                edges@,
                wave0,
                cb,
                os,
                sb_pre,
                n,
            ) by {
                if diff_final.contains_key(n) {
                    let j = choose|j: int|
                        0 <= j < simulating@.len() && comp_diff(
                            edges@,
                            simulating@[j],
                            cb,
                            os,
                            sb_pre,
                        ).contains_key(n);
                    assert(simulating@.contains(simulating@[j]));
                    assert(fanout(edges@, wave0).contains(simulating@[j]));
                }
                if wave_proposes(edges@, wave0, cb, os, sb_pre, n) {
                    let c = choose|c: i32|
                        fanout(edges@, wave0).contains(c) && comp_diff(
                            edges@,
                            c,
                            cb,
                            os,
                            sb_pre,
                        ).contains_key(n);
                    assert(simulating@.contains(c));
                    let j = choose|j: int|
                        0 <= j < simulating@.len() && simulating@[j] == c;
                    assert(merged_contains(
                        edges@,
                        simulating@,
                        simulating@.len() as int,
                        cb,
                        os,
                        sb_pre,
                        n,
                    ));
                }
            }
            assert forall|n: i32| #[trigger] diff_final.contains_key(n) implies Set::new(
                |v: SubnetState| diff_final[n].contains(v),
            ) =~= wave_proposals(edges@, wave0, cb, os, sb_pre, n) by {
                assert forall|v: SubnetState| #[trigger] diff_final[n].contains(v) implies
                wave_proposals(edges@, wave0, cb, os, sb_pre, n).contains(v) by {
                    if diff_m.contains_key(n) && diff_m[n].contains(v) {
                        let j = choose|j: int|
                            0 <= j < simulating@.len() && comp_diff(
                                edges@,
                                simulating@[j],
                                cb,
                                os,
                                sb_pre,
                            ).contains_key(n) && comp_diff(
                                edges@,
                                simulating@[j],
                                cb,
                                os,
                                sb_pre,
                            )[n].contains(v);
                        assert(simulating@.contains(simulating@[j]));
                        assert(fanout(edges@, wave0).contains(simulating@[j]));
                    }
                }
                assert forall|v: SubnetState|
                    wave_proposals(edges@, wave0, cb, os, sb_pre, n).contains(v) implies
                #[trigger] diff_final[n].contains(v) by {
                    if exists|c: i32|
                        #[trigger] fanout(edges@, wave0).contains(c) && comp_diff(
                            edges@,
                            c,
                            cb,
                            os,
                            sb_pre,
                        ).contains_key(n) && comp_diff(edges@, c, cb, os, sb_pre)[n].contains(
                            v,
                        ) {
                        let c = choose|c: i32|
                            #[trigger] fanout(edges@, wave0).contains(c) && comp_diff(
                                edges@,
                                c,
                                cb,
                                os,
                                sb_pre,
                            ).contains_key(n) && comp_diff(edges@, c, cb, os, sb_pre)[
                                n
                            ].contains(v);
                        assert(simulating@.contains(c));
                        let j = choose|j: int|
                            0 <= j < simulating@.len() && simulating@[j] == c;
                        assert(merged_value(
                            edges@,
                            simulating@,
                            simulating@.len() as int,
                            cb,
                            os,
                            sb_pre,
                            n,
                            v,
                        ));
                        assert(diff_m.contains_key(n) && diff_m[n].contains(v));
                    } else {
                        assert(v == sb_pre[n].state && standing_outside_fanout(
                            edges@,
                            wave0,
                            n,
                        ));
                        assert(exists|jj: int|
                            0 <= jj < nets_m.len() && nets_m[jj] == n);
                    }
                }
            }
            assert forall|n: i32| sb_pre.contains_key(n) implies subnets@[n].state == wave_value(
                edges@,
                wave0,
                cb,
                os,
                sb_pre,
                n,
            ) by {
                if diff_final.contains_key(n) {
                    crate::subnet::lemma_resolve_seq_set(diff_final[n]);
                    assert(subnets@[n].state == resolve_seq(diff_final[n]));
                    assert(crate::subnet::resolve_set(
                        Set::new(|v: SubnetState| diff_final[n].contains(v)),
                    ) == crate::subnet::resolve_set(
                        wave_proposals(edges@, wave0, cb, os, sb_pre, n),
                    ));
                } else {
                    assert(!wave_proposes(edges@, wave0, cb, os, sb_pre, n));
                }
            }
            assert forall|n: i32|
                net_changed(diff_final, sb_pre, n) <==> wave_changed(
                edges@,
                wave0,
                cb,
                os,
                sb_pre,
                n,
            ) by {
                if sb_pre.contains_key(n) && diff_final.contains_key(n) {
                    crate::subnet::lemma_resolve_seq_set(diff_final[n]);
                }
            }
            assert(self.changed_subnets@ =~= Map::new(
                |n: i32| wave_changed(edges@, wave0, cb, os, sb_pre, n),
                |n: i32| sb_pre[n].state,
            ));
            if forall|n: i32| !wave_changed(edges@, wave0, cb, os, sb_pre, n) {
                assert(forall|n: i32| !net_changed(diff_final, sb_pre, n));
            }
            if exists|n: i32| wave_changed(edges@, wave0, cb, os, sb_pre, n) {
                let n0 = choose|n: i32| wave_changed(edges@, wave0, cb, os, sb_pre, n);
                assert(net_changed(diff_final, sb_pre, n0));
            }
            assert(components@ =~= wave_components(edges@, wave0, cb, os, sb_pre)) by {
                assert forall|c: i32| cb.contains_key(c) implies components@[c] == (if fanout(
                    edges@,
                    wave0,
                ).contains(c) {
                    cb[c].spec_next(sim_inputs(edges@, c, cb[c], os, sb_pre))
                } else {
                    cb[c]
                }) by {
                    if fanout(edges@, wave0).contains(c) {
                        assert(simulating@.contains(c));
                        let j = choose|j: int|
                            0 <= j < simulating@.len() && simulating@[j] == c;
                        assert(exists|j: int|
                            0 <= j < simulating@.len() && simulating@[j] == c);
                    } else {
                        assert(!simulating@.contains(c));
                        if exists|j: int| 0 <= j < simulating@.len() && simulating@[j] == c {
                            let j = choose|j: int|
                                0 <= j < simulating@.len() && simulating@[j] == c;
                            assert(simulating@.contains(c));
                            assert(false);
                        }
                    }
                }
            }
            let s0 = engine_state(*old(self), *old(components), *old(subnets));
            let sa = spec_advance(edges@, s0);
            assert(s0.dirty.len() == old(self).dirty_view().len());
            assert(s0.dirty[0] == wave0);
            assert(sa.components == components@);
            assert(sa.subnets =~= subnets@);
            assert(sa.changed =~= self.changed_subnets@);
            let rest = s0.dirty.drop_first();
            if forall|n: i32| !wave_changed(edges@, wave0, cb, os, sb_pre, n) {
                assert(forall|n: i32| !net_changed(diff_final, sb_pre, n));
                assert(sa.dirty == rest);
                assert(dirty_sets(*self) =~~= rest) by {
                    assert(self.dirty_view() == old(self).dirty_view().drop_first());
                    assert forall|w: int| 0 <= w < rest.len() implies dirty_sets(*self)[w]
                        =~= rest[w] by {
                        assert(self.dirty_view()[w] == old(self).dirty_view()[w + 1]);
                    }
                }
            } else {
                let n0 = choose|n: i32| wave_changed(edges@, wave0, cb, os, sb_pre, n);
                assert(net_changed(diff_final, sb_pre, n0));
                assert(exists|n: i32| net_changed(diff_final, sb_pre, n));
                let d0a = old(self).dirty_view().drop_first();
                assert(dirty_sets(*self) =~~= sa.dirty) by {
                    assert(self.dirty_view().len() == if d0a.len() == 0 {
                        1int
                    } else {
                        d0a.len() as int
                    });
                    assert(rest.len() == d0a.len());
                    assert(dirty_sets(*self).len() == sa.dirty.len());
                    assert forall|w: int| 0 <= w < sa.dirty.len() implies dirty_sets(*self)[w]
                        =~= sa.dirty[w] by {
                        if w == 0 {
                            let moved = Set::new(
                                |n: i32| wave_changed(edges@, wave0, cb, os, sb_pre, n),
                            );
                            assert forall|n: i32|
                                #[trigger] dirty_sets(*self)[0].contains(n) <==> sa.dirty[
                            0].contains(n) by {
                                assert(dirty_sets(*self)[0].contains(n) == self.dirty_view()[
                                0].contains(n));
                                assert(self.dirty_view()[0].contains(n) <==> (d0a.len() > 0
                                    && d0a[0].contains(n)) || net_changed(diff_final, sb_pre, n));
                                if rest.len() == 0 {
                                    assert(sa.dirty[0] == moved);
                                } else {
                                    assert(sa.dirty[0] == rest[0].union(moved));
                                    assert(rest[0] == wave_set(d0a[0]));
                                }
                            }
                        } else {
                            assert(self.dirty_view()[w] == d0a[w]);
                            assert(sa.dirty[w] == rest[w]);
                            assert(rest[w] == wave_set(d0a[w]));
                        }
                    }
                }
            }
            assert(engine_state(*self, *components, *subnets) == sa);
        }
    }

    /// Evaluates one component immediately against the last recorded
    /// changes and applies the resulting proposals; used right after a
    /// component is newly wired so its effect is felt without waiting for
    /// its inputs to change.
    pub fn update_component(
        &mut self,
        component: i32,
        components: &mut IdMap<Component>,
        subnets: &mut IdMap<Subnet>,
        edges: &Vec<Edge>,
    )
        requires
            old(self).wf(),
            old(components).wf(),
            old(subnets).wf(),
            old(components)@.contains_key(component),
            edges_distinct(edges@),
            edges_subnets_live(edges@, old(subnets)@),
        ensures
            final(self).wf(),
            final(components).wf(),
            final(subnets).wf(),
            final(components).spec_len() == old(components).spec_len(),
            same_shape(old(components)@, final(components)@),
            forall|n: i32| final(subnets)@.contains_key(n) <==> old(subnets)@.contains_key(n),
            engine_state(*final(self), *final(components), *final(subnets)) == spec_react(
                edges@,
                engine_state(*old(self), *old(components), *old(subnets)),
                component,
            ),
            final(components)@ == old(components)@.insert(
                component,
                old(components)@[component].spec_next(
                    sim_inputs(
                        edges@,
                        component,
                        old(components)@[component],
                        old(self).changed_subnets@,
                        old(subnets)@,
                    ),
                ),
            ),
            ({
                let inputs = sim_inputs(
                    edges@,
                    component,
                    old(components)@[component],
                    old(self).changed_subnets@,
                    old(subnets)@,
                );
                let d = with_standing_drives(
                    sim_diff(
                        old(components)@[component].spec_outputs(inputs),
                        edges@,
                        component,
                        old(components)@[component],
                    ),
                    edges@,
                    component,
                    old(subnets)@,
                );
                &&& (forall|n: i32|
                    old(subnets)@.contains_key(n) ==> final(subnets)@[n].state == (
                    if d.contains_key(n) {
                        resolve_seq(d[n])
                    } else {
                        old(subnets)@[n].state
                    }))
                &&& final(self).changed_subnets@ == changed_map(d, old(subnets)@)
                &&& ((forall|n: i32| !net_changed(d, old(subnets)@, n))
                    ==> final(self).dirty_view() == old(self).dirty_view() && final(subnets)@
                        == old(subnets)@)
                &&& ((exists|n: i32| net_changed(d, old(subnets)@, n)) ==> {
                    let d0 = old(self).dirty_view();
                    let d1 = final(self).dirty_view();
                    &&& d1.len() == if d0.len() == 0 {
                        1int
                    } else {
                        d0.len() as int
                    }
                    &&& forall|w: int| 1 <= w < d1.len() ==> d1[w] == d0[w]
                    &&& forall|n: i32|
                        #[trigger] d1[0].contains(n) <==> (d0.len() > 0 && d0[0].contains(n))
                            || net_changed(d, old(subnets)@, n)
                })
            }),
            old(components)@[component].is_sink() ==> {
                &&& *final(subnets) == *old(subnets)
                &&& final(components)@ == old(components)@
                &&& final(self).dirty_view() == old(self).dirty_view()
                &&& final(self).changed_subnets@ == Map::<i32, SubnetState>::empty()
            },
    {
        let old_state = self.changed_subnets.take();
        let mut diff = self.simulate(component, &old_state, components, subnets, edges);
        let ghost d0 = diff@;
        let ghost nets0 = diff.nets@;
        let mut ai: usize = 0;
        while ai < diff.nets.len()
            invariant
                diff.wf(),
                subnets.wf(),
                ai <= diff.nets@.len(),
                diff.nets@ == nets0,
                forall|n: i32| #[trigger] d0.contains_key(n) ==> subnets@.contains_key(n),
                diff@ == augment_upto(d0, nets0, edges@, component, subnets@, ai as int),
            decreases diff.nets@.len() - ai,
        {
            let n = diff.nets[ai];
            proof {
                lemma_kv_dom(diff.nets@, diff.buckets@.map_values(|b: Vec<SubnetState>| b@));
                assert(diff.nets@.contains(n));
                assert(diff@.contains_key(n));
                assert(d0.contains_key(n));
                assert(!(exists|j: int| 0 <= j < ai && nets0[j] == n));
                assert(diff@[n] == d0[n]);
            }
            let drive = has_standing_driver(edges, component, n);
            if drive {
                let cur = match subnets.get(n) {
                    Some(sb) => sb.val(),
                    None => SubnetState::Floating,
                };
                diff.add_proposal(n, cur);
            }
            proof {
                assert forall|m: i32| #[trigger] d0.contains_key(m) implies diff@[m] == (
                if (exists|j: int| 0 <= j < ai + 1 && nets0[j] == m) && standing_driver(
                    edges@,
                    component,
                    m,
                ) && !d0[m].contains(subnets@[m].state) {
                    d0[m].push(subnets@[m].state)
                } else {
                    d0[m]
                }) by {
                    if m == n {
                        assert(nets0[ai as int] == n);
                        assert(exists|j: int| 0 <= j < ai + 1 && nets0[j] == m);
                    } else {
                        assert((exists|j: int| 0 <= j < ai + 1 && nets0[j] == m) <==> (exists|
                            j: int,
                        | 0 <= j < ai && nets0[j] == m));
                    }
                }
                assert(diff@ =~= augment_upto(d0, nets0, edges@, component, subnets@, ai + 1));
            }
            ai = ai + 1;
        }
        proof {
            lemma_kv_dom(diff.nets@, diff.buckets@.map_values(|b: Vec<SubnetState>| b@));
            assert forall|n: i32| #[trigger] d0.contains_key(n) implies (exists|j: int|
                0 <= j < nets0.len() && nets0[j] == n) by {
                assert(diff@.contains_key(n));
                assert(diff.nets@.contains(n));
            }
            assert(diff@ =~= with_standing_drives(d0, edges@, component, subnets@));
        }
        proof {
            if old(components)@[component].is_sink() {
                assert(old(components)@[component].spec_outputs(
                    sim_inputs(
                        edges@,
                        component,
                        old(components)@[component],
                        old_state@,
                        subnets@,
                    ),
                ) =~= Seq::<(usize, SubnetState)>::empty());
                if diff.nets@.len() > 0 {
                    lemma_diff_index(diff, 0);
                    assert(diff@.contains_key(diff.nets@[0]));
                    assert(false);
                }
                assert(diff.spec_len() == 0);
                assert(old(components)@[component].spec_next(
                    sim_inputs(
                        edges@,
                        component,
                        old(components)@[component],
                        old_state@,
                        subnets@,
                    ),
                ) == old(components)@[component]);
                assert(components@ =~= old(components)@);
            }
        }
        self.apply_state_diff(diff, subnets);
        proof {
            assert(self.changed_subnets@ =~= changed_map(
                with_standing_drives(
                    sim_diff(
                        old(components)@[component].spec_outputs(
                            sim_inputs(
                                edges@,
                                component,
                                old(components)@[component],
                                old(self).changed_subnets@,
                                old(subnets)@,
                            ),
                        ),
                        edges@,
                        component,
                        old(components)@[component],
                    ),
                    edges@,
                    component,
                    old(subnets)@,
                ),
                old(subnets)@,
            ));
            crate::component::lemma_next_kind(
                old(components)@[component],
                sim_inputs(
                    edges@,
                    component,
                    old(components)@[component],
                    old(self).changed_subnets@,
                    old(subnets)@,
                ),
            );
            let inputs = sim_inputs(
                edges@,
                component,
                old(components)@[component],
                old(self).changed_subnets@,
                old(subnets)@,
            );
            let d = with_standing_drives(
                sim_diff(
                    old(components)@[component].spec_outputs(inputs),
                    edges@,
                    component,
                    old(components)@[component],
                ),
                edges@,
                component,
                old(subnets)@,
            );
            if forall|n: i32| !net_changed(d, old(subnets)@, n) {
                assert forall|n: i32| subnets@.contains_key(n) implies subnets@[n] == old(
                    subnets,
                )@[n] by {
                    assert(old(subnets)@.contains_key(n));
                    if d.contains_key(n) {
                        assert(!net_changed(d, old(subnets)@, n));
                        assert(subnets@[n].state == old(subnets)@[n].state);
                    }
                }
                assert(subnets@ =~= old(subnets)@);
            }
            let s0 = engine_state(*old(self), *old(components), *old(subnets));
            let sr = spec_react(edges@, s0, component);
            assert(sr.components == components@);
            assert(sr.subnets =~= subnets@) by {
                assert forall|n: i32| old(subnets)@.contains_key(n) implies subnets@[n] == (
                if d.contains_key(n) {
                    Subnet { state: resolve_seq(d[n]) }
                } else {
                    old(subnets)@[n]
                }) by {
                    assert(subnets@[n].state == (if d.contains_key(n) {
                        resolve_seq(d[n])
                    } else {
                        old(subnets)@[n].state
                    }));
                }
            }
            assert(sr.changed =~= self.changed_subnets@);
            if forall|n: i32| !net_changed(d, old(subnets)@, n) {
                assert(sr.dirty == s0.dirty);
                assert(dirty_sets(*self) =~~= s0.dirty) by {
                    assert(self.dirty_view() == old(self).dirty_view());
                }
            } else {
                let moved = Set::new(|n: i32| net_changed(d, old(subnets)@, n));
                let d0a = old(self).dirty_view();
                assert(dirty_sets(*self) =~~= sr.dirty) by {
                    assert(self.dirty_view().len() == if d0a.len() == 0 {
                        1int
                    } else {
                        d0a.len() as int
                    });
                    assert(dirty_sets(*self).len() == sr.dirty.len());
                    assert forall|w: int| 0 <= w < sr.dirty.len() implies dirty_sets(*self)[w]
                        =~= sr.dirty[w] by {
                        if w == 0 {
                            assert forall|n: i32|
                                #[trigger] dirty_sets(*self)[0].contains(n) <==> sr.dirty[
                            0].contains(n) by {
                                assert(dirty_sets(*self)[0].contains(n) == self.dirty_view()[
                                0].contains(n));
                                assert(self.dirty_view()[0].contains(n) <==> (d0a.len() > 0
                                    && d0a[0].contains(n)) || net_changed(d, old(subnets)@, n));
                                if s0.dirty.len() == 0 {
                                    assert(sr.dirty[0] == moved);
                                } else {
                                    assert(sr.dirty[0] == s0.dirty[0].union(moved));
                                    assert(s0.dirty[0] == wave_set(d0a[0]));
                                }
                            }
                        } else {
                            assert(self.dirty_view()[w] == d0a[w]);
                            assert(sr.dirty[w] == s0.dirty[w]);
                            assert(s0.dirty[w] == wave_set(d0a[w]));
                        }
                    }
                }
            }
            assert(engine_state(*self, *components, *subnets) == sr);
        }
    }

    /// Settles the network: advances waves until the queue is empty or the
    /// iteration cap is hit.  The cap bounds the time spent on a network
    /// that oscillates forever; exceeding it silently leaves the network in
    /// the transient state the last completed wave produced.
    pub fn process_until_clean(
        &mut self,
        components: &mut IdMap<Component>,
        subnets: &mut IdMap<Subnet>,
        edges: &Vec<Edge>,
    ) -> (r: bool)
        requires
            old(self).wf(),
            old(components).wf(),
            old(subnets).wf(),
            edges_distinct(edges@),
            edges_subnets_live(edges@, old(subnets)@),
            edges_components_live(edges@, old(components)@),
        ensures
            final(self).wf(),
            final(components).wf(),
            final(subnets).wf(),
            final(components).spec_len() == old(components).spec_len(),
            same_shape(old(components)@, final(components)@),
            forall|n: i32| final(subnets)@.contains_key(n) <==> old(subnets)@.contains_key(n),
            r == false,
            engine_state(*final(self), *final(components), *final(subnets)) == spec_settle(
                edges@,
                engine_state(*old(self), *old(components), *old(subnets)),
                1000,
            ),
            old(self).dirty_empty() ==> *final(self) == *old(self) && *final(components) == *old(
                components,
            ) && *final(subnets) == *old(subnets),
            (old(self).dirty_view().len() == 1 && (forall|i: int|
                0 <= i < edges@.len() && old(self).dirty_view()[0].contains(
                    #[trigger] edges@[i].subnet,
                ) ==> edges@[i].direction == EdgeDirection::ToSubnet)) ==> {
                &&& *final(components) == *old(components)
                &&& *final(subnets) == *old(subnets)
                &&& final(self).dirty_empty()
                &&& final(self).changed_subnets@ == Map::<i32, SubnetState>::empty()
            },
            forall|c: i32|
                old(components)@.contains_key(c) && #[trigger] pure_driver(edges@, c)
                    ==> final(components)@[c] == old(components)@[c],
            (old(self).dirty_view().len() == 1 && (forall|n: i32|
                !wave_changed(
                    edges@,
                    wave_set(old(self).dirty_view()[0]),
                    old(components)@,
                    old(self).changed_subnets@,
                    old(subnets)@,
                    n,
                ))) ==> {
                &&& final(components)@ == wave_components(
                    edges@,
                    wave_set(old(self).dirty_view()[0]),
                    old(components)@,
                    old(self).changed_subnets@,
                    old(subnets)@,
                )
                &&& forall|n: i32|
                    old(subnets)@.contains_key(n) ==> final(subnets)@[n].state == wave_value(
                        edges@,
                        wave_set(old(self).dirty_view()[0]),
                        old(components)@,
                        old(self).changed_subnets@,
                        old(subnets)@,
                        n,
                    )
                &&& final(self).dirty_empty()
                &&& final(self).changed_subnets@ == Map::<i32, SubnetState>::empty()
            },
    {
        let ghost settles1 = old(self).dirty_view().len() == 1 && (forall|n: i32|
            !wave_changed(
                edges@,
                wave_set(old(self).dirty_view()[0]),
                old(components)@,
                old(self).changed_subnets@,
                old(subnets)@,
                n,
            ));
        let ghost quiet = old(self).dirty_view().len() == 1 && (forall|i: int|
            0 <= i < edges@.len() && old(self).dirty_view()[0].contains(
                #[trigger] edges@[i].subnet,
            ) ==> edges@[i].direction == EdgeDirection::ToSubnet);
        let mut iter: usize = 0;
        while iter < 1000
            invariant
                iter <= 1000,
                self.wf(),
                components.wf(),
                subnets.wf(),
                edges_distinct(edges@),
                edges_subnets_live(edges@, subnets@),
                edges_components_live(edges@, components@),
                same_shape(old(components)@, components@),
                components.spec_len() == old(components).spec_len(),
                forall|n: i32| subnets@.contains_key(n) <==> old(subnets)@.contains_key(n),
                old(self).dirty_empty() ==> *self == *old(self) && *components == *old(components)
                    && *subnets == *old(subnets),
                engine_state(*self, *components, *subnets) == spec_settle(
                    edges@,
                    engine_state(*old(self), *old(components), *old(subnets)),
                    iter as nat,
                ),
                quiet == (old(self).dirty_view().len() == 1 && (forall|i: int|
                    0 <= i < edges@.len() && old(self).dirty_view()[0].contains(
                        #[trigger] edges@[i].subnet,
                    ) ==> edges@[i].direction == EdgeDirection::ToSubnet)),
                quiet ==> ((iter == 0 && *self == *old(self) && *components == *old(components)
                    && *subnets == *old(subnets)) || (*components == *old(components) && *subnets
                    == *old(subnets) && self.dirty_empty() && self.changed_subnets@ == Map::<
                    i32,
                    SubnetState,
                >::empty())),
                forall|c: i32|
                    old(components)@.contains_key(c) && #[trigger] pure_driver(edges@, c)
                        ==> components@[c] == old(components)@[c],
                settles1 == (old(self).dirty_view().len() == 1 && (forall|n: i32|
                    !wave_changed(
                        edges@,
                        wave_set(old(self).dirty_view()[0]),
                        old(components)@,
                        old(self).changed_subnets@,
                        old(subnets)@,
                        n,
                    ))),
                settles1 ==> ((iter == 0 && *self == *old(self) && *components == *old(
                    components,
                ) && *subnets == *old(subnets)) || (components@ == wave_components(
                    edges@,
                    wave_set(old(self).dirty_view()[0]),
                    old(components)@,
                    old(self).changed_subnets@,
                    old(subnets)@,
                ) && (forall|n: i32|
                    old(subnets)@.contains_key(n) ==> subnets@[n].state == wave_value(
                        edges@,
                        wave_set(old(self).dirty_view()[0]),
                        old(components)@,
                        old(self).changed_subnets@,
                        old(subnets)@,
                        n,
                    )) && self.dirty_empty() && self.changed_subnets@ == Map::<
                    i32,
                    SubnetState,
                >::empty())),
            decreases 1000 - iter,
        {
            let ghost self_pre = *self;
            let ghost components_pre = components@;
            let ghost state_pre = engine_state(*self, *components, *subnets);
            self.advance_time(components, subnets, edges);
            proof {
                lemma_settle_step(
                    edges@,
                    engine_state(*old(self), *old(components), *old(subnets)),
                    iter as nat,
                );
                assert(engine_state(*self, *components, *subnets) == spec_advance(
                    edges@,
                    state_pre,
                ));
                assert forall|c: i32|
                    components_pre.contains_key(c) && #[trigger] pure_driver(edges@, c) implies
                components@[c] == components_pre[c] by {
                    if !self_pre.dirty_empty() {
                        if fanout(edges@, wave_set(self_pre.dirty_view()[0])).contains(c) {
                            let i = choose|i: int|
                                0 <= i < edges@.len() && edges@[i].component == c
                                    && self_pre.dirty_view()[0].contains(edges@[i].subnet)
                                    && edges@[i].direction != EdgeDirection::ToSubnet;
                            assert(false);
                        }
                    }
                }
                if quiet {
                    if iter == 0 {
                        assert(self.dirty_view() =~= old(self).dirty_view().drop_first());
                        assert(self.dirty_empty());
                    }
                }
                if settles1 && iter == 0 {
                    assert(self.changed_subnets@ =~= Map::<i32, SubnetState>::empty());
                    assert(self.dirty_view() =~= old(self).dirty_view().drop_first());
                    assert(self.dirty_empty());
                }
            }
            iter = iter + 1;
        }
        false
    }

    /// Toggles every registered clock (each advances its free-running
    /// latch by one evaluation) and settles the network.
    pub fn time_step(
        &mut self,
        clocks: &Vec<i32>,
        components: &mut IdMap<Component>,
        subnets: &mut IdMap<Subnet>,
        edges: &Vec<Edge>,
    )
        requires
            old(self).wf(),
            old(components).wf(),
            old(subnets).wf(),
            edges_distinct(edges@),
            edges_subnets_live(edges@, old(subnets)@),
            edges_components_live(edges@, old(components)@),
        ensures
            final(self).wf(),
            final(components).wf(),
            final(subnets).wf(),
            final(components).spec_len() == old(components).spec_len(),
            same_shape(old(components)@, final(components)@),
            forall|n: i32| final(subnets)@.contains_key(n) <==> old(subnets)@.contains_key(n),
            engine_state(*final(self), *final(components), *final(subnets)) == spec_settle(
                edges@,
                spec_tick_clocks(
                    edges@,
                    engine_state(*old(self), *old(components), *old(subnets)),
                    clocks@,
                    clocks@.len() as int,
                ),
                1000,
            ),
            seq_distinct(clocks@) ==> forall|c: i32|
                (#[trigger] old(components)@.contains_key(c) && (old(components)@[c] is Clock)
                    && pure_driver(edges@, c)) ==> final(components)@[c] == (if clocks@.contains(
                    c,
                ) {
                    Component::Clock { state: !old(components)@[c].spec_latch() }
                } else {
                    old(components)@[c]
                }),
    {
        let mut u: usize = 0;
        while u < clocks.len()
            invariant
                u <= clocks@.len(),
                self.wf(),
                components.wf(),
                subnets.wf(),
                edges_distinct(edges@),
                edges_subnets_live(edges@, subnets@),
                edges_components_live(edges@, components@),
                same_shape(old(components)@, components@),
                components.spec_len() == old(components).spec_len(),
                forall|n: i32| subnets@.contains_key(n) <==> old(subnets)@.contains_key(n),
                engine_state(*self, *components, *subnets) == spec_tick_clocks(
                    edges@,
                    engine_state(*old(self), *old(components), *old(subnets)),
                    clocks@,
                    u as int,
                ),
                seq_distinct(clocks@) ==> forall|c: i32|
                    (#[trigger] old(components)@.contains_key(c) && (old(components)@[c]
                        is Clock) && pure_driver(edges@, c)) ==> components@[c] == (if exists|
                        j: int,
                    | 0 <= j < u && clocks@[j] == c {
                        Component::Clock { state: !old(components)@[c].spec_latch() }
                    } else {
                        old(components)@[c]
                    }),
            decreases clocks@.len() - u,
        {
            let c = clocks[u];
            let ghost components_pre = components@;
            let ghost state_pre = engine_state(*self, *components, *subnets);
            let here = components.contains_key(c);
            if here {
                self.update_component(c, components, subnets, edges);
            }
            proof {
                let s0 = engine_state(*old(self), *old(components), *old(subnets));
                assert(spec_tick_clocks(edges@, s0, clocks@, u + 1) == (
                if spec_tick_clocks(edges@, s0, clocks@, u as int).components.contains_key(
                    clocks@[u as int],
                ) {
                    spec_react(edges@, spec_tick_clocks(edges@, s0, clocks@, u as int), c)
                } else {
                    spec_tick_clocks(edges@, s0, clocks@, u as int)
                }));
                assert(here == state_pre.components.contains_key(c));
                if here {
                    assert(engine_state(*self, *components, *subnets) == spec_react(
                        edges@,
                        state_pre,
                        c,
                    ));
                }
                assert(engine_state(*self, *components, *subnets) == spec_tick_clocks(
                    edges@,
                    s0,
                    clocks@,
                    u + 1,
                ));
                if seq_distinct(clocks@) {
                    assert forall|x: i32|
                        (#[trigger] old(components)@.contains_key(x) && (old(components)@[x]
                            is Clock) && pure_driver(edges@, x)) implies components@[x] == (if
                    exists|j: int| 0 <= j < u + 1 && clocks@[j] == x {
                        Component::Clock { state: !old(components)@[x].spec_latch() }
                    } else {
                        old(components)@[x]
                    }) by {
                        if x == c {
                            assert(clocks@[u as int] == x);
                            assert(exists|j: int| 0 <= j < u + 1 && clocks@[j] == x);
                            assert(!(exists|j: int| 0 <= j < u && clocks@[j] == x));
                            assert(components_pre[x] == old(components)@[x]);
                        } else {
                            assert((exists|j: int| 0 <= j < u + 1 && clocks@[j] == x) <==> (
                            exists|j: int| 0 <= j < u && clocks@[j] == x));
                        }
                    }
                }
            }
            u = u + 1;
        }
        let ghost components_mid = components@;
        self.process_until_clean(components, subnets, edges);
        proof {
            if seq_distinct(clocks@) {
                assert forall|c: i32|
                    (#[trigger] old(components)@.contains_key(c) && (old(components)@[c]
                        is Clock) && pure_driver(edges@, c)) implies components@[c] == (if
                clocks@.contains(c) {
                    Component::Clock { state: !old(components)@[c].spec_latch() }
                } else {
                    old(components)@[c]
                }) by {
                    assert(components_mid.contains_key(c));
                    assert(components@[c] == components_mid[c]);
                    if clocks@.contains(c) {
                        let j = choose|j: int| 0 <= j < clocks@.len() && clocks@[j] == c;
                        assert(exists|j: int|
                            0 <= j < clocks@.len() && clocks@[j] == c);
                    } else {
                        if exists|j: int| 0 <= j < clocks@.len() && clocks@[j] == c {
                            let j = choose|j: int|
                                0 <= j < clocks@.len() && clocks@[j] == c;
                            assert(clocks@.contains(c));
                            assert(false);
                        }
                    }
                }
            }
        }
    }
}

} // verus!
