//! The component catalog: gates, tri-state drivers, flip-flops, sources and
//! sinks, with their port layout and evaluation laws.
//!
//! The catalog is a closed enumeration, so each component's behaviour is a
//! total function given by an explicit truth table.

use crate::idmap::{kv_map, lemma_kv_dom, lemma_kv_index};
use crate::edge::EdgeDirection;
use crate::subnet::SubnetState;
use vstd::prelude::*;

verus! {

/// The type of one component port.
#[derive(Debug, PartialEq, Eq, Structural, Clone, Copy)]
pub enum PortType {
    Input,
    Output,
    Bidirectional,
}

impl PortType {
    /// The direction an edge on a port of this type carries.
    pub open spec fn spec_to_edge_direction(self) -> EdgeDirection {
        match self {
            PortType::Input => EdgeDirection::ToComponent,
            PortType::Bidirectional => EdgeDirection::Bidirectional,
            PortType::Output => EdgeDirection::ToSubnet,
        }
    }

    pub fn to_edge_direction(&self) -> (r: EdgeDirection)
        ensures
            r == self.spec_to_edge_direction(),
    {
        match self {
            PortType::Input => EdgeDirection::ToComponent,
            PortType::Bidirectional => EdgeDirection::Bidirectional,
            PortType::Output => EdgeDirection::ToSubnet,
        }
    }
}

/// The (previous, current) pair of a subnet's value handed to a component,
/// enabling clock-edge detection.
#[derive(Debug, PartialEq, Eq, Structural, Clone, Copy)]
pub struct StateChange {
    pub previous: SubnetState,
    pub current: SubnetState,
}

impl StateChange {
    pub fn new(previous: SubnetState, current: SubnetState) -> (r: Self)
        ensures
            r == (StateChange { previous, current }),
    {
        StateChange { previous, current }
    }

    /// An `Off` to `On` transition.
    pub open spec fn spec_rising(self) -> bool {
        self.previous == SubnetState::Off && self.current == SubnetState::On
    }

    pub fn rising(&self) -> (r: bool)
        ensures
            r == self.spec_rising(),
    {
        self.previous == SubnetState::Off && self.current == SubnetState::On
    }

    /// An `On` to `Off` transition.
    pub open spec fn spec_falling(self) -> bool {
        self.previous == SubnetState::On && self.current == SubnetState::Off
    }

    pub fn falling(&self) -> (r: bool)
        ensures
            r == self.spec_falling(),
    {
        self.previous == SubnetState::On && self.current == SubnetState::Off
    }
}

/// The closed catalog of component kinds exposed to the host.
#[derive(Debug, PartialEq, Eq, Structural, Clone, Copy)]
pub enum ComponentId {
    Constant,
    Output,
    Input,
    LED,
    Button,
    Switch,
    Buffer,
    Not,
    And,
    Nand,
    Or,
    Nor,
    Xor,
    Xnor,
    TriStateBuffer,
    TriStateInverter,
    DFlipFlop,
    TFlipFlop,
    JKFlipFlop,
    SRFlipFlop,
    Probe,
    Clock,
}

/// The per-port input snapshot passed to a component's evaluation: for each
/// connected input port, how its subnet's value changed.
pub struct InputStates {
    pub ports: Vec<usize>,
    pub changes: Vec<StateChange>,
}

impl View for InputStates {
    type V = Map<usize, StateChange>;

    open spec fn view(&self) -> Map<usize, StateChange> {
        kv_map(self.ports@, self.changes@)
    }
}

impl InputStates {
    /// Port uniqueness and alignment of the two vectors.
    pub open spec fn wf(&self) -> bool {
        &&& self.ports@.len() == self.changes@.len()
        &&& forall|a: int, b: int|
            0 <= a < b < self.ports@.len() ==> self.ports@[a] != self.ports@[b]
    }

    pub fn new() -> (r: Self)
        ensures
            r.wf(),
            r@ == Map::<usize, StateChange>::empty(),
    {
        InputStates { ports: Vec::new(), changes: Vec::new() }
    }

    /// Records the change seen on one port, replacing any earlier record.
    pub fn insert(&mut self, port: usize, change: StateChange)
        requires
            old(self).wf(),
        ensures
            final(self).wf(),
            final(self)@ == old(self)@.insert(port, change),
    {
        proof {
            lemma_kv_dom(self.ports@, self.changes@);
        }
        let mut i: usize = 0;
        while i < self.ports.len()
            invariant
                i <= self.ports@.len(),
                forall|j: int| 0 <= j < i ==> self.ports@[j] != port,
                self == old(self),
                self.wf(),
            decreases self.ports@.len() - i,
        {
            if self.ports[i] == port {
                proof {
                    assert(self.ports@.contains(port));
                }
                self.changes.set(i, change);
                proof {
                    crate::idmap::lemma_kv_update(old(self).ports@, old(self).changes@, i as int, change);
                }
                return ;
            }
            i = i + 1;
        }
        self.ports.push(port);
        self.changes.push(change);
        proof {
            assert(self.ports@.drop_last() =~= old(self).ports@);
            assert(self.changes@.drop_last() =~= old(self).changes@);
        }
    }

    /// The change recorded for a port, if any.
    pub fn get(&self, port: usize) -> (r: Option<StateChange>)
        requires
            self.wf(),
        ensures
            r == if self@.contains_key(port) {
                Some(self@[port])
            } else {
                None::<StateChange>
            },
    {
        proof {
            lemma_kv_dom(self.ports@, self.changes@);
        }
        let mut i: usize = 0;
        while i < self.ports.len()
            invariant
                i <= self.ports@.len(),
                forall|j: int| 0 <= j < i ==> self.ports@[j] != port,
                self.wf(),
            decreases self.ports@.len() - i,
        {
            if self.ports[i] == port {
                proof {
                    assert(self.ports@.contains(port));
                    lemma_kv_index(self.ports@, self.changes@, i as int);
                }
                return Some(self.changes[i]);
            }
            i = i + 1;
        }
        None
    }

    /// The current value on a port, `Floating` when the port is unrecorded
    /// (an unconnected input defaults to undriven).
    pub fn current_or_floating(&self, port: usize) -> (r: SubnetState)
        requires
            self.wf(),
        ensures
            r == spec_in_current(self@, port),
    {
        match self.get(port) {
            Some(c) => c.current,
            None => SubnetState::Floating,
        }
    }

    /// Whether the port saw a rising edge this round.
    pub fn rising(&self, port: usize) -> (r: bool)
        requires
            self.wf(),
        ensures
            r == spec_in_rising(self@, port),
    {
        match self.get(port) {
            Some(c) => c.rising(),
            None => false,
        }
    }
}

/// The current value an input snapshot reports for a port, defaulting to
/// `Floating` for an unconnected port.
pub open spec fn spec_in_current(m: Map<usize, StateChange>, p: usize) -> SubnetState {
    if m.contains_key(p) {
        m[p].current
    } else {
        SubnetState::Floating
    }
}

/// Whether an input snapshot reports a rising edge on a port.
pub open spec fn spec_in_rising(m: Map<usize, StateChange>, p: usize) -> bool {
    m.contains_key(p) && m[p].spec_rising()
}

/// A well-defined (driven) logic level.
pub open spec fn defined(v: SubnetState) -> bool {
    v == SubnetState::Off || v == SubnetState::On
}

/// NOT: inverts a driven level; anything else is a conflict.
pub open spec fn not_law(a: SubnetState) -> SubnetState {
    if a == SubnetState::Off {
        SubnetState::On
    } else if a == SubnetState::On {
        SubnetState::Off
    } else {
        SubnetState::Error
    }
}

/// AND over driven levels; any undriven or conflicting operand gives `Error`.
pub open spec fn and_law(a: SubnetState, b: SubnetState) -> SubnetState {
    if defined(a) && defined(b) {
        if a == SubnetState::On && b == SubnetState::On {
            SubnetState::On
        } else {
            SubnetState::Off
        }
    } else {
        SubnetState::Error
    }
}

/// OR over driven levels; any undriven or conflicting operand gives `Error`.
pub open spec fn or_law(a: SubnetState, b: SubnetState) -> SubnetState {
    if defined(a) && defined(b) {
        if a == SubnetState::On || b == SubnetState::On {
            SubnetState::On
        } else {
            SubnetState::Off
        }
    } else {
        SubnetState::Error
    }
}

/// XOR over driven levels; any undriven or conflicting operand gives `Error`.
pub open spec fn xor_law(a: SubnetState, b: SubnetState) -> SubnetState {
    if defined(a) && defined(b) {
        if a == b {
            SubnetState::Off
        } else {
            SubnetState::On
        }
    } else {
        SubnetState::Error
    }
}

/// Tri-state buffer: follows the data input while enabled, else floats.
pub open spec fn tri_buffer_law(data: SubnetState, enable: SubnetState) -> SubnetState {
    if enable.spec_truthy() {
        data
    } else {
        SubnetState::Floating
    }
}

/// Tri-state inverter: inverts the data input while enabled, else floats.
pub open spec fn tri_inverter_law(data: SubnetState, enable: SubnetState) -> SubnetState {
    if enable.spec_truthy() {
        not_law(data)
    } else {
        SubnetState::Floating
    }
}

/// The level a one-bit latch drives.
pub open spec fn latch_out(b: bool) -> SubnetState {
    if b {
        SubnetState::On
    } else {
        SubnetState::Off
    }
}

/// D flip-flop latch update on a qualifying clock edge: follow `d`.
pub open spec fn d_latch(cur: bool, d: SubnetState, clocked: bool) -> bool {
    if clocked {
        if d == SubnetState::On {
            true
        } else if d == SubnetState::Off {
            false
        } else {
            cur
        }
    } else {
        cur
    }
}

/// T flip-flop latch update on a qualifying clock edge: toggle if `t`.
pub open spec fn t_latch(cur: bool, t: SubnetState, clocked: bool) -> bool {
    if clocked && t.spec_truthy() {
        !cur
    } else {
        cur
    }
}

/// JK flip-flop latch update on a qualifying clock edge.
pub open spec fn jk_latch(cur: bool, j: SubnetState, k: SubnetState, clocked: bool) -> bool {
    if clocked {
        if j.spec_truthy() && k.spec_falsy() {
            true
        } else if j.spec_falsy() && k.spec_truthy() {
            false
        } else if j.spec_truthy() && k.spec_truthy() {
            !cur
        } else {
            cur
        }
    } else {
        cur
    }
}

/// SR flip-flop latch update on a qualifying clock edge; S and R together
/// hold the latch.
pub open spec fn sr_latch(cur: bool, s: SubnetState, r: SubnetState, clocked: bool) -> bool {
    if clocked {
        if s.spec_truthy() && r.spec_falsy() {
            true
        } else if s.spec_falsy() && r.spec_truthy() {
            false
        } else {
            cur
        }
    } else {
        cur
    }
}

/// A component instance: its kind, and for stateful kinds the one-bit latch.
#[derive(Debug, PartialEq, Eq, Structural, Clone, Copy)]
pub enum Component {
    OutputGate,
    InputGate,
    LED,
    Probe,
    Buffer,
    Not,
    And,
    Nand,
    Or,
    Nor,
    Xor,
    Xnor,
    TriBuffer,
    TriInverter,
    Constant { state: bool },
    Button { state: bool },
    Switch { state: bool },
    DFlipFlop { state: bool },
    TFlipFlop { state: bool },
    JKFlipFlop { state: bool },
    SRFlipFlop { state: bool },
    Clock { state: bool },
}

impl Component {
    /// How many ports the component has.
    pub open spec fn spec_ports(self) -> usize {
        match self {
            Component::OutputGate => 1,
            Component::InputGate => 1,
            Component::LED => 1,
            Component::Probe => 1,
            Component::Buffer => 2,
            Component::Not => 2,
            Component::And => 3,
            Component::Nand => 3,
            Component::Or => 3,
            Component::Nor => 3,
            Component::Xor => 3,
            Component::Xnor => 3,
            Component::TriBuffer => 3,
            Component::TriInverter => 3,
            Component::Constant { .. } => 1,
            Component::Button { .. } => 1,
            Component::Switch { .. } => 1,
            Component::DFlipFlop { .. } => 5,
            Component::TFlipFlop { .. } => 5,
            Component::JKFlipFlop { .. } => 6,
            Component::SRFlipFlop { .. } => 6,
            Component::Clock { .. } => 1,
        }
    }

    /// The type of each port, `None` beyond the last port.
    pub open spec fn spec_port_type(self, port: usize) -> Option<PortType> {
        if port >= self.spec_ports() {
            None
        } else {
            match self {
                Component::OutputGate | Component::LED | Component::Probe => Some(PortType::Input),
                Component::InputGate | Component::Constant { .. } | Component::Button { .. }
                    | Component::Switch { .. } | Component::Clock { .. } => Some(PortType::Output),
                Component::Buffer | Component::Not => if port == 0 {
                    Some(PortType::Input)
                } else {
                    Some(PortType::Output)
                },
                Component::And | Component::Nand | Component::Or | Component::Nor | Component::Xor
                    | Component::Xnor | Component::TriBuffer | Component::TriInverter => if port
                    <= 1 {
                    Some(PortType::Input)
                } else {
                    Some(PortType::Output)
                },
                Component::DFlipFlop { .. } | Component::TFlipFlop { .. } => if port <= 2 {
                    Some(PortType::Input)
                } else {
                    Some(PortType::Output)
                },
                Component::JKFlipFlop { .. } | Component::SRFlipFlop { .. } => if port <= 3 {
                    Some(PortType::Input)
                } else {
                    Some(PortType::Output)
                },
            }
        }
    }

    /// A component that only observes its input and drives nothing.
    pub open spec fn is_sink(self) -> bool {
        match self {
            Component::OutputGate | Component::LED | Component::Probe => true,
            _ => false,
        }
    }

    /// The component as it stands after one evaluation: flip-flops latch on
    /// a qualifying clock edge, the clock source toggles, all else is
    /// unchanged.
    pub open spec fn spec_next(self, m: Map<usize, StateChange>) -> Component {
        match self {
            Component::DFlipFlop { state } => Component::DFlipFlop {
                state: d_latch(
                    state,
                    spec_in_current(m, 0),
                    spec_in_rising(m, 1) && spec_in_current(m, 2) != SubnetState::On,
                ),
            },
            Component::TFlipFlop { state } => Component::TFlipFlop {
                state: t_latch(
                    state,
                    spec_in_current(m, 0),
                    spec_in_rising(m, 1) && spec_in_current(m, 2) != SubnetState::On,
                ),
            },
            Component::JKFlipFlop { state } => Component::JKFlipFlop {
                state: jk_latch(
                    state,
                    spec_in_current(m, 0),
                    spec_in_current(m, 1),
                    spec_in_rising(m, 2) && spec_in_current(m, 3) != SubnetState::On,
                ),
            },
            Component::SRFlipFlop { state } => Component::SRFlipFlop {
                state: sr_latch(
                    state,
                    spec_in_current(m, 0),
                    spec_in_current(m, 1),
                    spec_in_rising(m, 2) && spec_in_current(m, 3) != SubnetState::On,
                ),
            },
            Component::Clock { state } => Component::Clock { state: !state },
            _ => self,
        }
    }

    /// The (port, value) proposals one evaluation emits, as a function of
    /// the input snapshot and the latch; this is the full truth table.
    pub open spec fn spec_outputs(self, m: Map<usize, StateChange>) -> Seq<(usize, SubnetState)> {
        match self {
            Component::OutputGate | Component::LED | Component::Probe => Seq::empty(),
            Component::InputGate => seq![(0usize, SubnetState::On)],
            Component::Buffer => seq![(1usize, spec_in_current(m, 0))],
            Component::Not => seq![(1usize, not_law(spec_in_current(m, 0)))],
            Component::And => seq![
                (2usize, and_law(spec_in_current(m, 0), spec_in_current(m, 1))),
            ],
            Component::Nand => seq![
                (2usize, not_law(and_law(spec_in_current(m, 0), spec_in_current(m, 1)))),
            ],
            Component::Or => seq![(2usize, or_law(spec_in_current(m, 0), spec_in_current(m, 1)))],
            Component::Nor => seq![
                (2usize, not_law(or_law(spec_in_current(m, 0), spec_in_current(m, 1)))),
            ],
            Component::Xor => seq![
                (2usize, xor_law(spec_in_current(m, 0), spec_in_current(m, 1))),
            ],
            Component::Xnor => seq![
                (2usize, not_law(xor_law(spec_in_current(m, 0), spec_in_current(m, 1)))),
            ],
            Component::TriBuffer => seq![
                (2usize, tri_buffer_law(spec_in_current(m, 0), spec_in_current(m, 1))),
            ],
            Component::TriInverter => seq![
                (2usize, tri_inverter_law(spec_in_current(m, 0), spec_in_current(m, 1))),
            ],
            Component::Constant { state } => seq![(0usize, latch_out(state))],
            Component::Button { state } => seq![(0usize, latch_out(state))],
            Component::Switch { state } => seq![(0usize, latch_out(state))],
            Component::DFlipFlop { .. } | Component::TFlipFlop { .. } => {
                let b = self.spec_next(m).spec_latch();
                seq![(3usize, latch_out(b)), (4usize, latch_out(!b))]
            },
            Component::JKFlipFlop { .. } | Component::SRFlipFlop { .. } => {
                let b = self.spec_next(m).spec_latch();
                seq![(4usize, latch_out(b)), (5usize, latch_out(!b))]
            },
            Component::Clock { state } => seq![(0usize, latch_out(state))],
        }
    }

    /// The latch of a stateful component (false for stateless kinds).
    pub open spec fn spec_latch(self) -> bool {
        match self {
            Component::Constant { state } => state,
            Component::Button { state } => state,
            Component::Switch { state } => state,
            Component::DFlipFlop { state } => state,
            Component::TFlipFlop { state } => state,
            Component::JKFlipFlop { state } => state,
            Component::SRFlipFlop { state } => state,
            Component::Clock { state } => state,
            _ => false,
        }
    }

    /// The same component with its latch replaced (stateless kinds are
    /// returned unchanged).
    pub open spec fn spec_with_latch(self, b: bool) -> Component {
        match self {
            Component::Constant { .. } => Component::Constant { state: b },
            Component::Button { .. } => Component::Button { state: b },
            Component::Switch { .. } => Component::Switch { state: b },
            Component::DFlipFlop { .. } => Component::DFlipFlop { state: b },
            Component::TFlipFlop { .. } => Component::TFlipFlop { state: b },
            Component::JKFlipFlop { .. } => Component::JKFlipFlop { state: b },
            Component::SRFlipFlop { .. } => Component::SRFlipFlop { state: b },
            Component::Clock { .. } => Component::Clock { state: b },
            _ => self,
        }
    }

    /// Whether the component carries a latch at all.
    pub open spec fn spec_has_latch(self) -> bool {
        match self {
            Component::Constant { .. } | Component::Button { .. } | Component::Switch { .. }
                | Component::DFlipFlop { .. } | Component::TFlipFlop { .. }
                | Component::JKFlipFlop { .. } | Component::SRFlipFlop { .. }
                | Component::Clock { .. } => true,
            _ => false,
        }
    }

    /// The fresh component of a catalog kind (latches start cleared).
    pub open spec fn spec_from_id(id: ComponentId) -> Component {
        match id {
            ComponentId::Constant => Component::Constant { state: false },
            ComponentId::Output => Component::OutputGate,
            ComponentId::Input => Component::InputGate,
            ComponentId::LED => Component::LED,
            ComponentId::Button => Component::Button { state: false },
            ComponentId::Switch => Component::Switch { state: false },
            ComponentId::Buffer => Component::Buffer,
            ComponentId::Not => Component::Not,
            ComponentId::And => Component::And,
            ComponentId::Nand => Component::Nand,
            ComponentId::Or => Component::Or,
            ComponentId::Nor => Component::Nor,
            ComponentId::Xor => Component::Xor,
            ComponentId::Xnor => Component::Xnor,
            ComponentId::TriStateBuffer => Component::TriBuffer,
            ComponentId::TriStateInverter => Component::TriInverter,
            ComponentId::DFlipFlop => Component::DFlipFlop { state: false },
            ComponentId::TFlipFlop => Component::TFlipFlop { state: false },
            ComponentId::JKFlipFlop => Component::JKFlipFlop { state: false },
            ComponentId::SRFlipFlop => Component::SRFlipFlop { state: false },
            ComponentId::Probe => Component::Probe,
            ComponentId::Clock => Component::Clock { state: false },
        }
    }

    pub fn from_id(id: ComponentId) -> (r: Component)
        ensures
            r == Component::spec_from_id(id),
    {
        match id {
            ComponentId::Constant => Component::Constant { state: false },
            ComponentId::Output => Component::OutputGate,
            ComponentId::Input => Component::InputGate,
            ComponentId::LED => Component::LED,
            ComponentId::Button => Component::Button { state: false },
            ComponentId::Switch => Component::Switch { state: false },
            ComponentId::Buffer => Component::Buffer,
            ComponentId::Not => Component::Not,
            ComponentId::And => Component::And,
            ComponentId::Nand => Component::Nand,
            ComponentId::Or => Component::Or,
            ComponentId::Nor => Component::Nor,
            ComponentId::Xor => Component::Xor,
            ComponentId::Xnor => Component::Xnor,
            ComponentId::TriStateBuffer => Component::TriBuffer,
            ComponentId::TriStateInverter => Component::TriInverter,
            ComponentId::DFlipFlop => Component::DFlipFlop { state: false },
            ComponentId::TFlipFlop => Component::TFlipFlop { state: false },
            ComponentId::JKFlipFlop => Component::JKFlipFlop { state: false },
            ComponentId::SRFlipFlop => Component::SRFlipFlop { state: false },
            ComponentId::Probe => Component::Probe,
            ComponentId::Clock => Component::Clock { state: false },
        }
    }

    pub fn ports(&self) -> (n: usize)
        ensures
            n == self.spec_ports(),
    {
        match self {
            Component::OutputGate | Component::InputGate | Component::LED | Component::Probe
                | Component::Constant { .. } | Component::Button { .. } | Component::Switch { .. }
                | Component::Clock { .. } => 1,
            Component::Buffer | Component::Not => 2,
            Component::And | Component::Nand | Component::Or | Component::Nor | Component::Xor
                | Component::Xnor | Component::TriBuffer | Component::TriInverter => 3,
            Component::DFlipFlop { .. } | Component::TFlipFlop { .. } => 5,
            Component::JKFlipFlop { .. } | Component::SRFlipFlop { .. } => 6,
        }
    }

    pub fn port_type(&self, port: usize) -> (r: Option<PortType>)
        ensures
            r == self.spec_port_type(port),
    {
        if port >= self.ports() {
            None
        } else {
            match self {
                Component::OutputGate | Component::LED | Component::Probe => Some(PortType::Input),
                Component::InputGate | Component::Constant { .. } | Component::Button { .. }
                    | Component::Switch { .. } | Component::Clock { .. } => Some(PortType::Output),
                Component::Buffer | Component::Not => if port == 0 {
                    Some(PortType::Input)
                } else {
                    Some(PortType::Output)
                },
                Component::And | Component::Nand | Component::Or | Component::Nor | Component::Xor
                    | Component::Xnor | Component::TriBuffer | Component::TriInverter => if port
                    <= 1 {
                    Some(PortType::Input)
                } else {
                    Some(PortType::Output)
                },
                Component::DFlipFlop { .. } | Component::TFlipFlop { .. } => if port <= 2 {
                    Some(PortType::Input)
                } else {
                    Some(PortType::Output)
                },
                Component::JKFlipFlop { .. } | Component::SRFlipFlop { .. } => if port <= 3 {
                    Some(PortType::Input)
                } else {
                    Some(PortType::Output)
                },
            }
        }
    }

    /// Evaluates the component against a snapshot of its connected inputs,
    /// updating its latch and returning the values it wants to drive.
    pub fn evaluate(&mut self, data: &InputStates) -> (r: Vec<(usize, SubnetState)>)
        requires
            data.wf(),
        ensures
            *final(self) == old(self).spec_next(data@),
            r@ == old(self).spec_outputs(data@),
    {
        let c = *self;
        let mut r: Vec<(usize, SubnetState)> = Vec::new();
        match c {
            Component::OutputGate | Component::LED | Component::Probe => {},
            Component::InputGate => {
                r.push((0, SubnetState::On));
            },
            Component::Buffer => {
                r.push((1, data.current_or_floating(0)));
            },
            Component::Not => {
                r.push((1, not_gate(data.current_or_floating(0))));
            },
            Component::And => {
                r.push((2, and_gate(data.current_or_floating(0), data.current_or_floating(1))));
            },
            Component::Nand => {
                r.push(
                    (
                        2,
                        not_gate(
                            and_gate(data.current_or_floating(0), data.current_or_floating(1)),
                        ),
                    ),
                );
            },
            Component::Or => {
                r.push((2, or_gate(data.current_or_floating(0), data.current_or_floating(1))));
            },
            Component::Nor => {
                r.push(
                    (
                        2,
                        not_gate(or_gate(data.current_or_floating(0), data.current_or_floating(1))),
                    ),
                );
            },
            Component::Xor => {
                r.push((2, xor_gate(data.current_or_floating(0), data.current_or_floating(1))));
            },
            Component::Xnor => {
                r.push(
                    (
                        2,
                        not_gate(
                            xor_gate(data.current_or_floating(0), data.current_or_floating(1)),
                        ),
                    ),
                );
            },
            Component::TriBuffer => {
                let input = data.current_or_floating(0);
                let enable = data.current_or_floating(1);
                if enable.truthy() {
                    r.push((2, input));
                } else {
                    r.push((2, SubnetState::Floating));
                }
            },
            Component::TriInverter => {
                let input = data.current_or_floating(0);
                let enable = data.current_or_floating(1);
                if enable.truthy() {
                    r.push((2, not_gate(input)));
                } else {
                    r.push((2, SubnetState::Floating));
                }
            },
            Component::Constant { state } => {
                r.push((0, bool_state(state)));
            },
            Component::Button { state } => {
                r.push((0, bool_state(state)));
            },
            Component::Switch { state } => {
                r.push((0, bool_state(state)));
            },
            Component::DFlipFlop { state } => {
                let d = data.current_or_floating(0);
                let clocked = data.rising(1) && data.current_or_floating(2) != SubnetState::On;
                let mut st = state;
                if clocked {
                    if d == SubnetState::On {
                        st = true;
                    } else if d == SubnetState::Off {
                        st = false;
                    }
                }
                *self = Component::DFlipFlop { state: st };
                r.push((3, bool_state(st)));
                r.push((4, bool_state(!st)));
            },
            Component::TFlipFlop { state } => {
                let t = data.current_or_floating(0);
                let clocked = data.rising(1) && data.current_or_floating(2) != SubnetState::On;
                let mut st = state;
                if clocked && t.truthy() {
                    st = !st;
                }
                *self = Component::TFlipFlop { state: st };
                r.push((3, bool_state(st)));
                r.push((4, bool_state(!st)));
            },
            Component::JKFlipFlop { state } => {
                let j = data.current_or_floating(0);
                let k = data.current_or_floating(1);
                let clocked = data.rising(2) && data.current_or_floating(3) != SubnetState::On;
                let mut st = state;
                if clocked {
                    if j.truthy() && k.falsy() {
                        st = true;
                    } else if j.falsy() && k.truthy() {
                        st = false;
                    } else if j.truthy() && k.truthy() {
                        st = !st;
                    }
                }
                *self = Component::JKFlipFlop { state: st };
                r.push((4, bool_state(st)));
                r.push((5, bool_state(!st)));
            },
            Component::SRFlipFlop { state } => {
                let s = data.current_or_floating(0);
                let rr = data.current_or_floating(1);
                let clocked = data.rising(2) && data.current_or_floating(3) != SubnetState::On;
                let mut st = state;
                if clocked {
                    if s.truthy() && rr.falsy() {
                        st = true;
                    } else if s.falsy() && rr.truthy() {
                        st = false;
                    }
                }
                *self = Component::SRFlipFlop { state: st };
                r.push((4, bool_state(st)));
                r.push((5, bool_state(!st)));
            },
            Component::Clock { state } => {
                *self = Component::Clock { state: !state };
                r.push((0, bool_state(state)));
            },
        }
        proof {
            assert(r@ =~= old(self).spec_outputs(data@));
        }
        r
    }

    /// Flips the latch of a stateful component; stateless kinds are left
    /// unchanged.
    pub fn toggle(&mut self)
        ensures
            *final(self) == if old(self).spec_has_latch() {
                old(self).spec_with_latch(!old(self).spec_latch())
            } else {
                *old(self)
            },
    {
        let c = *self;
        match c {
            Component::Constant { state } => {
                *self = Component::Constant { state: !state };
            },
            Component::Button { state } => {
                *self = Component::Button { state: !state };
            },
            Component::Switch { state } => {
                *self = Component::Switch { state: !state };
            },
            Component::DFlipFlop { state } => {
                *self = Component::DFlipFlop { state: !state };
            },
            Component::TFlipFlop { state } => {
                *self = Component::TFlipFlop { state: !state };
            },
            Component::JKFlipFlop { state } => {
                *self = Component::JKFlipFlop { state: !state };
            },
            Component::SRFlipFlop { state } => {
                *self = Component::SRFlipFlop { state: !state };
            },
            Component::Clock { state } => {
                *self = Component::Clock { state: !state };
            },
            _ => {},
        }
    }

    /// Presses a manual source (constant, button or switch): its latch goes
    /// on and the newly driven level is reported.  Other kinds are left
    /// unchanged and report `Floating`.
    pub fn pressed(&mut self) -> (r: SubnetState)
        ensures
            *final(self) == if old(self).is_manual_source() {
                old(self).spec_with_latch(true)
            } else {
                *old(self)
            },
            r == if old(self).is_manual_source() {
                SubnetState::On
            } else {
                SubnetState::Floating
            },
    {
        let c = *self;
        match c {
            Component::Constant { .. } => {
                *self = Component::Constant { state: true };
                SubnetState::On
            },
            Component::Button { .. } => {
                *self = Component::Button { state: true };
                SubnetState::On
            },
            Component::Switch { .. } => {
                *self = Component::Switch { state: true };
                SubnetState::On
            },
            _ => SubnetState::Floating,
        }
    }

    /// Releases a manual source: its latch goes off and the newly driven
    /// level is reported.  Other kinds are left unchanged and report
    /// `Floating`.
    pub fn released(&mut self) -> (r: SubnetState)
        ensures
            *final(self) == if old(self).is_manual_source() {
                old(self).spec_with_latch(false)
            } else {
                *old(self)
            },
            r == if old(self).is_manual_source() {
                SubnetState::Off
            } else {
                SubnetState::Floating
            },
    {
        let c = *self;
        match c {
            Component::Constant { .. } => {
                *self = Component::Constant { state: false };
                SubnetState::Off
            },
            Component::Button { .. } => {
                *self = Component::Button { state: false };
                SubnetState::Off
            },
            Component::Switch { .. } => {
                *self = Component::Switch { state: false };
                SubnetState::Off
            },
            _ => SubnetState::Floating,
        }
    }

    /// A source whose latch the host sets by hand.
    pub open spec fn is_manual_source(self) -> bool {
        match self {
            Component::Constant { .. } | Component::Button { .. } | Component::Switch { .. } =>
                true,
            _ => false,
        }
    }

    /// The catalog kind of this component.
    pub open spec fn spec_kind(self) -> ComponentId {
        match self {
            Component::OutputGate => ComponentId::Output,
            Component::InputGate => ComponentId::Input,
            Component::LED => ComponentId::LED,
            Component::Probe => ComponentId::Probe,
            Component::Buffer => ComponentId::Buffer,
            Component::Not => ComponentId::Not,
            Component::And => ComponentId::And,
            Component::Nand => ComponentId::Nand,
            Component::Or => ComponentId::Or,
            Component::Nor => ComponentId::Nor,
            Component::Xor => ComponentId::Xor,
            Component::Xnor => ComponentId::Xnor,
            Component::TriBuffer => ComponentId::TriStateBuffer,
            Component::TriInverter => ComponentId::TriStateInverter,
            Component::Constant { .. } => ComponentId::Constant,
            Component::Button { .. } => ComponentId::Button,
            Component::Switch { .. } => ComponentId::Switch,
            Component::DFlipFlop { .. } => ComponentId::DFlipFlop,
            Component::TFlipFlop { .. } => ComponentId::TFlipFlop,
            Component::JKFlipFlop { .. } => ComponentId::JKFlipFlop,
            Component::SRFlipFlop { .. } => ComponentId::SRFlipFlop,
            Component::Clock { .. } => ComponentId::Clock,
        }
    }
}

/// Law: evaluation never changes a component's kind, only its latch.
pub proof fn lemma_next_kind(c: Component, m: Map<usize, StateChange>)
    ensures
        c.spec_next(m).spec_kind() == c.spec_kind(),
{
}

/// Law: replacing a latch never changes a component's kind.
pub proof fn lemma_with_latch_kind(c: Component, b: bool)
    ensures
        c.spec_with_latch(b).spec_kind() == c.spec_kind(),
{
}

/// Law: two components of one kind have the same port layout and role.
pub proof fn lemma_kind_shape(a: Component, b: Component)
    requires
        a.spec_kind() == b.spec_kind(),
    ensures
        a.spec_ports() == b.spec_ports(),
        forall|p: usize| a.spec_port_type(p) == b.spec_port_type(p),
        a.is_sink() == b.is_sink(),
{
    assert forall|p: usize| a.spec_port_type(p) == b.spec_port_type(p) by {
        assert(a.spec_ports() == b.spec_ports());
    }
}

/// The level a latch drives onto its output.
fn bool_state(b: bool) -> (r: SubnetState)
    ensures
        r == latch_out(b),
{
    if b {
        SubnetState::On
    } else {
        SubnetState::Off
    }
}

/// NOT as executable code, pinned to its law.
fn not_gate(a: SubnetState) -> (r: SubnetState)
    ensures
        r == not_law(a),
{
    if a == SubnetState::Off {
        SubnetState::On
    } else if a == SubnetState::On {
        SubnetState::Off
    } else {
        SubnetState::Error
    }
}

/// AND as executable code, pinned to its law.
fn and_gate(a: SubnetState, b: SubnetState) -> (r: SubnetState)
    ensures
        r == and_law(a, b),
{
    if (a == SubnetState::Off || a == SubnetState::On) && (b == SubnetState::Off || b
        == SubnetState::On) {
        if a == SubnetState::On && b == SubnetState::On {
            SubnetState::On
        } else {
            SubnetState::Off
        }
    } else {
        SubnetState::Error
    }
}

/// OR as executable code, pinned to its law.
fn or_gate(a: SubnetState, b: SubnetState) -> (r: SubnetState)
    ensures
        r == or_law(a, b),
{
    if (a == SubnetState::Off || a == SubnetState::On) && (b == SubnetState::Off || b
        == SubnetState::On) {
        if a == SubnetState::On || b == SubnetState::On {
            SubnetState::On
        } else {
            SubnetState::Off
        }
    } else {
        SubnetState::Error
    }
}

/// XOR as executable code, pinned to its law.
fn xor_gate(a: SubnetState, b: SubnetState) -> (r: SubnetState)
    ensures
        r == xor_law(a, b),
{
    if (a == SubnetState::Off || a == SubnetState::On) && (b == SubnetState::Off || b
        == SubnetState::On) {
        if a == b {
            SubnetState::Off
        } else {
            SubnetState::On
        }
    } else {
        SubnetState::Error
    }
}

} // verus!
