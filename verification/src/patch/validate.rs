//! Structural validation of a patch graph.
//!
//! Validation collects every fault instead of stopping at the first, so that
//! all of them can be shown at once. Whether a graph can be run (cycles,
//! reachability of the outputs) is not asked here.

use vstd::prelude::*;

use crate::patch::types::{
    CompositeBlock, CompositeId, GraphNode, NodeId, PatchGraph, Port, PortDirection, PortId,
    PromotedPort, SignalKind, Wire, WireId,
};
use crate::text;
use crate::text::{copy_text, quoted, same_text, wrapped};

verus! {

/// A fault in a patch graph.
#[allow(inconsistent_fields)]
#[derive(Clone, Debug, PartialEq)]
pub enum ValidationError {
    /// An earlier node has the same id.
    DuplicateNodeId(NodeId),
    /// An earlier wire has the same id.
    DuplicateWireId(WireId),
    /// An earlier composite has the same id.
    DuplicateCompositeId(CompositeId),
    /// An earlier port of the node has the same id.
    DuplicatePortId { node: NodeId, port: PortId },
    /// One end of a wire is neither a node nor a composite.
    WireUnknownEndpoint { wire: WireId, endpoint: String },
    /// One end of a wire has no such port.
    WireUnknownPort { wire: WireId, endpoint: String, port: PortId },
    /// The two ends of a wire carry different signals.
    WireSignalMismatch { wire: WireId, from: SignalKind, to: SignalKind },
    /// A wire does not lead from an output to an input.
    WireDirection { wire: WireId, from: PortDirection, to: PortDirection },
    /// A member of a composite is no node.
    CompositeUnknownNode { composite: CompositeId, node: NodeId },
    /// A promoted port is no port of a member.
    CompositePromotedPortInvalid { composite: CompositeId, node: NodeId, port: PortId },
    /// The members of a composite do not hang together.
    CompositeNotConnected { composite: CompositeId },
}

/// What a fault says.
#[allow(inconsistent_fields)]
pub enum Fault {
    DuplicateNodeId(Seq<char>),
    DuplicateWireId(Seq<char>),
    DuplicateCompositeId(Seq<char>),
    DuplicatePortId { node: Seq<char>, port: Seq<char> },
    WireUnknownEndpoint { wire: Seq<char>, endpoint: Seq<char> },
    WireUnknownPort { wire: Seq<char>, endpoint: Seq<char>, port: Seq<char> },
    WireSignalMismatch { wire: Seq<char>, from: SignalKind, to: SignalKind },
    WireDirection { wire: Seq<char>, from: PortDirection, to: PortDirection },
    CompositeUnknownNode { composite: Seq<char>, node: Seq<char> },
    CompositePromotedPortInvalid { composite: Seq<char>, node: Seq<char>, port: Seq<char> },
    CompositeNotConnected { composite: Seq<char> },
}

impl View for ValidationError {
    type V = Fault;

    open spec fn view(&self) -> Fault {
        match self {
            ValidationError::DuplicateNodeId(id) => Fault::DuplicateNodeId(id@),
            ValidationError::DuplicateWireId(id) => Fault::DuplicateWireId(id@),
            ValidationError::DuplicateCompositeId(id) => Fault::DuplicateCompositeId(id@),
            ValidationError::DuplicatePortId { node, port } => Fault::DuplicatePortId {
                node: node@,
                port: port@,
            },
            ValidationError::WireUnknownEndpoint { wire, endpoint } => Fault::WireUnknownEndpoint {
                wire: wire@,
                endpoint: endpoint@,
            },
            ValidationError::WireUnknownPort { wire, endpoint, port } => Fault::WireUnknownPort {
                wire: wire@,
                endpoint: endpoint@,
                port: port@,
            },
            ValidationError::WireSignalMismatch { wire, from, to } => Fault::WireSignalMismatch {
                wire: wire@,
                from: *from,
                to: *to,
            },
            ValidationError::WireDirection { wire, from, to } => Fault::WireDirection {
                wire: wire@,
                from: *from,
                to: *to,
            },
            ValidationError::CompositeUnknownNode { composite, node } => {
                Fault::CompositeUnknownNode { composite: composite@, node: node@ }
            },
            ValidationError::CompositePromotedPortInvalid { composite, node, port } => {
                Fault::CompositePromotedPortInvalid {
                    composite: composite@,
                    node: node@,
                    port: port@,
                }
            },
            ValidationError::CompositeNotConnected { composite } => Fault::CompositeNotConnected {
                composite: composite@,
            },
        }
    }
}

/// The name of a kind of signal.
pub open spec fn signal_name(kind: SignalKind) -> Seq<char> {
    match kind {
        SignalKind::Midi => "Midi"@,
        SignalKind::Audio => "Audio"@,
    }
}

fn signal_shown(kind: SignalKind) -> (r: &'static str)
    ensures
        r@ == signal_name(kind),
{
    match kind {
        SignalKind::Midi => "Midi",
        SignalKind::Audio => "Audio",
    }
}

/// The name of a direction.
pub open spec fn direction_name(direction: PortDirection) -> Seq<char> {
    match direction {
        PortDirection::In => "In"@,
        PortDirection::Out => "Out"@,
    }
}

fn direction_shown(direction: PortDirection) -> (r: &'static str)
    ensures
        r@ == direction_name(direction),
{
    match direction {
        PortDirection::In => "In",
        PortDirection::Out => "Out",
    }
}

/// A fault in words.
pub open spec fn fault_text(fault: Fault) -> Seq<char> {
    match fault {
        Fault::DuplicateNodeId(id) => "duplicate node id "@ + text::wrapped_text("NodeId"@, id),
        Fault::DuplicateWireId(id) => "duplicate wire id "@ + text::wrapped_text("WireId"@, id),
        Fault::DuplicateCompositeId(id) => "duplicate composite id "@
            + text::wrapped_text("CompositeId"@, id),
        Fault::DuplicatePortId { node, port } => "node "@
            + text::wrapped_text("NodeId"@, node)
            + " has duplicate port id "@
            + text::wrapped_text("PortId"@, port),
        Fault::WireUnknownEndpoint { wire, endpoint } => "wire "@
            + text::wrapped_text("WireId"@, wire)
            + " references unknown endpoint "@
            + text::quoted_text(endpoint),
        Fault::WireUnknownPort { wire, endpoint, port } => "wire "@
            + text::wrapped_text("WireId"@, wire)
            + " references unknown port "@
            + text::wrapped_text("PortId"@, port)
            + " on endpoint "@
            + text::quoted_text(endpoint),
        Fault::WireSignalMismatch { wire, from, to } => "wire "@
            + text::wrapped_text("WireId"@, wire)
            + " connects mismatched signals: source is "@
            + signal_name(from)
            + ", destination is "@
            + signal_name(to),
        Fault::WireDirection { wire, from, to } => "wire "@
            + text::wrapped_text("WireId"@, wire)
            + " has bad direction: source port direction is "@
            + direction_name(from)
            + ", destination is "@
            + direction_name(to)
            + " (must be out -> in)"@,
        Fault::CompositeUnknownNode { composite, node } => "composite "@
            + text::wrapped_text("CompositeId"@, composite)
            + " contains unknown node "@
            + text::wrapped_text("NodeId"@, node),
        Fault::CompositePromotedPortInvalid { composite, node, port } => "composite "@
            + text::wrapped_text("CompositeId"@, composite)
            + " promotes unknown port "@
            + text::wrapped_text("PortId"@, port)
            + " on node "@
            + text::wrapped_text("NodeId"@, node)
            + " (or node not in composite)"@,
        Fault::CompositeNotConnected { composite } => "composite "@
            + text::wrapped_text("CompositeId"@, composite)
            + " members do not form a connected subgraph"@,
    }
}

impl ValidationError {
    /// The fault in words.
    pub fn message(&self) -> (r: String)
        ensures
            r@ == fault_text(self@),
    {
        match self {
            ValidationError::DuplicateNodeId(id) => {
                "duplicate node id ".to_owned()
                    .concat(wrapped("NodeId", id.0.as_str()).as_str())
            },
            ValidationError::DuplicateWireId(id) => {
                "duplicate wire id ".to_owned()
                    .concat(wrapped("WireId", id.0.as_str()).as_str())
            },
            ValidationError::DuplicateCompositeId(id) => {
                "duplicate composite id ".to_owned()
                    .concat(wrapped("CompositeId", id.0.as_str()).as_str())
            },
            ValidationError::DuplicatePortId { node, port } => {
                "node ".to_owned()
                    .concat(wrapped("NodeId", node.0.as_str()).as_str())
                    .concat(" has duplicate port id ")
                    .concat(wrapped("PortId", port.0.as_str()).as_str())
            },
            ValidationError::WireUnknownEndpoint { wire, endpoint } => {
                "wire ".to_owned()
                    .concat(wrapped("WireId", wire.0.as_str()).as_str())
                    .concat(" references unknown endpoint ")
                    .concat(quoted(endpoint.as_str()).as_str())
            },
            ValidationError::WireUnknownPort { wire, endpoint, port } => {
                "wire ".to_owned()
                    .concat(wrapped("WireId", wire.0.as_str()).as_str())
                    .concat(" references unknown port ")
                    .concat(wrapped("PortId", port.0.as_str()).as_str())
                    .concat(" on endpoint ")
                    .concat(quoted(endpoint.as_str()).as_str())
            },
            ValidationError::WireSignalMismatch { wire, from, to } => {
                "wire ".to_owned()
                    .concat(wrapped("WireId", wire.0.as_str()).as_str())
                    .concat(" connects mismatched signals: source is ")
                    .concat(signal_shown(*from))
                    .concat(", destination is ")
                    .concat(signal_shown(*to))
            },
            ValidationError::WireDirection { wire, from, to } => {
                "wire ".to_owned()
                    .concat(wrapped("WireId", wire.0.as_str()).as_str())
                    .concat(" has bad direction: source port direction is ")
                    .concat(direction_shown(*from))
                    .concat(", destination is ")
                    .concat(direction_shown(*to))
                    .concat(" (must be out -> in)")
            },
            ValidationError::CompositeUnknownNode { composite, node } => {
                "composite ".to_owned()
                    .concat(wrapped("CompositeId", composite.0.as_str()).as_str())
                    .concat(" contains unknown node ")
                    .concat(wrapped("NodeId", node.0.as_str()).as_str())
            },
            ValidationError::CompositePromotedPortInvalid { composite, node, port } => {
                "composite ".to_owned()
                    .concat(wrapped("CompositeId", composite.0.as_str()).as_str())
                    .concat(" promotes unknown port ")
                    .concat(wrapped("PortId", port.0.as_str()).as_str())
                    .concat(" on node ")
                    .concat(wrapped("NodeId", node.0.as_str()).as_str())
                    .concat(" (or node not in composite)")
            },
            ValidationError::CompositeNotConnected { composite } => {
                "composite ".to_owned()
                    .concat(wrapped("CompositeId", composite.0.as_str()).as_str())
                    .concat(" members do not form a connected subgraph")
            },
        }
    }
}

/// What a list of faults says.
pub open spec fn faults(errors: Seq<ValidationError>) -> Seq<Fault> {
    errors.map_values(|e: ValidationError| e@)
}

// ---------------------------------------------------------------------------
// Nodes and composites
// ---------------------------------------------------------------------------

/// Whether one of the nodes has the given id.
pub open spec fn has_node(nodes: Seq<GraphNode>, id: Seq<char>) -> bool {
    exists|i: int| 0 <= i < nodes.len() && (#[trigger] nodes[i]).id@ == id
}

/// Whether one of the ports has the given id.
pub open spec fn has_port(ports: Seq<Port>, id: Seq<char>) -> bool {
    exists|i: int| 0 <= i < ports.len() && (#[trigger] ports[i]).id@ == id
}

/// Whether one of the nodes with the id `node` has a port with the id `port`.
pub open spec fn has_node_port(nodes: Seq<GraphNode>, node: Seq<char>, port: Seq<char>) -> bool {
    exists|i: int|
        0 <= i < nodes.len() && (#[trigger] nodes[i]).id@ == node && has_port(nodes[i].ports@, port)
}

/// Nothing, or one fault where `faulty` holds.
pub open spec fn fault_if(faulty: bool, fault: Fault) -> Seq<Fault> {
    if faulty {
        seq![fault]
    } else {
        Seq::empty()
    }
}

/// The faults in the ports of a node that comes after `before`. Nodes with one
/// id share their ports.
pub open spec fn port_faults(
    before: Seq<GraphNode>,
    node: Seq<char>,
    ports: Seq<Port>,
) -> Seq<Fault>
    decreases ports.len(),
{
    if ports.len() == 0 {
        Seq::empty()
    } else {
        let port = ports.last().id@;
        port_faults(before, node, ports.drop_last()) + fault_if(
            has_port(ports.drop_last(), port) || has_node_port(before, node, port),
            Fault::DuplicatePortId { node, port },
        )
    }
}

/// The faults in the nodes of a graph.
pub open spec fn node_faults(nodes: Seq<GraphNode>) -> Seq<Fault>
    decreases nodes.len(),
{
    if nodes.len() == 0 {
        Seq::empty()
    } else {
        let before = nodes.drop_last();
        let id = nodes.last().id@;
        node_faults(before) + fault_if(has_node(before, id), Fault::DuplicateNodeId(id))
            + port_faults(before, id, nodes.last().ports@)
    }
}

/// Whether one of the composites has the given id.
pub open spec fn has_composite(composites: Seq<CompositeBlock>, id: Seq<char>) -> bool {
    exists|i: int| 0 <= i < composites.len() && (#[trigger] composites[i]).id@ == id
}

/// The faults in the ids of the composites.
pub open spec fn composite_id_faults(composites: Seq<CompositeBlock>) -> Seq<Fault>
    decreases composites.len(),
{
    if composites.len() == 0 {
        Seq::empty()
    } else {
        let before = composites.drop_last();
        let id = composites.last().id@;
        composite_id_faults(before) + fault_if(
            has_composite(before, id),
            Fault::DuplicateCompositeId(id),
        )
    }
}

// ---------------------------------------------------------------------------
// Wires
// ---------------------------------------------------------------------------

/// What one end of a wire carries, and which way.
#[derive(Clone, Copy)]
pub struct EndpointPort {
    pub signal: SignalKind,
    pub direction: PortDirection,
}

/// What one end of a wire turns out to be.
#[derive(Clone, Copy)]
pub enum Endpoint {
    /// Neither a node nor a composite.
    Unknown,
    /// A node or a composite without such a port.
    NoPort,
    /// A port.
    Found(EndpointPort),
}

/// The last port with an id.
pub open spec fn last_port(ports: Seq<Port>, id: Seq<char>) -> Option<EndpointPort>
    decreases ports.len(),
{
    if ports.len() == 0 {
        None
    } else if ports.last().id@ == id {
        Some(EndpointPort { signal: ports.last().signal, direction: ports.last().direction })
    } else {
        last_port(ports.drop_last(), id)
    }
}

/// The last port with an id among the nodes with the id `node`.
pub open spec fn last_node_port(
    nodes: Seq<GraphNode>,
    node: Seq<char>,
    port: Seq<char>,
) -> Option<EndpointPort>
    decreases nodes.len(),
{
    if nodes.len() == 0 {
        None
    } else if nodes.last().id@ == node && last_port(nodes.last().ports@, port) is Some {
        last_port(nodes.last().ports@, port)
    } else {
        last_node_port(nodes.drop_last(), node, port)
    }
}

/// The last promoted port with an id.
pub open spec fn last_promoted(ports: Seq<PromotedPort>, id: Seq<char>) -> Option<EndpointPort>
    decreases ports.len(),
{
    if ports.len() == 0 {
        None
    } else if ports.last().id@ == id {
        Some(EndpointPort { signal: ports.last().signal, direction: ports.last().direction })
    } else {
        last_promoted(ports.drop_last(), id)
    }
}

/// The last promoted port with an id among the composites with the id
/// `composite`.
pub open spec fn last_composite_port(
    composites: Seq<CompositeBlock>,
    composite: Seq<char>,
    port: Seq<char>,
) -> Option<EndpointPort>
    decreases composites.len(),
{
    if composites.len() == 0 {
        None
    } else if composites.last().id@ == composite && last_promoted(
        composites.last().promoted_ports@,
        port,
    ) is Some {
        last_promoted(composites.last().promoted_ports@, port)
    } else {
        last_composite_port(composites.drop_last(), composite, port)
    }
}

/// What one end of a wire turns out to be. Nodes and composites share their
/// names; a node goes first.
pub open spec fn endpoint_of(g: PatchGraph, endpoint: Seq<char>, port: Seq<char>) -> Endpoint {
    if has_node(g.nodes@, endpoint) {
        match last_node_port(g.nodes@, endpoint, port) {
            Some(p) => Endpoint::Found(p),
            None => Endpoint::NoPort,
        }
    } else if has_composite(g.composites@, endpoint) {
        match last_composite_port(g.composites@, endpoint, port) {
            Some(p) => Endpoint::Found(p),
            None => Endpoint::NoPort,
        }
    } else {
        Endpoint::Unknown
    }
}

/// The fault in one end of a wire.
pub open spec fn endpoint_faults(
    end: Endpoint,
    wire: Seq<char>,
    endpoint: Seq<char>,
    port: Seq<char>,
) -> Seq<Fault> {
    match end {
        Endpoint::Unknown => seq![Fault::WireUnknownEndpoint { wire, endpoint }],
        Endpoint::NoPort => seq![Fault::WireUnknownPort { wire, endpoint, port }],
        Endpoint::Found(_) => Seq::empty(),
    }
}

/// The faults between the two ends of a wire.
pub open spec fn pairing_faults(from: Endpoint, to: Endpoint, wire: Seq<char>) -> Seq<Fault> {
    match (from, to) {
        (Endpoint::Found(f), Endpoint::Found(t)) => fault_if(
            f.signal != t.signal,
            Fault::WireSignalMismatch { wire, from: f.signal, to: t.signal },
        ) + fault_if(
            !(f.direction is Out && t.direction is In),
            Fault::WireDirection { wire, from: f.direction, to: t.direction },
        ),
        _ => Seq::empty(),
    }
}

/// The faults of one wire, apart from its id.
pub open spec fn link_faults(g: PatchGraph, w: Wire) -> Seq<Fault> {
    let from = endpoint_of(g, w.from_node@, w.from_port@);
    let to = endpoint_of(g, w.to_node@, w.to_port@);
    endpoint_faults(from, w.id@, w.from_node@, w.from_port@) + endpoint_faults(
        to,
        w.id@,
        w.to_node@,
        w.to_port@,
    ) + pairing_faults(from, to, w.id@)
}

/// Whether one of the wires has the given id.
pub open spec fn has_wire(wires: Seq<Wire>, id: Seq<char>) -> bool {
    exists|i: int| 0 <= i < wires.len() && (#[trigger] wires[i]).id@ == id
}

/// The faults in the wires of a graph.
pub open spec fn wire_faults(g: PatchGraph, wires: Seq<Wire>) -> Seq<Fault>
    decreases wires.len(),
{
    if wires.len() == 0 {
        Seq::empty()
    } else {
        let w = wires.last();
        wire_faults(g, wires.drop_last()) + fault_if(
            has_wire(wires.drop_last(), w.id@),
            Fault::DuplicateWireId(w.id@),
        ) + link_faults(g, w)
    }
}

// ---------------------------------------------------------------------------
// Connected members
// ---------------------------------------------------------------------------

/// Whether `id` is among the members.
pub open spec fn is_member(members: Seq<NodeId>, id: Seq<char>) -> bool {
    exists|i: int| 0 <= i < members.len() && (#[trigger] members[i])@ == id
}

/// Whether a wire joins `a` and `b`, whichever way it leads.
pub open spec fn wire_joins(w: Wire, a: Seq<char>, b: Seq<char>) -> bool {
    (w.from_node@ == a && w.to_node@ == b) || (w.from_node@ == b && w.to_node@ == a)
}

/// Whether `a` and `b` are members that some wire joins.
pub open spec fn joined(
    wires: Seq<Wire>,
    members: Seq<NodeId>,
    a: Seq<char>,
    b: Seq<char>,
) -> bool {
    &&& is_member(members, a)
    &&& is_member(members, b)
    &&& exists|i: int| 0 <= i < wires.len() && wire_joins(#[trigger] wires[i], a, b)
}

/// Whether `n` wires between members lead from `a` to `b`.
pub open spec fn reached_in(
    wires: Seq<Wire>,
    members: Seq<NodeId>,
    a: Seq<char>,
    b: Seq<char>,
    n: nat,
) -> bool
    decreases n,
{
    if n == 0 {
        a == b
    } else {
        exists|c: Seq<char>|
            reached_in(wires, members, a, c, (n - 1) as nat) && #[trigger] joined(
                wires,
                members,
                c,
                b,
            )
    }
}

/// Whether wires between members lead from `a` to `b`.
pub open spec fn reachable(
    wires: Seq<Wire>,
    members: Seq<NodeId>,
    a: Seq<char>,
    b: Seq<char>,
) -> bool {
    exists|n: nat| reached_in(wires, members, a, b, n)
}

/// Whether every member can be reached from every other.
pub open spec fn connected(wires: Seq<Wire>, members: Seq<NodeId>) -> bool {
    forall|a: Seq<char>, b: Seq<char>|
        is_member(members, a) && is_member(members, b) ==> #[trigger] reachable(
            wires,
            members,
            a,
            b,
        )
}

// ---------------------------------------------------------------------------
// Composites and their members
// ---------------------------------------------------------------------------

/// The faults in the members of a composite.
pub open spec fn unknown_members(
    nodes: Seq<GraphNode>,
    composite: Seq<char>,
    members: Seq<NodeId>,
) -> Seq<Fault>
    decreases members.len(),
{
    if members.len() == 0 {
        Seq::empty()
    } else {
        let node = members.last()@;
        unknown_members(nodes, composite, members.drop_last()) + fault_if(
            !has_node(nodes, node),
            Fault::CompositeUnknownNode { composite, node },
        )
    }
}

/// The faults in the promoted ports of a composite with the given members.
pub open spec fn promotion_faults(
    nodes: Seq<GraphNode>,
    composite: Seq<char>,
    members: Seq<NodeId>,
    ports: Seq<PromotedPort>,
) -> Seq<Fault>
    decreases ports.len(),
{
    if ports.len() == 0 {
        Seq::empty()
    } else {
        let node = ports.last().internal_node@;
        let port = ports.last().internal_port@;
        promotion_faults(nodes, composite, members, ports.drop_last()) + fault_if(
            !(is_member(members, node) && has_node_port(nodes, node, port)),
            Fault::CompositePromotedPortInvalid { composite, node, port },
        )
    }
}

/// Whether every member is a node.
pub open spec fn members_known(nodes: Seq<GraphNode>, members: Seq<NodeId>) -> bool {
    forall|i: int| 0 <= i < members.len() ==> has_node(nodes, (#[trigger] members[i])@)
}

/// The faults inside one composite.
pub open spec fn composite_faults(g: PatchGraph, c: CompositeBlock) -> Seq<Fault> {
    unknown_members(g.nodes@, c.id@, c.contains@) + promotion_faults(
        g.nodes@,
        c.id@,
        c.contains@,
        c.promoted_ports@,
    ) + fault_if(
        members_known(g.nodes@, c.contains@) && !connected(g.wires@, c.contains@),
        Fault::CompositeNotConnected { composite: c.id@ },
    )
}

/// The faults inside the composites of a graph.
pub open spec fn all_composite_faults(g: PatchGraph, composites: Seq<CompositeBlock>) -> Seq<Fault>
    decreases composites.len(),
{
    if composites.len() == 0 {
        Seq::empty()
    } else {
        all_composite_faults(g, composites.drop_last()) + composite_faults(g, composites.last())
    }
}

/// Every fault of a graph, in the order in which they are told.
pub open spec fn graph_faults(g: PatchGraph) -> Seq<Fault> {
    node_faults(g.nodes@) + composite_id_faults(g.composites@) + wire_faults(g, g.wires@)
        + all_composite_faults(g, g.composites@)
}

// ---------------------------------------------------------------------------
// Looking things up
// ---------------------------------------------------------------------------

/// Whether one of the first `upto` nodes has the given id.
fn node_before(nodes: &Vec<GraphNode>, upto: usize, id: &str) -> (r: bool)
    requires
        upto <= nodes.len(),
    ensures
        r == has_node(nodes@.take(upto as int), id@),
{
    for i in 0..upto
        invariant
            upto <= nodes.len(),
            forall|j: int| 0 <= j < i ==> (#[trigger] nodes@[j]).id@ != id@,
    {
        if same_text(nodes[i].id.as_str(), id) {
            assert(nodes@.take(upto as int)[i as int].id@ == id@);
            return true;
        }
    }
    false
}

/// Whether one of the nodes has the given id.
fn node_known(nodes: &Vec<GraphNode>, id: &str) -> (r: bool)
    ensures
        r == has_node(nodes@, id@),
{
    assert(nodes@.take(nodes@.len() as int) =~= nodes@);
    node_before(nodes, nodes.len(), id)
}

/// Whether one of the first `upto` ports has the given id.
fn port_before(ports: &Vec<Port>, upto: usize, id: &str) -> (r: bool)
    requires
        upto <= ports.len(),
    ensures
        r == has_port(ports@.take(upto as int), id@),
{
    for i in 0..upto
        invariant
            upto <= ports.len(),
            forall|j: int| 0 <= j < i ==> (#[trigger] ports@[j]).id@ != id@,
    {
        if same_text(ports[i].id.as_str(), id) {
            assert(ports@.take(upto as int)[i as int].id@ == id@);
            return true;
        }
    }
    false
}

/// Whether one of the first `upto` nodes with the id `node` has the port.
fn node_port_before(nodes: &Vec<GraphNode>, upto: usize, node: &str, port: &str) -> (r: bool)
    requires
        upto <= nodes.len(),
    ensures
        r == has_node_port(nodes@.take(upto as int), node@, port@),
{
    for i in 0..upto
        invariant
            upto <= nodes.len(),
            forall|j: int|
                0 <= j < i ==> !((#[trigger] nodes@[j]).id@ == node@ && has_port(
                    nodes@[j].ports@,
                    port@,
                )),
    {
        let ports = &nodes[i].ports;
        assert(ports@.take(ports@.len() as int) =~= ports@);
        if same_text(nodes[i].id.as_str(), node) && port_before(ports, ports.len(), port) {
            assert(nodes@.take(upto as int)[i as int].id@ == node@);
            return true;
        }
    }
    false
}

/// Whether one of the nodes with the id `node` has the port.
fn node_port_known(nodes: &Vec<GraphNode>, node: &str, port: &str) -> (r: bool)
    ensures
        r == has_node_port(nodes@, node@, port@),
{
    assert(nodes@.take(nodes@.len() as int) =~= nodes@);
    node_port_before(nodes, nodes.len(), node, port)
}

/// Whether one of the first `upto` composites has the given id.
fn composite_before(composites: &Vec<CompositeBlock>, upto: usize, id: &str) -> (r: bool)
    requires
        upto <= composites.len(),
    ensures
        r == has_composite(composites@.take(upto as int), id@),
{
    for i in 0..upto
        invariant
            upto <= composites.len(),
            forall|j: int| 0 <= j < i ==> (#[trigger] composites@[j]).id@ != id@,
    {
        if same_text(composites[i].id.as_str(), id) {
            assert(composites@.take(upto as int)[i as int].id@ == id@);
            return true;
        }
    }
    false
}

/// Whether one of the first `upto` wires has the given id.
fn wire_before(wires: &Vec<Wire>, upto: usize, id: &str) -> (r: bool)
    requires
        upto <= wires.len(),
    ensures
        r == has_wire(wires@.take(upto as int), id@),
{
    for i in 0..upto
        invariant
            upto <= wires.len(),
            forall|j: int| 0 <= j < i ==> (#[trigger] wires@[j]).id@ != id@,
    {
        if same_text(wires[i].id.as_str(), id) {
            assert(wires@.take(upto as int)[i as int].id@ == id@);
            return true;
        }
    }
    false
}

/// Whether `id` is among the members.
fn member_known(members: &Vec<NodeId>, id: &str) -> (r: bool)
    ensures
        r == is_member(members@, id@),
{
    let n: usize = members.len();
    for i in 0..n
        invariant
            n == members.len(),
            forall|j: int| 0 <= j < i ==> (#[trigger] members@[j])@ != id@,
    {
        if same_text(members[i].as_str(), id) {
            return true;
        }
    }
    false
}

/// The last port with an id.
fn find_last_port(ports: &Vec<Port>, id: &str) -> (r: Option<EndpointPort>)
    ensures
        r == last_port(ports@, id@),
{
    let mut found: Option<EndpointPort> = None;
    let n: usize = ports.len();
    assert(ports@.take(0) =~= Seq::empty());
    for i in 0..n
        invariant
            n == ports.len(),
            found == last_port(ports@.take(i as int), id@),
    {
        assert(ports@.take(i + 1).drop_last() =~= ports@.take(i as int));
        if same_text(ports[i].id.as_str(), id) {
            found = Some(EndpointPort { signal: ports[i].signal, direction: ports[i].direction });
        }
    }
    assert(ports@.take(n as int) =~= ports@);
    found
}

/// The last port with an id among the nodes with the id `node`.
fn find_node_port(nodes: &Vec<GraphNode>, node: &str, port: &str) -> (r: Option<EndpointPort>)
    ensures
        r == last_node_port(nodes@, node@, port@),
{
    let mut found: Option<EndpointPort> = None;
    let n: usize = nodes.len();
    assert(nodes@.take(0) =~= Seq::empty());
    for i in 0..n
        invariant
            n == nodes.len(),
            found == last_node_port(nodes@.take(i as int), node@, port@),
    {
        assert(nodes@.take(i + 1).drop_last() =~= nodes@.take(i as int));
        if same_text(nodes[i].id.as_str(), node) {
            let here = find_last_port(&nodes[i].ports, port);
            if here.is_some() {
                found = here;
            }
        }
    }
    assert(nodes@.take(n as int) =~= nodes@);
    found
}

/// The last promoted port with an id.
fn find_last_promoted(ports: &Vec<PromotedPort>, id: &str) -> (r: Option<EndpointPort>)
    ensures
        r == last_promoted(ports@, id@),
{
    let mut found: Option<EndpointPort> = None;
    let n: usize = ports.len();
    assert(ports@.take(0) =~= Seq::empty());
    for i in 0..n
        invariant
            n == ports.len(),
            found == last_promoted(ports@.take(i as int), id@),
    {
        assert(ports@.take(i + 1).drop_last() =~= ports@.take(i as int));
        if same_text(ports[i].id.as_str(), id) {
            found = Some(EndpointPort { signal: ports[i].signal, direction: ports[i].direction });
        }
    }
    assert(ports@.take(n as int) =~= ports@);
    found
}

/// The last promoted port with an id among the composites with the id
/// `composite`.
fn find_composite_port(composites: &Vec<CompositeBlock>, composite: &str, port: &str) -> (r: Option<
    EndpointPort,
>)
    ensures
        r == last_composite_port(composites@, composite@, port@),
{
    let mut found: Option<EndpointPort> = None;
    let n: usize = composites.len();
    assert(composites@.take(0) =~= Seq::empty());
    for i in 0..n
        invariant
            n == composites.len(),
            found == last_composite_port(composites@.take(i as int), composite@, port@),
    {
        assert(composites@.take(i + 1).drop_last() =~= composites@.take(i as int));
        if same_text(composites[i].id.as_str(), composite) {
            let here = find_last_promoted(&composites[i].promoted_ports, port);
            if here.is_some() {
                found = here;
            }
        }
    }
    assert(composites@.take(n as int) =~= composites@);
    found
}

/// What one end of a wire turns out to be.
fn resolve_endpoint(g: &PatchGraph, endpoint: &str, port: &str) -> (r: Endpoint)
    ensures
        r == endpoint_of(*g, endpoint@, port@),
{
    assert(g.composites@.take(g.composites@.len() as int) =~= g.composites@);
    let found = if node_known(&g.nodes, endpoint) {
        find_node_port(&g.nodes, endpoint, port)
    } else if composite_before(&g.composites, g.composites.len(), endpoint) {
        find_composite_port(&g.composites, endpoint, port)
    } else {
        return Endpoint::Unknown;
    };
    match found {
        Some(p) => Endpoint::Found(p),
        None => Endpoint::NoPort,
    }
}

// ---------------------------------------------------------------------------
// Collecting the faults
// ---------------------------------------------------------------------------

/// Adds a fault.
fn report(errors: &mut Vec<ValidationError>, e: ValidationError)
    ensures
        faults(final(errors)@) == faults(old(errors)@) + seq![e@],
{
    errors.push(e);
    assert(faults(errors@) =~= faults(old(errors)@) + seq![e@]);
}

/// Adds the faults in the ports of the node at index `at`.
fn check_ports(nodes: &Vec<GraphNode>, at: usize, errors: &mut Vec<ValidationError>)
    requires
        at < nodes.len(),
    ensures
        faults(final(errors)@) == faults(old(errors)@) + port_faults(
            nodes@.take(at as int),
            nodes@[at as int].id@,
            nodes@[at as int].ports@,
        ),
{
    let node = &nodes[at];
    let ghost start = faults(errors@);
    let ghost before = nodes@.take(at as int);
    let n: usize = node.ports.len();
    assert(node.ports@.take(0) =~= Seq::empty());
    assert(start + Seq::<Fault>::empty() =~= start);
    for i in 0..n
        invariant
            at < nodes.len(),
            *node == nodes@[at as int],
            before == nodes@.take(at as int),
            n == node.ports.len(),
            faults(errors@) == start + port_faults(before, node.id@, node.ports@.take(i as int)),
    {
        let port = &node.ports[i].id;
        let ghost seen = node.ports@.take(i as int);
        let ghost so_far = faults(errors@);
        assert(node.ports@.take(i + 1).drop_last() =~= seen);
        let again = port_before(&node.ports, i, port.as_str()) || node_port_before(
            nodes,
            at,
            node.id.as_str(),
            port.as_str(),
        );
        if again {
            report(
                errors,
                ValidationError::DuplicatePortId { node: node.id.clone(), port: port.clone() },
            );
        }
        assert(faults(errors@) =~= start + port_faults(
            before,
            node.id@,
            node.ports@.take(i + 1),
        ));
    }
    assert(node.ports@.take(n as int) =~= node.ports@);
}

/// Adds the faults in the nodes.
fn check_nodes(nodes: &Vec<GraphNode>, errors: &mut Vec<ValidationError>)
    ensures
        faults(final(errors)@) == faults(old(errors)@) + node_faults(nodes@),
{
    let ghost start = faults(errors@);
    let n: usize = nodes.len();
    assert(nodes@.take(0) =~= Seq::empty());
    assert(start + Seq::<Fault>::empty() =~= start);
    for i in 0..n
        invariant
            n == nodes.len(),
            faults(errors@) == start + node_faults(nodes@.take(i as int)),
    {
        let ghost seen = nodes@.take(i as int);
        assert(nodes@.take(i + 1).drop_last() =~= seen);
        if node_before(nodes, i, nodes[i].id.as_str()) {
            report(errors, ValidationError::DuplicateNodeId(nodes[i].id.clone()));
        }
        check_ports(nodes, i, errors);
        assert(faults(errors@) =~= start + node_faults(nodes@.take(i + 1)));
    }
    assert(nodes@.take(n as int) =~= nodes@);
}

/// Adds the faults in the ids of the composites.
fn check_composite_ids(composites: &Vec<CompositeBlock>, errors: &mut Vec<ValidationError>)
    ensures
        faults(final(errors)@) == faults(old(errors)@) + composite_id_faults(composites@),
{
    let ghost start = faults(errors@);
    let n: usize = composites.len();
    assert(composites@.take(0) =~= Seq::empty());
    assert(start + Seq::<Fault>::empty() =~= start);
    for i in 0..n
        invariant
            n == composites.len(),
            faults(errors@) == start + composite_id_faults(composites@.take(i as int)),
    {
        assert(composites@.take(i + 1).drop_last() =~= composites@.take(i as int));
        if composite_before(composites, i, composites[i].id.as_str()) {
            report(errors, ValidationError::DuplicateCompositeId(composites[i].id.clone()));
        }
        assert(faults(errors@) =~= start + composite_id_faults(composites@.take(i + 1)));
    }
    assert(composites@.take(n as int) =~= composites@);
}

/// Adds the fault in one end of a wire.
fn check_endpoint(
    end: Endpoint,
    wire: &WireId,
    endpoint: &NodeId,
    port: &PortId,
    errors: &mut Vec<ValidationError>,
)
    ensures
        faults(final(errors)@) == faults(old(errors)@) + endpoint_faults(
            end,
            wire@,
            endpoint@,
            port@,
        ),
{
    let ghost start = faults(errors@);
    match end {
        Endpoint::Unknown => report(
            errors,
            ValidationError::WireUnknownEndpoint {
                wire: wire.clone(),
                endpoint: copy_text(&endpoint.0),
            },
        ),
        Endpoint::NoPort => report(
            errors,
            ValidationError::WireUnknownPort {
                wire: wire.clone(),
                endpoint: copy_text(&endpoint.0),
                port: port.clone(),
            },
        ),
        Endpoint::Found(_) => {
            assert(start + Seq::<Fault>::empty() =~= start);
        },
    }
}

/// Adds the faults of one wire, apart from its id.
fn check_link(g: &PatchGraph, w: &Wire, errors: &mut Vec<ValidationError>)
    ensures
        faults(final(errors)@) == faults(old(errors)@) + link_faults(*g, *w),
{
    let ghost start = faults(errors@);
    let from = resolve_endpoint(g, w.from_node.as_str(), w.from_port.as_str());
    check_endpoint(from, &w.id, &w.from_node, &w.from_port, errors);
    let to = resolve_endpoint(g, w.to_node.as_str(), w.to_port.as_str());
    check_endpoint(to, &w.id, &w.to_node, &w.to_port, errors);
    if let (Endpoint::Found(f), Endpoint::Found(t)) = (from, to) {
        if f.signal != t.signal {
            report(
                errors,
                ValidationError::WireSignalMismatch {
                    wire: w.id.clone(),
                    from: f.signal,
                    to: t.signal,
                },
            );
        }
        if f.direction != PortDirection::Out || t.direction != PortDirection::In {
            report(
                errors,
                ValidationError::WireDirection {
                    wire: w.id.clone(),
                    from: f.direction,
                    to: t.direction,
                },
            );
        }
    }
    assert(faults(errors@) =~= start + link_faults(*g, *w));
}

/// Adds the faults in the wires.
fn check_wires(g: &PatchGraph, errors: &mut Vec<ValidationError>)
    ensures
        faults(final(errors)@) == faults(old(errors)@) + wire_faults(*g, g.wires@),
{
    let ghost start = faults(errors@);
    let n: usize = g.wires.len();
    assert(g.wires@.take(0) =~= Seq::empty());
    assert(start + Seq::<Fault>::empty() =~= start);
    for i in 0..n
        invariant
            n == g.wires.len(),
            faults(errors@) == start + wire_faults(*g, g.wires@.take(i as int)),
    {
        assert(g.wires@.take(i + 1).drop_last() =~= g.wires@.take(i as int));
        if wire_before(&g.wires, i, g.wires[i].id.as_str()) {
            report(errors, ValidationError::DuplicateWireId(g.wires[i].id.clone()));
        }
        check_link(g, &g.wires[i], errors);
        assert(faults(errors@) =~= start + wire_faults(*g, g.wires@.take(i + 1)));
    }
    assert(g.wires@.take(n as int) =~= g.wires@);
}

// ---------------------------------------------------------------------------
// Connectivity
// ---------------------------------------------------------------------------

proof fn lemma_reached_transitive(
    wires: Seq<Wire>,
    members: Seq<NodeId>,
    a: Seq<char>,
    b: Seq<char>,
    c: Seq<char>,
    n: nat,
    m: nat,
)
    requires
        reached_in(wires, members, a, b, n),
        reached_in(wires, members, b, c, m),
    ensures
        reached_in(wires, members, a, c, n + m),
    decreases m,
{
    if m > 0 {
        let d = choose|d: Seq<char>|
            reached_in(wires, members, b, d, (m - 1) as nat) && #[trigger] joined(
                wires,
                members,
                d,
                c,
            );
        lemma_reached_transitive(wires, members, a, b, d, n, (m - 1) as nat);
        assert(reached_in(wires, members, a, d, (n + m - 1) as nat));
    }
}

proof fn lemma_joined_symmetric(
    wires: Seq<Wire>,
    members: Seq<NodeId>,
    a: Seq<char>,
    b: Seq<char>,
)
    requires
        joined(wires, members, a, b),
    ensures
        joined(wires, members, b, a),
{
    let i = choose|i: int| 0 <= i < wires.len() && wire_joins(#[trigger] wires[i], a, b);
    assert(wire_joins(wires[i], b, a));
}

proof fn lemma_reached_symmetric(
    wires: Seq<Wire>,
    members: Seq<NodeId>,
    a: Seq<char>,
    b: Seq<char>,
    n: nat,
)
    requires
        reached_in(wires, members, a, b, n),
    ensures
        reached_in(wires, members, b, a, n),
    decreases n,
{
    if n > 0 {
        let c = choose|c: Seq<char>|
            reached_in(wires, members, a, c, (n - 1) as nat) && #[trigger] joined(
                wires,
                members,
                c,
                b,
            );
        lemma_joined_symmetric(wires, members, c, b);
        assert(reached_in(wires, members, b, b, 0));
        assert(reached_in(wires, members, b, c, 1));
        lemma_reached_symmetric(wires, members, a, c, (n - 1) as nat);
        lemma_reached_transitive(wires, members, b, c, a, 1, (n - 1) as nat);
    }
}

/// Being reachable does not depend on the end from which one starts.
pub proof fn lemma_reachable_symmetric(
    wires: Seq<Wire>,
    members: Seq<NodeId>,
    a: Seq<char>,
    b: Seq<char>,
)
    requires
        reachable(wires, members, a, b),
    ensures
        reachable(wires, members, b, a),
{
    let n = choose|n: nat| reached_in(wires, members, a, b, n);
    lemma_reached_symmetric(wires, members, a, b, n);
}

/// What can be reached from something reachable can be reached.
pub proof fn lemma_reachable_transitive(
    wires: Seq<Wire>,
    members: Seq<NodeId>,
    a: Seq<char>,
    b: Seq<char>,
    c: Seq<char>,
)
    requires
        reachable(wires, members, a, b),
        reachable(wires, members, b, c),
    ensures
        reachable(wires, members, a, c),
{
    let n = choose|n: nat| reached_in(wires, members, a, b, n);
    let m = choose|m: nat| reached_in(wires, members, b, c, m);
    lemma_reached_transitive(wires, members, a, b, c, n, m);
}

/// A set of members is closed where no wire between members leads out of it.
spec fn closed(
    wires: Seq<Wire>,
    members: Seq<NodeId>,
    inside: spec_fn(Seq<char>) -> bool,
) -> bool {
    forall|a: Seq<char>, b: Seq<char>| #[trigger]
        joined(wires, members, a, b) && inside(a) ==> inside(b)
}

proof fn lemma_closed_holds_reached(
    wires: Seq<Wire>,
    members: Seq<NodeId>,
    inside: spec_fn(Seq<char>) -> bool,
    a: Seq<char>,
    b: Seq<char>,
    n: nat,
)
    requires
        closed(wires, members, inside),
        inside(a),
        reached_in(wires, members, a, b, n),
    ensures
        inside(b),
    decreases n,
{
    if n > 0 {
        let c = choose|c: Seq<char>|
            reached_in(wires, members, a, c, (n - 1) as nat) && #[trigger] joined(
                wires,
                members,
                c,
                b,
            );
        lemma_closed_holds_reached(wires, members, inside, a, c, (n - 1) as nat);
    }
}

/// How many of the marks are not set.
spec fn unset(marks: Seq<bool>) -> nat
    decreases marks.len(),
{
    if marks.len() == 0 {
        0
    } else {
        unset(marks.drop_last()) + if marks.last() {
            0nat
        } else {
            1nat
        }
    }
}

proof fn lemma_unset_falls(marks: Seq<bool>, i: int)
    requires
        0 <= i < marks.len(),
        !marks[i],
    ensures
        unset(marks.update(i, true)) + 1 == unset(marks),
    decreases marks.len(),
{
    if i == marks.len() - 1 {
        assert(marks.update(i, true).drop_last() =~= marks.drop_last());
    } else {
        assert(marks.update(i, true).drop_last() =~= marks.drop_last().update(i, true));
        lemma_unset_falls(marks.drop_last(), i);
    }
}

/// Whether `id` is one of the marked members.
spec fn marked(members: Seq<NodeId>, marks: Seq<bool>, id: Seq<char>) -> bool {
    exists|i: int| 0 <= i < members.len() && (#[trigger] members[i])@ == id && marks[i]
}

/// Whether each id is marked wherever it stands, or nowhere.
spec fn marks_agree(members: Seq<NodeId>, marks: Seq<bool>) -> bool {
    forall|i: int, j: int|
        0 <= i < members.len() && 0 <= j < members.len() && (#[trigger] members[i])@ == (
        #[trigger] members[j])@ ==> marks[i] == marks[j]
}

/// Whether `id` is one of the marked members.
fn is_marked(members: &Vec<NodeId>, marks: &Vec<bool>, id: &str) -> (r: bool)
    requires
        marks.len() == members.len(),
    ensures
        r == marked(members@, marks@, id@),
{
    let n: usize = members.len();
    for i in 0..n
        invariant
            n == members.len(),
            marks.len() == n,
            forall|j: int| 0 <= j < i ==> !((#[trigger] members@[j])@ == id@ && marks@[j]),
    {
        if marks[i] && same_text(members[i].as_str(), id) {
            return true;
        }
    }
    false
}

/// Marks a member wherever it stands.
fn mark(members: &Vec<NodeId>, marks: &mut Vec<bool>, id: &str)
    requires
        old(marks).len() == members.len(),
    ensures
        final(marks).len() == members.len(),
        forall|i: int|
            0 <= i < members.len() ==> #[trigger] final(marks)@[i] == (old(marks)@[i]
                || members@[i]@ == id@),
        unset(final(marks)@) <= unset(old(marks)@),
        is_member(members@, id@) && !marked(members@, old(marks)@, id@) ==> unset(final(marks)@)
            < unset(old(marks)@),
{
    let n: usize = members.len();
    let ghost start = marks@;
    for i in 0..n
        invariant
            n == members.len(),
            marks.len() == n,
            start.len() == n,
            forall|j: int|
                0 <= j < i ==> #[trigger] marks@[j] == (start[j] || members@[j]@ == id@),
            forall|j: int| i <= j < n ==> #[trigger] marks@[j] == start[j],
            unset(marks@) <= unset(start),
            (exists|j: int| 0 <= j < i && (#[trigger] members@[j])@ == id@ && !start[j])
                ==> unset(marks@) < unset(start),
    {
        if same_text(members[i].as_str(), id) && !marks[i] {
            proof {
                lemma_unset_falls(marks@, i as int);
            }
            marks.set(i, true);
        }
    }
    proof {
        if is_member(members@, id@) && !marked(members@, start, id@) {
            let j = choose|j: int| 0 <= j < members.len() && (#[trigger] members@[j])@ == id@;
            assert(!start[j]);
        }
    }
}

/// Whether every member can be reached from every other, over wires between
/// members taken both ways.
pub fn is_connected(wires: &Vec<Wire>, members: &Vec<NodeId>) -> (r: bool)
    ensures
        r == connected(wires@, members@),
{
    let n: usize = members.len();
    if n == 0 {
        return true;
    }
    let start = members[0].as_str();
    let mut marks: Vec<bool> = Vec::new();
    for i in 0..n
        invariant
            marks.len() == i,
            forall|j: int| 0 <= j < i ==> !(#[trigger] marks@[j]),
    {
        marks.push(false);
    }
    mark(members, &mut marks, start);
    let count: usize = wires.len();
    assert(members@[0]@ == start@);
    assert(reached_in(wires@, members@, start@, start@, 0));
    let mut changed = true;
    while changed
        invariant
            n == members.len(),
            n > 0,
            count == wires.len(),
            marks.len() == n,
            start@ == members@[0]@,
            marks@[0],
            marks_agree(members@, marks@),
            forall|i: int|
                0 <= i < n && #[trigger] marks@[i] ==> reachable(
                    wires@,
                    members@,
                    start@,
                    members@[i]@,
                ),
            !changed ==> forall|k: int|
                0 <= k < count ==> is_member(members@, (#[trigger] wires@[k]).from_node@)
                    && is_member(members@, wires@[k].to_node@) ==> marked(
                    members@,
                    marks@,
                    wires@[k].from_node@,
                ) == marked(members@, marks@, wires@[k].to_node@),
        decreases unset(marks@), (if changed { 1int } else { 0int }),
    {
        changed = false;
        let ghost before = marks@;
        for k in 0..count
            invariant
                n == members.len(),
                n > 0,
                count == wires.len(),
                marks.len() == n,
                start@ == members@[0]@,
                marks@[0],
                marks_agree(members@, marks@),
                forall|i: int|
                    0 <= i < n && #[trigger] marks@[i] ==> reachable(
                        wires@,
                        members@,
                        start@,
                        members@[i]@,
                    ),
                !changed ==> marks@ == before,
                changed ==> unset(marks@) < unset(before),
                !changed ==> forall|j: int|
                    0 <= j < k ==> is_member(members@, (#[trigger] wires@[j]).from_node@)
                        && is_member(members@, wires@[j].to_node@) ==> marked(
                        members@,
                        marks@,
                        wires@[j].from_node@,
                    ) == marked(members@, marks@, wires@[j].to_node@),
        {
            let from = wires[k].from_node.as_str();
            let to = wires[k].to_node.as_str();
            if member_known(members, from) && member_known(members, to) {
                let from_marked = is_marked(members, &marks, from);
                let to_marked = is_marked(members, &marks, to);
                if from_marked != to_marked {
                    let ghost here = marks@;
                    let fresh = if from_marked {
                        to
                    } else {
                        from
                    };
                    proof {
                        let known = if from_marked {
                            from@
                        } else {
                            to@
                        };
                        let i = choose|i: int|
                            0 <= i < members.len() && (#[trigger] members@[i])@ == known
                                && marks@[i];
                        assert(wire_joins(wires@[k as int], known, fresh@));
                        assert(joined(wires@, members@, known, fresh@));
                        assert(reached_in(wires@, members@, known, known, 0));
                        assert(reached_in(wires@, members@, known, fresh@, 1));
                        lemma_reachable_transitive(wires@, members@, start@, known, fresh@);
                    }
                    mark(members, &mut marks, fresh);
                    changed = true;
                    proof {
                        assert forall|i: int, j: int|
                            0 <= i < members.len() && 0 <= j < members.len() && (
                            #[trigger] members@[i])@ == (#[trigger] members@[j])@ implies marks@[i]
                            == marks@[j] by {
                            assert(here[i] == here[j]);
                        }
                    }
                }
            }
        }
    }
    let mut all = true;
    for i in 0..n
        invariant
            n == marks.len(),
            all == (forall|j: int| 0 <= j < i ==> #[trigger] marks@[j]),
    {
        if !marks[i] {
            all = false;
        }
    }
    proof {
        let inside = |id: Seq<char>| marked(members@, marks@, id);
        assert(inside(start@));
        assert forall|a: Seq<char>, b: Seq<char>| #[trigger]
            joined(wires@, members@, a, b) && inside(a) implies inside(b) by {
            let k = choose|k: int| 0 <= k < wires.len() && wire_joins(#[trigger] wires@[k], a, b);
            assert(marked(members@, marks@, wires@[k].from_node@) == marked(
                members@,
                marks@,
                wires@[k].to_node@,
            ));
        }
        if all {
            assert forall|a: Seq<char>, b: Seq<char>|
                is_member(members@, a) && is_member(members@, b) implies #[trigger] reachable(
                wires@,
                members@,
                a,
                b,
            ) by {
                let i = choose|i: int| 0 <= i < members.len() && (#[trigger] members@[i])@ == a;
                let j = choose|j: int| 0 <= j < members.len() && (#[trigger] members@[j])@ == b;
                assert(marks@[i] && marks@[j]);
                lemma_reachable_symmetric(wires@, members@, start@, a);
                lemma_reachable_transitive(wires@, members@, a, start@, b);
            }
        } else {
            let i = choose|i: int| 0 <= i < n && !(#[trigger] marks@[i]);
            let lost = members@[i]@;
            assert(is_member(members@, lost));
            assert(is_member(members@, start@));
            if connected(wires@, members@) {
                assert(reachable(wires@, members@, start@, lost));
                let m = choose|m: nat| reached_in(wires@, members@, start@, lost, m);
                lemma_closed_holds_reached(wires@, members@, inside, start@, lost, m);
                let j = choose|j: int|
                    0 <= j < members.len() && (#[trigger] members@[j])@ == lost && marks@[j];
                assert(marks@[i] == marks@[j]);
            }
        }
    }
    all
}

// ---------------------------------------------------------------------------
// Composites
// ---------------------------------------------------------------------------

/// Adds the faults in the members of a composite.
fn check_members(nodes: &Vec<GraphNode>, c: &CompositeBlock, errors: &mut Vec<ValidationError>)
    ensures
        faults(final(errors)@) == faults(old(errors)@) + unknown_members(
            nodes@,
            c.id@,
            c.contains@,
        ),
{
    let ghost start = faults(errors@);
    let n: usize = c.contains.len();
    assert(c.contains@.take(0) =~= Seq::empty());
    assert(start + Seq::<Fault>::empty() =~= start);
    for i in 0..n
        invariant
            n == c.contains.len(),
            faults(errors@) == start + unknown_members(nodes@, c.id@, c.contains@.take(i as int)),
    {
        assert(c.contains@.take(i + 1).drop_last() =~= c.contains@.take(i as int));
        if !node_known(nodes, c.contains[i].as_str()) {
            report(
                errors,
                ValidationError::CompositeUnknownNode {
                    composite: c.id.clone(),
                    node: c.contains[i].clone(),
                },
            );
        }
        assert(faults(errors@) =~= start + unknown_members(
            nodes@,
            c.id@,
            c.contains@.take(i + 1),
        ));
    }
    assert(c.contains@.take(n as int) =~= c.contains@);
}

/// Adds the faults in the promoted ports of a composite.
fn check_promotions(nodes: &Vec<GraphNode>, c: &CompositeBlock, errors: &mut Vec<ValidationError>)
    ensures
        faults(final(errors)@) == faults(old(errors)@) + promotion_faults(
            nodes@,
            c.id@,
            c.contains@,
            c.promoted_ports@,
        ),
{
    let ghost start = faults(errors@);
    let ports = &c.promoted_ports;
    let n: usize = ports.len();
    assert(ports@.take(0) =~= Seq::empty());
    assert(start + Seq::<Fault>::empty() =~= start);
    for i in 0..n
        invariant
            n == ports.len(),
            faults(errors@) == start + promotion_faults(
                nodes@,
                c.id@,
                c.contains@,
                ports@.take(i as int),
            ),
    {
        assert(ports@.take(i + 1).drop_last() =~= ports@.take(i as int));
        let node = &ports[i].internal_node;
        let port = &ports[i].internal_port;
        let valid = member_known(&c.contains, node.as_str()) && node_port_known(
            nodes,
            node.as_str(),
            port.as_str(),
        );
        if !valid {
            report(
                errors,
                ValidationError::CompositePromotedPortInvalid {
                    composite: c.id.clone(),
                    node: node.clone(),
                    port: port.clone(),
                },
            );
        }
        assert(faults(errors@) =~= start + promotion_faults(
            nodes@,
            c.id@,
            c.contains@,
            ports@.take(i + 1),
        ));
    }
    assert(ports@.take(n as int) =~= ports@);
}

/// Whether every member is a node.
fn all_members_known(nodes: &Vec<GraphNode>, members: &Vec<NodeId>) -> (r: bool)
    ensures
        r == members_known(nodes@, members@),
{
    let n: usize = members.len();
    for i in 0..n
        invariant
            n == members.len(),
            forall|j: int| 0 <= j < i ==> has_node(nodes@, (#[trigger] members@[j])@),
    {
        if !node_known(nodes, members[i].as_str()) {
            assert(!has_node(nodes@, members@[i as int]@));
            return false;
        }
    }
    true
}

/// Adds the faults inside the composites.
fn check_composites(g: &PatchGraph, errors: &mut Vec<ValidationError>)
    ensures
        faults(final(errors)@) == faults(old(errors)@) + all_composite_faults(*g, g.composites@),
{
    let ghost start = faults(errors@);
    let composites = &g.composites;
    let n: usize = composites.len();
    assert(composites@.take(0) =~= Seq::empty());
    assert(start + Seq::<Fault>::empty() =~= start);
    for i in 0..n
        invariant
            *composites == g.composites,
            n == composites.len(),
            faults(errors@) == start + all_composite_faults(*g, composites@.take(i as int)),
    {
        let c = &composites[i];
        assert(composites@.take(i + 1).drop_last() =~= composites@.take(i as int));
        check_members(&g.nodes, c, errors);
        check_promotions(&g.nodes, c, errors);
        if all_members_known(&g.nodes, &c.contains) && !is_connected(&g.wires, &c.contains) {
            report(errors, ValidationError::CompositeNotConnected { composite: c.id.clone() });
        }
        assert(faults(errors@) =~= start + all_composite_faults(*g, composites@.take(i + 1)));
    }
    assert(composites@.take(n as int) =~= composites@);
}

impl PatchGraph {
    /// Checks the structure of the graph, and gives every fault in it.
    pub fn validate(&self) -> (r: Result<(), Vec<ValidationError>>)
        ensures
            (match r {
                Ok(()) => graph_faults(*self).len() == 0,
                Err(errors) => errors.len() > 0 && faults(errors@) == graph_faults(*self),
            }),
    {
        let mut errors: Vec<ValidationError> = Vec::new();
        check_nodes(&self.nodes, &mut errors);
        check_composite_ids(&self.composites, &mut errors);
        check_wires(self, &mut errors);
        check_composites(self, &mut errors);
        assert(faults(errors@) =~= graph_faults(*self));
        if errors.is_empty() {
            Ok(())
        } else {
            Err(errors)
        }
    }
}

} // verus!
