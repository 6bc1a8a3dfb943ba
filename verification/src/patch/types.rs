//! The patch graph: ports, nodes, wires and composite blocks.
//!
//! Positions and hues are real numbers that nothing here computes with. They
//! are held as the bits of their floating-point form.

use vstd::prelude::*;
use vstd::std_specs::convert::FromSpec;
use vstd::string::*;

use crate::json::Json;
use crate::numbers::{Real32, Real64};
use crate::text::{copy_text, same_text};

verus! {

// ---------------------------------------------------------------------------
// Ids
// ---------------------------------------------------------------------------
//
// All ids are texts, but of distinct types, so that one cannot be passed for
// another.

/// The id of a node.
#[derive(Debug, Eq, Hash, PartialEq, Ord, PartialOrd)]
pub struct NodeId(pub String);

impl View for NodeId {
    type V = Seq<char>;

    open spec fn view(&self) -> Seq<char> {
        self.0@
    }
}

impl NodeId {
    pub fn new(s: &str) -> (r: NodeId)
        ensures
            r@ == s@,
    {
        NodeId(s.to_owned())
    }

    pub fn as_str(&self) -> (r: &str)
        ensures
            r@ == self@,
    {
        self.0.as_str()
    }
}

impl Clone for NodeId {
    fn clone(&self) -> (r: NodeId)
        ensures
            r@ == self@,
    {
        NodeId(copy_text(&self.0))
    }
}

impl vstd::std_specs::convert::FromSpecImpl<&str> for NodeId {
    open spec fn obeys_from_spec() -> bool {
        false
    }

    open spec fn from_spec(s: &str) -> NodeId {
        arbitrary()
    }
}

impl From<&str> for NodeId {
    fn from(s: &str) -> (r: NodeId)
        ensures
            r@ == s@,
    {
        NodeId(s.to_owned())
    }
}

impl vstd::std_specs::convert::FromSpecImpl<String> for NodeId {
    open spec fn obeys_from_spec() -> bool {
        true
    }

    open spec fn from_spec(s: String) -> NodeId {
        NodeId(s)
    }
}

impl From<String> for NodeId {
    fn from(s: String) -> (r: NodeId) {
        NodeId(s)
    }
}

/// The id of a port.
#[derive(Debug, Eq, Hash, PartialEq, Ord, PartialOrd)]
pub struct PortId(pub String);

impl View for PortId {
    type V = Seq<char>;

    open spec fn view(&self) -> Seq<char> {
        self.0@
    }
}

impl PortId {
    pub fn new(s: &str) -> (r: PortId)
        ensures
            r@ == s@,
    {
        PortId(s.to_owned())
    }

    pub fn as_str(&self) -> (r: &str)
        ensures
            r@ == self@,
    {
        self.0.as_str()
    }
}

impl Clone for PortId {
    fn clone(&self) -> (r: PortId)
        ensures
            r@ == self@,
    {
        PortId(copy_text(&self.0))
    }
}

impl vstd::std_specs::convert::FromSpecImpl<&str> for PortId {
    open spec fn obeys_from_spec() -> bool {
        false
    }

    open spec fn from_spec(s: &str) -> PortId {
        arbitrary()
    }
}

impl From<&str> for PortId {
    fn from(s: &str) -> (r: PortId)
        ensures
            r@ == s@,
    {
        PortId(s.to_owned())
    }
}

impl vstd::std_specs::convert::FromSpecImpl<String> for PortId {
    open spec fn obeys_from_spec() -> bool {
        true
    }

    open spec fn from_spec(s: String) -> PortId {
        PortId(s)
    }
}

impl From<String> for PortId {
    fn from(s: String) -> (r: PortId) {
        PortId(s)
    }
}

/// The id of a wire.
#[derive(Debug, Eq, Hash, PartialEq, Ord, PartialOrd)]
pub struct WireId(pub String);

impl View for WireId {
    type V = Seq<char>;

    open spec fn view(&self) -> Seq<char> {
        self.0@
    }
}

impl WireId {
    pub fn new(s: &str) -> (r: WireId)
        ensures
            r@ == s@,
    {
        WireId(s.to_owned())
    }

    pub fn as_str(&self) -> (r: &str)
        ensures
            r@ == self@,
    {
        self.0.as_str()
    }
}

impl Clone for WireId {
    fn clone(&self) -> (r: WireId)
        ensures
            r@ == self@,
    {
        WireId(copy_text(&self.0))
    }
}

impl vstd::std_specs::convert::FromSpecImpl<&str> for WireId {
    open spec fn obeys_from_spec() -> bool {
        false
    }

    open spec fn from_spec(s: &str) -> WireId {
        arbitrary()
    }
}

impl From<&str> for WireId {
    fn from(s: &str) -> (r: WireId)
        ensures
            r@ == s@,
    {
        WireId(s.to_owned())
    }
}

impl vstd::std_specs::convert::FromSpecImpl<String> for WireId {
    open spec fn obeys_from_spec() -> bool {
        true
    }

    open spec fn from_spec(s: String) -> WireId {
        WireId(s)
    }
}

impl From<String> for WireId {
    fn from(s: String) -> (r: WireId) {
        WireId(s)
    }
}

/// The id of a composite block.
#[derive(Debug, Eq, Hash, PartialEq, Ord, PartialOrd)]
pub struct CompositeId(pub String);

impl View for CompositeId {
    type V = Seq<char>;

    open spec fn view(&self) -> Seq<char> {
        self.0@
    }
}

impl CompositeId {
    pub fn new(s: &str) -> (r: CompositeId)
        ensures
            r@ == s@,
    {
        CompositeId(s.to_owned())
    }

    pub fn as_str(&self) -> (r: &str)
        ensures
            r@ == self@,
    {
        self.0.as_str()
    }
}

impl Clone for CompositeId {
    fn clone(&self) -> (r: CompositeId)
        ensures
            r@ == self@,
    {
        CompositeId(copy_text(&self.0))
    }
}

impl vstd::std_specs::convert::FromSpecImpl<&str> for CompositeId {
    open spec fn obeys_from_spec() -> bool {
        false
    }

    open spec fn from_spec(s: &str) -> CompositeId {
        arbitrary()
    }
}

impl From<&str> for CompositeId {
    fn from(s: &str) -> (r: CompositeId)
        ensures
            r@ == s@,
    {
        CompositeId(s.to_owned())
    }
}

impl vstd::std_specs::convert::FromSpecImpl<String> for CompositeId {
    open spec fn obeys_from_spec() -> bool {
        true
    }

    open spec fn from_spec(s: String) -> CompositeId {
        CompositeId(s)
    }
}

impl From<String> for CompositeId {
    fn from(s: String) -> (r: CompositeId) {
        CompositeId(s)
    }
}

// ---------------------------------------------------------------------------
// Ports
// ---------------------------------------------------------------------------

/// What flows through a port.
#[derive(Clone, Copy, Debug, Eq, PartialEq, Structural)]
pub enum SignalKind {
    Midi,
    Audio,
}

/// Which way it flows.
#[derive(Clone, Copy, Debug, Eq, PartialEq, Structural)]
pub enum PortDirection {
    In,
    Out,
}

/// A port of a node.
#[derive(Clone, Debug, PartialEq)]
pub struct Port {
    pub id: PortId,
    pub label: String,
    pub signal: SignalKind,
    pub direction: PortDirection,
    pub config: Option<PortConfig>,
}

/// What a port is set to.
#[derive(Clone, Debug, PartialEq)]
pub enum PortConfig {
    /// A range of keys.
    Zone {
        from_note: u8,
        to_note: u8,
        color_hue: Option<Real32>,
        wire_follows_color: Option<bool>,
    },
    /// One pad.
    Pad { pad_index: u32, note: Option<u8> },
    /// One MIDI channel.
    Channel { midi_channel: u8 },
    /// One side of a stereo pair.
    Stereo { channel: StereoChannel },
    Mono,
}

#[derive(Clone, Copy, Debug, Eq, PartialEq, Structural)]
pub enum StereoChannel {
    L,
    R,
}

// ---------------------------------------------------------------------------
// Nodes
// ---------------------------------------------------------------------------

/// What a node does.
#[derive(Clone, Copy, Debug, Eq, PartialEq, Structural)]
pub enum NodeKind {
    SourceKeyboard,
    SourcePads,
    SourceSwitch,
    SourceSustainPedal,
    SourceExpressionPedal,
    SourcePitchWheel,
    SourceModWheel,
    SourceKnob,
    SourceFader,
    MidiTranspose,
    MidiMix,
    InstrumentPlugin,
    /// The built-in tone generator, for diagnosis only.
    InstrumentTestTone,
    AudioEq,
    AudioMix,
    SinkMainOut,
}

/// The families of node kinds.
#[derive(Clone, Copy, Debug, Eq, PartialEq, Structural)]
pub enum NodeClass {
    Source,
    MidiProcessor,
    Instrument,
    AudioEffect,
    AudioRouter,
    Sink,
}

/// The family of a node kind.
pub open spec fn class_of(kind: NodeKind) -> NodeClass {
    match kind {
        NodeKind::MidiTranspose | NodeKind::MidiMix => NodeClass::MidiProcessor,
        NodeKind::InstrumentPlugin | NodeKind::InstrumentTestTone => NodeClass::Instrument,
        NodeKind::AudioEq | NodeKind::AudioMix => NodeClass::AudioEffect,
        NodeKind::SinkMainOut => NodeClass::Sink,
        _ => NodeClass::Source,
    }
}

impl NodeKind {
    /// The family of this kind.
    pub fn class(self) -> (r: NodeClass)
        ensures
            r == class_of(self),
    {
        match self {
            NodeKind::SourceKeyboard
            | NodeKind::SourcePads
            | NodeKind::SourceSwitch
            | NodeKind::SourceSustainPedal
            | NodeKind::SourceExpressionPedal
            | NodeKind::SourcePitchWheel
            | NodeKind::SourceModWheel
            | NodeKind::SourceKnob
            | NodeKind::SourceFader => NodeClass::Source,
            NodeKind::MidiTranspose | NodeKind::MidiMix => NodeClass::MidiProcessor,
            NodeKind::InstrumentPlugin | NodeKind::InstrumentTestTone => NodeClass::Instrument,
            NodeKind::AudioEq | NodeKind::AudioMix => NodeClass::AudioEffect,
            NodeKind::SinkMainOut => NodeClass::Sink,
        }
    }
}

/// A node of the graph.
#[derive(Clone, Debug, PartialEq)]
pub struct GraphNode {
    pub id: NodeId,
    pub kind: NodeKind,
    pub name: String,
    /// The position on the canvas.
    pub x: Real64,
    pub y: Real64,
    pub ports: Vec<Port>,
    /// What the kind of the node makes of it.
    pub config: Option<Json>,
}

/// A wire between two ports.
#[derive(Clone, Debug, PartialEq)]
pub struct Wire {
    pub id: WireId,
    pub from_node: NodeId,
    pub from_port: PortId,
    pub to_node: NodeId,
    pub to_port: PortId,
    pub color: Option<String>,
}

/// A port that a composite block shows of one of its members.
#[derive(Clone, Debug, PartialEq)]
pub struct PromotedPort {
    pub id: PortId,
    pub label: String,
    pub direction: PortDirection,
    pub signal: SignalKind,
    pub internal_node: NodeId,
    pub internal_port: PortId,
}

/// A group of nodes that is shown as one block.
#[derive(Clone, Debug, PartialEq)]
pub struct CompositeBlock {
    pub id: CompositeId,
    pub name: String,
    pub contains: Vec<NodeId>,
    pub locked: bool,
    pub promoted_ports: Vec<PromotedPort>,
    pub color_hue: Option<Real32>,
}

/// A patch graph.
#[derive(Clone, Debug, PartialEq)]
pub struct PatchGraph {
    pub nodes: Vec<GraphNode>,
    pub wires: Vec<Wire>,
    pub composites: Vec<CompositeBlock>,
}

impl Default for PatchGraph {
    fn default() -> (r: PatchGraph)
        ensures
            r.nodes@.len() == 0,
            r.wires@.len() == 0,
            r.composites@.len() == 0,
    {
        PatchGraph { nodes: Vec::new(), wires: Vec::new(), composites: Vec::new() }
    }
}

/// The index of the first node with an id.
pub open spec fn node_index(nodes: Seq<GraphNode>, id: Seq<char>, i: int) -> bool {
    &&& 0 <= i < nodes.len()
    &&& nodes[i].id@ == id
    &&& forall|j: int| 0 <= j < i ==> (#[trigger] nodes[j]).id@ != id
}

/// The index of the first port with an id.
pub open spec fn port_index(ports: Seq<Port>, id: Seq<char>, i: int) -> bool {
    &&& 0 <= i < ports.len()
    &&& ports[i].id@ == id
    &&& forall|j: int| 0 <= j < i ==> (#[trigger] ports[j]).id@ != id
}

impl PatchGraph {
    /// A graph with nothing in it.
    pub fn empty() -> (r: PatchGraph)
        ensures
            r.nodes@.len() == 0,
            r.wires@.len() == 0,
            r.composites@.len() == 0,
    {
        PatchGraph { nodes: Vec::new(), wires: Vec::new(), composites: Vec::new() }
    }

    /// The first node with the given id.
    pub fn find_node(&self, id: &NodeId) -> (r: Option<&GraphNode>)
        ensures
            (match r {
                Some(node) => exists|i: int|
                    node_index(self.nodes@, id@, i) && *node == self.nodes@[i],
                None => forall|i: int|
                    0 <= i < self.nodes@.len() ==> (#[trigger] self.nodes@[i]).id@ != id@,
            }),
    {
        let n: usize = self.nodes.len();
        for i in 0..n
            invariant
                n == self.nodes@.len(),
                forall|j: int| 0 <= j < i ==> (#[trigger] self.nodes@[j]).id@ != id@,
        {
            if same_text(self.nodes[i].id.as_str(), id.as_str()) {
                assert(node_index(self.nodes@, id@, i as int));
                return Some(&self.nodes[i]);
            }
        }
        None
    }
}

impl GraphNode {
    /// The first port with the given id.
    pub fn find_port(&self, id: &PortId) -> (r: Option<&Port>)
        ensures
            (match r {
                Some(port) => exists|i: int|
                    port_index(self.ports@, id@, i) && *port == self.ports@[i],
                None => forall|i: int|
                    0 <= i < self.ports@.len() ==> (#[trigger] self.ports@[i]).id@ != id@,
            }),
    {
        let n: usize = self.ports.len();
        for i in 0..n
            invariant
                n == self.ports@.len(),
                forall|j: int| 0 <= j < i ==> (#[trigger] self.ports@[j]).id@ != id@,
        {
            if same_text(self.ports[i].id.as_str(), id.as_str()) {
                assert(port_index(self.ports@, id@, i as int));
                return Some(&self.ports[i]);
            }
        }
        None
    }
}

/// An id that is made of a text is that text.
pub proof fn law_ids_are_their_texts(s: String)
    ensures
        NodeId::from_spec(s).0@ == s@,
        NodeId::from_spec(s)@ == s@,
        PortId::from_spec(s).0@ == s@,
        PortId::from_spec(s)@ == s@,
        WireId::from_spec(s).0@ == s@,
        WireId::from_spec(s)@ == s@,
        CompositeId::from_spec(s).0@ == s@,
        CompositeId::from_spec(s)@ == s@,
{
}

} // verus!
