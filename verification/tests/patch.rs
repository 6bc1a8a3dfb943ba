//! Patch graphs and patch documents.

use stardust::numbers::{Real32, Real64};
use stardust::json::{Json, JsonObject};
use stardust::patch::document::{
    accept_patch_value, load_patch_value, migrate_graph_value, migrate_patch_value, Header,
    LoadError, PatchDocument, CURRENT_SCHEMA_VERSION, PATCH_KIND,
};
use stardust::patch::types::{
    CompositeBlock, CompositeId, GraphNode, NodeClass, NodeId, NodeKind, PatchGraph, Port,
    PortDirection, PortId, PromotedPort, SignalKind, Wire, WireId,
};
use stardust::patch::validate::{is_connected, ValidationError};

// ---------------------------------------------------------------------------
// Documents
// ---------------------------------------------------------------------------

const V1_DOC_WITH_SINE: &str = r#"{
  "kind": "stardust.patch",
  "schemaVersion": 1,
  "graph": {
    "nodes": [
      {
        "id": "n1",
        "kind": "source.keyboard",
        "name": "kbd",
        "x": 0, "y": 0,
        "ports": [
          { "id": "out", "label": "MIDI out", "signal": "midi", "direction": "out" }
        ]
      },
      {
        "id": "n2",
        "kind": "instrument.sine",
        "name": "Sine synth",
        "x": 0, "y": 0,
        "ports": [
          { "id": "midi-in", "label": "MIDI in", "signal": "midi", "direction": "in" },
          { "id": "audio-l", "label": "L", "signal": "audio", "direction": "out",
            "config": { "kind": "stereo", "channel": "L" } },
          { "id": "audio-r", "label": "R", "signal": "audio", "direction": "out",
            "config": { "kind": "stereo", "channel": "R" } }
        ],
        "config": { "polyphony": 8 }
      }
    ],
    "wires": [
      { "id": "w1", "fromNode": "n1", "fromPort": "out", "toNode": "n2", "toPort": "midi-in" }
    ],
    "composites": []
  }
}"#;

fn item(j: &Json, i: usize) -> &Json {
    match j {
        Json::List(items) => &items[i],
        other => panic!("no list: {other:?}"),
    }
}

fn at<'a>(j: &'a Json, path: &[&str]) -> &'a Json {
    let mut here = j;
    for key in path {
        here = here.get(key).expect("member is there");
    }
    here
}

fn doc(schema: u64, nodes: &str) -> String {
    format!(
        "{{\"kind\": \"stardust.patch\", \"schemaVersion\": {schema}, \"graph\": {{\"nodes\": {nodes}}}}}"
    )
}

#[test]
fn v1_sine_node_migrates_to_testtone() {
    let doc = load_patch_value(V1_DOC_WITH_SINE).expect("v1 doc loads");
    assert_eq!(doc.get_unsigned("schemaVersion"), Some(CURRENT_SCHEMA_VERSION as u64));
    let nodes = at(&doc, &["graph", "nodes"]);
    assert_eq!(item(nodes, 0).get_text("kind").unwrap(), "source.keyboard");
    let migrated = item(nodes, 1);
    assert_eq!(migrated.get_text("kind").unwrap(), "instrument.testtone");
    // Per-node config survives untouched.
    assert_eq!(at(migrated, &["config"]).get_unsigned("polyphony"), Some(8));
}

#[test]
fn newer_schema_is_rejected() {
    let raw = V1_DOC_WITH_SINE.replace("\"schemaVersion\": 1", "\"schemaVersion\": 999");
    let err = load_patch_value(&raw).expect_err("future schema must error");
    let msg = err.message();
    assert!(msg.contains("999"), "unexpected error: {msg}");
    assert_eq!(
        msg,
        "patch document is schema v999, but this build only understands up to v3"
    );
}

#[test]
fn header_is_well_formed() {
    let doc = PatchDocument::new(PatchGraph::empty());
    assert_eq!(doc.header.kind, "stardust.patch");
    assert_eq!(doc.header.schema_version, 3);
    assert_eq!(doc.header.stardust_version, None);
    assert_eq!(doc.header.saved_at, None);
    assert_eq!(doc.graph, PatchGraph::default());
    assert_eq!(doc.header, Header::current());
}

#[test]
fn other_documents_are_rejected() {
    let err = load_patch_value("{\"kind\": \"stardust.show\", \"schemaVersion\": 1}").unwrap_err();
    assert!(matches!(
        &err,
        LoadError::WrongKind { expected, found } if *expected == PATCH_KIND && found == "stardust.show"
    ));
    assert_eq!(
        err.message(),
        "not a stardust patch document: kind was \"stardust.show\", expected \"stardust.patch\""
    );
}

#[test]
fn a_kind_is_quoted_in_the_message() {
    let err = load_patch_value("{\"kind\": \"a\\\"b\\n\"}").unwrap_err();
    assert_eq!(
        err.message(),
        "not a stardust patch document: kind was \"a\\\"b\\n\", expected \"stardust.patch\""
    );
}

#[test]
fn a_header_is_needed() {
    for raw in [
        "{}",
        "[]",
        "null",
        "{\"kind\": 1}",
        "{\"kind\": \"stardust.patch\"}",
        "{\"kind\": \"stardust.patch\", \"schemaVersion\": \"1\"}",
        "{\"kind\": \"stardust.patch\", \"schemaVersion\": -1}",
        "{\"kind\": \"stardust.patch\", \"schemaVersion\": 1.5}",
    ] {
        let err = load_patch_value(raw).unwrap_err();
        assert!(matches!(err, LoadError::MissingHeader), "{raw}");
        assert_eq!(
            err.message(),
            "patch document is missing required header fields (kind, schemaVersion)"
        );
    }
}

#[test]
fn what_is_no_json_is_rejected() {
    let err = load_patch_value("{").unwrap_err();
    assert!(matches!(err, LoadError::Json(_)));
    assert_eq!(
        err.message(),
        "malformed patch JSON: EOF while parsing an object at line 1 column 1"
    );
}

#[test]
fn schema_numbers_beyond_32_bits_are_newer() {
    for schema in [4u64, 0x1_0000_0001, 0x1_0000_0002, u64::MAX] {
        let err = load_patch_value(&doc(schema, "[]")).unwrap_err();
        assert!(matches!(
            err,
            LoadError::NewerSchema { document, current: 3 } if document == schema
        ));
    }
}

#[test]
fn bindings_go_with_schema_2() {
    let raw = doc(
        2,
        "[{\"config\": {\"hardwareBinding\": {}}}, {\"config\": {\"hardwareBinding\": 1, \"a\": 2}}, {\"config\": []}, 7]",
    );
    let loaded = load_patch_value(&raw).unwrap();
    let nodes = at(&loaded, &["graph", "nodes"]);
    assert_eq!(item(nodes, 0).get("config"), None);
    assert_eq!(at(item(nodes, 1), &["config"]).get("hardwareBinding"), None);
    assert_eq!(at(item(nodes, 1), &["config"]).get_unsigned("a"), Some(2));
    assert_eq!(item(nodes, 2).get("config"), Some(&Json::List(vec![])));
    assert_eq!(item(nodes, 3), &Json::Unsigned(7));
}

#[test]
fn a_loaded_document_loads_unchanged() {
    let once = load_patch_value(V1_DOC_WITH_SINE).unwrap();
    let again = accept_patch_value(load_patch_value(V1_DOC_WITH_SINE).unwrap()).unwrap();
    assert_eq!(at(&once, &["graph", "nodes"]), at(&again, &["graph", "nodes"]));
    assert_eq!(once.get_unsigned("schemaVersion"), again.get_unsigned("schemaVersion"));
}

#[test]
fn graph_migration_goes_step_by_step() {
    let graph = || Json::parse(
        "{\"nodes\": [{\"kind\": \"instrument.sine\", \"config\": {\"hardwareBinding\": 1}}]}",
    ).unwrap();
    let mut one = graph();
    migrate_graph_value(&mut one, 1, 2);
    let node = item(at(&one, &["nodes"]), 0);
    assert_eq!(node.get_text("kind").unwrap(), "instrument.testtone");
    assert!(node.get("config").is_some());
    migrate_graph_value(&mut one, 2, 3);
    assert_eq!(item(at(&one, &["nodes"]), 0).get("config"), None);
    let mut kept = graph();
    migrate_graph_value(&mut kept, 3, 3);
    assert_eq!(kept, graph());
    migrate_graph_value(&mut kept, 0, 3);
    assert_eq!(kept, graph());
}

#[test]
fn a_document_that_is_no_object_gets_no_stamp() {
    let mut value = Json::List(vec![Json::Null]);
    migrate_patch_value(&mut value, 1);
    assert_eq!(value, Json::List(vec![Json::Null]));
}

// ---------------------------------------------------------------------------
// JSON
// ---------------------------------------------------------------------------

#[test]
fn json_is_read_as_it_is_written() {
    let j = Json::parse("[null, true, 1, -1, 1.5, 1e3, \"a\\u00e9\", {\"b\": [], \"a\": 2, \"a\": 3}]").unwrap();
    assert_eq!(item(&j, 0), &Json::Null);
    assert_eq!(item(&j, 1), &Json::Bool(true));
    assert_eq!(item(&j, 2), &Json::Unsigned(1));
    assert_eq!(item(&j, 3), &Json::Negative(-1));
    assert_eq!(item(&j, 4), &Json::Real(1.5f64.to_bits()));
    assert_eq!(item(&j, 5), &Json::Real(1000f64.to_bits()));
    assert_eq!(item(&j, 6), &Json::Text("aé".to_string()));
    assert_eq!(item(&j, 7).get("a"), Some(&Json::Unsigned(3)));
    assert_eq!(item(&j, 7).get("b"), Some(&Json::List(vec![])));
    assert_eq!(item(&j, 7).get("c"), None);
    assert!(Json::parse("[1").is_err());
    assert_eq!(Json::parse("18446744073709551615").unwrap(), Json::Unsigned(u64::MAX));
}

#[test]
fn json_objects_hold_each_member_once() {
    let o = JsonObject::empty()
        .insert("a".to_string(), Json::Unsigned(1))
        .insert("b".to_string(), Json::Null)
        .insert("a".to_string(), Json::Unsigned(2));
    assert_eq!(o.get("a"), Some(&Json::Unsigned(2)));
    let (o, taken) = o.remove("a");
    assert_eq!(taken, Some(Json::Unsigned(2)));
    assert_eq!(o.get("a"), None);
    assert!(!o.is_empty());
    let (o, taken) = o.remove("b");
    assert_eq!(taken, Some(Json::Null));
    assert!(o.is_empty());
    assert_eq!(o.remove("b").1, None);
    let pair = |a: &str, b: &str| {
        JsonObject::empty().insert(a.to_string(), Json::Null).insert(b.to_string(), Json::Null)
    };
    assert_eq!(pair("a", "b"), pair("b", "a"));
    assert_ne!(pair("a", "b"), pair("a", "c"));
    assert_eq!(Json::Object(pair("a", "b")).clone(), Json::Object(pair("b", "a")));
    assert_ne!(Json::List(vec![Json::Null]), Json::List(vec![]));
    assert_ne!(Json::Unsigned(1), Json::Real(1f64.to_bits()));
}

// ---------------------------------------------------------------------------
// Graphs
// ---------------------------------------------------------------------------

fn port(id: &str, signal: SignalKind, direction: PortDirection) -> Port {
    Port { id: PortId::new(id), label: String::new(), signal, direction, config: None }
}

fn node(id: &str, ports: Vec<Port>) -> GraphNode {
    GraphNode {
        id: NodeId::new(id),
        kind: NodeKind::MidiMix,
        name: id.to_string(),
        x: Real64 { bits: 0 },
        y: Real64 { bits: 0 },
        ports,
        config: None,
    }
}

fn wire(id: &str, from: (&str, &str), to: (&str, &str)) -> Wire {
    Wire {
        id: WireId::new(id),
        from_node: NodeId::new(from.0),
        from_port: PortId::new(from.1),
        to_node: NodeId::new(to.0),
        to_port: PortId::new(to.1),
        color: None,
    }
}

fn composite(id: &str, contains: &[&str], promoted: Vec<PromotedPort>) -> CompositeBlock {
    CompositeBlock {
        id: CompositeId::new(id),
        name: String::new(),
        contains: contains.iter().map(|n| NodeId::new(n)).collect(),
        locked: false,
        promoted_ports: promoted,
        color_hue: None,
    }
}

fn promoted(id: &str, direction: PortDirection, from: (&str, &str)) -> PromotedPort {
    PromotedPort {
        id: PortId::new(id),
        label: String::new(),
        direction,
        signal: SignalKind::Midi,
        internal_node: NodeId::new(from.0),
        internal_port: PortId::new(from.1),
    }
}

fn mixer(id: &str) -> GraphNode {
    node(
        id,
        vec![
            port("in", SignalKind::Midi, PortDirection::In),
            port("out", SignalKind::Midi, PortDirection::Out),
            port("audio", SignalKind::Audio, PortDirection::In),
        ],
    )
}

fn chain() -> PatchGraph {
    PatchGraph {
        nodes: vec![mixer("a"), mixer("b"), mixer("c")],
        wires: vec![wire("w1", ("a", "out"), ("b", "in")), wire("w2", ("b", "out"), ("c", "in"))],
        composites: vec![],
    }
}

#[test]
fn a_sound_graph_is_valid() {
    assert_eq!(chain().validate(), Ok(()));
    assert_eq!(PatchGraph::empty().validate(), Ok(()));
}

#[test]
fn duplicates_are_found() {
    let mut g = chain();
    g.nodes.push(mixer("a"));
    g.wires.push(wire("w1", ("a", "out"), ("c", "in")));
    g.composites = vec![composite("k", &[], vec![]), composite("k", &[], vec![])];
    let again = |p: &str| ValidationError::DuplicatePortId {
        node: NodeId::new("a"),
        port: PortId::new(p),
    };
    assert_eq!(
        g.validate(),
        Err(vec![
            ValidationError::DuplicateNodeId(NodeId::new("a")),
            again("in"),
            again("out"),
            again("audio"),
            ValidationError::DuplicateCompositeId(CompositeId::new("k")),
            ValidationError::DuplicateWireId(WireId::new("w1")),
        ])
    );
    let mut h = chain();
    h.nodes[0].ports.push(port("in", SignalKind::Audio, PortDirection::Out));
    assert_eq!(h.validate(), Err(vec![again("in")]));
}

#[test]
fn bad_wires_are_found() {
    let mut g = chain();
    g.wires = vec![
        wire("w1", ("x", "out"), ("b", "y")),
        wire("w2", ("a", "out"), ("b", "audio")),
        wire("w3", ("a", "in"), ("b", "out")),
    ];
    assert_eq!(
        g.validate(),
        Err(vec![
            ValidationError::WireUnknownEndpoint {
                wire: WireId::new("w1"),
                endpoint: "x".to_string(),
            },
            ValidationError::WireUnknownPort {
                wire: WireId::new("w1"),
                endpoint: "b".to_string(),
                port: PortId::new("y"),
            },
            ValidationError::WireSignalMismatch {
                wire: WireId::new("w2"),
                from: SignalKind::Midi,
                to: SignalKind::Audio,
            },
            ValidationError::WireDirection {
                wire: WireId::new("w3"),
                from: PortDirection::In,
                to: PortDirection::Out,
            },
        ])
    );
}

#[test]
fn composites_are_checked() {
    let mut g = chain();
    g.composites = vec![
        composite("ok", &["a", "b"], vec![promoted("p", PortDirection::Out, ("b", "out"))]),
        composite("apart", &["a", "c"], vec![promoted("p", PortDirection::In, ("b", "in"))]),
        composite("gone", &["a", "z"], vec![promoted("p", PortDirection::In, ("a", "no"))]),
    ];
    assert_eq!(
        g.validate(),
        Err(vec![
            ValidationError::CompositePromotedPortInvalid {
                composite: CompositeId::new("apart"),
                node: NodeId::new("b"),
                port: PortId::new("in"),
            },
            ValidationError::CompositeNotConnected { composite: CompositeId::new("apart") },
            ValidationError::CompositeUnknownNode {
                composite: CompositeId::new("gone"),
                node: NodeId::new("z"),
            },
            ValidationError::CompositePromotedPortInvalid {
                composite: CompositeId::new("gone"),
                node: NodeId::new("a"),
                port: PortId::new("no"),
            },
        ])
    );
}

#[test]
fn wires_may_lead_to_composites() {
    let mut g = chain();
    g.composites = vec![composite(
        "k",
        &["a", "b"],
        vec![promoted("p", PortDirection::Out, ("b", "out"))],
    )];
    g.wires.push(wire("w3", ("k", "p"), ("c", "in")));
    assert_eq!(g.validate(), Ok(()));
    g.wires.push(wire("w4", ("k", "q"), ("c", "in")));
    assert_eq!(
        g.validate(),
        Err(vec![ValidationError::WireUnknownPort {
            wire: WireId::new("w4"),
            endpoint: "k".to_string(),
            port: PortId::new("q"),
        }])
    );
}

#[test]
fn members_hang_together_both_ways() {
    let g = chain();
    let ids = |all: &[&str]| -> Vec<NodeId> { all.iter().map(|n| NodeId::new(n)).collect() };
    assert!(is_connected(&g.wires, &ids(&[])));
    assert!(is_connected(&g.wires, &ids(&["a"])));
    assert!(is_connected(&g.wires, &ids(&["c", "a", "b"])));
    assert!(is_connected(&g.wires, &ids(&["b", "b", "a"])));
    assert!(!is_connected(&g.wires, &ids(&["a", "c"])));
}

#[test]
fn nodes_and_ports_are_found_by_id() {
    let g = chain();
    assert_eq!(g.find_node(&NodeId::new("b")).unwrap().name, "b");
    assert!(g.find_node(&NodeId::new("z")).is_none());
    let n = g.find_node(&NodeId::new("a")).unwrap();
    assert_eq!(n.find_port(&PortId::new("audio")).unwrap().signal, SignalKind::Audio);
    assert!(n.find_port(&PortId::new("z")).is_none());
    assert_eq!(NodeId::new("a").as_str(), "a");
    assert_eq!(NodeId::from("a"), NodeId::from("a".to_string()));
    assert_eq!(g.clone(), g);
}

#[test]
fn kinds_have_classes() {
    assert_eq!(NodeKind::SourceKeyboard.class(), NodeClass::Source);
    assert_eq!(NodeKind::SourceFader.class(), NodeClass::Source);
    assert_eq!(NodeKind::MidiTranspose.class(), NodeClass::MidiProcessor);
    assert_eq!(NodeKind::InstrumentTestTone.class(), NodeClass::Instrument);
    assert_eq!(NodeKind::AudioMix.class(), NodeClass::AudioEffect);
    assert_eq!(NodeKind::SinkMainOut.class(), NodeClass::Sink);
}

#[test]
fn faults_of_a_graph_in_words() {
    let said = |e: ValidationError| e.message();
    assert_eq!(
        said(ValidationError::DuplicateNodeId(NodeId::new("a\"b"))),
        "duplicate node id NodeId(\"a\\\"b\")"
    );
    assert_eq!(
        said(ValidationError::DuplicateWireId(WireId::new("w"))),
        "duplicate wire id WireId(\"w\")"
    );
    assert_eq!(
        said(ValidationError::DuplicateCompositeId(CompositeId::new("c"))),
        "duplicate composite id CompositeId(\"c\")"
    );
    assert_eq!(
        said(ValidationError::DuplicatePortId { node: NodeId::new("n"), port: PortId::new("p") }),
        "node NodeId(\"n\") has duplicate port id PortId(\"p\")"
    );
    assert_eq!(
        said(ValidationError::WireUnknownEndpoint {
            wire: WireId::new("w"),
            endpoint: "e".to_string(),
        }),
        "wire WireId(\"w\") references unknown endpoint \"e\""
    );
    assert_eq!(
        said(ValidationError::WireUnknownPort {
            wire: WireId::new("w"),
            endpoint: "e".to_string(),
            port: PortId::new("p"),
        }),
        "wire WireId(\"w\") references unknown port PortId(\"p\") on endpoint \"e\""
    );
    assert_eq!(
        said(ValidationError::WireSignalMismatch {
            wire: WireId::new("w"),
            from: SignalKind::Midi,
            to: SignalKind::Audio,
        }),
        "wire WireId(\"w\") connects mismatched signals: source is Midi, destination is Audio"
    );
    assert_eq!(
        said(ValidationError::WireDirection {
            wire: WireId::new("w"),
            from: PortDirection::In,
            to: PortDirection::Out,
        }),
        "wire WireId(\"w\") has bad direction: source port direction is In, destination is Out (must be out -> in)"
    );
    assert_eq!(
        said(ValidationError::CompositeUnknownNode {
            composite: CompositeId::new("c"),
            node: NodeId::new("n"),
        }),
        "composite CompositeId(\"c\") contains unknown node NodeId(\"n\")"
    );
    assert_eq!(
        said(ValidationError::CompositePromotedPortInvalid {
            composite: CompositeId::new("c"),
            node: NodeId::new("n"),
            port: PortId::new("p"),
        }),
        "composite CompositeId(\"c\") promotes unknown port PortId(\"p\") on node NodeId(\"n\") (or node not in composite)"
    );
    assert_eq!(
        said(ValidationError::CompositeNotConnected { composite: CompositeId::new("c") }),
        "composite CompositeId(\"c\") members do not form a connected subgraph"
    );
}

#[test]
fn real_numbers_are_compared_as_numbers() {
    for a in [0.0f64, -0.0, 1.5, -1.5, f64::INFINITY, f64::NEG_INFINITY, f64::NAN, 5e-324] {
        for b in [0.0f64, -0.0, 1.5, -1.5, f64::INFINITY, f64::NEG_INFINITY, f64::NAN, 5e-324] {
            let (x, y) = (a.to_bits(), b.to_bits());
            assert_eq!(Real64 { bits: x } == Real64 { bits: y }, a == b, "{a} {b}");
            assert_eq!(Json::Real(x) == Json::Real(y), a == b, "{a} {b}");
            let (x, y) = ((a as f32).to_bits(), (b as f32).to_bits());
            assert_eq!(Real32 { bits: x } == Real32 { bits: y }, a as f32 == b as f32, "{a} {b}");
        }
    }
    let at = |x: f64| GraphNode { x: Real64 { bits: x.to_bits() }, ..node("n", vec![]) };
    assert_eq!(at(0.0), at(-0.0));
    assert_ne!(at(0.0), at(1.0));
    assert_ne!(at(f64::NAN), at(f64::NAN));
    let listed = |x: f64| Json::List(vec![Json::Null, Json::Real(x.to_bits())]);
    assert_eq!(listed(0.0), listed(-0.0));
    assert_ne!(listed(0.0), listed(1.0));
}
