//! Shows and show documents.

use stardust::numbers::Real64;
use stardust::json::Json;
use stardust::patch::types::{
    GraphNode, NodeId, NodeKind, PatchGraph, Port, PortDirection, PortId, SignalKind, Wire, WireId,
};
use stardust::show::document::{
    accept_show_value, load_show_value, migrate_show_value, LoadError, ShowDocument,
    CURRENT_SCHEMA_VERSION, SHOW_KIND,
};
use stardust::show::types::{
    is_false, BlockId, Patch, PatchId, Rig, RigComponent, RigComponentId, SavedBlock, Show, Song,
    SongId,
};
use stardust::show::validate::ShowValidationError;

// ---------------------------------------------------------------------------
// Documents
// ---------------------------------------------------------------------------

const V1_SHOW_WITH_SINE: &str = r#"{
  "kind": "stardust.show",
  "schemaVersion": 1,
  "show": {
    "name": "Migration smoke test",
    "rig": { "sources": [{ "kind": "source.keyboard", "label": "kbd" }] },
    "songs": [
      {
        "id": "s1",
        "number": 1,
        "name": "Song 1",
        "patches": [
          {
            "id": "p1",
            "number": 1,
            "name": "Patch 1",
            "graph": {
              "nodes": [
                {
                  "id": "n1",
                  "kind": "instrument.sine",
                  "name": "Sine",
                  "x": 0, "y": 0,
                  "ports": [
                    { "id": "audio-l", "label": "L", "signal": "audio", "direction": "out",
                      "config": { "kind": "stereo", "channel": "L" } },
                    { "id": "audio-r", "label": "R", "signal": "audio", "direction": "out",
                      "config": { "kind": "stereo", "channel": "R" } }
                  ]
                }
              ],
              "wires": [],
              "composites": []
            }
          }
        ]
      }
    ]
  }
}"#;

/// A label-only rig source, two keyboard nodes (in two patches) bound to the
/// same device and channel with different note ranges, a sustain pedal on the
/// same device, and a binding to any device.
const V2_SHOW_WITH_BINDINGS: &str = r#"{
  "kind": "stardust.show",
  "schemaVersion": 2,
  "show": {
    "name": "Binding migration test",
    "rig": { "sources": [{ "kind": "source.pads", "label": "Old pads entry" }] },
    "songs": [
      {
        "id": "s1",
        "number": 1,
        "name": "Song 1",
        "patches": [
          {
            "id": "p1",
            "number": 1,
            "name": "Patch 1",
            "graph": {
              "nodes": [
                {
                  "id": "kbd1",
                  "kind": "source.keyboard",
                  "name": "Keys low",
                  "x": 0, "y": 0,
                  "ports": [{ "id": "out", "label": "MIDI out", "signal": "midi", "direction": "out" }],
                  "config": {
                    "hardwareBinding": {
                      "deviceId": "dev-1", "deviceName": "Test Keys",
                      "channel": 1, "noteRange": [21, 60]
                    }
                  }
                },
                {
                  "id": "sus1",
                  "kind": "source.sustain-pedal",
                  "name": "Sustain",
                  "x": 0, "y": 0,
                  "ports": [{ "id": "out", "label": "MIDI out", "signal": "midi", "direction": "out" }],
                  "config": {
                    "hardwareBinding": { "deviceId": "dev-1", "deviceName": "Test Keys", "channel": 1 }
                  }
                },
                {
                  "id": "omni1",
                  "kind": "source.keyboard",
                  "name": "Any device keys",
                  "x": 0, "y": 0,
                  "ports": [{ "id": "out", "label": "MIDI out", "signal": "midi", "direction": "out" }],
                  "config": { "hardwareBinding": { "deviceId": null } }
                }
              ],
              "wires": [],
              "composites": []
            }
          },
          {
            "id": "p2",
            "number": 2,
            "name": "Patch 2",
            "graph": {
              "nodes": [
                {
                  "id": "kbd2",
                  "kind": "source.keyboard",
                  "name": "Keys high",
                  "x": 0, "y": 0,
                  "ports": [{ "id": "out", "label": "MIDI out", "signal": "midi", "direction": "out" }],
                  "config": {
                    "hardwareBinding": {
                      "deviceId": "dev-1", "deviceName": "Test Keys",
                      "channel": 1, "noteRange": [61, 108]
                    }
                  }
                }
              ],
              "wires": [],
              "composites": []
            }
          }
        ]
      }
    ]
  }
}"#;

fn items(j: &Json) -> &Vec<Json> {
    match j {
        Json::List(items) => items,
        other => panic!("no list: {other:?}"),
    }
}

fn at<'a>(j: &'a Json, path: &[&str]) -> &'a Json {
    let mut here = j;
    for key in path {
        here = here.get(key).expect("member is there");
    }
    here
}

fn patches(doc: &Json, song: usize) -> &Vec<Json> {
    items(at(&items(at(doc, &["show", "songs"]))[song], &["patches"]))
}

fn nodes(patch: &Json) -> &Vec<Json> {
    items(at(patch, &["graph", "nodes"]))
}

fn components(doc: &Json) -> &Vec<Json> {
    items(at(doc, &["show", "rig", "components"]))
}

#[test]
fn v1_show_embedded_sine_nodes_migrate_to_testtone() {
    let doc = load_show_value(V1_SHOW_WITH_SINE).expect("v1 show loads");
    assert_eq!(doc.get_unsigned("schemaVersion"), Some(CURRENT_SCHEMA_VERSION as u64));
    let kind = nodes(&patches(&doc, 0)[0])[0].get_text("kind").unwrap();
    assert_eq!(kind, "instrument.testtone");
    // The v1 label-only rig source became an unbound v3 component.
    assert_eq!(components(&doc).len(), 1);
    assert_eq!(components(&doc)[0].get_text("name").unwrap(), "kbd");
}

#[test]
fn v2_bindings_migrate_to_rig_components() {
    let doc = load_show_value(V2_SHOW_WITH_BINDINGS).expect("v2 show loads");
    assert_eq!(doc.get_unsigned("schemaVersion"), Some(CURRENT_SCHEMA_VERSION as u64));

    // Components: the label-only source + one keyboard (shared by kbd1 +
    // kbd2, same device+channel) + one sustain pedal. The any-device blob
    // creates nothing.
    let rig = components(&doc);
    assert_eq!(rig.len(), 3, "components: {:#?}", rig);
    assert_eq!(rig[0].get_text("name").unwrap(), "Old pads entry");
    assert!(rig[0].get("config").is_none(), "label-only source stays unbound");
    assert!(at(&doc, &["show", "rig"]).get("sources").is_none());

    let kbd = rig
        .iter()
        .find(|c| c.get_text("kind").unwrap() == "source.keyboard")
        .expect("keyboard component created");
    let cfg = kbd.get("config").expect("keyboard component has config");
    assert_eq!(at(cfg, &["device"]).get_text("id").unwrap(), "dev-1");
    assert_eq!(at(cfg, &["device"]).get_text("name").unwrap(), "Test Keys");
    assert_eq!(cfg.get_unsigned("channel"), Some(1));
    // Note ranges across the two nodes unioned into the learned key range.
    assert_eq!(cfg.get_unsigned("lowNote"), Some(21));
    assert_eq!(cfg.get_unsigned("highNote"), Some(108));
    assert_eq!(kbd.get_text("name").unwrap(), "Test Keys keyboard");
    assert_eq!(rig[2].get_text("name").unwrap(), "Test Keys sustain pedal");

    // Both keyboard nodes point at the same component; the binding blob
    // is gone everywhere.
    let node_cfg = |patch: usize, node: usize| nodes(&patches(&doc, 0)[patch])[node].get("config");
    let kbd1 = node_cfg(0, 0).expect("kbd1 keeps config");
    let kbd2 = node_cfg(1, 0).expect("kbd2 keeps config");
    assert_eq!(kbd1.get("rigComponentId"), kbd2.get("rigComponentId"));
    assert_eq!(kbd1.get_text("rigComponentId"), kbd.get_text("id"));
    assert!(kbd1.get("hardwareBinding").is_none());

    // The any-device node lost its blob and got no component: unassigned.
    assert_eq!(node_cfg(0, 2), None);
}

#[test]
fn a_loaded_show_loads_unchanged() {
    let once = load_show_value(V2_SHOW_WITH_BINDINGS).unwrap();
    let again = accept_show_value(load_show_value(V2_SHOW_WITH_BINDINGS).unwrap()).unwrap();
    assert_eq!(once.get("show"), again.get("show"));
    assert_eq!(again.get_unsigned("schemaVersion"), Some(3));
}

#[test]
fn components_are_told_apart_by_kind_device_and_channel() {
    let raw = r#"{"show": {"rig": {}, "songs": [{"patches": [{"graph": {"nodes": [
        {"kind": "source.knob", "config": {"hardwareBinding": {"deviceId": "d"}}},
        {"kind": "source.knob", "config": {"hardwareBinding": {"deviceId": "d", "deviceName": ""}}},
        {"kind": "source.knob", "config": {"hardwareBinding": {"deviceId": "d", "channel": 0}}},
        {"kind": "source.fader", "config": {"hardwareBinding": {"deviceId": "d", "ccRange": [1, 2]}, "keep": 1}},
        {"config": {"hardwareBinding": {"deviceName": "n", "noteRange": [9, 3]}}},
        {"config": {"hardwareBinding": {"deviceName": "n", "noteRange": [5, 4]}}},
        {"config": {"hardwareBinding": {"deviceName": "n", "noteRange": [1]}}},
        {"config": {}}
    ]}}]}]}}"#;
    let mut doc = Json::parse(raw).unwrap();
    migrate_show_value(&mut doc, 2);
    let id = |node: usize| {
        nodes(&patches(&doc, 0)[0])[node].get("config").and_then(|c| c.get_text("rigComponentId")).map(String::as_str)
    };
    assert_eq!(
        (0..8).map(id).collect::<Vec<_>>(),
        vec![
            Some("rc-1"),
            Some("rc-1"),
            Some("rc-2"),
            Some("rc-3"),
            Some("rc-4"),
            Some("rc-4"),
            Some("rc-4"),
            None
        ]
    );
    let rig = components(&doc);
    assert_eq!(rig.len(), 4);
    assert_eq!(rig[0].get_text("name").unwrap(), "Migrated knob");
    assert_eq!(at(&rig[0], &["config", "device"]).get_text("name").unwrap(), "");
    assert_eq!(rig[0].get("config").unwrap().get("channel"), None);
    assert_eq!(rig[1].get("config").unwrap().get_unsigned("channel"), Some(0));
    assert_eq!(
        rig[2].get("config").unwrap().get("ccRange"),
        Some(&Json::List(vec![Json::Unsigned(1), Json::Unsigned(2)]))
    );
    assert_eq!(nodes(&patches(&doc, 0)[0])[3].get("config").unwrap().get_unsigned("keep"), Some(1));
    assert_eq!(at(&rig[3], &["config", "device"]).get("id"), Some(&Json::Null));
    assert_eq!(rig[3].get_text("name").unwrap(), "n ");
    assert_eq!(rig[3].get("config").unwrap().get_unsigned("lowNote"), Some(5));
    assert_eq!(rig[3].get("config").unwrap().get_unsigned("highNote"), Some(4));
    assert_eq!(nodes(&patches(&doc, 0)[0])[7].get("config"), None);
}

#[test]
fn a_show_of_another_shape_is_left_alone() {
    for raw in ["{\"show\": 1}", "{\"show\": {\"songs\": 1, \"rig\": []}}", "{}"] {
        let mut doc = Json::parse(raw).unwrap();
        migrate_show_value(&mut doc, 1);
        assert_eq!(doc.get("show"), Json::parse(raw).unwrap().get("show"));
        assert_eq!(doc.get_unsigned("schemaVersion"), Some(3));
    }
    let mut zero = Json::parse(V2_SHOW_WITH_BINDINGS).unwrap();
    migrate_show_value(&mut zero, 0);
    assert_eq!(zero.get("show"), Json::parse(V2_SHOW_WITH_BINDINGS).unwrap().get("show"));
}

#[test]
fn fixtures_header_is_well_formed() {
    let doc = ShowDocument::new(Show::default());
    assert_eq!(doc.header.kind, "stardust.show");
    assert_eq!(doc.header.schema_version, 3);
    assert_eq!(doc.header.saved_at, None);
    assert_eq!(doc.show, Show::default());
}

#[test]
fn rejects_wrong_kind() {
    let raw = V2_SHOW_WITH_BINDINGS.replace("stardust.show", "stardust.patch");
    let err = load_show_value(&raw).expect_err("wrong kind should fail to load");
    let msg = err.message();
    assert!(msg.contains("stardust.show"), "got: {msg}");
    assert!(matches!(err, LoadError::WrongKind { expected: SHOW_KIND, .. }));
}

#[test]
fn rejects_newer_schema_version() {
    let raw = V2_SHOW_WITH_BINDINGS.replace("\"schemaVersion\": 2", "\"schemaVersion\": 99");
    let err = load_show_value(&raw).expect_err("newer schema should fail to load");
    let msg = err.message();
    assert!(msg.contains("v99"), "got: {msg}");
}

#[test]
fn a_show_needs_a_header_and_json() {
    assert!(matches!(load_show_value("{}"), Err(LoadError::MissingHeader)));
    let err = load_show_value("]").unwrap_err();
    assert!(matches!(err, LoadError::Json(_)));
    assert_eq!(err.message(), "expected value at line 1 column 1");
}

// ---------------------------------------------------------------------------
// Shows
// ---------------------------------------------------------------------------

fn keyboard() -> GraphNode {
    GraphNode {
        id: NodeId::new("n1"),
        kind: NodeKind::SourceKeyboard,
        name: "Keys".to_string(),
        x: Real64 { bits: 0 },
        y: Real64 { bits: 0 },
        ports: vec![Port {
            id: PortId::new("out"),
            label: "MIDI out".to_string(),
            signal: SignalKind::Midi,
            direction: PortDirection::Out,
            config: None,
        }],
        config: None,
    }
}

fn instrument() -> GraphNode {
    GraphNode {
        id: NodeId::new("n2"),
        kind: NodeKind::InstrumentPlugin,
        name: "Piano".to_string(),
        x: Real64 { bits: 0 },
        y: Real64 { bits: 0 },
        ports: vec![Port {
            id: PortId::new("in"),
            label: "MIDI in".to_string(),
            signal: SignalKind::Midi,
            direction: PortDirection::In,
            config: None,
        }],
        config: None,
    }
}

fn patch(id: &str, name: &str) -> Patch {
    Patch {
        id: PatchId::new(id),
        number: 1,
        name: name.to_string(),
        compound: false,
        graph: PatchGraph {
            nodes: vec![keyboard(), instrument()],
            wires: vec![Wire {
                id: WireId::new("w1"),
                from_node: NodeId::new("n1"),
                from_port: PortId::new("out"),
                to_node: NodeId::new("n2"),
                to_port: PortId::new("in"),
                color: None,
            }],
            composites: vec![],
        },
    }
}

fn song(id: &str, name: &str, patches: Vec<Patch>) -> Song {
    Song { id: SongId::new(id), number: 1, name: name.to_string(), patches }
}

fn component(id: &str) -> RigComponent {
    RigComponent {
        id: RigComponentId::new(id),
        kind: NodeKind::SourceKeyboard,
        name: id.to_string(),
        config: None,
    }
}

fn base() -> Show {
    Show {
        name: "Little Shop of Horrors".to_string(),
        songs: vec![
            song(
                "s1",
                "Prologue",
                vec![patch("p1.1", "Opening"), patch("p1.2", "Underscoring")],
            ),
            song("s2", "Skid Row", vec![patch("p2.1", "Verse")]),
        ],
        rig: Rig { components: vec![component("rc-1"), component("rc-2")] },
        saved_blocks: vec![],
    }
}

fn block(id: &str, name: &str, node_count: u32) -> SavedBlock {
    SavedBlock { id: BlockId::new(id), name: name.to_string(), node_count }
}

fn faults(show: Show) -> Vec<ShowValidationError> {
    show.validate().expect_err("expected validation errors")
}

#[test]
fn a_sound_show_is_valid() {
    assert_eq!(base().validate(), Ok(()));
    assert_eq!(Show::default().validate(), Ok(()));
}

#[test]
fn find_patch_locates_by_id() {
    let show = base();
    let id = PatchId::new("p1.2");
    let (song, patch) = show.find_patch(&id).expect("patch exists");
    assert_eq!(song.name, "Prologue");
    assert_eq!(patch.name, "Underscoring");
    assert!(show.find_patch(&PatchId::new("p9")).is_none());
}

#[test]
fn songs_and_components_are_found_by_id() {
    let show = base();
    assert_eq!(show.find_song(&SongId::new("s2")).unwrap().name, "Skid Row");
    assert!(show.find_song(&SongId::new("s3")).is_none());
    assert_eq!(show.rig.find_component(&RigComponentId::new("rc-2")).unwrap().name, "rc-2");
    assert!(show.rig.find_component(&RigComponentId::new("rc-3")).is_none());
}

#[test]
fn detects_duplicate_song_id() {
    let mut show = base();
    show.songs[1].id = SongId::new("s1");
    let errs = faults(show);
    assert!(
        errs.iter().any(|e| matches!(e, ShowValidationError::DuplicateSongId(_))),
        "got: {errs:#?}"
    );
    assert_eq!(errs, vec![ShowValidationError::DuplicateSongId(SongId::new("s1"))]);
}

#[test]
fn detects_duplicate_patch_id_across_songs() {
    // Patch ids must be unique show-wide, not just within one song.
    let mut show = base();
    show.songs[1].patches[0].id = PatchId::new("p1.1");
    let errs = faults(show);
    assert!(
        errs.iter().any(|e| matches!(e, ShowValidationError::DuplicatePatchId(_))),
        "got: {errs:#?}"
    );
    assert_eq!(errs, vec![ShowValidationError::DuplicatePatchId(PatchId::new("p1.1"))]);
}

#[test]
fn detects_duplicate_block_id() {
    let mut show = base();
    show.saved_blocks = vec![block("b1", "A", 2), block("b1", "B", 3)];
    let errs = faults(show);
    assert!(
        errs.iter().any(|e| matches!(e, ShowValidationError::DuplicateBlockId(_))),
        "got: {errs:#?}"
    );
    assert_eq!(errs, vec![ShowValidationError::DuplicateBlockId(BlockId::new("b1"))]);
}

#[test]
fn detects_duplicate_component_id() {
    let mut show = base();
    show.rig.components[1].id = RigComponentId::new("rc-1");
    assert_eq!(
        faults(show),
        vec![ShowValidationError::DuplicateRigComponentId(RigComponentId::new("rc-1"))]
    );
}

#[test]
fn embedded_graph_errors_are_wrapped_with_patch_context() {
    let mut show = base();
    show.songs[0].patches[0].graph.wires[0].to_node = NodeId::new("nope");
    let errs = faults(show);
    let wrapped = errs.iter().find_map(|e| match e {
        ShowValidationError::PatchInvalid { song, patch, errors } => {
            Some((song.clone(), patch.clone(), errors.clone()))
        }
        _ => None,
    });
    let (song, patch, graph_errs) = wrapped.expect("expected a PatchInvalid error");
    assert_eq!(song.as_str(), "s1");
    assert_eq!(patch.as_str(), "p1.1");
    assert!(!graph_errs.is_empty(), "wrapped graph errors should not be empty");
}

#[test]
fn deleting_a_component_keeps_a_show_valid() {
    let mut show = base();
    show.songs[0].patches[0].graph.nodes[0].config =
        Some(Json::parse("{\"rigComponentId\": \"rc-1\"}").unwrap());
    assert_eq!(show.validate(), Ok(()));
    show.rig.components.remove(0);
    assert_eq!(show.validate(), Ok(()));
}

#[test]
fn unset_flags_are_left_out() {
    assert!(is_false(&false));
    assert!(!is_false(&true));
}

#[test]
fn faults_of_a_show_in_words() {
    assert_eq!(
        ShowValidationError::DuplicateSongId(SongId::new("s")).message(),
        "duplicate song id SongId(\"s\")"
    );
    assert_eq!(
        ShowValidationError::DuplicatePatchId(PatchId::new("p")).message(),
        "duplicate patch id PatchId(\"p\")"
    );
    assert_eq!(
        ShowValidationError::DuplicateBlockId(BlockId::new("b")).message(),
        "duplicate saved-block id BlockId(\"b\")"
    );
    assert_eq!(
        ShowValidationError::DuplicateRigComponentId(RigComponentId::new("r")).message(),
        "duplicate rig-component id RigComponentId(\"r\")"
    );
    assert_eq!(
        ShowValidationError::PatchInvalid {
            song: SongId::new("s"),
            patch: PatchId::new("p"),
            errors: vec![],
        }
        .message(),
        "patch PatchId(\"p\") (in song SongId(\"s\")) has structural errors"
    );
}
