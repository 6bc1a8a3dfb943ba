//! What holds of the patch migrations as a whole.

use vstd::prelude::*;

use crate::json;
use crate::json::{Json, JsonModel};
use crate::patch::document;
use crate::patch::document::{HeaderVerdict, LoadError, CURRENT_SCHEMA_VERSION, PATCH_KIND};
use crate::patch::types;
use crate::patch::types::{
    CompositeBlock, GraphNode, NodeClass, NodeId, NodeKind, PatchGraph, Port, PortDirection,
    PromotedPort, SignalKind, Wire,
};
use crate::patch::validate;
use crate::patch::validate::{Endpoint, EndpointPort, Fault, ValidationError};
use crate::text;

verus! {

/// The nodes of a graph; none where it lists none.
pub open spec fn nodes_of(graph: JsonModel) -> Seq<JsonModel> {
    match json::member(graph, "nodes"@) {
        Some(JsonModel::List(nodes)) => nodes,
        _ => Seq::empty(),
    }
}

/// The hardware binding of a node.
pub open spec fn node_binding(node: JsonModel) -> Option<JsonModel> {
    match json::member(node, "config"@) {
        Some(config) => json::member(config, "hardwareBinding"@),
        None => None,
    }
}

/// Migrating a graph in two stretches is migrating it in one.
pub proof fn law_graph_migration_composes(graph: JsonModel, from: u32, between: u32, to: u32)
    requires
        from <= between <= to,
        from >= 1,
    ensures
        document::graph_migrated(graph, from, to) == document::graph_migrated(
            document::graph_migrated(graph, from, between),
            between,
            to,
        ),
    decreases between - from,
{
    if from < between {
        if from == 1 {
            law_graph_migration_composes(
                document::on_nodes(graph, |n: JsonModel| document::node_renamed(n)),
                2,
                between,
                to,
            );
        } else if from == 2 {
            law_graph_migration_composes(
                document::on_nodes(graph, |n: JsonModel| document::node_unbound(n)),
                3,
                between,
                to,
            );
        }
    }
}

/// Once a graph of schema 1 or 2 has been migrated, it has as many nodes as
/// before, and none of them carries a hardware binding.
pub proof fn law_migrated_graph_has_no_bindings(graph: JsonModel, from: u32)
    requires
        from == 1 || from == 2,
    ensures
        ({
            let after = nodes_of(document::graph_migrated(graph, from, CURRENT_SCHEMA_VERSION));
            &&& after.len() == nodes_of(graph).len()
            &&& forall|i: int| 0 <= i < after.len() ==> node_binding(#[trigger] after[i]) is None
        }),
    decreases 3 - from,
{
    if from == 1 {
        let renamed = document::on_nodes(graph, |n: JsonModel| document::node_renamed(n));
        law_migrated_graph_has_no_bindings(renamed, 2);
    } else {
        let unbound = document::on_nodes(graph, |n: JsonModel| document::node_unbound(n));
        assert(document::graph_migrated(unbound, 3, CURRENT_SCHEMA_VERSION) == unbound);
        assert(document::graph_migrated(graph, 2, CURRENT_SCHEMA_VERSION) == unbound);
    }
}

/// Once a graph of schema 1 has been migrated, no node is of the kind that was
/// renamed.
pub proof fn law_migrated_graph_has_no_sine(graph: JsonModel)
    ensures
        ({
            let after = nodes_of(document::graph_migrated(graph, 1, CURRENT_SCHEMA_VERSION));
            forall|i: int|
                0 <= i < after.len() ==> json::member(#[trigger] after[i], "kind"@) != Some(
                    JsonModel::Text("instrument.sine"@),
                )
        }),
{
    reveal_strlit("instrument.sine");
    reveal_strlit("instrument.testtone");
    reveal_strlit("kind");
    reveal_strlit("config");
    assert("instrument.sine"@.len() != "instrument.testtone"@.len());
    assert("kind"@.len() != "config"@.len());
    let renamed = document::on_nodes(graph, |n: JsonModel| document::node_renamed(n));
    let unbound = document::on_nodes(renamed, |n: JsonModel| document::node_unbound(n));
    assert(document::graph_migrated(unbound, 3, CURRENT_SCHEMA_VERSION) == unbound);
    assert(document::graph_migrated(renamed, 2, CURRENT_SCHEMA_VERSION) == unbound);
    assert(document::graph_migrated(graph, 1, CURRENT_SCHEMA_VERSION) == unbound);
}

/// A graph of the current schema or a later one is left alone.
pub proof fn law_current_graph_is_kept(graph: JsonModel, from: u32)
    requires
        from >= CURRENT_SCHEMA_VERSION,
    ensures
        document::graph_migrated(graph, from, CURRENT_SCHEMA_VERSION) == graph,
{
}

/// A migrated document carries the current schema, and is otherwise changed
/// only in its member `graph`.
pub proof fn law_migration_stamps_the_schema(doc: JsonModel, from: u32, key: Seq<char>)
    ensures
        doc is Object ==> json::member(document::patch_migrated(doc, from), "schemaVersion"@)
            == Some(JsonModel::Unsigned(CURRENT_SCHEMA_VERSION as u64)),
        key != "schemaVersion"@ && key != "graph"@ ==> json::member(
            document::patch_migrated(doc, from),
            key,
        ) == json::member(doc, key),
{
}

/// A migrated document can be read again, and migrating it again changes
/// nothing.
pub proof fn law_migration_settles(doc: JsonModel, from: u32)
    requires
        document::header_verdict(doc, PATCH_KIND@, CURRENT_SCHEMA_VERSION)
            == HeaderVerdict::Readable(from),
    ensures
        document::header_verdict(
            document::patch_migrated(doc, from),
            PATCH_KIND@,
            CURRENT_SCHEMA_VERSION,
        ) == HeaderVerdict::Readable(CURRENT_SCHEMA_VERSION),
        document::patch_migrated(document::patch_migrated(doc, from), CURRENT_SCHEMA_VERSION)
            == document::patch_migrated(doc, from),
{
    reveal_strlit("kind");
    reveal_strlit("graph");
    reveal_strlit("schemaVersion");
    assert("kind"@.len() == 4 && "schemaVersion"@.len() == 13 && "graph"@.len() == 5);
    let once = document::patch_migrated(doc, from);
    let m = once->Object_0;
    let stamp = JsonModel::Unsigned(CURRENT_SCHEMA_VERSION as u64);
    if m.dom().contains("graph"@) {
        assert(m.insert("graph"@, m["graph"@]).insert("schemaVersion"@, stamp) =~= m);
    } else {
        assert(m.insert("schemaVersion"@, stamp) =~= m);
    }
}

/// A patch document of a later schema than this build writes is refused.
pub proof fn law_newer_patch_is_refused(doc: JsonModel, version: u64)
    requires
        json::text_in(json::member(doc, "kind"@)) == Some(PATCH_KIND@),
        json::unsigned_in(json::member(doc, "schemaVersion"@)) == Some(version),
        version > CURRENT_SCHEMA_VERSION,
    ensures
        document::header_verdict(doc, PATCH_KIND@, CURRENT_SCHEMA_VERSION) == HeaderVerdict::Newer(
            version,
        ),
{
}

// ---------------------------------------------------------------------------
// Valid graphs
// ---------------------------------------------------------------------------

/// Whether no two nodes share an id, and no two ports of a node do.
pub open spec fn nodes_distinct(nodes: Seq<GraphNode>) -> bool {
    &&& forall|i: int, j: int|
        0 <= i < j < nodes.len() ==> (#[trigger] nodes[i]).id@ != (#[trigger] nodes[j]).id@
    &&& forall|i: int| 0 <= i < nodes.len() ==> ports_distinct((#[trigger] nodes[i]).ports@)
}

/// Whether no two ports share an id.
pub open spec fn ports_distinct(ports: Seq<Port>) -> bool {
    forall|i: int, j: int|
        0 <= i < j < ports.len() ==> (#[trigger] ports[i]).id@ != (#[trigger] ports[j]).id@
}

/// Whether no two composites share an id.
pub open spec fn composites_distinct(composites: Seq<CompositeBlock>) -> bool {
    forall|i: int, j: int|
        0 <= i < j < composites.len() ==> (#[trigger] composites[i]).id@ != (
        #[trigger] composites[j]).id@
}

/// Whether no two wires share an id.
pub open spec fn wires_distinct(wires: Seq<Wire>) -> bool {
    forall|i: int, j: int|
        0 <= i < j < wires.len() ==> (#[trigger] wires[i]).id@ != (#[trigger] wires[j]).id@
}

/// Whether a wire leads from an output to an input that carries the same
/// signal.
pub open spec fn wire_sound(g: PatchGraph, w: Wire) -> bool {
    &&& validate::endpoint_of(g, w.from_node@, w.from_port@) matches Endpoint::Found(from)
    &&& validate::endpoint_of(g, w.to_node@, w.to_port@) matches Endpoint::Found(to)
    &&& from.signal == to.signal
    &&& from.direction is Out
    &&& to.direction is In
}

/// Whether a composite promotes a port of one of its members.
pub open spec fn promotion_sound(g: PatchGraph, c: CompositeBlock, p: PromotedPort) -> bool {
    &&& validate::is_member(c.contains@, p.internal_node@)
    &&& validate::has_node_port(g.nodes@, p.internal_node@, p.internal_port@)
}

/// Whether the members of a composite are nodes that hang together, and its
/// ports are ports of theirs.
pub open spec fn composite_sound(g: PatchGraph, c: CompositeBlock) -> bool {
    &&& validate::members_known(g.nodes@, c.contains@)
    &&& forall|i: int|
        0 <= i < c.promoted_ports@.len() ==> promotion_sound(g, c, #[trigger] c.promoted_ports@[i])
    &&& validate::connected(g.wires@, c.contains@)
}

/// A graph as it should be.
pub open spec fn graph_sound(g: PatchGraph) -> bool {
    &&& nodes_distinct(g.nodes@)
    &&& composites_distinct(g.composites@)
    &&& wires_distinct(g.wires@)
    &&& forall|i: int| 0 <= i < g.wires@.len() ==> wire_sound(g, #[trigger] g.wires@[i])
    &&& forall|i: int|
        0 <= i < g.composites@.len() ==> composite_sound(g, #[trigger] g.composites@[i])
}

proof fn lemma_port_faults(before: Seq<GraphNode>, node: Seq<char>, ports: Seq<Port>)
    ensures
        validate::port_faults(before, node, ports).len() == 0 <==> (ports_distinct(ports)
            && forall|i: int|
            0 <= i < ports.len() ==> !validate::has_node_port(
                before,
                node,
                (#[trigger] ports[i]).id@,
            )),
    decreases ports.len(),
{
    if ports.len() > 0 {
        let rest = ports.drop_last();
        lemma_port_faults(before, node, rest);
        assert(forall|i: int| 0 <= i < rest.len() ==> rest[i] == ports[i]);
        assert(ports_distinct(ports) <==> ports_distinct(rest) && !validate::has_port(
            rest,
            ports.last().id@,
        )) by {
            if ports_distinct(rest) && !validate::has_port(rest, ports.last().id@) {
                assert forall|i: int, j: int| 0 <= i < j < ports.len() implies (
                #[trigger] ports[i]).id@ != (#[trigger] ports[j]).id@ by {
                    assert(rest[i] == ports[i]);
                    if j < rest.len() {
                        assert(rest[j] == ports[j]);
                    }
                }
            }
            if ports_distinct(ports) && validate::has_port(rest, ports.last().id@) {
                let i = choose|i: int|
                    0 <= i < rest.len() && (#[trigger] rest[i]).id@ == ports.last().id@;
                assert(ports[i].id@ != ports[ports.len() - 1].id@);
            }
        }
        if forall|i: int|
            0 <= i < ports.len() ==> !validate::has_node_port(
                before,
                node,
                (#[trigger] ports[i]).id@,
            ) {
            assert forall|i: int| 0 <= i < rest.len() implies !validate::has_node_port(
                before,
                node,
                (#[trigger] rest[i]).id@,
            ) by {
                assert(rest[i] == ports[i]);
            }
            assert(!validate::has_node_port(before, node, ports[ports.len() - 1].id@));
        }
        if validate::port_faults(before, node, ports).len() == 0 {
            assert forall|i: int| 0 <= i < ports.len() implies !validate::has_node_port(
                before,
                node,
                (#[trigger] ports[i]).id@,
            ) by {
                if i < rest.len() {
                    assert(rest[i] == ports[i]);
                }
            }
        }
    }
}

proof fn lemma_node_faults(nodes: Seq<GraphNode>)
    ensures
        validate::node_faults(nodes).len() == 0 <==> nodes_distinct(nodes),
    decreases nodes.len(),
{
    if nodes.len() > 0 {
        let rest = nodes.drop_last();
        let last = nodes.last();
        lemma_node_faults(rest);
        lemma_port_faults(rest, last.id@, last.ports@);
        if validate::node_faults(nodes).len() == 0 {
            assert forall|i: int, j: int| 0 <= i < j < nodes.len() implies (
            #[trigger] nodes[i]).id@ != (#[trigger] nodes[j]).id@ by {
                assert(rest[i] == nodes[i]);
                if j < rest.len() {
                    assert(rest[j] == nodes[j]);
                }
            }
            assert forall|i: int| 0 <= i < nodes.len() implies ports_distinct(
                (#[trigger] nodes[i]).ports@,
            ) by {
                if i < rest.len() {
                    assert(rest[i] == nodes[i]);
                }
            }
        }
        if nodes_distinct(nodes) {
            assert forall|i: int, j: int| 0 <= i < j < rest.len() implies (
            #[trigger] rest[i]).id@ != (#[trigger] rest[j]).id@ by {
                assert(rest[i] == nodes[i] && rest[j] == nodes[j]);
            }
            assert forall|i: int| 0 <= i < rest.len() implies ports_distinct(
                (#[trigger] rest[i]).ports@,
            ) by {
                assert(rest[i] == nodes[i]);
            }
            assert forall|i: int| 0 <= i < rest.len() implies (#[trigger] rest[i]).id@
                != last.id@ by {
                assert(nodes[i].id@ != nodes[nodes.len() - 1].id@);
            }
            assert(ports_distinct(nodes[nodes.len() - 1].ports@));
        }
    }
}

proof fn lemma_composite_id_faults(composites: Seq<CompositeBlock>)
    ensures
        validate::composite_id_faults(composites).len() == 0 <==> composites_distinct(composites),
    decreases composites.len(),
{
    if composites.len() > 0 {
        let rest = composites.drop_last();
        let last = composites.last();
        lemma_composite_id_faults(rest);
        if validate::composite_id_faults(composites).len() == 0 {
            assert forall|i: int, j: int| 0 <= i < j < composites.len() implies (
            #[trigger] composites[i]).id@ != (#[trigger] composites[j]).id@ by {
                assert(rest[i] == composites[i]);
                if j < rest.len() {
                    assert(rest[j] == composites[j]);
                }
            }
        }
        if composites_distinct(composites) {
            assert forall|i: int, j: int| 0 <= i < j < rest.len() implies (
            #[trigger] rest[i]).id@ != (#[trigger] rest[j]).id@ by {
                assert(rest[i] == composites[i] && rest[j] == composites[j]);
            }
            assert forall|i: int| 0 <= i < rest.len() implies (#[trigger] rest[i]).id@
                != last.id@ by {
                assert(composites[i].id@ != composites[composites.len() - 1].id@);
            }
        }
    }
}

proof fn lemma_wire_faults(g: PatchGraph, wires: Seq<Wire>)
    ensures
        validate::wire_faults(g, wires).len() == 0 <==> (wires_distinct(wires) && forall|i: int|
            0 <= i < wires.len() ==> wire_sound(g, #[trigger] wires[i])),
    decreases wires.len(),
{
    if wires.len() > 0 {
        let rest = wires.drop_last();
        let last = wires.last();
        lemma_wire_faults(g, rest);
        assert(validate::link_faults(g, last).len() == 0 <==> wire_sound(g, last));
        if validate::wire_faults(g, wires).len() == 0 {
            assert forall|i: int, j: int| 0 <= i < j < wires.len() implies (
            #[trigger] wires[i]).id@ != (#[trigger] wires[j]).id@ by {
                assert(rest[i] == wires[i]);
                if j < rest.len() {
                    assert(rest[j] == wires[j]);
                }
            }
            assert forall|i: int| 0 <= i < wires.len() implies wire_sound(
                g,
                #[trigger] wires[i],
            ) by {
                if i < rest.len() {
                    assert(rest[i] == wires[i]);
                }
            }
        }
        if wires_distinct(wires) && forall|i: int|
            0 <= i < wires.len() ==> wire_sound(g, #[trigger] wires[i]) {
            assert forall|i: int, j: int| 0 <= i < j < rest.len() implies (
            #[trigger] rest[i]).id@ != (#[trigger] rest[j]).id@ by {
                assert(rest[i] == wires[i] && rest[j] == wires[j]);
            }
            assert forall|i: int| 0 <= i < rest.len() implies (#[trigger] rest[i]).id@ != last.id@
                && wire_sound(g, rest[i]) by {
                assert(wires[i].id@ != wires[wires.len() - 1].id@);
            }
            assert(wire_sound(g, wires[wires.len() - 1]));
        }
    }
}

proof fn lemma_unknown_members(nodes: Seq<GraphNode>, composite: Seq<char>, members: Seq<NodeId>)
    ensures
        validate::unknown_members(nodes, composite, members).len() == 0
            <==> validate::members_known(nodes, members),
    decreases members.len(),
{
    if members.len() > 0 {
        let rest = members.drop_last();
        lemma_unknown_members(nodes, composite, rest);
        if validate::members_known(nodes, members) {
            assert forall|i: int| 0 <= i < rest.len() implies validate::has_node(
                nodes,
                (#[trigger] rest[i])@,
            ) by {
                assert(rest[i] == members[i]);
            }
            assert(validate::has_node(nodes, members[members.len() - 1]@));
        }
        if validate::unknown_members(nodes, composite, members).len() == 0 {
            assert forall|i: int| 0 <= i < members.len() implies validate::has_node(
                nodes,
                (#[trigger] members[i])@,
            ) by {
                if i < rest.len() {
                    assert(rest[i] == members[i]);
                }
            }
        }
    }
}

proof fn lemma_promotion_faults(g: PatchGraph, c: CompositeBlock, ports: Seq<PromotedPort>)
    ensures
        validate::promotion_faults(g.nodes@, c.id@, c.contains@, ports).len() == 0 <==> forall|
            i: int,
        |
            0 <= i < ports.len() ==> promotion_sound(g, c, #[trigger] ports[i]),
    decreases ports.len(),
{
    if ports.len() > 0 {
        let rest = ports.drop_last();
        lemma_promotion_faults(g, c, rest);
        if forall|i: int| 0 <= i < ports.len() ==> promotion_sound(g, c, #[trigger] ports[i]) {
            assert forall|i: int| 0 <= i < rest.len() implies promotion_sound(
                g,
                c,
                #[trigger] rest[i],
            ) by {
                assert(rest[i] == ports[i]);
            }
            assert(promotion_sound(g, c, ports[ports.len() - 1]));
        }
        if validate::promotion_faults(g.nodes@, c.id@, c.contains@, ports).len() == 0 {
            assert forall|i: int| 0 <= i < ports.len() implies promotion_sound(
                g,
                c,
                #[trigger] ports[i],
            ) by {
                if i < rest.len() {
                    assert(rest[i] == ports[i]);
                }
            }
        }
    }
}

proof fn lemma_composite_faults(g: PatchGraph, composites: Seq<CompositeBlock>)
    ensures
        validate::all_composite_faults(g, composites).len() == 0 <==> forall|i: int|
            0 <= i < composites.len() ==> composite_sound(g, #[trigger] composites[i]),
    decreases composites.len(),
{
    if composites.len() > 0 {
        let rest = composites.drop_last();
        let last = composites.last();
        lemma_composite_faults(g, rest);
        lemma_unknown_members(g.nodes@, last.id@, last.contains@);
        lemma_promotion_faults(g, last, last.promoted_ports@);
        assert(validate::composite_faults(g, last).len() == 0 <==> composite_sound(g, last));
        if forall|i: int|
            0 <= i < composites.len() ==> composite_sound(g, #[trigger] composites[i]) {
            assert forall|i: int| 0 <= i < rest.len() implies composite_sound(
                g,
                #[trigger] rest[i],
            ) by {
                assert(rest[i] == composites[i]);
            }
            assert(composite_sound(g, composites[composites.len() - 1]));
        }
        if validate::all_composite_faults(g, composites).len() == 0 {
            assert forall|i: int| 0 <= i < composites.len() implies composite_sound(
                g,
                #[trigger] composites[i],
            ) by {
                if i < rest.len() {
                    assert(rest[i] == composites[i]);
                }
            }
        }
    }
}

/// Validation finds nothing exactly in the graphs that are as they should be:
/// ids are distinct, every wire leads from an output to an input of the same
/// signal, and every composite groups nodes that hang together and shows ports
/// of theirs.
pub proof fn law_valid_graph_is_sound(g: PatchGraph)
    ensures
        validate::graph_faults(g).len() == 0 <==> graph_sound(g),
{
    lemma_node_faults(g.nodes@);
    lemma_composite_id_faults(g.composites@);
    lemma_wire_faults(g, g.wires@);
    lemma_composite_faults(g, g.composites@);
}

/// A graph with nothing in it is valid.
pub proof fn law_empty_graph_is_valid(g: PatchGraph)
    requires
        g.nodes@.len() == 0,
        g.wires@.len() == 0,
        g.composites@.len() == 0,
    ensures
        validate::graph_faults(g).len() == 0,
{
}

// ---------------------------------------------------------------------------
// Where wires lead
// ---------------------------------------------------------------------------

/// Whether some node has the given id.
pub open spec fn node_named(g: PatchGraph, id: Seq<char>) -> bool {
    exists|i: int| 0 <= i < g.nodes@.len() && (#[trigger] g.nodes@[i]).id@ == id
}

/// Whether some composite has the given id.
pub open spec fn composite_named(g: PatchGraph, id: Seq<char>) -> bool {
    exists|i: int| 0 <= i < g.composites@.len() && (#[trigger] g.composites@[i]).id@ == id
}

/// Whether the port number `k` of the node number `i` has the given id, and its
/// node has the other.
pub open spec fn port_at(
    g: PatchGraph,
    i: int,
    k: int,
    node: Seq<char>,
    port: Seq<char>,
) -> bool {
    &&& 0 <= i < g.nodes@.len()
    &&& g.nodes@[i].id@ == node
    &&& 0 <= k < g.nodes@[i].ports@.len()
    &&& g.nodes@[i].ports@[k].id@ == port
}

/// Whether the promoted port number `k` of the composite number `i` has the given
/// id, and its composite has the other.
pub open spec fn promoted_at(
    g: PatchGraph,
    i: int,
    k: int,
    composite: Seq<char>,
    port: Seq<char>,
) -> bool {
    &&& 0 <= i < g.composites@.len()
    &&& g.composites@[i].id@ == composite
    &&& 0 <= k < g.composites@[i].promoted_ports@.len()
    &&& g.composites@[i].promoted_ports@[k].id@ == port
}

proof fn lemma_last_port(ports: Seq<Port>, id: Seq<char>)
    ensures
        (match validate::last_port(ports, id) {
            Some(p) => exists|k: int|
                0 <= k < ports.len() && (#[trigger] ports[k]).id@ == id && p.signal
                    == ports[k].signal && p.direction == ports[k].direction && forall|j: int|
                    k < j < ports.len() ==> (#[trigger] ports[j]).id@ != id,
            None => forall|j: int| 0 <= j < ports.len() ==> (#[trigger] ports[j]).id@ != id,
        }),
    decreases ports.len(),
{
    if ports.len() > 0 {
        let rest = ports.drop_last();
        lemma_last_port(rest, id);
        if ports.last().id@ == id {
            let k = ports.len() - 1;
            assert(ports[k].id@ == id);
        } else {
            match validate::last_port(rest, id) {
                Some(p) => {
                    let k = choose|k: int|
                        0 <= k < rest.len() && (#[trigger] rest[k]).id@ == id && p.signal
                            == rest[k].signal && p.direction == rest[k].direction && forall|j: int|
                            k < j < rest.len() ==> (#[trigger] rest[j]).id@ != id;
                    assert(ports[k] == rest[k]);
                    assert forall|j: int| k < j < ports.len() implies (#[trigger] ports[j]).id@
                        != id by {
                        if j < rest.len() {
                            assert(rest[j] == ports[j]);
                        }
                    }
                },
                None => {
                    assert forall|j: int| 0 <= j < ports.len() implies (#[trigger] ports[j]).id@
                        != id by {
                        if j < rest.len() {
                            assert(rest[j] == ports[j]);
                        }
                    }
                },
            }
        }
    }
}

proof fn lemma_last_promoted(ports: Seq<PromotedPort>, id: Seq<char>)
    ensures
        (match validate::last_promoted(ports, id) {
            Some(p) => exists|k: int|
                0 <= k < ports.len() && (#[trigger] ports[k]).id@ == id && p.signal
                    == ports[k].signal && p.direction == ports[k].direction && forall|j: int|
                    k < j < ports.len() ==> (#[trigger] ports[j]).id@ != id,
            None => forall|j: int| 0 <= j < ports.len() ==> (#[trigger] ports[j]).id@ != id,
        }),
    decreases ports.len(),
{
    if ports.len() > 0 {
        let rest = ports.drop_last();
        lemma_last_promoted(rest, id);
        if ports.last().id@ == id {
            let k = ports.len() - 1;
            assert(ports[k].id@ == id);
        } else {
            match validate::last_promoted(rest, id) {
                Some(p) => {
                    let k = choose|k: int|
                        0 <= k < rest.len() && (#[trigger] rest[k]).id@ == id && p.signal
                            == rest[k].signal && p.direction == rest[k].direction && forall|j: int|
                            k < j < rest.len() ==> (#[trigger] rest[j]).id@ != id;
                    assert(ports[k] == rest[k]);
                    assert forall|j: int| k < j < ports.len() implies (#[trigger] ports[j]).id@
                        != id by {
                        if j < rest.len() {
                            assert(rest[j] == ports[j]);
                        }
                    }
                },
                None => {
                    assert forall|j: int| 0 <= j < ports.len() implies (#[trigger] ports[j]).id@
                        != id by {
                        if j < rest.len() {
                            assert(rest[j] == ports[j]);
                        }
                    }
                },
            }
        }
    }
}

/// Whether no port behind the one number `k` of node number `i` has its ids.
spec fn last_at(nodes: Seq<GraphNode>, i: int, k: int, node: Seq<char>, port: Seq<char>) -> bool {
    forall|i2: int, k2: int|
        0 <= i2 < nodes.len() && nodes[i2].id@ == node && 0 <= k2 < nodes[i2].ports@.len() && (
        #[trigger] nodes[i2].ports@[k2]).id@ == port ==> i2 < i || (i2 == i && k2 <= k)
}

/// Whether no port has the ids.
spec fn none_at(nodes: Seq<GraphNode>, node: Seq<char>, port: Seq<char>) -> bool {
    forall|i: int, k: int|
        0 <= i < nodes.len() && nodes[i].id@ == node && 0 <= k < nodes[i].ports@.len() ==> (
        #[trigger] nodes[i].ports@[k]).id@ != port
}

proof fn lemma_last_node_port(nodes: Seq<GraphNode>, node: Seq<char>, port: Seq<char>)
    ensures
        none_at(nodes, node, port) ==> validate::last_node_port(nodes, node, port) is None,
        forall|i: int, k: int|
            0 <= i < nodes.len() && nodes[i].id@ == node && 0 <= k < nodes[i].ports@.len() && (
            #[trigger] nodes[i].ports@[k]).id@ == port && last_at(nodes, i, k, node, port)
                ==> validate::last_node_port(nodes, node, port) == Some(
                EndpointPort {
                    signal: nodes[i].ports@[k].signal,
                    direction: nodes[i].ports@[k].direction,
                },
            ),
    decreases nodes.len(),
{
    if nodes.len() > 0 {
        let rest = nodes.drop_last();
        let n = nodes.len() - 1;
        let last = nodes[n];
        lemma_last_node_port(rest, node, port);
        lemma_last_port(last.ports@, port);
        let found = validate::last_node_port(nodes, node, port);
        if none_at(nodes, node, port) {
            assert forall|i: int, k: int|
                0 <= i < rest.len() && rest[i].id@ == node && 0 <= k
                    < rest[i].ports@.len() implies (#[trigger] rest[i].ports@[k]).id@ != port by {
                assert(nodes[i].ports@[k].id@ != port);
            }
            if last.id@ == node && validate::last_port(last.ports@, port) is Some {
                let k = choose|k: int|
                    0 <= k < last.ports@.len() && (#[trigger] last.ports@[k]).id@ == port;
                assert(nodes[n].ports@[k].id@ != port);
            }
        }
        assert forall|i: int, k: int|
            0 <= i < nodes.len() && nodes[i].id@ == node && 0 <= k < nodes[i].ports@.len() && (
            #[trigger] nodes[i].ports@[k]).id@ == port && last_at(
                nodes,
                i,
                k,
                node,
                port,
            ) implies found == Some(
            EndpointPort {
                signal: nodes[i].ports@[k].signal,
                direction: nodes[i].ports@[k].direction,
            },
        ) by {
            if i == n {
                let p = validate::last_port(last.ports@, port)->0;
                let k2 = choose|k2: int|
                    0 <= k2 < last.ports@.len() && (#[trigger] last.ports@[k2]).id@ == port
                        && p.signal == last.ports@[k2].signal && p.direction
                        == last.ports@[k2].direction && forall|j: int|
                        k2 < j < last.ports@.len() ==> (#[trigger] last.ports@[j]).id@ != port;
                assert(nodes[n].ports@[k2].id@ == port);
                assert(k2 <= k);
                assert(k2 == k);
            } else {
                assert(rest[i] == nodes[i]);
                if last.id@ == node && validate::last_port(last.ports@, port) is Some {
                    let k2 = choose|k2: int|
                        0 <= k2 < last.ports@.len() && (#[trigger] last.ports@[k2]).id@ == port;
                    assert(nodes[n].ports@[k2].id@ == port);
                }
                assert(last_at(rest, i, k, node, port)) by {
                    assert forall|i2: int, k2: int|
                        0 <= i2 < rest.len() && rest[i2].id@ == node && 0 <= k2
                            < rest[i2].ports@.len() && (#[trigger] rest[i2].ports@[k2]).id@
                            == port implies i2 < i || (i2 == i && k2 <= k) by {
                        assert(nodes[i2].ports@[k2].id@ == port);
                    }
                }
                assert(rest[i].ports@[k].id@ == port);
            }
        }
    }
}

spec fn last_promoted_at(
    all: Seq<CompositeBlock>,
    i: int,
    k: int,
    composite: Seq<char>,
    port: Seq<char>,
) -> bool {
    forall|i2: int, k2: int|
        0 <= i2 < all.len() && all[i2].id@ == composite && 0 <= k2 < all[i2].promoted_ports@.len()
            && (#[trigger] all[i2].promoted_ports@[k2]).id@ == port ==> i2 < i || (i2 == i && k2
            <= k)
}

spec fn none_promoted_at(all: Seq<CompositeBlock>, composite: Seq<char>, port: Seq<char>) -> bool {
    forall|i: int, k: int|
        0 <= i < all.len() && all[i].id@ == composite && 0 <= k < all[i].promoted_ports@.len() ==> (
        #[trigger] all[i].promoted_ports@[k]).id@ != port
}

proof fn lemma_last_composite_port(
    all: Seq<CompositeBlock>,
    composite: Seq<char>,
    port: Seq<char>,
)
    ensures
        none_promoted_at(all, composite, port) ==> validate::last_composite_port(
            all,
            composite,
            port,
        ) is None,
        forall|i: int, k: int|
            0 <= i < all.len() && all[i].id@ == composite && 0 <= k < all[i].promoted_ports@.len()
                && (#[trigger] all[i].promoted_ports@[k]).id@ == port && last_promoted_at(
                all,
                i,
                k,
                composite,
                port,
            ) ==> validate::last_composite_port(all, composite, port) == Some(
                EndpointPort {
                    signal: all[i].promoted_ports@[k].signal,
                    direction: all[i].promoted_ports@[k].direction,
                },
            ),
    decreases all.len(),
{
    if all.len() > 0 {
        let rest = all.drop_last();
        let n = all.len() - 1;
        let last = all[n];
        lemma_last_composite_port(rest, composite, port);
        lemma_last_promoted(last.promoted_ports@, port);
        let found = validate::last_composite_port(all, composite, port);
        if none_promoted_at(all, composite, port) {
            assert forall|i: int, k: int|
                0 <= i < rest.len() && rest[i].id@ == composite && 0 <= k
                    < rest[i].promoted_ports@.len() implies (
            #[trigger] rest[i].promoted_ports@[k]).id@ != port by {
                assert(all[i].promoted_ports@[k].id@ != port);
            }
            if last.id@ == composite && validate::last_promoted(
                last.promoted_ports@,
                port,
            ) is Some {
                let k = choose|k: int|
                    0 <= k < last.promoted_ports@.len() && (
                    #[trigger] last.promoted_ports@[k]).id@ == port;
                assert(all[n].promoted_ports@[k].id@ != port);
            }
        }
        assert forall|i: int, k: int|
            0 <= i < all.len() && all[i].id@ == composite && 0 <= k < all[i].promoted_ports@.len()
                && (#[trigger] all[i].promoted_ports@[k]).id@ == port && last_promoted_at(
                all,
                i,
                k,
                composite,
                port,
            ) implies found == Some(
            EndpointPort {
                signal: all[i].promoted_ports@[k].signal,
                direction: all[i].promoted_ports@[k].direction,
            },
        ) by {
            if i == n {
                let p = validate::last_promoted(last.promoted_ports@, port)->0;
                let k2 = choose|k2: int|
                    0 <= k2 < last.promoted_ports@.len() && (
                    #[trigger] last.promoted_ports@[k2]).id@ == port && p.signal
                        == last.promoted_ports@[k2].signal && p.direction
                        == last.promoted_ports@[k2].direction && forall|j: int|
                        k2 < j < last.promoted_ports@.len() ==> (
                        #[trigger] last.promoted_ports@[j]).id@ != port;
                assert(all[n].promoted_ports@[k2].id@ == port);
                assert(k2 == k);
            } else {
                assert(rest[i] == all[i]);
                if last.id@ == composite && validate::last_promoted(
                    last.promoted_ports@,
                    port,
                ) is Some {
                    let k2 = choose|k2: int|
                        0 <= k2 < last.promoted_ports@.len() && (
                        #[trigger] last.promoted_ports@[k2]).id@ == port;
                    assert(all[n].promoted_ports@[k2].id@ == port);
                }
                assert(last_promoted_at(rest, i, k, composite, port)) by {
                    assert forall|i2: int, k2: int|
                        0 <= i2 < rest.len() && rest[i2].id@ == composite && 0 <= k2
                            < rest[i2].promoted_ports@.len() && (
                        #[trigger] rest[i2].promoted_ports@[k2]).id@ == port implies i2 < i || (i2
                        == i && k2 <= k) by {
                        assert(all[i2].promoted_ports@[k2].id@ == port);
                    }
                }
                assert(rest[i].promoted_ports@[k].id@ == port);
            }
        }
    }
}

/// The end of a wire that names a node is the port of that node with the wire's
/// port id, with the signal and the direction of that port. Where several ports
/// have the ids, it is the last.
pub proof fn law_wire_ends_at_the_port_of_a_node(
    g: PatchGraph,
    endpoint: Seq<char>,
    port: Seq<char>,
    i: int,
    k: int,
)
    requires
        port_at(g, i, k, endpoint, port),
        forall|i2: int, k2: int| #[trigger]
            port_at(g, i2, k2, endpoint, port) ==> i2 < i || (i2 == i && k2 <= k),
    ensures
        validate::endpoint_of(g, endpoint, port) matches Endpoint::Found(p) && p.signal
            == g.nodes@[i].ports@[k].signal && p.direction == g.nodes@[i].ports@[k].direction,
{
    lemma_last_node_port(g.nodes@, endpoint, port);
    assert(last_at(g.nodes@, i, k, endpoint, port)) by {
        assert forall|i2: int, k2: int|
            0 <= i2 < g.nodes@.len() && g.nodes@[i2].id@ == endpoint && 0 <= k2
                < g.nodes@[i2].ports@.len() && (#[trigger] g.nodes@[i2].ports@[k2]).id@
                == port implies i2 < i || (i2 == i && k2 <= k) by {
            assert(port_at(g, i2, k2, endpoint, port));
        }
    }
    assert(g.nodes@[i].id@ == endpoint);
    assert(g.nodes@[i].ports@[k].id@ == port);
}

/// The end of a wire that names a composite, and no node, is the port that the
/// composite promotes under the wire's port id, with the signal and the direction
/// of that promoted port. Where several have the ids, it is the last.
pub proof fn law_wire_ends_at_the_port_of_a_composite(
    g: PatchGraph,
    endpoint: Seq<char>,
    port: Seq<char>,
    i: int,
    k: int,
)
    requires
        !node_named(g, endpoint),
        promoted_at(g, i, k, endpoint, port),
        forall|i2: int, k2: int| #[trigger]
            promoted_at(g, i2, k2, endpoint, port) ==> i2 < i || (i2 == i && k2 <= k),
    ensures
        validate::endpoint_of(g, endpoint, port) matches Endpoint::Found(p) && p.signal
            == g.composites@[i].promoted_ports@[k].signal && p.direction
            == g.composites@[i].promoted_ports@[k].direction,
{
    lemma_last_composite_port(g.composites@, endpoint, port);
    assert(last_promoted_at(g.composites@, i, k, endpoint, port)) by {
        assert forall|i2: int, k2: int|
            0 <= i2 < g.composites@.len() && g.composites@[i2].id@ == endpoint && 0 <= k2
                < g.composites@[i2].promoted_ports@.len() && (
            #[trigger] g.composites@[i2].promoted_ports@[k2]).id@ == port implies i2 < i || (i2 == i
            && k2 <= k) by {
            assert(promoted_at(g, i2, k2, endpoint, port));
        }
    }
    assert(g.composites@[i].id@ == endpoint);
    assert(g.composites@[i].promoted_ports@[k].id@ == port);
    assert(!validate::has_node(g.nodes@, endpoint)) by {
        if validate::has_node(g.nodes@, endpoint) {
            let n = choose|n: int|
                0 <= n < g.nodes@.len() && (#[trigger] g.nodes@[n]).id@ == endpoint;
            assert(g.nodes@[n].id@ == endpoint);
        }
    }
}

/// The end of a wire that names a node without such a port, or a composite that
/// promotes none and has the id of no node, is no port; one that names neither is
/// nothing at all.
pub proof fn law_wire_may_end_nowhere(g: PatchGraph, endpoint: Seq<char>, port: Seq<char>)
    ensures
        node_named(g, endpoint) && (forall|i: int, k: int|
            !#[trigger] port_at(g, i, k, endpoint, port)) ==> validate::endpoint_of(
            g,
            endpoint,
            port,
        ) is NoPort,
        !node_named(g, endpoint) && composite_named(g, endpoint) && (forall|i: int, k: int|
            !#[trigger] promoted_at(g, i, k, endpoint, port)) ==> validate::endpoint_of(
            g,
            endpoint,
            port,
        ) is NoPort,
        !node_named(g, endpoint) && !composite_named(g, endpoint) ==> validate::endpoint_of(
            g,
            endpoint,
            port,
        ) is Unknown,
{
    lemma_last_node_port(g.nodes@, endpoint, port);
    lemma_last_composite_port(g.composites@, endpoint, port);
    assert(validate::has_node(g.nodes@, endpoint) == node_named(g, endpoint));
    assert(validate::has_composite(g.composites@, endpoint) == composite_named(g, endpoint));
    if forall|i: int, k: int| !#[trigger] port_at(g, i, k, endpoint, port) {
        assert forall|i: int, k: int|
            0 <= i < g.nodes@.len() && g.nodes@[i].id@ == endpoint && 0 <= k
                < g.nodes@[i].ports@.len() implies (#[trigger] g.nodes@[i].ports@[k]).id@
            != port by {
            assert(!port_at(g, i, k, endpoint, port));
        }
    }
    if forall|i: int, k: int| !#[trigger] promoted_at(g, i, k, endpoint, port) {
        assert forall|i: int, k: int|
            0 <= i < g.composites@.len() && g.composites@[i].id@ == endpoint && 0 <= k
                < g.composites@[i].promoted_ports@.len() implies (
        #[trigger] g.composites@[i].promoted_ports@[k]).id@ != port by {
            assert(!promoted_at(g, i, k, endpoint, port));
        }
    }
}

// ---------------------------------------------------------------------------
// Which faults are told
// ---------------------------------------------------------------------------

/// Whether `b` is a member of the composite number `c`.
pub open spec fn has_member(g: PatchGraph, c: int, b: Seq<char>) -> bool {
    exists|i: int|
        0 <= i < g.composites@[c].contains@.len() && (#[trigger] g.composites@[c].contains@[i])@
            == b
}

/// Whether some node with the id `node` has a port with the id `port`.
pub open spec fn some_port(g: PatchGraph, node: Seq<char>, port: Seq<char>) -> bool {
    exists|i: int, k: int| #[trigger] port_at(g, i, k, node, port)
}

/// Whether a wire has a fault at its end that names `endpoint` and `port`.
pub open spec fn end_fault(
    g: PatchGraph,
    wire: Seq<char>,
    endpoint: Seq<char>,
    port: Seq<char>,
    f: Fault,
) -> bool {
    match validate::endpoint_of(g, endpoint, port) {
        Endpoint::Unknown => f == (Fault::WireUnknownEndpoint { wire, endpoint }),
        Endpoint::NoPort => f == (Fault::WireUnknownPort { wire, endpoint, port }),
        Endpoint::Found(_) => false,
    }
}

/// Whether a fault lies between the two ends of a wire, both of which are ports:
/// the signals differ, or the wire does not lead from an output to an input.
pub open spec fn pair_fault(g: PatchGraph, w: Wire, f: Fault) -> bool {
    &&& validate::endpoint_of(g, w.from_node@, w.from_port@) matches Endpoint::Found(a)
    &&& validate::endpoint_of(g, w.to_node@, w.to_port@) matches Endpoint::Found(b)
    &&& {
        ||| a.signal != b.signal && f == (Fault::WireSignalMismatch {
            wire: w.id@,
            from: a.signal,
            to: b.signal,
        })
        ||| (a.direction != PortDirection::Out || b.direction != PortDirection::In) && f == (
        Fault::WireDirection { wire: w.id@, from: a.direction, to: b.direction })
    }
}

/// Whether the port number `k` of the node number `i` has the id of a port that
/// comes before it, in the same node or in an earlier node with the same id.
pub open spec fn repeated_port(g: PatchGraph, i: int, k: int) -> bool {
    exists|i2: int, k2: int|
        0 <= i < g.nodes@.len() && 0 <= k < g.nodes@[i].ports@.len() && (i2 < i || (i2 == i && k2
            < k)) && #[trigger] port_at(
            g,
            i2,
            k2,
            g.nodes@[i].id@,
            g.nodes@[i].ports@[k].id@,
        )
}

/// Whether a graph has a fault of the given kind. This says of each fault what it
/// is about.
pub open spec fn is_at_fault(g: PatchGraph, f: Fault) -> bool {
    match f {
        Fault::DuplicateNodeId(id) => exists|i: int, j: int|
            0 <= i < j < g.nodes@.len() && (#[trigger] g.nodes@[i]).id@ == id && (
            #[trigger] g.nodes@[j]).id@ == id,
        Fault::DuplicateWireId(id) => exists|i: int, j: int|
            0 <= i < j < g.wires@.len() && (#[trigger] g.wires@[i]).id@ == id && (
            #[trigger] g.wires@[j]).id@ == id,
        Fault::DuplicateCompositeId(id) => exists|i: int, j: int|
            0 <= i < j < g.composites@.len() && (#[trigger] g.composites@[i]).id@ == id && (
            #[trigger] g.composites@[j]).id@ == id,
        Fault::DuplicatePortId { node, port } => exists|i: int, k: int| #[trigger]
            port_at(g, i, k, node, port) && repeated_port(g, i, k),
        Fault::WireUnknownEndpoint { .. } | Fault::WireUnknownPort { .. } => exists|i: int|
            0 <= i < g.wires@.len() && {
                let w = #[trigger] g.wires@[i];
                end_fault(g, w.id@, w.from_node@, w.from_port@, f) || end_fault(
                    g,
                    w.id@,
                    w.to_node@,
                    w.to_port@,
                    f,
                )
            },
        Fault::WireSignalMismatch { .. } | Fault::WireDirection { .. } => exists|i: int|
            0 <= i < g.wires@.len() && pair_fault(g, #[trigger] g.wires@[i], f),
        Fault::CompositeUnknownNode { composite, node } => exists|c: int|
            0 <= c < g.composites@.len() && (#[trigger] g.composites@[c]).id@ == composite
                && has_member(g, c, node) && !node_named(g, node),
        Fault::CompositePromotedPortInvalid { composite, node, port } => exists|c: int, k: int|
            0 <= c < g.composites@.len() && g.composites@[c].id@ == composite && 0 <= k
                < g.composites@[c].promoted_ports@.len() && {
                let p = #[trigger] g.composites@[c].promoted_ports@[k];
                p.internal_node@ == node && p.internal_port@ == port && !(has_member(g, c, node)
                    && some_port(g, node, port))
            },
        Fault::CompositeNotConnected { composite } => exists|c: int|
            0 <= c < g.composites@.len() && (#[trigger] g.composites@[c]).id@ == composite && (
            forall|b: Seq<char>| #[trigger] has_member(g, c, b) ==> node_named(g, b))
                && !hangs_together(g, c),
    }
}

/// Whether every two members of the composite number `c` are joined by wires
/// between members.
pub open spec fn hangs_together(g: PatchGraph, c: int) -> bool {
    forall|a: Seq<char>, b: Seq<char>|
        has_member(g, c, a) && has_member(g, c, b) ==> #[trigger] validate::reachable(
            g.wires@,
            g.composites@[c].contains@,
            a,
            b,
        )
}

proof fn lemma_some_port(g: PatchGraph, node: Seq<char>, port: Seq<char>)
    ensures
        validate::has_node_port(g.nodes@, node, port) == some_port(g, node, port),
{
    if some_port(g, node, port) {
        let (i, k) = choose|i: int, k: int| #[trigger] port_at(g, i, k, node, port);
        assert(g.nodes@[i].ports@[k].id@ == port);
        assert(validate::has_port(g.nodes@[i].ports@, port));
        assert(g.nodes@[i].id@ == node);
    }
    if validate::has_node_port(g.nodes@, node, port) {
        let i = choose|i: int|
            0 <= i < g.nodes@.len() && (#[trigger] g.nodes@[i]).id@ == node && validate::has_port(
                g.nodes@[i].ports@,
                port,
            );
        let k = choose|k: int|
            0 <= k < g.nodes@[i].ports@.len() && (#[trigger] g.nodes@[i].ports@[k]).id@ == port;
        assert(port_at(g, i, k, node, port));
    }
}

proof fn lemma_concat_contains<T>(a: Seq<T>, b: Seq<T>, x: T)
    ensures
        (a + b).contains(x) == (a.contains(x) || b.contains(x)),
{
    if a.contains(x) {
        let i = choose|i: int| 0 <= i < a.len() && a[i] == x;
        assert((a + b)[i] == x);
    }
    if b.contains(x) {
        let i = choose|i: int| 0 <= i < b.len() && b[i] == x;
        assert((a + b)[a.len() + i] == x);
    }
    if (a + b).contains(x) {
        let i = choose|i: int| 0 <= i < (a + b).len() && (a + b)[i] == x;
        if i < a.len() {
            assert(a[i] == x);
        } else {
            assert(b[i - a.len()] == x);
        }
    }
}

proof fn lemma_fault_if(faulty: bool, fault: Fault, f: Fault)
    ensures
        validate::fault_if(faulty, fault).contains(f) == (faulty && f == fault),
{
    if faulty {
        assert(seq![fault][0] == fault);
    }
}

proof fn lemma_told_ports(
    before: Seq<GraphNode>,
    node: Seq<char>,
    ports: Seq<Port>,
    f: Fault,
)
    ensures
        validate::port_faults(before, node, ports).contains(f) <==> exists|k: int|
            0 <= k < ports.len() && f == (Fault::DuplicatePortId {
                node,
                port: (#[trigger] ports[k]).id@,
            }) && (validate::has_port(ports.take(k), ports[k].id@) || validate::has_node_port(
                before,
                node,
                ports[k].id@,
            )),
    decreases ports.len(),
{
    if ports.len() > 0 {
        let rest = ports.drop_last();
        let n = ports.len() - 1;
        let here = validate::has_port(rest, ports[n].id@) || validate::has_node_port(
            before,
            node,
            ports[n].id@,
        );
        let fault = Fault::DuplicatePortId { node, port: ports[n].id@ };
        lemma_told_ports(before, node, rest, f);
        lemma_fault_if(here, fault, f);
        lemma_concat_contains(
            validate::port_faults(before, node, rest),
            validate::fault_if(here, fault),
            f,
        );
        assert(ports.take(n) =~= rest);
        assert forall|k: int| 0 <= k < n implies #[trigger] rest.take(k) == ports.take(k) by {
            assert(rest.take(k) =~= ports.take(k));
        }
        if validate::port_faults(before, node, rest).contains(f) {
            let k = choose|k: int|
                0 <= k < rest.len() && f == (Fault::DuplicatePortId {
                    node,
                    port: (#[trigger] rest[k]).id@,
                }) && (validate::has_port(rest.take(k), rest[k].id@) || validate::has_node_port(
                    before,
                    node,
                    rest[k].id@,
                ));
            assert(ports[k] == rest[k]);
            assert(rest.take(k) == ports.take(k));
        }
        if exists|k: int|
            0 <= k < ports.len() && f == (Fault::DuplicatePortId {
                node,
                port: (#[trigger] ports[k]).id@,
            }) && (validate::has_port(ports.take(k), ports[k].id@) || validate::has_node_port(
                before,
                node,
                ports[k].id@,
            )) {
            let k = choose|k: int|
                0 <= k < ports.len() && f == (Fault::DuplicatePortId {
                    node,
                    port: (#[trigger] ports[k]).id@,
                }) && (validate::has_port(ports.take(k), ports[k].id@) || validate::has_node_port(
                    before,
                    node,
                    ports[k].id@,
                ));
            if k < n {
                assert(rest[k] == ports[k]);
                assert(rest.take(k) == ports.take(k));
            }
        }
    }
}

proof fn lemma_repeated_port(g: PatchGraph, i: int, k: int)
    requires
        0 <= i < g.nodes@.len(),
        0 <= k < g.nodes@[i].ports@.len(),
    ensures
        ({
            let ports = g.nodes@[i].ports@;
            repeated_port(g, i, k) == (validate::has_port(ports.take(k), ports[k].id@)
                || validate::has_node_port(g.nodes@.take(i), g.nodes@[i].id@, ports[k].id@))
        }),
{
    let ports = g.nodes@[i].ports@;
    let node = g.nodes@[i].id@;
    let port = ports[k].id@;
    let before = g.nodes@.take(i);
    if repeated_port(g, i, k) {
        let (i2, k2) = choose|i2: int, k2: int|
            0 <= i < g.nodes@.len() && 0 <= k < g.nodes@[i].ports@.len() && (i2 < i || (i2 == i
                && k2 < k)) && #[trigger] port_at(
                g,
                i2,
                k2,
                g.nodes@[i].id@,
                g.nodes@[i].ports@[k].id@,
            );
        if i2 < i {
            assert(before[i2] == g.nodes@[i2]);
            assert(before[i2].ports@[k2].id@ == port);
            assert(validate::has_port(before[i2].ports@, port));
        } else {
            assert(ports.take(k)[k2].id@ == port);
        }
    }
    if validate::has_port(ports.take(k), port) {
        let k2 = choose|k2: int|
            0 <= k2 < ports.take(k).len() && (#[trigger] ports.take(k)[k2]).id@ == port;
        assert(ports[k2] == ports.take(k)[k2]);
        assert(port_at(g, i, k2, node, port));
    }
    if validate::has_node_port(before, node, port) {
        let i2 = choose|i2: int|
            0 <= i2 < before.len() && (#[trigger] before[i2]).id@ == node && validate::has_port(
                before[i2].ports@,
                port,
            );
        let k2 = choose|k2: int|
            0 <= k2 < before[i2].ports@.len() && (#[trigger] before[i2].ports@[k2]).id@ == port;
        assert(before[i2] == g.nodes@[i2]);
        assert(port_at(g, i2, k2, node, port));
    }
}

/// Whether a fault lies in one of the first `n` nodes.
spec fn node_fault(g: PatchGraph, n: int, f: Fault) -> bool {
    ||| exists|i: int, j: int|
        0 <= i < j < n && f == Fault::DuplicateNodeId((#[trigger] g.nodes@[j]).id@) && (
        #[trigger] g.nodes@[i]).id@ == g.nodes@[j].id@
    ||| exists|i: int, k: int|
        0 <= i < n && 0 <= k < g.nodes@[i].ports@.len() && f == (Fault::DuplicatePortId {
            node: g.nodes@[i].id@,
            port: (#[trigger] g.nodes@[i].ports@[k]).id@,
        }) && repeated_port(g, i, k)
}

proof fn lemma_told_nodes(g: PatchGraph, n: int, f: Fault)
    requires
        0 <= n <= g.nodes@.len(),
    ensures
        validate::node_faults(g.nodes@.take(n)).contains(f) <==> node_fault(g, n, f),
    decreases n,
{
    let nodes = g.nodes@;
    if n > 0 {
        let m = n - 1;
        let before = nodes.take(m);
        let last = nodes[m];
        assert(nodes.take(n).drop_last() =~= before);
        assert(nodes.take(n).last() == last);
        lemma_told_nodes(g, m, f);
        let a = validate::node_faults(before);
        let b = validate::fault_if(
            validate::has_node(before, last.id@),
            Fault::DuplicateNodeId(last.id@),
        );
        let c = validate::port_faults(before, last.id@, last.ports@);
        lemma_fault_if(
            validate::has_node(before, last.id@),
            Fault::DuplicateNodeId(last.id@),
            f,
        );
        lemma_concat_contains(a, b, f);
        lemma_concat_contains(a + b, c, f);
        lemma_told_ports(before, last.id@, last.ports@, f);
        if b.contains(f) {
            let i = choose|i: int|
                0 <= i < before.len() && (#[trigger] before[i]).id@ == last.id@;
            assert(nodes[i] == before[i]);
            assert(nodes[m].id@ == nodes[i].id@);
        }
        if c.contains(f) {
            let k = choose|k: int|
                0 <= k < last.ports@.len() && f == (Fault::DuplicatePortId {
                    node: last.id@,
                    port: (#[trigger] last.ports@[k]).id@,
                }) && (validate::has_port(last.ports@.take(k), last.ports@[k].id@)
                    || validate::has_node_port(before, last.id@, last.ports@[k].id@));
            lemma_repeated_port(g, m, k);
            assert(nodes[m].ports@[k].id@ == last.ports@[k].id@);
        }
        if node_fault(g, n, f) {
            if exists|i: int, j: int|
                0 <= i < j < n && f == Fault::DuplicateNodeId((#[trigger] nodes[j]).id@) && (
                #[trigger] nodes[i]).id@ == nodes[j].id@ {
                let (i, j) = choose|i: int, j: int|
                    0 <= i < j < n && f == Fault::DuplicateNodeId((#[trigger] nodes[j]).id@) && (
                    #[trigger] nodes[i]).id@ == nodes[j].id@;
                if j == m {
                    assert(before[i] == nodes[i]);
                }
            } else {
                let (i, k) = choose|i: int, k: int|
                    0 <= i < n && 0 <= k < nodes[i].ports@.len() && f == (Fault::DuplicatePortId {
                        node: nodes[i].id@,
                        port: (#[trigger] nodes[i].ports@[k]).id@,
                    }) && repeated_port(g, i, k);
                lemma_repeated_port(g, i, k);
                if i == m {
                    assert(last.ports@[k].id@ == nodes[i].ports@[k].id@);
                }
            }
        }
    }
}

proof fn lemma_told_composite_ids(all: Seq<CompositeBlock>, f: Fault)
    ensures
        validate::composite_id_faults(all).contains(f) <==> exists|i: int, j: int|
            0 <= i < j < all.len() && f == Fault::DuplicateCompositeId((#[trigger] all[j]).id@) && (
            #[trigger] all[i]).id@ == all[j].id@,
    decreases all.len(),
{
    if all.len() > 0 {
        let rest = all.drop_last();
        let n = all.len() - 1;
        let here = validate::has_composite(rest, all[n].id@);
        let fault = Fault::DuplicateCompositeId(all[n].id@);
        lemma_told_composite_ids(rest, f);
        lemma_fault_if(here, fault, f);
        lemma_concat_contains(
            validate::composite_id_faults(rest),
            validate::fault_if(here, fault),
            f,
        );
        assert forall|i: int| 0 <= i < n implies #[trigger] rest[i] == all[i] by {}
        if here && f == fault {
            let i = choose|i: int| 0 <= i < rest.len() && (#[trigger] rest[i]).id@ == all[n].id@;
            assert(all[i].id@ == all[n].id@);
        }
        if validate::composite_id_faults(rest).contains(f) {
            let (i, j) = choose|i: int, j: int|
                0 <= i < j < rest.len() && f == Fault::DuplicateCompositeId(
                    (#[trigger] rest[j]).id@,
                ) && (#[trigger] rest[i]).id@ == rest[j].id@;
            assert(all[i] == rest[i] && all[j] == rest[j]);
        }
        if exists|i: int, j: int|
            0 <= i < j < all.len() && f == Fault::DuplicateCompositeId((#[trigger] all[j]).id@) && (
            #[trigger] all[i]).id@ == all[j].id@ {
            let (i, j) = choose|i: int, j: int|
                0 <= i < j < all.len() && f == Fault::DuplicateCompositeId((#[trigger] all[j]).id@)
                    && (#[trigger] all[i]).id@ == all[j].id@;
            assert(rest[i] == all[i]);
            if j < n {
                assert(rest[j] == all[j]);
            }
        }
    }
}

/// Whether a fault lies in the two ends of a wire.
spec fn link_fault(g: PatchGraph, w: Wire, f: Fault) -> bool {
    ||| end_fault(g, w.id@, w.from_node@, w.from_port@, f)
    ||| end_fault(g, w.id@, w.to_node@, w.to_port@, f)
    ||| pair_fault(g, w, f)
}

proof fn lemma_told_link(g: PatchGraph, w: Wire, f: Fault)
    ensures
        validate::link_faults(g, w).contains(f) <==> link_fault(g, w, f),
{
    let from = validate::endpoint_of(g, w.from_node@, w.from_port@);
    let to = validate::endpoint_of(g, w.to_node@, w.to_port@);
    let a = validate::endpoint_faults(from, w.id@, w.from_node@, w.from_port@);
    let b = validate::endpoint_faults(to, w.id@, w.to_node@, w.to_port@);
    let c = validate::pairing_faults(from, to, w.id@);
    lemma_concat_contains(a, b, f);
    lemma_concat_contains(a + b, c, f);
    if a.len() > 0 {
        assert(a[0] == a[0]);
        if end_fault(g, w.id@, w.from_node@, w.from_port@, f) {
            assert(a[0] == f);
        }
    }
    if b.len() > 0 {
        if end_fault(g, w.id@, w.to_node@, w.to_port@, f) {
            assert(b[0] == f);
        }
    }
    if let (Endpoint::Found(x), Endpoint::Found(y)) = (from, to) {
        let s = Fault::WireSignalMismatch { wire: w.id@, from: x.signal, to: y.signal };
        let d = Fault::WireDirection { wire: w.id@, from: x.direction, to: y.direction };
        let wrong = !(x.direction is Out && y.direction is In);
        lemma_fault_if(x.signal != y.signal, s, f);
        lemma_fault_if(wrong, d, f);
        lemma_concat_contains(
            validate::fault_if(x.signal != y.signal, s),
            validate::fault_if(wrong, d),
            f,
        );
    }
}

/// Whether a fault lies in one of the wires.
spec fn wire_fault(g: PatchGraph, wires: Seq<Wire>, f: Fault) -> bool {
    ||| exists|i: int, j: int|
        0 <= i < j < wires.len() && f == Fault::DuplicateWireId((#[trigger] wires[j]).id@) && (
        #[trigger] wires[i]).id@ == wires[j].id@
    ||| exists|i: int| 0 <= i < wires.len() && link_fault(g, #[trigger] wires[i], f)
}

proof fn lemma_told_wires(g: PatchGraph, wires: Seq<Wire>, f: Fault)
    ensures
        validate::wire_faults(g, wires).contains(f) <==> wire_fault(g, wires, f),
    decreases wires.len(),
{
    if wires.len() > 0 {
        let rest = wires.drop_last();
        let n = wires.len() - 1;
        let w = wires[n];
        let here = validate::has_wire(rest, w.id@);
        let a = validate::wire_faults(g, rest);
        let b = validate::fault_if(here, Fault::DuplicateWireId(w.id@));
        lemma_told_wires(g, rest, f);
        lemma_fault_if(here, Fault::DuplicateWireId(w.id@), f);
        lemma_told_link(g, w, f);
        lemma_concat_contains(a, b, f);
        lemma_concat_contains(a + b, validate::link_faults(g, w), f);
        if b.contains(f) {
            let i = choose|i: int| 0 <= i < rest.len() && (#[trigger] rest[i]).id@ == w.id@;
            assert(wires[i] == rest[i]);
            assert(wires[n].id@ == wires[i].id@);
        }
        if link_fault(g, w, f) {
            assert(link_fault(g, wires[n], f));
        }
        if wire_fault(g, rest, f) {
            if exists|i: int| 0 <= i < rest.len() && link_fault(g, #[trigger] rest[i], f) {
                let i = choose|i: int| 0 <= i < rest.len() && link_fault(g, #[trigger] rest[i], f);
                assert(wires[i] == rest[i]);
            } else {
                let (i, j) = choose|i: int, j: int|
                    0 <= i < j < rest.len() && f == Fault::DuplicateWireId(
                        (#[trigger] rest[j]).id@,
                    ) && (#[trigger] rest[i]).id@ == rest[j].id@;
                assert(wires[i] == rest[i] && wires[j] == rest[j]);
            }
        }
        if wire_fault(g, wires, f) {
            if exists|i: int| 0 <= i < wires.len() && link_fault(g, #[trigger] wires[i], f) {
                let i = choose|i: int|
                    0 <= i < wires.len() && link_fault(g, #[trigger] wires[i], f);
                if i < n {
                    assert(rest[i] == wires[i]);
                }
            } else {
                let (i, j) = choose|i: int, j: int|
                    0 <= i < j < wires.len() && f == Fault::DuplicateWireId(
                        (#[trigger] wires[j]).id@,
                    ) && (#[trigger] wires[i]).id@ == wires[j].id@;
                assert(rest[i] == wires[i]);
                if j < n {
                    assert(rest[j] == wires[j]);
                }
            }
        }
    }
}

proof fn lemma_told_members(
    nodes: Seq<GraphNode>,
    composite: Seq<char>,
    members: Seq<NodeId>,
    f: Fault,
)
    ensures
        validate::unknown_members(nodes, composite, members).contains(f) <==> exists|i: int|
            0 <= i < members.len() && f == (Fault::CompositeUnknownNode {
                composite,
                node: (#[trigger] members[i])@,
            }) && !validate::has_node(nodes, members[i]@),
    decreases members.len(),
{
    if members.len() > 0 {
        let rest = members.drop_last();
        let n = members.len() - 1;
        let here = !validate::has_node(nodes, members[n]@);
        let fault = Fault::CompositeUnknownNode { composite, node: members[n]@ };
        lemma_told_members(nodes, composite, rest, f);
        lemma_fault_if(here, fault, f);
        lemma_concat_contains(
            validate::unknown_members(nodes, composite, rest),
            validate::fault_if(here, fault),
            f,
        );
        if validate::unknown_members(nodes, composite, rest).contains(f) {
            let i = choose|i: int|
                0 <= i < rest.len() && f == (Fault::CompositeUnknownNode {
                    composite,
                    node: (#[trigger] rest[i])@,
                }) && !validate::has_node(nodes, rest[i]@);
            assert(members[i] == rest[i]);
        }
        if exists|i: int|
            0 <= i < members.len() && f == (Fault::CompositeUnknownNode {
                composite,
                node: (#[trigger] members[i])@,
            }) && !validate::has_node(nodes, members[i]@) {
            let i = choose|i: int|
                0 <= i < members.len() && f == (Fault::CompositeUnknownNode {
                    composite,
                    node: (#[trigger] members[i])@,
                }) && !validate::has_node(nodes, members[i]@);
            if i < n {
                assert(rest[i] == members[i]);
            }
        }
    }
}

/// Whether a promoted port is no port of a member, and this is told.
spec fn promotion_fault(
    nodes: Seq<GraphNode>,
    composite: Seq<char>,
    members: Seq<NodeId>,
    p: PromotedPort,
    f: Fault,
) -> bool {
    &&& f == (Fault::CompositePromotedPortInvalid {
        composite,
        node: p.internal_node@,
        port: p.internal_port@,
    })
    &&& !(validate::is_member(members, p.internal_node@) && validate::has_node_port(
        nodes,
        p.internal_node@,
        p.internal_port@,
    ))
}

proof fn lemma_told_promotions(
    nodes: Seq<GraphNode>,
    composite: Seq<char>,
    members: Seq<NodeId>,
    ports: Seq<PromotedPort>,
    f: Fault,
)
    ensures
        validate::promotion_faults(nodes, composite, members, ports).contains(f) <==> exists|
            k: int,
        |
            0 <= k < ports.len() && promotion_fault(
                nodes,
                composite,
                members,
                #[trigger] ports[k],
                f,
            ),
    decreases ports.len(),
{
    if ports.len() > 0 {
        let rest = ports.drop_last();
        let n = ports.len() - 1;
        let p = ports[n];
        let here = !(validate::is_member(members, p.internal_node@) && validate::has_node_port(
            nodes,
            p.internal_node@,
            p.internal_port@,
        ));
        let fault = Fault::CompositePromotedPortInvalid {
            composite,
            node: p.internal_node@,
            port: p.internal_port@,
        };
        lemma_told_promotions(nodes, composite, members, rest, f);
        lemma_fault_if(here, fault, f);
        lemma_concat_contains(
            validate::promotion_faults(nodes, composite, members, rest),
            validate::fault_if(here, fault),
            f,
        );
        if exists|k: int|
            0 <= k < rest.len() && promotion_fault(
                nodes,
                composite,
                members,
                #[trigger] rest[k],
                f,
            ) {
            let k = choose|k: int|
                0 <= k < rest.len() && promotion_fault(
                    nodes,
                    composite,
                    members,
                    #[trigger] rest[k],
                    f,
                );
            assert(ports[k] == rest[k]);
        }
        if exists|k: int|
            0 <= k < ports.len() && promotion_fault(
                nodes,
                composite,
                members,
                #[trigger] ports[k],
                f,
            ) {
            let k = choose|k: int|
                0 <= k < ports.len() && promotion_fault(
                    nodes,
                    composite,
                    members,
                    #[trigger] ports[k],
                    f,
                );
            if k < n {
                assert(rest[k] == ports[k]);
            }
        }
        if here && f == fault {
            assert(promotion_fault(nodes, composite, members, ports[n], f));
        }
    }
}

/// Whether a fault lies inside the composite number `c`.
spec fn inner_fault(g: PatchGraph, c: int, f: Fault) -> bool {
    let block = g.composites@[c];
    ||| exists|i: int|
        0 <= i < block.contains@.len() && f == (Fault::CompositeUnknownNode {
            composite: block.id@,
            node: (#[trigger] block.contains@[i])@,
        }) && !validate::has_node(g.nodes@, block.contains@[i]@)
    ||| exists|k: int|
        0 <= k < block.promoted_ports@.len() && promotion_fault(
            g.nodes@,
            block.id@,
            block.contains@,
            #[trigger] block.promoted_ports@[k],
            f,
        )
    ||| f == (Fault::CompositeNotConnected { composite: block.id@ }) && validate::members_known(
        g.nodes@,
        block.contains@,
    ) && !validate::connected(g.wires@, block.contains@)
}

proof fn lemma_told_composites(g: PatchGraph, n: int, f: Fault)
    requires
        0 <= n <= g.composites@.len(),
    ensures
        validate::all_composite_faults(g, g.composites@.take(n)).contains(f) <==> exists|c: int|
            0 <= c < n && #[trigger] inner_fault(g, c, f),
    decreases n,
{
    let all = g.composites@;
    if n > 0 {
        let m = n - 1;
        let block = all[m];
        assert(all.take(n).drop_last() =~= all.take(m));
        assert(all.take(n).last() == block);
        lemma_told_composites(g, m, f);
        let a = validate::unknown_members(g.nodes@, block.id@, block.contains@);
        let b = validate::promotion_faults(
            g.nodes@,
            block.id@,
            block.contains@,
            block.promoted_ports@,
        );
        let apart = validate::members_known(g.nodes@, block.contains@) && !validate::connected(
            g.wires@,
            block.contains@,
        );
        let fault = Fault::CompositeNotConnected { composite: block.id@ };
        lemma_told_members(g.nodes@, block.id@, block.contains@, f);
        lemma_told_promotions(g.nodes@, block.id@, block.contains@, block.promoted_ports@, f);
        lemma_fault_if(apart, fault, f);
        lemma_concat_contains(a, b, f);
        lemma_concat_contains(a + b, validate::fault_if(apart, fault), f);
        lemma_concat_contains(
            validate::all_composite_faults(g, all.take(m)),
            validate::composite_faults(g, block),
            f,
        );
        assert(validate::composite_faults(g, block).contains(f) == inner_fault(g, m, f));
    }
}

/// Validation tells exactly the faults that a graph has, each with the ids that it
/// is about.
pub proof fn law_faults_are_told_as_they_are(g: PatchGraph, f: Fault)
    ensures
        validate::graph_faults(g).contains(f) <==> is_at_fault(g, f),
{
    let a = validate::node_faults(g.nodes@);
    let b = validate::composite_id_faults(g.composites@);
    let c = validate::wire_faults(g, g.wires@);
    let d = validate::all_composite_faults(g, g.composites@);
    let nodes = g.nodes@;
    assert(g.nodes@.take(g.nodes@.len() as int) =~= g.nodes@);
    assert(g.composites@.take(g.composites@.len() as int) =~= g.composites@);
    lemma_told_nodes(g, g.nodes@.len() as int, f);
    lemma_told_composite_ids(g.composites@, f);
    lemma_told_wires(g, g.wires@, f);
    lemma_told_composites(g, g.composites@.len() as int, f);
    lemma_concat_contains(a, b, f);
    lemma_concat_contains(a + b, c, f);
    lemma_concat_contains(a + b + c, d, f);
    match f {
        Fault::DuplicateNodeId(id) => {
            assert(a.contains(f) == is_at_fault(g, f));
        },
        Fault::DuplicateWireId(id) => {
            assert(c.contains(f) == is_at_fault(g, f));
        },
        Fault::DuplicateCompositeId(id) => {
            assert(b.contains(f) == is_at_fault(g, f));
        },
        Fault::DuplicatePortId { node, port } => {
            if a.contains(f) {
                let (i, k) = choose|i: int, k: int|
                    0 <= i < nodes.len() && 0 <= k < nodes[i].ports@.len() && f == (
                    Fault::DuplicatePortId {
                        node: nodes[i].id@,
                        port: (#[trigger] nodes[i].ports@[k]).id@,
                    }) && repeated_port(g, i, k);
                assert(port_at(g, i, k, node, port));
            }
            if is_at_fault(g, f) {
                let (i, k) = choose|i: int, k: int| #[trigger]
                    port_at(g, i, k, node, port) && repeated_port(g, i, k);
                assert(nodes[i].ports@[k].id@ == port);
            }
        },
        Fault::WireUnknownEndpoint { .. } | Fault::WireUnknownPort { .. } => {
            assert(c.contains(f) == is_at_fault(g, f));
        },
        Fault::WireSignalMismatch { .. } | Fault::WireDirection { .. } => {
            assert(c.contains(f) == is_at_fault(g, f));
        },
        Fault::CompositeUnknownNode { composite, node } => {
            lemma_named(g, node);
            if d.contains(f) {
                let k = choose|k: int| 0 <= k < g.composites@.len() && #[trigger] inner_fault(g, k, f);
                assert(g.composites@[k].id@ == composite);
                assert(has_member(g, k, node));
            }
            if is_at_fault(g, f) {
                let k = choose|k: int|
                    0 <= k < g.composites@.len() && (#[trigger] g.composites@[k]).id@ == composite
                        && has_member(g, k, node) && !node_named(g, node);
                let i = choose|i: int|
                    0 <= i < g.composites@[k].contains@.len() && (
                    #[trigger] g.composites@[k].contains@[i])@ == node;
                assert(g.composites@[k].contains@[i]@ == node);
                assert(inner_fault(g, k, f));
            }
        },
        Fault::CompositePromotedPortInvalid { composite, node, port } => {
            lemma_some_port(g, node, port);
            if d.contains(f) {
                let m = choose|m: int| 0 <= m < g.composites@.len() && #[trigger] inner_fault(g, m, f);
                let block = g.composites@[m];
                let k = choose|k: int|
                    0 <= k < block.promoted_ports@.len() && promotion_fault(
                        g.nodes@,
                        block.id@,
                        block.contains@,
                        #[trigger] block.promoted_ports@[k],
                        f,
                    );
                assert(g.composites@[m].promoted_ports@[k].internal_node@ == node);
                assert(validate::is_member(block.contains@, node) == has_member(g, m, node));
            }
            if is_at_fault(g, f) {
                let (m, k) = choose|m: int, k: int|
                    0 <= m < g.composites@.len() && g.composites@[m].id@ == composite && 0 <= k
                        < g.composites@[m].promoted_ports@.len() && {
                        let p = #[trigger] g.composites@[m].promoted_ports@[k];
                        p.internal_node@ == node && p.internal_port@ == port && !(has_member(
                            g,
                            m,
                            node,
                        ) && some_port(g, node, port))
                    };
                let block = g.composites@[m];
                assert(validate::is_member(block.contains@, node) == has_member(g, m, node));
                assert(promotion_fault(
                    g.nodes@,
                    block.id@,
                    block.contains@,
                    block.promoted_ports@[k],
                    f,
                ));
                assert(inner_fault(g, m, f));
            }
        },
        Fault::CompositeNotConnected { composite } => {
            if d.contains(f) {
                let m = choose|m: int| 0 <= m < g.composites@.len() && #[trigger] inner_fault(g, m, f);
                lemma_apart(g, m);
                assert(g.composites@[m].id@ == composite);
            }
            if is_at_fault(g, f) {
                let m = choose|m: int|
                    0 <= m < g.composites@.len() && (#[trigger] g.composites@[m]).id@ == composite
                        && (forall|b: Seq<char>| #[trigger]
                        has_member(g, m, b) ==> node_named(g, b)) && !hangs_together(g, m);
                lemma_apart(g, m);
                assert(inner_fault(g, m, f));
            }
        },
    }
}

proof fn lemma_named(g: PatchGraph, id: Seq<char>)
    ensures
        validate::has_node(g.nodes@, id) == node_named(g, id),
{
}

proof fn lemma_apart(g: PatchGraph, m: int)
    requires
        0 <= m < g.composites@.len(),
    ensures
        validate::members_known(g.nodes@, g.composites@[m].contains@) == (forall|b: Seq<char>|
            #[trigger] has_member(g, m, b) ==> node_named(g, b)),
        validate::connected(g.wires@, g.composites@[m].contains@) == hangs_together(g, m),
{
    let members = g.composites@[m].contains@;
    assert forall|b: Seq<char>| #[trigger] validate::is_member(members, b) == has_member(
        g,
        m,
        b,
    ) by {}
    if validate::members_known(g.nodes@, members) {
        assert forall|b: Seq<char>| #[trigger] has_member(g, m, b) implies node_named(g, b) by {
            let i = choose|i: int|
                0 <= i < members.len() && (#[trigger] g.composites@[m].contains@[i])@ == b;
            assert(validate::has_node(g.nodes@, members[i]@));
        }
    }
    if forall|b: Seq<char>| #[trigger] has_member(g, m, b) ==> node_named(g, b) {
        assert forall|i: int| 0 <= i < members.len() implies validate::has_node(
            g.nodes@,
            (#[trigger] members[i])@,
        ) by {
            assert(g.composites@[m].contains@[i]@ == members[i]@);
            assert(has_member(g, m, members[i]@));
        }
    }
    if hangs_together(g, m) {
        assert forall|a: Seq<char>, b: Seq<char>|
            validate::is_member(members, a) && validate::is_member(
                members,
                b,
            ) implies #[trigger] validate::reachable(g.wires@, members, a, b) by {
            assert(has_member(g, m, a) && has_member(g, m, b));
        }
    }
    if validate::connected(g.wires@, members) {
        assert forall|a: Seq<char>, b: Seq<char>|
            has_member(g, m, a) && has_member(g, m, b) implies #[trigger] validate::reachable(
            g.wires@,
            members,
            a,
            b,
        ) by {
            assert(validate::is_member(members, a) && validate::is_member(members, b));
        }
    }
}

/// Whether a wire joins two members, either way.
pub open spec fn is_step(
    wires: Seq<Wire>,
    members: Seq<NodeId>,
    x: Seq<char>,
    y: Seq<char>,
) -> bool {
    &&& exists|a: int| 0 <= a < members.len() && (#[trigger] members[a]).0@ == x
    &&& exists|b: int| 0 <= b < members.len() && (#[trigger] members[b]).0@ == y
    &&& exists|w: int|
        0 <= w < wires.len() && (((#[trigger] wires[w]).from_node.0@ == x && wires[w].to_node.0@
            == y) || (wires[w].from_node.0@ == y && wires[w].to_node.0@ == x))
}

/// Whether a path leads from member to member, each joined to the next by a wire.
pub open spec fn is_path(wires: Seq<Wire>, members: Seq<NodeId>, path: Seq<Seq<char>>) -> bool {
    &&& path.len() > 0
    &&& forall|i: int|
        0 <= i < path.len() - 1 ==> #[trigger] is_step(wires, members, path[i], path[i + 1])
}

proof fn lemma_step(wires: Seq<Wire>, members: Seq<NodeId>, x: Seq<char>, y: Seq<char>)
    ensures
        validate::joined(wires, members, x, y) == is_step(wires, members, x, y),
{
    if is_step(wires, members, x, y) {
        let a = choose|a: int| 0 <= a < members.len() && (#[trigger] members[a]).0@ == x;
        let b = choose|b: int| 0 <= b < members.len() && (#[trigger] members[b]).0@ == y;
        let w = choose|w: int|
            0 <= w < wires.len() && (((#[trigger] wires[w]).from_node.0@ == x && wires[w].to_node.0@
                == y) || (wires[w].from_node.0@ == y && wires[w].to_node.0@ == x));
        assert(members[a]@ == x && members[b]@ == y);
        assert(validate::wire_joins(wires[w], x, y));
    }
    if validate::joined(wires, members, x, y) {
        let a = choose|a: int| 0 <= a < members.len() && (#[trigger] members[a])@ == x;
        let b = choose|b: int| 0 <= b < members.len() && (#[trigger] members[b])@ == y;
        let w = choose|w: int|
            0 <= w < wires.len() && validate::wire_joins(#[trigger] wires[w], x, y);
        assert(members[a].0@ == x && members[b].0@ == y);
        assert(wires[w].from_node.0@ == wires[w].from_node@);
    }
}

/// Members that a path joins hang together.
pub proof fn law_path_joins_its_ends(
    wires: Seq<Wire>,
    members: Seq<NodeId>,
    path: Seq<Seq<char>>,
)
    requires
        is_path(wires, members, path),
    ensures
        validate::reachable(wires, members, path[0], path.last()),
{
    lemma_path_reaches(wires, members, path, path.len() - 1);
}

proof fn lemma_path_reaches(
    wires: Seq<Wire>,
    members: Seq<NodeId>,
    path: Seq<Seq<char>>,
    n: int,
)
    requires
        is_path(wires, members, path),
        0 <= n < path.len(),
    ensures
        validate::reached_in(wires, members, path[0], path[n], n as nat),
    decreases n,
{
    if n > 0 {
        lemma_path_reaches(wires, members, path, n - 1);
        let i = n - 1;
        assert(is_step(wires, members, path[i], path[i + 1]));
        lemma_step(wires, members, path[i], path[n]);
        assert(validate::joined(wires, members, path[i], path[n]));
    }
}

/// Members that hang together are joined by a path. Gives it.
pub proof fn law_what_hangs_together_has_a_path(
    wires: Seq<Wire>,
    members: Seq<NodeId>,
    a: Seq<char>,
    b: Seq<char>,
) -> (path: Seq<Seq<char>>)
    requires
        validate::reachable(wires, members, a, b),
    ensures
        is_path(wires, members, path),
        path[0] == a,
        path.last() == b,
{
    let n = choose|n: nat| validate::reached_in(wires, members, a, b, n);
    lemma_reached_has_path(wires, members, a, b, n)
}

proof fn lemma_reached_has_path(
    wires: Seq<Wire>,
    members: Seq<NodeId>,
    a: Seq<char>,
    b: Seq<char>,
    n: nat,
) -> (path: Seq<Seq<char>>)
    requires
        validate::reached_in(wires, members, a, b, n),
    ensures
        is_path(wires, members, path),
        path[0] == a,
        path.last() == b,
    decreases n,
{
    if n == 0 {
        seq![a]
    } else {
        let c = choose|c: Seq<char>|
            validate::reached_in(wires, members, a, c, (n - 1) as nat)
                && #[trigger] validate::joined(wires, members, c, b);
        let before = lemma_reached_has_path(wires, members, a, c, (n - 1) as nat);
        let path = before.push(b);
        lemma_step(wires, members, c, b);
        assert forall|i: int| 0 <= i < path.len() - 1 implies #[trigger] is_step(
            wires,
            members,
            path[i],
            path[i + 1],
        ) by {
            if i < before.len() - 1 {
                assert(is_step(wires, members, before[i], before[i + 1]));
                assert(path[i] == before[i] && path[i + 1] == before[i + 1]);
            } else {
                assert(path[i] == c && path[i + 1] == b);
            }
        }
        path
    }
}

/// What validation returns tells each fault with the ids, signals and directions
/// that it is about.
pub proof fn law_errors_carry_their_faults(e: ValidationError)
    ensures
        (match e {
            ValidationError::DuplicateNodeId(id) => e@ == Fault::DuplicateNodeId(id.0@),
            ValidationError::DuplicateWireId(id) => e@ == Fault::DuplicateWireId(id.0@),
            ValidationError::DuplicateCompositeId(id) => e@ == Fault::DuplicateCompositeId(id.0@),
            ValidationError::DuplicatePortId { node, port } => e@ == (Fault::DuplicatePortId {
                node: node.0@,
                port: port.0@,
            }),
            ValidationError::WireUnknownEndpoint { wire, endpoint } => e@ == (
            Fault::WireUnknownEndpoint { wire: wire.0@, endpoint: endpoint@ }),
            ValidationError::WireUnknownPort { wire, endpoint, port } => e@ == (
            Fault::WireUnknownPort { wire: wire.0@, endpoint: endpoint@, port: port.0@ }),
            ValidationError::WireSignalMismatch { wire, from, to } => e@ == (
            Fault::WireSignalMismatch { wire: wire.0@, from, to }),
            ValidationError::WireDirection { wire, from, to } => e@ == (Fault::WireDirection {
                wire: wire.0@,
                from,
                to,
            }),
            ValidationError::CompositeUnknownNode { composite, node } => e@ == (
            Fault::CompositeUnknownNode { composite: composite.0@, node: node.0@ }),
            ValidationError::CompositePromotedPortInvalid { composite, node, port } => e@ == (
            Fault::CompositePromotedPortInvalid {
                composite: composite.0@,
                node: node.0@,
                port: port.0@,
            }),
            ValidationError::CompositeNotConnected { composite } => e@ == (
            Fault::CompositeNotConnected { composite: composite.0@ }),
        }),
{
}

// ---------------------------------------------------------------------------
// What the migration does to a node
// ---------------------------------------------------------------------------

/// Moving a graph to the current schema, each node keeps its place and all its
/// members but its kind and its configuration. From schema 1 the kind
/// `instrument.sine` becomes `instrument.testtone`; every other kind stays. The
/// configuration keeps all but the hardware binding, and goes where it holds nothing
/// else.
#[verifier::rlimit(40)]
#[verifier::spinoff_prover]
pub proof fn law_node_is_migrated_in_place(
    graph: JsonModel,
    from: u32,
    n: int,
    key: Seq<char>,
)
    requires
        from == 1 || from == 2,
        0 <= n < nodes_of(graph).len(),
    ensures
        ({
            let before = nodes_of(graph)[n];
            let after = nodes_of(
                document::graph_migrated(graph, from, CURRENT_SCHEMA_VERSION),
            )[n];
            let sine = json::member(before, "kind"@) == Some(JsonModel::Text("instrument.sine"@));
            let old_config = json::member(before, "config"@);
            let config = json::member(after, "config"@);
            &&& nodes_of(document::graph_migrated(graph, from, CURRENT_SCHEMA_VERSION)).len()
                == nodes_of(graph).len()
            &&& from == 1 && sine ==> json::member(after, "kind"@) == Some(
                JsonModel::Text("instrument.testtone"@),
            )
            &&& from == 2 || !sine ==> json::member(after, "kind"@) == json::member(
                before,
                "kind"@,
            )
            &&& key != "kind"@ && key != "config"@ ==> json::member(after, key) == json::member(
                before,
                key,
            )
            &&& old_config matches Some(JsonModel::Object(old_map)) ==> all_but_binding(
                old_map,
                config,
                key,
            )
            &&& !(old_config matches Some(JsonModel::Object(_))) ==> config == old_config
        }),
{
    reveal_strlit("kind");
    reveal_strlit("config");
    assert("kind"@.len() != "config"@.len());
    let renamed = document::on_nodes(graph, |n: JsonModel| document::node_renamed(n));
    let start = if from == 1 {
        renamed
    } else {
        graph
    };
    let unbound = document::on_nodes(start, |n: JsonModel| document::node_unbound(n));
    assert(document::graph_migrated(unbound, 3, CURRENT_SCHEMA_VERSION) == unbound);
    assert(document::graph_migrated(start, 2, CURRENT_SCHEMA_VERSION) == unbound);
    assert(document::graph_migrated(graph, from, CURRENT_SCHEMA_VERSION) == unbound);
    let before = nodes_of(graph)[n];
    let middle = nodes_of(start)[n];
    let after = nodes_of(unbound)[n];
    assert(after == document::node_unbound(middle));
    assert(middle == if from == 1 {
        document::node_renamed(before)
    } else {
        before
    });
    assert(json::member(after, "kind"@) == json::member(middle, "kind"@));
    assert(key != "kind"@ ==> json::member(middle, key) == json::member(before, key));
    assert(key != "config"@ ==> json::member(after, key) == json::member(middle, key));
    if let Some(JsonModel::Object(old_map)) = json::member(before, "config"@) {
        let rest = old_map.remove("hardwareBinding"@);
        assert(json::member(middle, "config"@) == json::member(before, "config"@));
        if rest == Map::<Seq<char>, JsonModel>::empty() {
            assert(json::member(after, "config"@) is None);
            if key != "hardwareBinding"@ && old_map.dom().contains(key) {
                assert(rest.dom().contains(key));
            }
        } else {
            assert(json::member(after, "config"@) == Some(JsonModel::Object(rest)));
            if forall|k: Seq<char>| !#[trigger] rest.dom().contains(k) {
                assert(rest =~= Map::<Seq<char>, JsonModel>::empty());
            }
            assert(holds_something(rest));
        }
        assert(all_but_binding(old_map, json::member(after, "config"@), key));
    }
}

/// Whether there is any member.
pub open spec fn holds_something(map: Map<Seq<char>, JsonModel>) -> bool {
    exists|k: Seq<char>| #[trigger] map.dom().contains(k)
}

/// Whether a configuration is what there was, but for the hardware binding: it agrees
/// with it in the member `key`, and is there only where it holds something.
pub open spec fn all_but_binding(
    old_map: Map<Seq<char>, JsonModel>,
    config: Option<JsonModel>,
    key: Seq<char>,
) -> bool {
    match config {
        Some(JsonModel::Object(map)) => {
            &&& !map.dom().contains("hardwareBinding"@)
            &&& key != "hardwareBinding"@ ==> map.dom().contains(key) == old_map.dom().contains(key)
            &&& key != "hardwareBinding"@ && map.dom().contains(key) ==> map[key] == old_map[key]
            &&& holds_something(map)
        },
        Some(_) => false,
        None => key != "hardwareBinding"@ ==> !old_map.dom().contains(key),
    }
}

/// Whatever a document is otherwise, its header decides whether it is read: it has to
/// name its kind and its schema, the kind has to be the one that is asked for, and the
/// schema must not be later than the current one. What is wrong with the kind is told
/// before what is wrong with the schema.
pub proof fn law_header_decides(m: Map<Seq<char>, JsonModel>, kind: Seq<char>, current: u32)
    ensures
        ({
            let verdict = document::header_verdict(JsonModel::Object(m), kind, current);
            let named = m.dom().contains("kind"@);
            let versioned = m.dom().contains("schemaVersion"@);
            &&& !named ==> verdict == HeaderVerdict::Missing
            &&& named ==> match m["kind"@] {
                JsonModel::Text(k) => if k == kind {
                    &&& !versioned ==> verdict == HeaderVerdict::Missing
                    &&& versioned ==> match m["schemaVersion"@] {
                        JsonModel::Unsigned(v) => {
                            &&& v <= current ==> verdict == HeaderVerdict::Readable(v as u32)
                            &&& v > current ==> verdict == HeaderVerdict::Newer(v)
                        },
                        _ => verdict == HeaderVerdict::Missing,
                    }
                } else {
                    verdict == HeaderVerdict::OtherKind(k)
                },
                _ => verdict == HeaderVerdict::Missing,
            }
        }),
{
}

/// Loading a patch document gives what its header decides: the migrated document of
/// its schema, or an error that names what was found.
pub proof fn law_loading_goes_by_the_header(doc: JsonModel, r: Result<Json, LoadError>)
    requires
        document::patch_loaded(doc, r),
    ensures
        (match document::header_verdict(doc, "stardust.patch"@, 3) {
            HeaderVerdict::Missing => r matches Err(LoadError::MissingHeader),
            HeaderVerdict::OtherKind(k) => match r {
                Err(LoadError::WrongKind { expected, found }) => found@ == k && expected@
                    == "stardust.patch"@,
                _ => false,
            },
            HeaderVerdict::Newer(v) => match r {
                Err(LoadError::NewerSchema { document, current }) => document == v && current == 3,
                _ => false,
            },
            HeaderVerdict::Readable(v) => match r {
                Ok(out) => out@ == document::patch_migrated(doc, v),
                Err(_) => false,
            },
        }),
{
}

/// The graph of a migrated document is the migrated graph of the document.
pub proof fn law_document_holds_the_migrated_graph(doc: JsonModel, from: u32)
    ensures
        json::member(document::patch_migrated(doc, from), "graph"@) == (match json::member(
            doc,
            "graph"@,
        ) {
            Some(graph) => Some(
                document::graph_migrated(graph, from, CURRENT_SCHEMA_VERSION),
            ),
            None => None,
        }),
        CURRENT_SCHEMA_VERSION == 3,
{
    reveal_strlit("graph");
    reveal_strlit("schemaVersion");
    assert("graph"@.len() != "schemaVersion"@.len());
}

// ---------------------------------------------------------------------------
// Kinds and ids
// ---------------------------------------------------------------------------

/// Each kind belongs to the one family that it is named for, and none is a router.
pub proof fn law_kinds_fall_into_families(kind: NodeKind)
    ensures
        types::class_of(kind) == NodeClass::MidiProcessor <==> (kind == NodeKind::MidiTranspose
            || kind == NodeKind::MidiMix),
        types::class_of(kind) == NodeClass::Instrument <==> (kind == NodeKind::InstrumentPlugin
            || kind == NodeKind::InstrumentTestTone),
        types::class_of(kind) == NodeClass::AudioEffect <==> (kind == NodeKind::AudioEq || kind
            == NodeKind::AudioMix),
        types::class_of(kind) == NodeClass::Sink <==> kind == NodeKind::SinkMainOut,
        types::class_of(kind) != NodeClass::AudioRouter,
        types::class_of(kind) == NodeClass::Source <==> (kind == NodeKind::SourceKeyboard || kind
            == NodeKind::SourcePads || kind == NodeKind::SourceSwitch || kind
            == NodeKind::SourceSustainPedal || kind == NodeKind::SourceExpressionPedal || kind
            == NodeKind::SourcePitchWheel || kind == NodeKind::SourceModWheel || kind
            == NodeKind::SourceKnob || kind == NodeKind::SourceFader),
{
}

/// The node that is found has the id, and no node before it does.
pub proof fn law_first_node_is_found(nodes: Seq<GraphNode>, id: Seq<char>, i: int, j: int)
    requires
        types::node_index(nodes, id, i),
        0 <= j < nodes.len(),
        nodes[j].id.0@ == id,
    ensures
        0 <= i <= j,
        nodes[i].id.0@ == id,
{
    if j < i {
        assert(nodes[j].id@ != id);
    }
}

/// The port that is found has the id, and no port before it does.
pub proof fn law_first_port_is_found(ports: Seq<Port>, id: Seq<char>, i: int, j: int)
    requires
        types::port_index(ports, id, i),
        0 <= j < ports.len(),
        ports[j].id.0@ == id,
    ensures
        0 <= i <= j,
        ports[i].id.0@ == id,
{
    if j < i {
        assert(ports[j].id@ != id);
    }
}

// ---------------------------------------------------------------------------
// Messages
// ---------------------------------------------------------------------------

/// The message about a fault names what is at fault, each id by its type, and what the
/// fault is: of a wire first what it comes from, then what it goes to.
pub proof fn law_message_names_the_fault(e: ValidationError)
    ensures
        ({
            let said = validate::fault_text(e@);
            match e {
                ValidationError::DuplicateNodeId(id) => said == "duplicate node id "@
                    + named_id("NodeId"@, id.0@),
                ValidationError::DuplicateWireId(id) => said == "duplicate wire id "@
                    + named_id("WireId"@, id.0@),
                ValidationError::DuplicateCompositeId(id) => said == "duplicate composite id "@
                    + named_id("CompositeId"@, id.0@),
                ValidationError::DuplicatePortId { node, port } => said == "node "@ + named_id(
                    "NodeId"@,
                    node.0@,
                ) + " has duplicate port id "@ + named_id("PortId"@, port.0@),
                ValidationError::WireUnknownEndpoint { wire, endpoint } => said == "wire "@
                    + named_id("WireId"@, wire.0@) + " references unknown endpoint "@
                    + text::quoted_text(endpoint@),
                ValidationError::WireUnknownPort { wire, endpoint, port } => said == "wire "@
                    + named_id("WireId"@, wire.0@) + " references unknown port "@ + named_id(
                    "PortId"@,
                    port.0@,
                ) + " on endpoint "@ + text::quoted_text(endpoint@),
                ValidationError::WireSignalMismatch { wire, from, to } => said == "wire "@
                    + named_id("WireId"@, wire.0@)
                    + " connects mismatched signals: source is "@ + (if from == SignalKind::Midi {
                    "Midi"@
                } else {
                    "Audio"@
                }) + ", destination is "@ + (if to == SignalKind::Midi {
                    "Midi"@
                } else {
                    "Audio"@
                }),
                ValidationError::WireDirection { wire, from, to } => said == "wire "@ + named_id(
                    "WireId"@,
                    wire.0@,
                ) + " has bad direction: source port direction is "@ + (if from
                    == PortDirection::In {
                    "In"@
                } else {
                    "Out"@
                }) + ", destination is "@ + (if to == PortDirection::In {
                    "In"@
                } else {
                    "Out"@
                }) + " (must be out -> in)"@,
                ValidationError::CompositeUnknownNode { composite, node } => said == "composite "@
                    + named_id("CompositeId"@, composite.0@) + " contains unknown node "@
                    + named_id("NodeId"@, node.0@),
                ValidationError::CompositePromotedPortInvalid { composite, node, port } => said
                    == "composite "@ + named_id("CompositeId"@, composite.0@)
                    + " promotes unknown port "@ + named_id("PortId"@, port.0@) + " on node "@
                    + named_id("NodeId"@, node.0@) + " (or node not in composite)"@,
                ValidationError::CompositeNotConnected { composite } => said == "composite "@
                    + named_id("CompositeId"@, composite.0@)
                    + " members do not form a connected subgraph"@,
            }
        }),
{
}

/// An id behind the name of its type, in quotes and brackets.
pub open spec fn named_id(name: Seq<char>, id: Seq<char>) -> Seq<char> {
    name + "("@ + text::quoted_text(id) + ")"@
}

/// The message about a document that cannot be loaded tells what was found, then what
/// was expected: the kinds, or the schema versions. It tells what is wrong with a text
/// that is not JSON.
pub proof fn law_message_tells_what_was_found(e: LoadError, said: Seq<char>)
    requires
        document::load_message(e, said),
    ensures
        match e {
            LoadError::WrongKind { expected, found } => said
                == "not a stardust patch document: kind was "@ + text::quoted_text(found@)
                + ", expected "@ + text::quoted_text(expected@),
            LoadError::MissingHeader => said
                == "patch document is missing required header fields (kind, schemaVersion)"@,
            LoadError::NewerSchema { document, current } => said == "patch document is schema v"@
                + text::decimal_text(document as nat)
                + ", but this build only understands up to v"@ + text::decimal_text(current as nat),
            LoadError::Json(why) => said == "malformed patch JSON: "@ + json::error_said(why),
        },
{
}

/// A list of errors tells one fault for each, in their order.
pub proof fn law_faults_are_told_in_order(errors: Seq<ValidationError>, i: int)
    requires
        0 <= i < errors.len(),
    ensures
        validate::faults(errors).len() == errors.len(),
        validate::faults(errors)[i] == errors[i]@,
{
}

// ---------------------------------------------------------------------------
// The order of the faults
// ---------------------------------------------------------------------------

/// What a fault is about: nodes and their ports, the ids of composites, wires, or what is
/// in a composite.
pub open spec fn concern(f: Fault) -> int {
    match f {
        Fault::DuplicateNodeId(_) | Fault::DuplicatePortId { .. } => 0,
        Fault::DuplicateCompositeId(_) => 1,
        Fault::DuplicateWireId(_)
        | Fault::WireUnknownEndpoint { .. }
        | Fault::WireUnknownPort { .. }
        | Fault::WireSignalMismatch { .. }
        | Fault::WireDirection { .. } => 2,
        Fault::CompositeUnknownNode { .. }
        | Fault::CompositePromotedPortInvalid { .. }
        | Fault::CompositeNotConnected { .. } => 3,
    }
}

/// Whether all faults are about the same.
spec fn all_concern(faults: Seq<Fault>, n: int) -> bool {
    forall|i: int| 0 <= i < faults.len() ==> concern(#[trigger] faults[i]) == n
}

proof fn lemma_ports_concern(before: Seq<GraphNode>, node: Seq<char>, ports: Seq<Port>)
    ensures
        all_concern(validate::port_faults(before, node, ports), 0),
    decreases ports.len(),
{
    if ports.len() > 0 {
        lemma_ports_concern(before, node, ports.drop_last());
    }
}

proof fn lemma_nodes_concern(nodes: Seq<GraphNode>)
    ensures
        all_concern(validate::node_faults(nodes), 0),
    decreases nodes.len(),
{
    if nodes.len() > 0 {
        let before = nodes.drop_last();
        lemma_nodes_concern(before);
        lemma_ports_concern(before, nodes.last().id@, nodes.last().ports@);
    }
}

proof fn lemma_composite_ids_concern(composites: Seq<CompositeBlock>)
    ensures
        all_concern(validate::composite_id_faults(composites), 1),
    decreases composites.len(),
{
    if composites.len() > 0 {
        lemma_composite_ids_concern(composites.drop_last());
    }
}

proof fn lemma_wires_concern(g: PatchGraph, wires: Seq<Wire>)
    ensures
        all_concern(validate::wire_faults(g, wires), 2),
    decreases wires.len(),
{
    if wires.len() > 0 {
        lemma_wires_concern(g, wires.drop_last());
        assert(all_concern(validate::link_faults(g, wires.last()), 2));
    }
}

proof fn lemma_members_concern(nodes: Seq<GraphNode>, composite: Seq<char>, members: Seq<NodeId>)
    ensures
        all_concern(validate::unknown_members(nodes, composite, members), 3),
        forall|i: int|
            0 <= i < validate::unknown_members(nodes, composite, members).len() ==> (
            #[trigger] validate::unknown_members(nodes, composite, members)[i])
                is CompositeUnknownNode,
    decreases members.len(),
{
    if members.len() > 0 {
        lemma_members_concern(nodes, composite, members.drop_last());
    }
}

proof fn lemma_promotions_concern(
    nodes: Seq<GraphNode>,
    composite: Seq<char>,
    members: Seq<NodeId>,
    ports: Seq<PromotedPort>,
)
    ensures
        all_concern(validate::promotion_faults(nodes, composite, members, ports), 3),
        forall|i: int|
            0 <= i < validate::promotion_faults(nodes, composite, members, ports).len() ==> (
            #[trigger] validate::promotion_faults(nodes, composite, members, ports)[i])
                is CompositePromotedPortInvalid,
    decreases ports.len(),
{
    if ports.len() > 0 {
        lemma_promotions_concern(nodes, composite, members, ports.drop_last());
    }
}

proof fn lemma_composites_concern(g: PatchGraph, composites: Seq<CompositeBlock>)
    ensures
        all_concern(validate::all_composite_faults(g, composites), 3),
    decreases composites.len(),
{
    if composites.len() > 0 {
        let c = composites.last();
        lemma_composites_concern(g, composites.drop_last());
        lemma_members_concern(g.nodes@, c.id@, c.contains@);
        lemma_promotions_concern(g.nodes@, c.id@, c.contains@, c.promoted_ports@);
        assert(all_concern(validate::composite_faults(g, c), 3));
    }
}

/// Faults in nodes and ports are told first, then those in the ids of composites, then
/// those in wires, and last those in what composites hold.
pub proof fn law_faults_are_told_by_what_they_concern(g: PatchGraph, i: int, j: int)
    requires
        0 <= i < j < validate::graph_faults(g).len(),
    ensures
        concern(validate::graph_faults(g)[i]) <= concern(validate::graph_faults(g)[j]),
{
    lemma_nodes_concern(g.nodes@);
    lemma_composite_ids_concern(g.composites@);
    lemma_wires_concern(g, g.wires@);
    lemma_composites_concern(g, g.composites@);
}

/// One fault where there is one.
pub open spec fn if_faulty(faulty: bool, f: Fault) -> Seq<Fault> {
    if faulty {
        seq![f]
    } else {
        Seq::empty()
    }
}

/// Of each further node, the id is told where a node before has it, and then each port
/// whose id a port before it has in a node of that id.
pub proof fn law_nodes_are_told_one_by_one(nodes: Seq<GraphNode>, n: GraphNode)
    ensures
        validate::node_faults(Seq::empty()).len() == 0,
        validate::node_faults(nodes.push(n)) == validate::node_faults(nodes) + if_faulty(
            exists|i: int| 0 <= i < nodes.len() && (#[trigger] nodes[i]).id.0@ == n.id.0@,
            Fault::DuplicateNodeId(n.id.0@),
        ) + validate::port_faults(nodes, n.id.0@, n.ports@),
{
    assert(nodes.push(n).drop_last() =~= nodes);
}

/// Of each further port of a node, the id is told where a port before has it: in the same
/// node, or in a node before with the same id.
pub proof fn law_ports_are_told_one_by_one(
    before: Seq<GraphNode>,
    node: Seq<char>,
    ports: Seq<Port>,
    p: Port,
)
    ensures
        validate::port_faults(before, node, Seq::empty()).len() == 0,
        validate::port_faults(before, node, ports.push(p)) == validate::port_faults(
            before,
            node,
            ports,
        ) + if_faulty(
            (exists|i: int| 0 <= i < ports.len() && (#[trigger] ports[i]).id.0@ == p.id.0@) || (
            exists|i: int, k: int|
                0 <= i < before.len() && before[i].id.0@ == node && 0 <= k < before[i].ports@.len()
                    && (#[trigger] before[i].ports@[k]).id.0@ == p.id.0@),
            Fault::DuplicatePortId { node, port: p.id.0@ },
        ),
{
    assert(ports.push(p).drop_last() =~= ports);
    let id = p.id.0@;
    assert(validate::has_node_port(before, node, id) == (exists|i: int, k: int|
        0 <= i < before.len() && before[i].id.0@ == node && 0 <= k < before[i].ports@.len() && (
        #[trigger] before[i].ports@[k]).id.0@ == id)) by {
        if validate::has_node_port(before, node, id) {
            let i = choose|i: int|
                0 <= i < before.len() && (#[trigger] before[i]).id@ == node && validate::has_port(
                    before[i].ports@,
                    id,
                );
            let k = choose|k: int|
                0 <= k < before[i].ports@.len() && (#[trigger] before[i].ports@[k]).id@ == id;
            assert(before[i].ports@[k].id.0@ == id);
        }
        if exists|i: int, k: int|
            0 <= i < before.len() && before[i].id.0@ == node && 0 <= k < before[i].ports@.len() && (
            #[trigger] before[i].ports@[k]).id.0@ == id {
            let (i, k) = choose|i: int, k: int|
                0 <= i < before.len() && before[i].id.0@ == node && 0 <= k < before[i].ports@.len()
                    && (#[trigger] before[i].ports@[k]).id.0@ == id;
            assert(before[i].ports@[k].id@ == id);
            assert(validate::has_port(before[i].ports@, id));
            assert(before[i].id@ == node);
        }
    }
}

/// Of each further wire, the id is told where a wire before has it, and then what is
/// wrong with its ends.
pub proof fn law_wires_are_told_one_by_one(g: PatchGraph, wires: Seq<Wire>, w: Wire)
    ensures
        validate::wire_faults(g, Seq::empty()).len() == 0,
        validate::wire_faults(g, wires.push(w)) == validate::wire_faults(g, wires) + if_faulty(
            exists|i: int| 0 <= i < wires.len() && (#[trigger] wires[i]).id.0@ == w.id.0@,
            Fault::DuplicateWireId(w.id.0@),
        ) + validate::link_faults(g, w),
{
    assert(wires.push(w).drop_last() =~= wires);
}

/// Of a wire the end that it comes from is told before the one that it goes to. Only
/// where both are ports, the signals are told where they differ, and then the directions
/// where they are not out and in.
pub proof fn law_wire_is_told_from_its_start(g: PatchGraph, w: Wire)
    ensures
        ({
            let from = validate::endpoint_of(g, w.from_node.0@, w.from_port.0@);
            let to = validate::endpoint_of(g, w.to_node.0@, w.to_port.0@);
            let told = validate::link_faults(g, w);
            match (from, to) {
                (Endpoint::Found(f), Endpoint::Found(t)) => told == if_faulty(
                    f.signal != t.signal,
                    Fault::WireSignalMismatch { wire: w.id.0@, from: f.signal, to: t.signal },
                ) + if_faulty(
                    f.direction == PortDirection::In || t.direction == PortDirection::Out,
                    Fault::WireDirection { wire: w.id.0@, from: f.direction, to: t.direction },
                ),
                (Endpoint::Found(_), _) => told.len() == 1 && told[0] == missing_end(
                    to,
                    w.id.0@,
                    w.to_node.0@,
                    w.to_port.0@,
                ),
                (_, Endpoint::Found(_)) => told.len() == 1 && told[0] == missing_end(
                    from,
                    w.id.0@,
                    w.from_node.0@,
                    w.from_port.0@,
                ),
                _ => told.len() == 2 && told[0] == missing_end(
                    from,
                    w.id.0@,
                    w.from_node.0@,
                    w.from_port.0@,
                ) && told[1] == missing_end(to, w.id.0@, w.to_node.0@, w.to_port.0@),
            }
        }),
{
    let from = validate::endpoint_of(g, w.from_node.0@, w.from_port.0@);
    let to = validate::endpoint_of(g, w.to_node.0@, w.to_port.0@);
    let told = validate::link_faults(g, w);
    let none = Seq::<Fault>::empty();
    match (from, to) {
        (Endpoint::Found(f), Endpoint::Found(t)) => {
            let of_signal = if_faulty(
                f.signal != t.signal,
                Fault::WireSignalMismatch { wire: w.id.0@, from: f.signal, to: t.signal },
            );
            let of_direction = if_faulty(
                f.direction == PortDirection::In || t.direction == PortDirection::Out,
                Fault::WireDirection { wire: w.id.0@, from: f.direction, to: t.direction },
            );
            assert(told =~= of_signal + of_direction);
        },
        _ => {},
    }
}

/// What is told of the end of a wire that is no port: that there is no such end, or that
/// the end has no such port.
pub open spec fn missing_end(
    end: Endpoint,
    wire: Seq<char>,
    endpoint: Seq<char>,
    port: Seq<char>,
) -> Fault {
    if end == Endpoint::Unknown {
        Fault::WireUnknownEndpoint { wire, endpoint }
    } else {
        Fault::WireUnknownPort { wire, endpoint, port }
    }
}

/// Of each composite first the members that are missing are told, then the ports that it
/// promotes wrongly, and only where no member is missing, that the members do not hang
/// together. The composites come in order.
pub proof fn law_composites_are_told_one_by_one(
    g: PatchGraph,
    composites: Seq<CompositeBlock>,
    c: CompositeBlock,
    i: int,
    j: int,
)
    ensures
        validate::all_composite_faults(g, Seq::empty()).len() == 0,
        validate::all_composite_faults(g, composites.push(c)) == validate::all_composite_faults(
            g,
            composites,
        ) + validate::composite_faults(g, c),
        validate::composite_id_faults(Seq::empty()).len() == 0,
        validate::composite_id_faults(composites.push(c)) == validate::composite_id_faults(
            composites,
        ) + if_faulty(
            exists|k: int| 0 <= k < composites.len() && (#[trigger] composites[k]).id.0@ == c.id.0@,
            Fault::DuplicateCompositeId(c.id.0@),
        ),
        0 <= i < j < validate::composite_faults(g, c).len() ==> {
            let f = validate::composite_faults(g, c)[i];
            let h = validate::composite_faults(g, c)[j];
            &&& !(f is CompositeNotConnected)
            &&& h is CompositeNotConnected ==> f is CompositePromotedPortInvalid
            &&& h is CompositeUnknownNode ==> f is CompositeUnknownNode
        },
{
    assert(composites.push(c).drop_last() =~= composites);
    lemma_members_concern(g.nodes@, c.id@, c.contains@);
    lemma_promotions_concern(g.nodes@, c.id@, c.contains@, c.promoted_ports@);
    lemma_known_members(g.nodes@, c.id@, c.contains@);
}

proof fn lemma_known_members(nodes: Seq<GraphNode>, composite: Seq<char>, members: Seq<NodeId>)
    ensures
        validate::members_known(nodes, members) ==> validate::unknown_members(
            nodes,
            composite,
            members,
        ).len() == 0,
    decreases members.len(),
{
    if members.len() > 0 && validate::members_known(nodes, members) {
        let rest = members.drop_last();
        assert forall|i: int| 0 <= i < rest.len() implies validate::has_node(
            nodes,
            (#[trigger] rest[i])@,
        ) by {
            assert(rest[i] == members[i]);
        }
        lemma_known_members(nodes, composite, rest);
        assert(validate::has_node(nodes, members[members.len() - 1]@));
    }
}

/// Missing members of a composite, and ports that it promotes wrongly, are told in the
/// order in which the composite lists them.
pub proof fn law_composite_is_told_in_its_order(
    nodes: Seq<GraphNode>,
    composite: Seq<char>,
    members: Seq<NodeId>,
    member: NodeId,
    ports: Seq<PromotedPort>,
    p: PromotedPort,
)
    ensures
        validate::unknown_members(nodes, composite, members.push(member))
            == validate::unknown_members(nodes, composite, members) + if_faulty(
            forall|i: int| 0 <= i < nodes.len() ==> (#[trigger] nodes[i]).id.0@ != member.0@,
            Fault::CompositeUnknownNode { composite, node: member.0@ },
        ),
        ({
            let more = validate::promotion_faults(nodes, composite, members, ports.push(p));
            let told = validate::promotion_faults(nodes, composite, members, ports);
            more == told || more == told.push(
                Fault::CompositePromotedPortInvalid {
                    composite,
                    node: p.internal_node.0@,
                    port: p.internal_port.0@,
                },
            )
        }),
{
    assert(members.push(member).drop_last() =~= members);
    assert(ports.push(p).drop_last() =~= ports);
    let told = validate::promotion_faults(nodes, composite, members, ports);
    let more = validate::promotion_faults(nodes, composite, members, ports.push(p));
    let fault = Fault::CompositePromotedPortInvalid {
        composite,
        node: p.internal_node.0@,
        port: p.internal_port.0@,
    };
    assert(told + Seq::<Fault>::empty() =~= told);
    assert(told + seq![fault] =~= told.push(fault));
}

} // verus!
