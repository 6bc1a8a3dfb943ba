//! What becomes of devices when a show moves from schema 2 to 3, told on the JSON
//! of the document: each node that was bound to a device refers to a component of
//! the rig that holds that device.

use vstd::prelude::*;

use crate::json::{Json, JsonModel};
use crate::patch::document;
use crate::patch::document::HeaderVerdict;
use crate::show::document as show_document;
use crate::show::document::{ComponentModel, LoadError};
use crate::show::laws;
use crate::text;

verus! {

// ---------------------------------------------------------------------------
// Finding things in a document
// ---------------------------------------------------------------------------

/// The member with a name, where the value is an object that has it.
pub open spec fn at(j: Option<JsonModel>, key: Seq<char>) -> Option<JsonModel> {
    match j {
        Some(JsonModel::Object(m)) => if m.dom().contains(key) {
            Some(m[key])
        } else {
            None
        },
        _ => None,
    }
}

/// The item with a number, where the value is a list that has it.
pub open spec fn nth(j: Option<JsonModel>, i: int) -> Option<JsonModel> {
    match j {
        Some(JsonModel::List(v)) => if 0 <= i < v.len() {
            Some(v[i])
        } else {
            None
        },
        _ => None,
    }
}

/// The graph of the patch number `p` of the song number `s`.
pub open spec fn graph_at(show: Option<JsonModel>, s: int, p: int) -> Option<JsonModel> {
    at(nth(at(nth(at(show, "songs"@), s), "patches"@), p), "graph"@)
}

/// The node number `n` of the patch number `p` of the song number `s`.
pub open spec fn node_at(show: Option<JsonModel>, s: int, p: int, n: int) -> Option<JsonModel> {
    nth(at(graph_at(show, s, p), "nodes"@), n)
}

/// The hardware binding of a node.
pub open spec fn binding_of(node: Option<JsonModel>) -> Option<JsonModel> {
    at(at(node, "config"@), "hardwareBinding"@)
}

/// The component that a node refers to.
pub open spec fn reference_of(node: Option<JsonModel>) -> Option<JsonModel> {
    at(at(node, "config"@), "rigComponentId"@)
}

/// The component number `c` of the rig.
pub open spec fn component_at(show: Option<JsonModel>, c: int) -> Option<JsonModel> {
    nth(at(at(show, "rig"@), "components"@), c)
}

/// A text; empty where the value is none.
pub open spec fn words(j: Option<JsonModel>) -> Seq<char> {
    match j {
        Some(JsonModel::Text(s)) => s,
        _ => Seq::empty(),
    }
}

/// A whole number that is not negative, where the value is one.
pub open spec fn number(j: Option<JsonModel>) -> Option<u64> {
    match j {
        Some(JsonModel::Unsigned(n)) => Some(n),
        _ => None,
    }
}

/// Whether a binding names a device: by its id, by its name, or by both.
pub open spec fn names_a_device(binding: Option<JsonModel>) -> bool {
    at(binding, "deviceId"@) matches Some(JsonModel::Text(_)) || at(
        binding,
        "deviceName"@,
    ) matches Some(JsonModel::Text(_))
}

/// Whether two bindings on nodes of two kinds are to one device: the kinds, the
/// device's ids and names, and the channels are the same, where a missing text
/// counts as empty.
pub open spec fn same_device(
    kind: Seq<char>,
    a: Option<JsonModel>,
    other_kind: Seq<char>,
    b: Option<JsonModel>,
) -> bool {
    &&& kind == other_kind
    &&& words(at(a, "deviceId"@)) == words(at(b, "deviceId"@))
    &&& words(at(a, "deviceName"@)) == words(at(b, "deviceName"@))
    &&& number(at(a, "channel"@)) == number(at(b, "channel"@))
}

/// Whether a component of the rig stands for the device that a binding on a node of
/// some kind names.
pub open spec fn holds_device(
    component: Option<JsonModel>,
    kind: Seq<char>,
    binding: Option<JsonModel>,
) -> bool {
    let config = at(component, "config"@);
    &&& at(component, "kind"@) == Some(JsonModel::Text(kind))
    &&& words(at(at(config, "device"@), "id"@)) == words(at(binding, "deviceId"@))
    &&& at(at(config, "device"@), "name"@) == Some(
        JsonModel::Text(words(at(binding, "deviceName"@))),
    )
    &&& at(config, "channel"@) == (match number(at(binding, "channel"@)) {
        Some(n) => Some(JsonModel::Unsigned(n)),
        None => None,
    })
}

/// Whether the keys of a component take in those that a binding names.
pub open spec fn holds_keys(component: Option<JsonModel>, binding: Option<JsonModel>) -> bool {
    let range = at(binding, "noteRange"@);
    match (number(nth(range, 0)), number(nth(range, 1))) {
        (Some(low), Some(high)) => {
            &&& number(at(at(component, "config"@), "lowNote"@)) matches Some(lo) && lo <= low
            &&& number(at(at(component, "config"@), "highNote"@)) matches Some(hi) && high <= hi
        },
        _ => true,
    }
}

// ---------------------------------------------------------------------------
// From a node to its component
// ---------------------------------------------------------------------------

proof fn lemma_node_is_moved(show: JsonModel, s: int, p: int, n: int)
    requires
        node_at(Some(show), s, p, n) is Some,
    ensures
        ({
            let after = node_at(Some(show_document::show_regrouped(show)), s, p, n);
            &&& after is Some
            &&& laws::node_moved(
                node_at(Some(show), s, p, n)->0,
                after->0,
                laws::show_components(show),
            )
        }),
{
    laws::law_bindings_move_to_the_rig(show);
    let cs = laws::show_components(show);
    let after = show_document::show_regrouped(show);
    let songs = at(Some(show), "songs"@)->0->List_0;
    let new_songs = at(Some(after), "songs"@)->0->List_0;
    assert(laws::song_moved(songs[s], new_songs[s], cs));
    let patches = at(Some(songs[s]), "patches"@)->0->List_0;
    let new_patches = at(Some(new_songs[s]), "patches"@)->0->List_0;
    assert(laws::patch_moved(patches[p], new_patches[p], cs));
    let graph = at(Some(patches[p]), "graph"@)->0;
    let new_graph = at(Some(new_patches[p]), "graph"@)->0;
    assert(laws::graph_moved(graph, new_graph, cs));
    let nodes = at(Some(graph), "nodes"@)->0->List_0;
    let new_nodes = at(Some(new_graph), "nodes"@)->0->List_0;
    assert(laws::node_moved(nodes[n], new_nodes[n], cs));
}

/// What tells the names of members apart.
proof fn lemma_names()
    ensures
        "id"@.len() == 2,
        "kind"@.len() == 4 && "kind"@[0] == 'k',
        "name"@.len() == 4 && "name"@[0] == 'n',
        "config"@.len() == 6 && "config"@[0] == 'c',
        "device"@.len() == 6 && "device"@[0] == 'd',
        "channel"@.len() == 7 && "channel"@[1] == 'h',
        "ccRange"@.len() == 7 && "ccRange"@[1] == 'c',
        "lowNote"@.len() == 7 && "lowNote"@[1] == 'o',
        "highNote"@.len() == 8,
{
    reveal_strlit("id");
    reveal_strlit("kind");
    reveal_strlit("name");
    reveal_strlit("config");
    reveal_strlit("device");
    reveal_strlit("channel");
    reveal_strlit("ccRange");
    reveal_strlit("lowNote");
    reveal_strlit("highNote");
}

/// The JSON of a component that stands for a device.
proof fn lemma_bound_json(
    i: nat,
    kind: Seq<char>,
    device_id: Option<Seq<char>>,
    device_name: Option<Seq<char>>,
    channel: Option<u64>,
    cc_range: Option<JsonModel>,
    notes: Option<(u64, u64)>,
)
    ensures
        ({
            let j = Some(
                show_document::component_json(
                    i,
                    ComponentModel::Bound {
                        kind,
                        device_id,
                        device_name,
                        channel,
                        cc_range,
                        notes,
                    },
                ),
            );
            let config = at(j, "config"@);
            &&& at(j, "id"@) == Some(JsonModel::Text(show_document::component_id(i)))
            &&& at(j, "kind"@) == Some(JsonModel::Text(kind))
            &&& at(j, "name"@) == Some(
                JsonModel::Text(show_document::bound_name(device_name, kind)),
            )
            &&& at(at(config, "device"@), "id"@) == Some(
                match device_id {
                    Some(id) => JsonModel::Text(id),
                    None => JsonModel::Null,
                },
            )
            &&& at(at(config, "device"@), "name"@) == Some(
                JsonModel::Text(show_document::or_empty(device_name)),
            )
            &&& at(config, "channel"@) == (match channel {
                Some(n) => Some(JsonModel::Unsigned(n)),
                None => None,
            })
            &&& at(config, "ccRange"@) == cc_range
            &&& at(config, "lowNote"@) == (match notes {
                Some((low, high)) => Some(JsonModel::Unsigned(low)),
                None => None,
            })
            &&& at(config, "highNote"@) == (match notes {
                Some((low, high)) => Some(JsonModel::Unsigned(high)),
                None => None,
            })
        }),
{
    lemma_names();
}

/// The components of the rig are those that were gathered, written as JSON.
proof fn lemma_component_at(show: JsonModel, c: int)
    requires
        at(Some(show), "rig"@) matches Some(JsonModel::Object(_)),
        0 <= c < laws::show_components(show).len(),
    ensures
        component_at(Some(show_document::show_regrouped(show)), c) == Some(
            show_document::component_json(c as nat, laws::show_components(show)[c]),
        ),
{
    laws::law_rig_holds_each_device_once(show);
    let rig = at(Some(show), "rig"@)->0->Object_0;
    let full = rig.remove("sources"@).insert(
        "components"@,
        show_document::rig_json(laws::show_components(show)),
    );
    assert(at(Some(show_document::show_regrouped(show)), "rig"@) == Some(
        JsonModel::Object(full),
    ));
}

/// A node of schema 2 that was bound to a device refers to a component of the rig
/// that holds that device: its kind, the device's id and name, and the channel. The
/// component's keys take in those of the binding. Gives the component's number.
proof fn lemma_node_refers_to_its_device(show: JsonModel, s: int, p: int, n: int) -> (c: int)
    requires
        at(Some(show), "rig"@) matches Some(JsonModel::Object(_)),
        names_a_device(binding_of(node_at(Some(show), s, p, n))),
    ensures
        ({
            let before = node_at(Some(show), s, p, n);
            let new_show = Some(show_document::show_regrouped(show));
            let after = node_at(new_show, s, p, n);
            let component = component_at(new_show, c);
            &&& 0 <= c < laws::show_components(show).len()
            &&& show_document::key_index(
                laws::show_components(show),
                laws::node_key(before->0, binding_of(before)->0),
            ) == Some(c as nat)
            &&& reference_of(after) == Some(JsonModel::Text(show_document::component_id(c as nat)))
            &&& component is Some
            &&& at(component, "id"@) == reference_of(after)
            &&& binding_of(after) is None
            &&& at(after, "kind"@) == at(before, "kind"@)
            &&& holds_device(component, words(at(before, "kind"@)), binding_of(before))
            &&& holds_keys(component, binding_of(before))
        }),
{
    lemma_node_is_moved(show, s, p, n);
    let before = node_at(Some(show), s, p, n)->0;
    let new_show = show_document::show_regrouped(show);
    let after = node_at(Some(new_show), s, p, n)->0;
    let cs = laws::show_components(show);
    let binding = binding_of(Some(before))->0;
    assert(laws::node_binding(before) == Some(binding));
    assert(show_document::has_identity(binding));
    let key = laws::node_key(before, binding);
    let i = show_document::key_index(cs, key)->0;
    show_document::lemma_key_index(cs, key);
    assert("config"@.len() != "kind"@.len()) by {
        lemma_names();
    }
    assert(crate::json::member(after, "kind"@) == crate::json::member(before, "kind"@));
    match cs[i as int] {
        ComponentModel::Bound { kind, device_id, device_name, channel, cc_range, notes } => {
            lemma_component_at(show, i as int);
            lemma_bound_json(i, kind, device_id, device_name, channel, cc_range, notes);
        },
        ComponentModel::Labelled { .. } => {},
    }
    i as int
}

// ---------------------------------------------------------------------------
// Laws
// ---------------------------------------------------------------------------

/// The show of a document.
pub open spec fn show_in(doc: JsonModel) -> Option<JsonModel> {
    at(Some(doc), "show"@)
}

/// Moving from schema 2, each node that was bound to a device refers to a component
/// of the rig that holds the device of its own binding: the node's kind, and the
/// binding's device id, device name and channel. The component's keys take in those
/// that the binding names. The node itself keeps its kind, and has no binding any
/// more. Gives the component's number.
pub proof fn law_node_refers_to_its_own_device(doc: JsonModel, s: int, p: int, n: int) -> (c: int)
    requires
        at(show_in(doc), "rig"@) matches Some(JsonModel::Object(_)),
        names_a_device(binding_of(node_at(show_in(doc), s, p, n))),
    ensures
        ({
            let before = node_at(show_in(doc), s, p, n);
            let moved = show_in(show_document::show_migrated(doc, 2));
            let after = node_at(moved, s, p, n);
            let component = component_at(moved, c);
            &&& component is Some
            &&& reference_of(after) is Some
            &&& at(component, "id"@) == reference_of(after)
            &&& holds_device(component, words(at(before, "kind"@)), binding_of(before))
            &&& holds_keys(component, binding_of(before))
            &&& binding_of(after) is None
            &&& at(after, "kind"@) == at(before, "kind"@)
        }),
{
    laws::law_migration_regroups_the_show(doc, 2);
    lemma_node_refers_to_its_device(show_in(doc)->0, s, p, n)
}

/// Two nodes that were bound refer to one component exactly where they were bound to
/// one device: where they are of one kind, and their bindings agree in the device's
/// id, its name and the channel.
pub proof fn law_each_device_has_one_component(
    doc: JsonModel,
    s: int,
    p: int,
    n: int,
    s2: int,
    p2: int,
    n2: int,
)
    requires
        at(show_in(doc), "rig"@) matches Some(JsonModel::Object(_)),
        names_a_device(binding_of(node_at(show_in(doc), s, p, n))),
        names_a_device(binding_of(node_at(show_in(doc), s2, p2, n2))),
    ensures
        ({
            let a = node_at(show_in(doc), s, p, n);
            let b = node_at(show_in(doc), s2, p2, n2);
            let moved = show_in(show_document::show_migrated(doc, 2));
            (reference_of(node_at(moved, s, p, n)) == reference_of(node_at(moved, s2, p2, n2)))
                <==> same_device(
                words(at(a, "kind"@)),
                binding_of(a),
                words(at(b, "kind"@)),
                binding_of(b),
            )
        }),
{
    laws::law_migration_regroups_the_show(doc, 2);
    let show = show_in(doc)->0;
    let a = node_at(Some(show), s, p, n);
    let b = node_at(Some(show), s2, p2, n2);
    let c = lemma_node_refers_to_its_device(show, s, p, n);
    let d = lemma_node_refers_to_its_device(show, s2, p2, n2);
    let same = same_device(
        words(at(a, "kind"@)),
        binding_of(a),
        words(at(b, "kind"@)),
        binding_of(b),
    );
    if same {
        let x = laws::node_key(a->0, binding_of(a)->0);
        let y = laws::node_key(b->0, binding_of(b)->0);
        assert(x.kind == y.kind);
        assert(x.device_id == y.device_id);
        assert(x.device_name == y.device_name);
        assert(x.channel == y.channel);
        assert(c == d);
    }
    if c != d {
        laws::law_component_ids_distinct(c as nat, d as nat);
    }
}

/// A node whose binding names no device, or that has none, refers to no component
/// that it did not refer to before. Every node keeps all its members, and all of its
/// configuration but the binding and the reference.
pub proof fn law_the_rest_of_a_node_is_kept(
    doc: JsonModel,
    s: int,
    p: int,
    n: int,
    key: Seq<char>,
)
    requires
        node_at(show_in(doc), s, p, n) is Some,
    ensures
        ({
            let before = node_at(show_in(doc), s, p, n);
            let after = node_at(show_in(show_document::show_migrated(doc, 2)), s, p, n);
            &&& after is Some
            &&& binding_of(after) is None
            &&& !names_a_device(binding_of(before)) ==> reference_of(after) == reference_of(before)
            &&& key != "config"@ ==> at(after, key) == at(before, key)
            &&& key != "hardwareBinding"@ && key != "rigComponentId"@ ==> at(
                at(after, "config"@),
                key,
            ) == at(at(before, "config"@), key)
        }),
{
    laws::law_migration_regroups_the_show(doc, 2);
    let show = show_in(doc)->0;
    lemma_node_is_moved(show, s, p, n);
    let before = node_at(Some(show), s, p, n)->0;
    let after = node_at(Some(show_document::show_regrouped(show)), s, p, n)->0;
    assert(laws::node_binding(before) == binding_of(Some(before)));
    if let Some(b) = binding_of(Some(before)) {
        assert(show_document::has_identity(b) == names_a_device(Some(b)));
    }
    assert(laws::node_component(after) == reference_of(Some(after)));
    assert(laws::node_component(before) == reference_of(Some(before)));
    if key != "config"@ {
        assert(crate::json::member(after, key) == crate::json::member(before, key));
    }
    if key != "hardwareBinding"@ && key != "rigComponentId"@ {
        assert(laws::config_member(after, key) == laws::config_member(before, key));
    }
}

// ---------------------------------------------------------------------------
// From a component to its nodes
// ---------------------------------------------------------------------------

/// Whether a node of a show was bound to the device that a component stands for.
spec fn is_source(
    show: JsonModel,
    s: int,
    p: int,
    n: int,
    kind: Seq<char>,
    device_id: Seq<char>,
    device_name: Seq<char>,
    channel: Option<u64>,
) -> bool {
    let node = node_at(Some(show), s, p, n);
    &&& names_a_device(binding_of(node))
    &&& words(at(node, "kind"@)) == kind
    &&& words(at(binding_of(node), "deviceId"@)) == device_id
    &&& words(at(binding_of(node), "deviceName"@)) == device_name
    &&& number(at(binding_of(node), "channel"@)) == channel
}

/// The lowest and the highest key that a binding names.
pub open spec fn keys_of(binding: Option<JsonModel>) -> Option<(u64, u64)> {
    let range = at(binding, "noteRange"@);
    match (number(nth(range, 0)), number(nth(range, 1))) {
        (Some(low), Some(high)) => Some((low, high)),
        _ => None,
    }
}

/// Whether a component was made for the binding of a node.
spec fn is_maker(show: JsonModel, s: int, p: int, n: int, c: ComponentModel) -> bool {
    match c {
        ComponentModel::Labelled { .. } => false,
        ComponentModel::Bound { kind, device_id, device_name, channel, cc_range, notes } => {
            let binding = binding_of(node_at(Some(show), s, p, n));
            &&& is_source(
                show,
                s,
                p,
                n,
                kind,
                show_document::or_empty(device_id),
                show_document::or_empty(device_name),
                channel,
            )
            &&& cc_range == (match at(binding, "ccRange"@) {
                Some(JsonModel::List(v)) => Some(JsonModel::List(v)),
                _ => None,
            })
            &&& device_name is Some == (at(binding, "deviceName"@) matches Some(JsonModel::Text(_)))
        },
    }
}

/// Whether the binding of a node to the device of a component names these keys.
spec fn names_keys(
    show: JsonModel,
    s: int,
    p: int,
    n: int,
    c: ComponentModel,
    low: Option<u64>,
    high: Option<u64>,
) -> bool {
    match (c, keys_of(binding_of(node_at(Some(show), s, p, n)))) {
        (
            ComponentModel::Bound { kind, device_id, device_name, channel, cc_range, notes },
            Some((lo, hi)),
        ) => {
            &&& is_source(
                show,
                s,
                p,
                n,
                kind,
                show_document::or_empty(device_id),
                show_document::or_empty(device_name),
                channel,
            )
            &&& low is Some ==> low == Some(lo)
            &&& high is Some ==> high == Some(hi)
        },
        _ => false,
    }
}

/// Whether all that a component says comes from bindings of the show.
spec fn comes_from(show: JsonModel, c: ComponentModel) -> bool {
    &&& exists|s: int, p: int, n: int| #[trigger] is_maker(show, s, p, n, c)
    &&& laws::component_notes(c) matches Some((low, high)) ==> {
        &&& exists|s: int, p: int, n: int| #[trigger]
            names_keys(show, s, p, n, c, Some(low), None)
        &&& exists|s: int, p: int, n: int| #[trigger]
            names_keys(show, s, p, n, c, None, Some(high))
    }
}

/// Whether all components behind the first ones come from bindings of the show.
spec fn all_come_from(show: JsonModel, first: Seq<ComponentModel>, cs: Seq<ComponentModel>) -> bool {
    &&& first.len() <= cs.len()
    &&& forall|i: int| 0 <= i < first.len() ==> cs[i] == #[trigger] first[i]
    &&& forall|i: int| 0 <= i < first.len() ==> #[trigger] first[i] is Labelled
    &&& forall|i: int| first.len() <= i < cs.len() ==> comes_from(show, #[trigger] cs[i])
}

/// A component that takes in the keys of one more binding to its device still comes
/// from bindings.
proof fn lemma_widened_comes_from(show: JsonModel, c: ComponentModel, s: int, p: int, n: int)
    requires
        comes_from(show, c),
        names_a_device(binding_of(node_at(Some(show), s, p, n))),
        ({
            let node = node_at(Some(show), s, p, n);
            show_document::component_key(c) == show_document::component_key(
                show_document::component_for(words(at(node, "kind"@)), binding_of(node)->0),
            )
        }),
    ensures
        comes_from(
            show,
            show_document::widened(c, keys_of(binding_of(node_at(Some(show), s, p, n)))),
        ),
{
    let node = node_at(Some(show), s, p, n);
    let binding = binding_of(node);
    let wide = show_document::widened(c, keys_of(binding));
    let (s0, p0, n0) = choose|s0: int, p0: int, n0: int| #[trigger] is_maker(show, s0, p0, n0, c);
    assert(is_maker(show, s0, p0, n0, wide));
    if let Some((lo, hi)) = keys_of(binding) {
        assert(names_keys(show, s, p, n, wide, Some(lo), None));
        assert(names_keys(show, s, p, n, wide, None, Some(hi)));
    }
    if let Some((low, high)) = laws::component_notes(c) {
        let (s1, p1, n1) = choose|s1: int, p1: int, n1: int| #[trigger]
            names_keys(show, s1, p1, n1, c, Some(low), None);
        let (s2, p2, n2) = choose|s2: int, p2: int, n2: int| #[trigger]
            names_keys(show, s2, p2, n2, c, None, Some(high));
        assert(names_keys(show, s1, p1, n1, wide, Some(low), None));
        assert(names_keys(show, s2, p2, n2, wide, None, Some(high)));
    }
    if let Some((x, y)) = laws::component_notes(wide) {
        assert(exists|a: int, b: int, d: int| #[trigger]
            names_keys(show, a, b, d, wide, Some(x), None)) by {
            match (laws::component_notes(c), keys_of(binding)) {
                (Some((low, high)), Some((lo, hi))) => {
                    assert(x == low || x == lo);
                },
                (Some((low, high)), None) => {
                    assert(x == low);
                },
                (None, Some((lo, hi))) => {
                    assert(x == lo);
                },
                (None, None) => {},
            }
        }
        assert(exists|a: int, b: int, d: int| #[trigger]
            names_keys(show, a, b, d, wide, None, Some(y))) by {
            match (laws::component_notes(c), keys_of(binding)) {
                (Some((low, high)), Some((lo, hi))) => {
                    assert(y == high || y == hi);
                },
                (Some((low, high)), None) => {
                    assert(y == high);
                },
                (None, Some((lo, hi))) => {
                    assert(y == hi);
                },
                (None, None) => {},
            }
        }
    }
}

/// The component that is made for a binding comes from it.
proof fn lemma_new_comes_from(show: JsonModel, s: int, p: int, n: int)
    requires
        names_a_device(binding_of(node_at(Some(show), s, p, n))),
    ensures
        ({
            let node = node_at(Some(show), s, p, n);
            let binding = binding_of(node);
            comes_from(
                show,
                show_document::widened(
                    show_document::component_for(words(at(node, "kind"@)), binding->0),
                    keys_of(binding),
                ),
            )
        }),
{
    let node = node_at(Some(show), s, p, n);
    let binding = binding_of(node);
    let kind = words(at(node, "kind"@));
    let id = words(at(binding, "deviceId"@));
    let name = words(at(binding, "deviceName"@));
    let channel = number(at(binding, "channel"@));
    assert(is_source(show, s, p, n, kind, id, name, channel));
    let new = show_document::component_for(kind, binding->0);
    let wide = show_document::widened(new, keys_of(binding));
    assert(is_maker(show, s, p, n, wide));
    if let Some((lo, hi)) = keys_of(binding) {
        assert(names_keys(show, s, p, n, wide, Some(lo), None));
        assert(names_keys(show, s, p, n, wide, None, Some(hi)));
    }
}

proof fn lemma_node_adds_its_own(
    show: JsonModel,
    first: Seq<ComponentModel>,
    cs: Seq<ComponentModel>,
    s: int,
    p: int,
    n: int,
)
    requires
        all_come_from(show, first, cs),
        node_at(Some(show), s, p, n) is Some,
    ensures
        all_come_from(
            show,
            first,
            show_document::node_harvested(node_at(Some(show), s, p, n)->0, cs).1,
        ),
{
    let node = node_at(Some(show), s, p, n)->0;
    let after = show_document::node_harvested(node, cs).1;
    let binding = binding_of(Some(node));
    if names_a_device(binding) {
        let b = binding->0;
        let kind = words(at(Some(node), "kind"@));
        let new = show_document::component_for(kind, b);
        let key = show_document::component_key(new)->0;
        show_document::lemma_key_index(cs, key);
        assert(after == show_document::attached(cs, kind, b).0);
        assert(show_document::note_range(b) == keys_of(binding));
        let id = words(at(binding, "deviceId"@));
        let name = words(at(binding, "deviceName"@));
        let channel = number(at(binding, "channel"@));
        assert(is_source(show, s, p, n, kind, id, name, channel));
        match show_document::key_index(cs, key) {
            Some(i) => {
                assert(cs[i as int] is Bound);
                assert(i >= first.len()) by {
                    if i < first.len() {
                        assert(first[i as int] is Labelled);
                    }
                }
                assert(comes_from(show, cs[i as int]));
                assert(after[i as int] == show_document::widened(
                    cs[i as int],
                    keys_of(binding),
                ));
                lemma_widened_comes_from(show, cs[i as int], s, p, n);
                assert forall|k: int| first.len() <= k < after.len() implies comes_from(
                    show,
                    #[trigger] after[k],
                ) by {
                    if k != i {
                        assert(after[k] == cs[k]);
                    }
                }
                assert forall|k: int| 0 <= k < first.len() implies after[k]
                    == #[trigger] first[k] by {
                    assert(after[k] == cs[k]);
                }
            },
            None => {
                let last = show_document::widened(new, keys_of(binding));
                lemma_new_comes_from(show, s, p, n);
                assert forall|k: int| first.len() <= k < after.len() implies comes_from(
                    show,
                    #[trigger] after[k],
                ) by {
                    if k < cs.len() {
                        assert(after[k] == cs[k]);
                    }
                }
                assert forall|k: int| 0 <= k < first.len() implies after[k]
                    == #[trigger] first[k] by {
                    assert(after[k] == cs[k]);
                }
            },
        }
    } else {
        assert(after == cs);
    }
}

/// A walk over items keeps what every step keeps.
proof fn lemma_thread_keeps(
    items: Seq<JsonModel>,
    cs: Seq<ComponentModel>,
    f: spec_fn(JsonModel, Seq<ComponentModel>) -> (JsonModel, Seq<ComponentModel>),
    inv: spec_fn(Seq<ComponentModel>) -> bool,
)
    requires
        inv(cs),
        forall|i: int, s: Seq<ComponentModel>|
            0 <= i < items.len() && inv(s) ==> inv((#[trigger] f(items[i], s)).1),
    ensures
        inv(show_document::thread_items(items, cs, f).1),
    decreases items.len(),
{
    if items.len() > 0 {
        let rest = items.drop_last();
        let n = items.len() - 1;
        assert forall|i: int, s: Seq<ComponentModel>| 0 <= i < rest.len() && inv(s) implies inv(
            (#[trigger] f(rest[i], s)).1,
        ) by {
            assert(rest[i] == items[i]);
            assert(inv(f(items[i], s).1));
        }
        lemma_thread_keeps(rest, cs, f, inv);
        let before = show_document::thread_items(rest, cs, f).1;
        assert(inv(f(items[n], before).1));
    }
}

proof fn lemma_graph_keeps(
    show: JsonModel,
    first: Seq<ComponentModel>,
    cs: Seq<ComponentModel>,
    s: int,
    p: int,
)
    requires
        all_come_from(show, first, cs),
        graph_at(Some(show), s, p) is Some,
    ensures
        all_come_from(
            show,
            first,
            show_document::graph_harvested(graph_at(Some(show), s, p)->0, cs).1,
        ),
{
    let graph = graph_at(Some(show), s, p)->0;
    let inv = |c: Seq<ComponentModel>| all_come_from(show, first, c);
    let f = |x: JsonModel, c: Seq<ComponentModel>| show_document::node_harvested(x, c);
    if let Some(JsonModel::List(nodes)) = at(Some(graph), "nodes"@) {
        assert forall|i: int, c: Seq<ComponentModel>| 0 <= i < nodes.len() && inv(c) implies inv(
            (#[trigger] f(nodes[i], c)).1,
        ) by {
            assert(node_at(Some(show), s, p, i) == Some(nodes[i]));
            lemma_node_adds_its_own(show, first, c, s, p, i);
        }
        lemma_thread_keeps(nodes, cs, f, inv);
    }
}

proof fn lemma_patch_keeps(
    show: JsonModel,
    first: Seq<ComponentModel>,
    cs: Seq<ComponentModel>,
    s: int,
    p: int,
)
    requires
        all_come_from(show, first, cs),
        nth(at(nth(at(Some(show), "songs"@), s), "patches"@), p) is Some,
    ensures
        all_come_from(
            show,
            first,
            show_document::patch_harvested(
                nth(at(nth(at(Some(show), "songs"@), s), "patches"@), p)->0,
                cs,
            ).1,
        ),
{
    if graph_at(Some(show), s, p) is Some {
        lemma_graph_keeps(show, first, cs, s, p);
    }
}

proof fn lemma_song_keeps(
    show: JsonModel,
    first: Seq<ComponentModel>,
    cs: Seq<ComponentModel>,
    s: int,
)
    requires
        all_come_from(show, first, cs),
        nth(at(Some(show), "songs"@), s) is Some,
    ensures
        all_come_from(
            show,
            first,
            show_document::song_harvested(nth(at(Some(show), "songs"@), s)->0, cs).1,
        ),
{
    let song = nth(at(Some(show), "songs"@), s)->0;
    let inv = |c: Seq<ComponentModel>| all_come_from(show, first, c);
    let f = |x: JsonModel, c: Seq<ComponentModel>| show_document::patch_harvested(x, c);
    if let Some(JsonModel::List(patches)) = at(Some(song), "patches"@) {
        assert forall|i: int, c: Seq<ComponentModel>| 0 <= i < patches.len() && inv(c) implies inv(
            (#[trigger] f(patches[i], c)).1,
        ) by {
            assert(nth(at(nth(at(Some(show), "songs"@), s), "patches"@), i) == Some(patches[i]));
            lemma_patch_keeps(show, first, c, s, i);
        }
        lemma_thread_keeps(patches, cs, f, inv);
    }
}

proof fn lemma_show_keeps(show: JsonModel, first: Seq<ComponentModel>, cs: Seq<ComponentModel>)
    requires
        all_come_from(show, first, cs),
    ensures
        all_come_from(show, first, show_document::show_harvested(show, cs).1),
{
    let inv = |c: Seq<ComponentModel>| all_come_from(show, first, c);
    let f = |x: JsonModel, c: Seq<ComponentModel>| show_document::song_harvested(x, c);
    if let Some(JsonModel::List(songs)) = at(Some(show), "songs"@) {
        assert forall|i: int, c: Seq<ComponentModel>| 0 <= i < songs.len() && inv(c) implies inv(
            (#[trigger] f(songs[i], c)).1,
        ) by {
            assert(nth(at(Some(show), "songs"@), i) == Some(songs[i]));
            lemma_song_keeps(show, first, c, i);
        }
        lemma_thread_keeps(songs, cs, f, inv);
    }
}

/// How many labelled sources the rig of a show of schema 2 has.
pub open spec fn source_count(show: Option<JsonModel>) -> nat {
    match at(at(show, "rig"@), "sources"@) {
        Some(JsonModel::List(v)) => v.len(),
        _ => 0,
    }
}

proof fn lemma_all_come_from(show: JsonModel)
    ensures
        ({
            let bare = crate::json::on_member(
                show,
                "rig"@,
                |r: JsonModel| crate::json::drop_member(r, "sources"@),
            );
            let first = show_document::labelled_components(show_document::rig_sources(show));
            &&& first.len() == source_count(Some(show))
            &&& all_come_from(bare, first, laws::show_components(show))
            &&& forall|s: int, p: int, n: int| #[trigger]
                node_at(Some(bare), s, p, n) == node_at(Some(show), s, p, n)
        }),
{
    let bare = crate::json::on_member(
        show,
        "rig"@,
        |r: JsonModel| crate::json::drop_member(r, "sources"@),
    );
    let first = show_document::labelled_components(show_document::rig_sources(show));
    reveal_strlit("songs");
    reveal_strlit("rig");
    assert("songs"@.len() != "rig"@.len());
    assert(at(Some(bare), "songs"@) == at(Some(show), "songs"@));
    assert(all_come_from(bare, first, first));
    lemma_show_keeps(bare, first, first);
}

/// Moving from schema 2, the rig's labelled sources become its first components, in
/// order: each keeps its kind, and its label becomes its name. They are bound to no
/// device.
pub proof fn law_labelled_sources_become_components(doc: JsonModel, c: int)
    requires
        at(show_in(doc), "rig"@) matches Some(JsonModel::Object(_)),
        0 <= c < source_count(show_in(doc)),
    ensures
        ({
            let source = nth(at(at(show_in(doc), "rig"@), "sources"@), c);
            let moved = show_in(show_document::show_migrated(doc, 2));
            let component = component_at(moved, c);
            &&& component is Some
            &&& at(component, "kind"@) == (match at(source, "kind"@) {
                Some(kind) => Some(kind),
                None => Some(JsonModel::Null),
            })
            &&& at(source, "label"@) matches Some(JsonModel::Text(label)) ==> at(
                component,
                "name"@,
            ) == Some(JsonModel::Text(label))
            &&& !(at(source, "label"@) matches Some(JsonModel::Text(_))) ==> at(component, "name"@)
                == Some(JsonModel::Text("Component"@))
            &&& at(component, "config"@) is None
            &&& at(at(moved, "rig"@), "sources"@) is None
        }),
{
    laws::law_migration_regroups_the_show(doc, 2);
    let show = show_in(doc)->0;
    lemma_all_come_from(show);
    lemma_names();
    let cs = laws::show_components(show);
    let first = show_document::labelled_components(show_document::rig_sources(show));
    assert(cs[c] == first[c]);
    lemma_component_at(show, c);
    laws::law_rig_holds_each_device_once(show);
    reveal_strlit("sources");
    reveal_strlit("components");
    assert("sources"@.len() != "components"@.len());
}

/// A text with a blank for every hyphen.
pub open spec fn spaced(s: Seq<char>) -> Seq<char> {
    Seq::new(
        s.len(),
        |i: int|
            if s[i] == '-' {
                ' '
            } else {
                s[i]
            },
    )
}

/// Every further component of the rig comes from a node that was bound: it holds the
/// device of that node's binding, has its control range, and is named after the
/// device and the kind. Its lowest and its highest key are each named by a binding to
/// that device. Gives the song, the patch and the number of the node.
pub proof fn law_components_come_from_bindings(doc: JsonModel, c: int) -> (from: (int, int, int))
    requires
        at(show_in(doc), "rig"@) matches Some(JsonModel::Object(_)),
        c >= source_count(show_in(doc)),
        component_at(show_in(show_document::show_migrated(doc, 2)), c) is Some,
    ensures
        ({
            let show = show_in(doc);
            let component = component_at(show_in(show_document::show_migrated(doc, 2)), c);
            let node = node_at(show, from.0, from.1, from.2);
            let kind = words(at(node, "kind"@));
            let binding = binding_of(node);
            let config = at(component, "config"@);
            &&& names_a_device(binding)
            &&& holds_device(component, kind, binding)
            &&& at(config, "ccRange"@) == (match at(binding, "ccRange"@) {
                Some(JsonModel::List(v)) => Some(JsonModel::List(v)),
                _ => None,
            })
            &&& forall|rest: Seq<char>|
                kind == #[trigger] ("source."@ + rest) ==> {
                    &&& at(binding, "deviceName"@) matches Some(JsonModel::Text(device))
                        ==> at(component, "name"@) == Some(
                        JsonModel::Text(device + seq![' '] + spaced(rest)),
                    )
                    &&& !(at(binding, "deviceName"@) matches Some(JsonModel::Text(_))) ==> at(
                        component,
                        "name"@,
                    ) == Some(JsonModel::Text("Migrated "@ + spaced(rest)))
                }
            &&& number(at(config, "lowNote"@)) matches Some(low) ==> exists|
                s: int,
                p: int,
                n: int,
            |
                {
                    let other = #[trigger] node_at(show, s, p, n);
                    &&& same_device(
                        kind,
                        binding,
                        words(at(other, "kind"@)),
                        binding_of(other),
                    )
                    &&& keys_of(binding_of(other)) matches Some((lo, _))
                    &&& lo == low
                }
            &&& number(at(config, "highNote"@)) matches Some(high) ==> exists|
                s: int,
                p: int,
                n: int,
            |
                {
                    let other = #[trigger] node_at(show, s, p, n);
                    &&& same_device(
                        kind,
                        binding,
                        words(at(other, "kind"@)),
                        binding_of(other),
                    )
                    &&& keys_of(binding_of(other)) matches Some((_, hi))
                    &&& hi == high
                }
        }),
{
    laws::law_migration_regroups_the_show(doc, 2);
    let show = show_in(doc)->0;
    let cs = laws::show_components(show);
    lemma_all_come_from(show);
    laws::law_rig_holds_each_device_once(show);
    let moved = show_document::show_regrouped(show);
    let rig = at(Some(show), "rig"@)->0->Object_0;
    let full = rig.remove("sources"@).insert("components"@, show_document::rig_json(cs));
    assert(at(Some(moved), "rig"@) == Some(JsonModel::Object(full)));
    assert(c < cs.len());
    lemma_component_at(show, c);
    let bare = crate::json::on_member(
        show,
        "rig"@,
        |r: JsonModel| crate::json::drop_member(r, "sources"@),
    );
    assert(comes_from(bare, cs[c]));
    match cs[c] {
        ComponentModel::Bound { kind, device_id, device_name, channel, cc_range, notes } => {
            let id = show_document::or_empty(device_id);
            let name = show_document::or_empty(device_name);
            lemma_bound_json(c as nat, kind, device_id, device_name, channel, cc_range, notes);
            let (s, p, n) = choose|s: int, p: int, n: int| #[trigger]
                is_maker(bare, s, p, n, cs[c]);
            let node = node_at(Some(show), s, p, n);
            let binding = binding_of(node);
            assert(node == node_at(Some(bare), s, p, n));
            assert forall|rest: Seq<char>|
                kind == #[trigger] ("source."@ + rest) implies show_document::worded_kind(kind)
                == spaced(rest) by {
                assert(kind.take("source."@.len() as int) =~= "source."@);
                assert(kind.skip("source."@.len() as int) =~= rest);
                assert(text::replaced(rest, '-', ' ') =~= spaced(rest));
            }
            reveal_strlit(" ");
            assert(" "@ =~= seq![' ']);
            if let Some((low, high)) = notes {
                let (s1, p1, n1) = choose|s1: int, p1: int, n1: int| #[trigger]
                    names_keys(bare, s1, p1, n1, cs[c], Some(low), None);
                assert(node_at(Some(bare), s1, p1, n1) == node_at(Some(show), s1, p1, n1));
                let (s2, p2, n2) = choose|s2: int, p2: int, n2: int| #[trigger]
                    names_keys(bare, s2, p2, n2, cs[c], None, Some(high));
                assert(node_at(Some(bare), s2, p2, n2) == node_at(Some(show), s2, p2, n2));
            }
            (s, p, n)
        },
        ComponentModel::Labelled { .. } => (0, 0, 0),
    }
}

// ---------------------------------------------------------------------------
// From schema 1
// ---------------------------------------------------------------------------

/// A document of schema 1 moves as the same document of schema 2 does in which the
/// built-in tone generator has its new name: the kind `instrument.sine` becomes
/// `instrument.testtone`, and all else of a node is kept.
pub proof fn law_tone_generator_is_renamed(
    doc: JsonModel,
    s: int,
    p: int,
    n: int,
    key: Seq<char>,
)
    requires
        node_at(show_in(doc), s, p, n) is Some,
    ensures
        ({
            let before = node_at(show_in(doc), s, p, n);
            let after = node_at(show_in(show_document::show_migrated(doc, 1)), s, p, n);
            &&& after is Some
            &&& at(before, "kind"@) == Some(JsonModel::Text("instrument.sine"@)) ==> at(
                after,
                "kind"@,
            ) == Some(JsonModel::Text("instrument.testtone"@))
            &&& at(before, "kind"@) != Some(JsonModel::Text("instrument.sine"@)) ==> at(
                after,
                "kind"@,
            ) == at(before, "kind"@)
            &&& key != "kind"@ && key != "config"@ ==> at(after, key) == at(before, key)
        }),
{
    laws::law_migration_regroups_the_show(doc, 1);
    lemma_names();
    let show = show_in(doc)->0;
    let f = |g: JsonModel| document::graph_migrated(g, 1, 2);
    let renamed = show_document::on_show_graphs(show, f);
    let before = node_at(Some(show), s, p, n)->0;
    let songs = at(Some(show), "songs"@)->0->List_0;
    let new_songs = at(Some(renamed), "songs"@)->0->List_0;
    assert(new_songs[s] == show_document::on_song_graphs(songs[s], f));
    let patches = at(Some(songs[s]), "patches"@)->0->List_0;
    let new_patches = at(Some(new_songs[s]), "patches"@)->0->List_0;
    assert(new_patches[p] == crate::json::on_member(patches[p], "graph"@, f));
    let graph = at(Some(patches[p]), "graph"@)->0;
    let new_graph = document::on_nodes(graph, |x: JsonModel| document::node_renamed(x));
    assert(document::graph_migrated(new_graph, 2, 2) == new_graph);
    assert(document::graph_migrated(graph, 1, 2) == new_graph);
    assert(graph_at(Some(renamed), s, p) == Some(new_graph));
    let nodes = at(Some(graph), "nodes"@)->0->List_0;
    let new_nodes = at(Some(new_graph), "nodes"@)->0->List_0;
    assert(new_nodes[n] == document::node_renamed(nodes[n]));
    assert(node_at(Some(renamed), s, p, n) == Some(document::node_renamed(before)));
    lemma_node_is_moved(renamed, s, p, n);
    let after = node_at(Some(show_document::show_regrouped(renamed)), s, p, n)->0;
    let between = document::node_renamed(before);
    assert(crate::json::member(after, "kind"@) == crate::json::member(between, "kind"@));
    if key != "kind"@ && key != "config"@ {
        assert(crate::json::member(after, key) == crate::json::member(between, key));
    }
}

/// Loading a show document gives what its header decides: the migrated document of
/// its schema, or an error that names what was found.
pub proof fn law_loading_goes_by_the_header(doc: JsonModel, r: Result<Json, LoadError>)
    requires
        show_document::show_loaded(doc, r),
    ensures
        (match document::header_verdict(doc, "stardust.show"@, 3) {
            HeaderVerdict::Missing => r matches Err(LoadError::MissingHeader),
            HeaderVerdict::OtherKind(k) => match r {
                Err(LoadError::WrongKind { expected, found }) => found@ == k && expected@
                    == "stardust.show"@,
                _ => false,
            },
            HeaderVerdict::Newer(v) => match r {
                Err(LoadError::NewerSchema { document, current }) => document == v && current == 3,
                _ => false,
            },
            HeaderVerdict::Readable(v) => match r {
                Ok(out) => out@ == show_document::show_migrated(doc, v),
                Err(_) => false,
            },
        }),
{
}

/// A document of the current schema, or of one that has no step of its own, is changed
/// in nothing but its stamp.
pub proof fn law_current_show_is_kept(doc: JsonModel, from: u32)
    requires
        from == 0 || from >= 3,
    ensures
        show_in(show_document::show_migrated(doc, from)) == show_in(doc),
{
    reveal_strlit("show");
    reveal_strlit("schemaVersion");
    assert("show"@.len() != "schemaVersion"@.len());
}

/// A show keeps everything but its songs and its rig, and its rig everything but the
/// sources and the components.
pub proof fn law_the_rest_of_a_show_is_kept(doc: JsonModel, key: Seq<char>)
    ensures
        key != "songs"@ && key != "rig"@ ==> at(
            show_in(show_document::show_migrated(doc, 2)),
            key,
        ) == at(show_in(doc), key),
        key != "sources"@ && key != "components"@ ==> at(
            at(show_in(show_document::show_migrated(doc, 2)), "rig"@),
            key,
        ) == at(at(show_in(doc), "rig"@), key),
{
    laws::law_migration_regroups_the_show(doc, 2);
    if let Some(show) = show_in(doc) {
        laws::law_rig_holds_each_device_once(show);
    }
}

/// The components of a rig are numbered from 1 on: the id of each tells its place.
pub proof fn law_components_are_numbered_from_one(components: Seq<ComponentModel>, i: int)
    requires
        0 <= i < components.len(),
    ensures
        ({
            let rig = show_document::rig_json(components);
            &&& rig matches JsonModel::List(items) && items.len() == components.len()
                && at(Some(items[i]), "id"@) == Some(
                JsonModel::Text("rc-"@ + text::decimal_text((i + 1) as nat)),
            )
        }),
{
    reveal_strlit("id");
    reveal_strlit("kind");
    reveal_strlit("name");
    reveal_strlit("config");
    assert("id"@.len() == 2 && "kind"@.len() == 4 && "name"@.len() == 4 && "config"@.len() == 6);
}

} // verus!
