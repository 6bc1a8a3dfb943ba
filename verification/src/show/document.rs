//! Show documents: loading, and the migrations that bring an older document up
//! to the current schema.
//!
//! A show embeds patch graphs, so its migrations rewrite those too. From
//! schema 2 to 3 hardware identity moves from the source nodes of the graphs
//! to the components of the rig.

use vstd::prelude::*;
use vstd::string::*;

use crate::json;
use crate::json::{
    error_text, put_member, take_member, update_items, update_member, Json, JsonModel, JsonObject,
};
use crate::patch::document;
use crate::patch::document::{check_header, migrate_graph, Header, HeaderCheck, HeaderVerdict};
use crate::show::types::Show;
use crate::text;
use crate::text::{
    chars_begin_with, chars_between, chars_of, copy_text, decimal, quoted, replace_char, same_text,
    text_of,
};

verus! {

/// What a show document says its kind is.
pub const SHOW_KIND: &'static str = "stardust.show";

/// The schema that this build writes.
pub const CURRENT_SCHEMA_VERSION: u32 = 3;

/// A show with the header under which it is stored.
#[derive(Clone, Debug, PartialEq)]
pub struct ShowDocument {
    pub header: Header,
    pub show: Show,
}

impl ShowDocument {
    /// A document of the current schema.
    pub fn new(show: Show) -> (r: ShowDocument)
        ensures
            r.show == show,
            r.header.kind@ == SHOW_KIND@,
            r.header.schema_version == CURRENT_SCHEMA_VERSION,
            r.header.stardust_version is None,
            r.header.saved_at is None,
    {
        ShowDocument {
            header: Header {
                kind: SHOW_KIND.to_owned(),
                schema_version: CURRENT_SCHEMA_VERSION,
                stardust_version: None,
                saved_at: None,
            },
            show,
        }
    }
}

// ---------------------------------------------------------------------------
// Walking a document with a running state
// ---------------------------------------------------------------------------

/// Rewrites a sequence item by item, handing a state along.
pub open spec fn thread_items<S>(
    items: Seq<JsonModel>,
    state: S,
    f: spec_fn(JsonModel, S) -> (JsonModel, S),
) -> (Seq<JsonModel>, S)
    decreases items.len(),
{
    if items.len() == 0 {
        (Seq::empty(), state)
    } else {
        let (done, before) = thread_items(items.drop_last(), state, f);
        let (item, after) = f(items.last(), before);
        (done.push(item), after)
    }
}

/// Rewrites the items of a list, handing a state along.
pub open spec fn thread_list<S>(
    j: JsonModel,
    state: S,
    f: spec_fn(JsonModel, S) -> (JsonModel, S),
) -> (JsonModel, S) {
    match j {
        JsonModel::List(items) => {
            let (done, after) = thread_items(items, state, f);
            (JsonModel::List(done), after)
        },
        _ => (j, state),
    }
}

/// Rewrites the member `key`, where there is one, handing a state along.
pub open spec fn thread_member<S>(
    j: JsonModel,
    key: Seq<char>,
    state: S,
    f: spec_fn(JsonModel, S) -> (JsonModel, S),
) -> (JsonModel, S) {
    match json::member(j, key) {
        Some(x) => {
            let (y, after) = f(x, state);
            (json::set_member(j, key, y), after)
        },
        None => (j, state),
    }
}

// ---------------------------------------------------------------------------
// Rig components
// ---------------------------------------------------------------------------

/// A component of the rig, as the migration gathers it.
#[allow(inconsistent_fields)]
pub enum Component {
    /// One that had a label only.
    Labelled { kind: Json, name: String },
    /// One that stands for a device that a node was bound to.
    Bound {
        kind: String,
        device_id: Option<String>,
        device_name: Option<String>,
        channel: Option<u64>,
        cc_range: Option<Json>,
        notes: Option<(u64, u64)>,
    },
}

/// What a component stands for.
#[allow(inconsistent_fields)]
pub enum ComponentModel {
    Labelled { kind: JsonModel, name: Seq<char> },
    Bound {
        kind: Seq<char>,
        device_id: Option<Seq<char>>,
        device_name: Option<Seq<char>>,
        channel: Option<u64>,
        cc_range: Option<JsonModel>,
        notes: Option<(u64, u64)>,
    },
}

/// The view of an optional JSON value.
pub open spec fn opt_json(j: Option<Json>) -> Option<JsonModel> {
    match j {
        Some(j) => Some(j@),
        None => None,
    }
}

/// A text that counts as empty where it is missing.
pub open spec fn or_empty(s: Option<Seq<char>>) -> Seq<char> {
    match s {
        Some(s) => s,
        None => Seq::empty(),
    }
}

impl View for Component {
    type V = ComponentModel;

    open spec fn view(&self) -> ComponentModel {
        match self {
            Component::Labelled { kind, name } => ComponentModel::Labelled {
                kind: kind@,
                name: name@,
            },
            Component::Bound { kind, device_id, device_name, channel, cc_range, notes } => {
                ComponentModel::Bound {
                    kind: kind@,
                    device_id: text::opt_text(*device_id),
                    device_name: text::opt_text(*device_name),
                    channel: *channel,
                    cc_range: opt_json(*cc_range),
                    notes: *notes,
                }
            },
        }
    }
}

/// The models of a sequence of components.
pub open spec fn rig_model(components: Seq<Component>) -> Seq<ComponentModel> {
    components.map_values(|c: Component| c@)
}

/// The id of the component at index `i`: they are numbered from 1.
pub open spec fn component_id(i: nat) -> Seq<char> {
    "rc-"@ + text::decimal_text(i + 1)
}

/// A kind as it is worded in a name: without `source.`, and with spaces for
/// hyphens.
pub open spec fn worded_kind(kind: Seq<char>) -> Seq<char> {
    text::replaced(text::without_prefix(kind, "source."@), '-', ' ')
}

/// The name of a component that was made for a device.
pub open spec fn bound_name(device_name: Option<Seq<char>>, kind: Seq<char>) -> Seq<char> {
    match device_name {
        Some(n) => n + " "@ + worded_kind(kind),
        None => "Migrated "@ + worded_kind(kind),
    }
}

/// The device of a component, as JSON.
pub open spec fn device_json(
    device_id: Option<Seq<char>>,
    device_name: Option<Seq<char>>,
) -> JsonModel {
    JsonModel::Object(
        Map::<Seq<char>, JsonModel>::empty().insert(
            "id"@,
            match device_id {
                Some(id) => JsonModel::Text(id),
                None => JsonModel::Null,
            },
        ).insert("name"@, JsonModel::Text(or_empty(device_name))),
    )
}

/// `m` with the member `key`, where there is a value for it.
pub open spec fn with_optional(
    m: Map<Seq<char>, JsonModel>,
    key: Seq<char>,
    value: Option<JsonModel>,
) -> Map<Seq<char>, JsonModel> {
    match value {
        Some(v) => m.insert(key, v),
        None => m,
    }
}

/// A number as an optional JSON value.
pub open spec fn opt_number(n: Option<u64>) -> Option<JsonModel> {
    match n {
        Some(n) => Some(JsonModel::Unsigned(n)),
        None => None,
    }
}

/// The configuration of a component that stands for a device.
pub open spec fn bound_config(
    device_id: Option<Seq<char>>,
    device_name: Option<Seq<char>>,
    channel: Option<u64>,
    cc_range: Option<JsonModel>,
    notes: Option<(u64, u64)>,
) -> Map<Seq<char>, JsonModel> {
    let device = Map::<Seq<char>, JsonModel>::empty().insert(
        "device"@,
        device_json(device_id, device_name),
    );
    let ranged = with_optional(
        with_optional(device, "channel"@, opt_number(channel)),
        "ccRange"@,
        cc_range,
    );
    match notes {
        Some((low, high)) => ranged.insert("lowNote"@, JsonModel::Unsigned(low)).insert(
            "highNote"@,
            JsonModel::Unsigned(high),
        ),
        None => ranged,
    }
}

/// The members that every component has.
pub open spec fn component_base(
    i: nat,
    kind: JsonModel,
    name: Seq<char>,
) -> Map<Seq<char>, JsonModel> {
    Map::<Seq<char>, JsonModel>::empty().insert("id"@, JsonModel::Text(component_id(i))).insert(
        "kind"@,
        kind,
    ).insert("name"@, JsonModel::Text(name))
}

/// The component at index `i`, as JSON.
pub open spec fn component_json(i: nat, c: ComponentModel) -> JsonModel {
    match c {
        ComponentModel::Labelled { kind, name } => JsonModel::Object(component_base(i, kind, name)),
        ComponentModel::Bound { kind, device_id, device_name, channel, cc_range, notes } => {
            JsonModel::Object(
                component_base(i, JsonModel::Text(kind), bound_name(device_name, kind)).insert(
                    "config"@,
                    JsonModel::Object(
                        bound_config(device_id, device_name, channel, cc_range, notes),
                    ),
                ),
            )
        },
    }
}

/// The components of the rig, as JSON.
pub open spec fn rig_json(components: Seq<ComponentModel>) -> JsonModel {
    JsonModel::List(
        Seq::new(components.len(), |i: int| component_json(i as nat, components[i])),
    )
}

fn component_name(device_name: &Option<String>, kind: &String) -> (r: String)
    ensures
        r@ == bound_name(text::opt_text(*device_name), kind@),
{
    let cs = chars_of(kind.as_str());
    let short = if chars_begin_with(&cs, "source.") {
        proof {
            reveal_strlit("source.");
        }
        let n: usize = cs.len();
        assert(cs@.subrange(7, n as int) =~= cs@.skip(7));
        chars_between(&cs, 7, n)
    } else {
        cs
    };
    let worded = text_of(&replace_char(&short, '-', ' '));
    match device_name {
        Some(n) => copy_text(n).concat(" ").concat(worded.as_str()),
        None => "Migrated ".to_owned().concat(worded.as_str()),
    }
}

fn insert_optional(o: JsonObject, key: &str, value: Option<Json>) -> (r: JsonObject)
    ensures
        r@ == with_optional(o@, key@, opt_json(value)),
{
    match value {
        Some(v) => o.insert(key.to_owned(), v),
        None => o,
    }
}

/// The component at index `i`, as JSON.
fn write_component(i: usize, c: Component) -> (r: Json)
    requires
        i < u64::MAX,
    ensures
        r@ == component_json(i as nat, c@),
{
    let id = "rc-".to_owned().concat(decimal(i as u64 + 1).as_str());
    let base = JsonObject::empty().insert("id".to_owned(), Json::Text(id));
    match c {
        Component::Labelled { kind, name } => Json::Object(
            base.insert("kind".to_owned(), kind).insert("name".to_owned(), Json::Text(name)),
        ),
        Component::Bound { kind, device_id, device_name, channel, cc_range, notes } => {
            let name = component_name(&device_name, &kind);
            let id_json = match device_id {
                Some(id) => Json::Text(id),
                None => Json::Null,
            };
            let device_text = match device_name {
                Some(n) => n,
                None => String::new(),
            };
            let device = JsonObject::empty().insert("id".to_owned(), id_json).insert(
                "name".to_owned(),
                Json::Text(device_text),
            );
            let first = JsonObject::empty().insert("device".to_owned(), Json::Object(device));
            let channel_json = match channel {
                Some(n) => Some(Json::Unsigned(n)),
                None => None,
            };
            let ranged = insert_optional(
                insert_optional(first, "channel", channel_json),
                "ccRange",
                cc_range,
            );
            let config = match notes {
                Some((low, high)) => ranged.insert("lowNote".to_owned(), Json::Unsigned(low)).insert(
                    "highNote".to_owned(),
                    Json::Unsigned(high),
                ),
                None => ranged,
            };
            Json::Object(
                base.insert("kind".to_owned(), Json::Text(kind)).insert(
                    "name".to_owned(),
                    Json::Text(name),
                ).insert("config".to_owned(), Json::Object(config)),
            )
        },
    }
}

/// All components, as JSON.
fn write_rig(components: Vec<Component>) -> (r: Json)
    ensures
        r@ == rig_json(rig_model(components@)),
{
    let ghost all = components@;
    let ghost models = rig_model(all);
    let mut out: Vec<Json> = Vec::new();
    let mut i: usize = 0;
    let n: usize = components.len();
    for c in iter: components
        invariant
            iter.seq() == all,
            n == all.len(),
            models == rig_model(all),
            i == iter.index(),
            json::list_model(out@) == Seq::new(
                i as nat,
                |k: int| component_json(k as nat, models[k]),
            ),
    {
        assert(models[i as int] == c@);
        let item = write_component(i, c);
        proof {
            json::lemma_list_model_push(out@, item);
            assert(Seq::new((i + 1) as nat, |k: int| component_json(k as nat, models[k]))
                =~= Seq::new(i as nat, |k: int| component_json(k as nat, models[k])).push(item@));
        }
        out.push(item);
        i = i + 1;
    }
    Json::List(out)
}

// ---------------------------------------------------------------------------
// Gathering components out of the nodes
// ---------------------------------------------------------------------------

/// What tells one bound device from another.
pub struct BindingKey {
    pub kind: Seq<char>,
    pub device_id: Seq<char>,
    pub device_name: Seq<char>,
    pub channel: Option<u64>,
}

/// The key of a component, where it stands for a device.
pub open spec fn component_key(c: ComponentModel) -> Option<BindingKey> {
    match c {
        ComponentModel::Labelled { .. } => None,
        ComponentModel::Bound { kind, device_id, device_name, channel, .. } => Some(
            BindingKey {
                kind,
                device_id: or_empty(device_id),
                device_name: or_empty(device_name),
                channel,
            },
        ),
    }
}

/// The index of the first component with the given key.
pub open spec fn key_index(components: Seq<ComponentModel>, key: BindingKey) -> Option<nat>
    decreases components.len(),
{
    if components.len() == 0 {
        None
    } else {
        match key_index(components.drop_last(), key) {
            Some(i) => Some(i),
            None => if component_key(components.last()) == Some(key) {
                Some((components.len() - 1) as nat)
            } else {
                None
            },
        }
    }
}

/// The note range that a binding names, where it names one.
pub open spec fn note_range(binding: JsonModel) -> Option<(u64, u64)> {
    match json::member(binding, "noteRange"@) {
        Some(JsonModel::List(items)) => if items.len() >= 2 {
            match (items[0], items[1]) {
                (JsonModel::Unsigned(low), JsonModel::Unsigned(high)) => Some((low, high)),
                _ => None,
            }
        } else {
            None
        },
        _ => None,
    }
}

/// The smaller of two numbers.
pub open spec fn least(a: u64, b: u64) -> u64 {
    if a <= b {
        a
    } else {
        b
    }
}

/// The greater of two numbers.
pub open spec fn greatest(a: u64, b: u64) -> u64 {
    if a >= b {
        a
    } else {
        b
    }
}

/// The least range that holds both ranges.
pub open spec fn range_union(
    notes: Option<(u64, u64)>,
    range: Option<(u64, u64)>,
) -> Option<(u64, u64)> {
    match (notes, range) {
        (_, None) => notes,
        (None, Some(_)) => range,
        (Some((low, high)), Some((lo, hi))) => Some((least(low, lo), greatest(high, hi))),
    }
}

/// A component whose note range takes in one more.
pub open spec fn widened(c: ComponentModel, range: Option<(u64, u64)>) -> ComponentModel {
    match c {
        ComponentModel::Labelled { .. } => c,
        ComponentModel::Bound { kind, device_id, device_name, channel, cc_range, notes } => {
            ComponentModel::Bound {
                kind,
                device_id,
                device_name,
                channel,
                cc_range,
                notes: range_union(notes, range),
            }
        },
    }
}

/// The component that a binding on a node of kind `kind` asks for.
pub open spec fn component_for(kind: Seq<char>, binding: JsonModel) -> ComponentModel {
    ComponentModel::Bound {
        kind,
        device_id: json::text_in(json::member(binding, "deviceId"@)),
        device_name: json::text_in(json::member(binding, "deviceName"@)),
        channel: json::unsigned_in(json::member(binding, "channel"@)),
        cc_range: match json::member(binding, "ccRange"@) {
            Some(JsonModel::List(items)) => Some(JsonModel::List(items)),
            _ => None,
        },
        notes: None,
    }
}

/// Whether a binding says which device it is for.
pub open spec fn has_identity(binding: JsonModel) -> bool {
    json::text_in(json::member(binding, "deviceId"@)) is Some || json::text_in(
        json::member(binding, "deviceName"@),
    ) is Some
}

/// The components once a binding on a node of kind `kind` has been taken in,
/// and the index of the one that stands for its device. There is one component
/// for each key.
pub open spec fn attached(
    components: Seq<ComponentModel>,
    kind: Seq<char>,
    binding: JsonModel,
) -> (Seq<ComponentModel>, nat) {
    let new = component_for(kind, binding);
    match key_index(components, component_key(new)->0) {
        Some(i) => (
            components.update(i as int, widened(components[i as int], note_range(binding))),
            i,
        ),
        None => (components.push(widened(new, note_range(binding))), components.len()),
    }
}

/// A node with the configuration `config`, or without one where that is empty.
pub open spec fn with_config(
    m: Map<Seq<char>, JsonModel>,
    config: Map<Seq<char>, JsonModel>,
) -> JsonModel {
    if config == Map::<Seq<char>, JsonModel>::empty() {
        JsonModel::Object(m.remove("config"@))
    } else {
        JsonModel::Object(m.insert("config"@, JsonModel::Object(config)))
    }
}

/// Schema 2 to 3, one node: a hardware binding gives way to a reference to a
/// rig component, or to nothing where it names no device.
pub open spec fn node_harvested(
    node: JsonModel,
    components: Seq<ComponentModel>,
) -> (JsonModel, Seq<ComponentModel>) {
    match (node, json::member(node, "config"@)) {
        (JsonModel::Object(m), Some(JsonModel::Object(config))) => {
            let rest = config.remove("hardwareBinding"@);
            if !config.dom().contains("hardwareBinding"@) || !has_identity(
                config["hardwareBinding"@],
            ) {
                (with_config(m, rest), components)
            } else {
                let kind = or_empty(json::text_in(json::member(node, "kind"@)));
                let (after, i) = attached(components, kind, config["hardwareBinding"@]);
                (
                    with_config(
                        m,
                        rest.insert("rigComponentId"@, JsonModel::Text(component_id(i))),
                    ),
                    after,
                )
            }
        },
        _ => (node, components),
    }
}

/// Schema 2 to 3, the nodes of one graph.
pub open spec fn graph_harvested(
    graph: JsonModel,
    components: Seq<ComponentModel>,
) -> (JsonModel, Seq<ComponentModel>) {
    thread_member(
        graph,
        "nodes"@,
        components,
        |nodes: JsonModel, cs: Seq<ComponentModel>|
            thread_list(nodes, cs, |n: JsonModel, c: Seq<ComponentModel>| node_harvested(n, c)),
    )
}

/// Schema 2 to 3, one patch.
pub open spec fn patch_harvested(
    patch: JsonModel,
    components: Seq<ComponentModel>,
) -> (JsonModel, Seq<ComponentModel>) {
    thread_member(
        patch,
        "graph"@,
        components,
        |g: JsonModel, cs: Seq<ComponentModel>| graph_harvested(g, cs),
    )
}

/// Schema 2 to 3, one song.
pub open spec fn song_harvested(
    song: JsonModel,
    components: Seq<ComponentModel>,
) -> (JsonModel, Seq<ComponentModel>) {
    thread_member(
        song,
        "patches"@,
        components,
        |ps: JsonModel, cs: Seq<ComponentModel>|
            thread_list(ps, cs, |p: JsonModel, c: Seq<ComponentModel>| patch_harvested(p, c)),
    )
}

/// Schema 2 to 3, the songs of a show.
pub open spec fn show_harvested(
    show: JsonModel,
    components: Seq<ComponentModel>,
) -> (JsonModel, Seq<ComponentModel>) {
    thread_member(
        show,
        "songs"@,
        components,
        |ss: JsonModel, cs: Seq<ComponentModel>|
            thread_list(ss, cs, |s: JsonModel, c: Seq<ComponentModel>| song_harvested(s, c)),
    )
}

/// A copy of an optional text.
fn copy_optional(s: Option<&String>) -> (r: Option<String>)
    ensures
        text::opt_text(r) == (match s {
            Some(t) => Some(t@),
            None => None,
        }),
{
    match s {
        Some(t) => Some(copy_text(t)),
        None => None,
    }
}

/// Whether two optional texts agree, a missing one counting as empty.
fn same_or_empty(a: &Option<String>, b: &Option<String>) -> (r: bool)
    ensures
        r == (or_empty(text::opt_text(*a)) == or_empty(text::opt_text(*b))),
{
    match (a, b) {
        (Some(x), Some(y)) => same_text(x.as_str(), y.as_str()),
        (Some(x), None) => {
            assert(x@.len() == 0 ==> x@ =~= Seq::empty());
            x.as_str().is_empty()
        },
        (None, Some(y)) => {
            assert(y@.len() == 0 ==> y@ =~= Seq::empty());
            y.as_str().is_empty()
        },
        (None, None) => true,
    }
}

/// Whether two components stand for the same device.
fn same_key(a: &Component, b: &Component) -> (r: bool)
    requires
        b is Bound,
    ensures
        r == (component_key(a@) == component_key(b@)),
{
    match (a, b) {
        (
            Component::Bound { kind, device_id, device_name, channel, .. },
            Component::Bound {
                kind: kind2,
                device_id: device_id2,
                device_name: device_name2,
                channel: channel2,
                ..
            },
        ) => {
            let same_channel = match (*channel, *channel2) {
                (Some(x), Some(y)) => x == y,
                (None, None) => true,
                _ => false,
            };
            same_text(kind.as_str(), kind2.as_str()) && same_or_empty(device_id, device_id2)
                && same_or_empty(device_name, device_name2) && same_channel
        },
        _ => false,
    }
}

/// The index of the first component that stands for the same device as `new`.
fn find_key(components: &Vec<Component>, new: &Component) -> (r: Option<usize>)
    requires
        new is Bound,
    ensures
        (match r {
            Some(i) => i < components.len() && key_index(
                rig_model(components@),
                component_key(new@)->0,
            ) == Some(i as nat),
            None => key_index(rig_model(components@), component_key(new@)->0) is None,
        }),
{
    let ghost models = rig_model(components@);
    let ghost key = component_key(new@)->0;
    let n: usize = components.len();
    assert(models.take(0) =~= Seq::empty());
    for i in 0..n
        invariant
            n == components.len(),
            new is Bound,
            models == rig_model(components@),
            component_key(new@) == Some(key),
            key_index(models.take(i as int), key) is None,
    {
        assert(models.take(i + 1).drop_last() =~= models.take(i as int));
        assert(models[i as int] == components@[i as int]@);
        if same_key(&components[i], new) {
            proof {
                lemma_key_index_prefix(models, i + 1, key);
            }
            return Some(i);
        }
    }
    assert(models.take(n as int) =~= models);
    None
}

/// An index found in the first components is the index found in all.
proof fn lemma_key_index_prefix(components: Seq<ComponentModel>, n: int, key: BindingKey)
    requires
        0 <= n <= components.len(),
        key_index(components.take(n), key) is Some,
    ensures
        key_index(components, key) == key_index(components.take(n), key),
    decreases components.len() - n,
{
    if n < components.len() {
        let rest = components.drop_last();
        assert(rest.take(n) =~= components.take(n));
        lemma_key_index_prefix(rest, n, key);
    } else {
        assert(components.take(n) =~= components);
    }
}

/// The index of a key is one of a component with that key.
pub proof fn lemma_key_index(components: Seq<ComponentModel>, key: BindingKey)
    ensures
        (match key_index(components, key) {
            Some(i) => i < components.len() && component_key(components[i as int]) == Some(key),
            None => forall|i: int|
                0 <= i < components.len() ==> component_key(#[trigger] components[i]) != Some(key),
        }),
    decreases components.len(),
{
    if components.len() > 0 {
        lemma_key_index(components.drop_last(), key);
        assert forall|i: int|
            0 <= i < components.len() && key_index(components, key) is None implies component_key(
            #[trigger] components[i],
        ) != Some(key) by {
            if i < components.len() - 1 {
                assert(components.drop_last()[i] == components[i]);
            }
        }
    }
}

/// The note range that a binding names, where it names one.
fn read_note_range(binding: &Json) -> (r: Option<(u64, u64)>)
    ensures
        r == note_range(binding@),
{
    match binding.get("noteRange") {
        Some(Json::List(items)) => {
            proof {
                json::lemma_list_model(items@);
            }
            if items.len() >= 2 {
                match (&items[0], &items[1]) {
                    (Json::Unsigned(low), Json::Unsigned(high)) => Some((*low, *high)),
                    _ => None,
                }
            } else {
                None
            }
        },
        _ => None,
    }
}

/// A component whose note range takes in one more.
fn widen(c: Component, range: Option<(u64, u64)>) -> (r: Component)
    ensures
        r@ == widened(c@, range),
{
    match c {
        Component::Labelled { kind, name } => Component::Labelled { kind, name },
        Component::Bound { kind, device_id, device_name, channel, cc_range, notes } => {
            let notes = match (notes, range) {
                (n, None) => n,
                (None, Some(r)) => Some(r),
                (Some((low, high)), Some((lo, hi))) => Some(
                    (
                        if low <= lo {
                            low
                        } else {
                            lo
                        },
                        if high >= hi {
                            high
                        } else {
                            hi
                        },
                    ),
                ),
            };
            Component::Bound { kind, device_id, device_name, channel, cc_range, notes }
        },
    }
}

/// Takes a binding on a node of kind `kind` in, and gives the index of the
/// component that stands for its device.
fn attach(components: Vec<Component>, kind: String, binding: Json) -> (r: (Vec<Component>, usize))
    ensures
        rig_model(r.0@) == attached(rig_model(components@), kind@, binding@).0,
        r.1 == attached(rig_model(components@), kind@, binding@).1,
        r.1 < r.0.len(),
{
    let ghost before = rig_model(components@);
    let ghost whole = binding@;
    let range = read_note_range(&binding);
    let device_id = copy_optional(binding.get_text("deviceId"));
    let device_name = copy_optional(binding.get_text("deviceName"));
    let channel = binding.get_unsigned("channel");
    let (_, cc) = take_member(binding, "ccRange");
    let cc_range = match cc {
        Some(Json::List(items)) => Some(Json::List(items)),
        _ => None,
    };
    let new = Component::Bound { kind, device_id, device_name, channel, cc_range, notes: None };
    assert(new@ == component_for(kind@, whole));
    let mut out = components;
    match find_key(&out, &new) {
        Some(i) => {
            let mut slot = Component::Labelled { kind: Json::Null, name: String::new() };
            core::mem::swap(&mut out[i], &mut slot);
            let wide = widen(slot, range);
            out[i] = wide;
            assert(rig_model(out@) =~= before.update(i as int, widened(before[i as int], range)));
            (out, i)
        },
        None => {
            let i: usize = out.len();
            let wide = widen(new, range);
            out.push(wide);
            assert(rig_model(out@) =~= before.push(wide@));
            (out, i)
        },
    }
}

/// A node's members with the configuration `config` put back.
fn put_config(members: JsonObject, config: JsonObject, Ghost(m): Ghost<Map<Seq<char>, JsonModel>>)
    -> (r: Json)
    requires
        members@ == m.remove("config"@),
    ensures
        r@ == with_config(m, config@),
{
    if config.is_empty() {
        Json::Object(members)
    } else {
        assert(m.remove("config"@).insert("config"@, JsonModel::Object(config@)) =~= m.insert(
            "config"@,
            JsonModel::Object(config@),
        ));
        Json::Object(members.insert("config".to_owned(), Json::Object(config)))
    }
}

/// Moves one node's hardware binding to the rig.
fn harvest_node(node: Json, components: Vec<Component>) -> (r: (Json, Vec<Component>))
    ensures
        (r.0@, rig_model(r.1@)) == node_harvested(node@, rig_model(components@)),
{
    let ghost whole = node@;
    let kind = match node.get_text("kind") {
        Some(s) => copy_text(s),
        None => String::new(),
    };
    match node {
        Json::Object(o) => {
            let ghost m = o@;
            let (members, found) = o.remove("config");
            match found {
                Some(Json::Object(config)) => {
                    let (rest, binding) = config.remove("hardwareBinding");
                    match binding {
                        None => (put_config(members, rest, Ghost(m)), components),
                        Some(b) => {
                            let named = b.get_text("deviceId").is_some() || b.get_text(
                                "deviceName",
                            ).is_some();
                            if named {
                                let (after, i) = attach(components, kind, b);
                                let id = "rc-".to_owned().concat(decimal(i as u64 + 1).as_str());
                                let full = rest.insert("rigComponentId".to_owned(), Json::Text(id));
                                (put_config(members, full, Ghost(m)), after)
                            } else {
                                (put_config(members, rest, Ghost(m)), components)
                            }
                        },
                    }
                },
                Some(other) => {
                    assert(m.remove("config"@).insert("config"@, other@) =~= m);
                    (Json::Object(members.insert("config".to_owned(), other)), components)
                },
                None => {
                    assert(m.remove("config"@) =~= m);
                    (Json::Object(members), components)
                },
            }
        },
        other => (other, components),
    }
}

/// Rewrites the items of a list by `f`, handing the components along.
fn walk_items<F: Fn(Json, Vec<Component>) -> (Json, Vec<Component>)>(
    j: Json,
    components: Vec<Component>,
    f: F,
    Ghost(model): Ghost<
        spec_fn(JsonModel, Seq<ComponentModel>) -> (JsonModel, Seq<ComponentModel>),
    >,
) -> (r: (Json, Vec<Component>))
    requires
        forall|x: Json, c: Vec<Component>| call_requires(f, (x, c)),
        forall|x: Json, c: Vec<Component>, y: (Json, Vec<Component>)|
            call_ensures(f, (x, c), y) ==> (y.0@, rig_model(y.1@)) == model(x@, rig_model(c@)),
    ensures
        (r.0@, rig_model(r.1@)) == thread_list(j@, rig_model(components@), model),
{
    match j {
        Json::List(items) => {
            let ghost all = items@;
            let ghost models = json::list_model(all);
            let ghost start = rig_model(components@);
            let mut out: Vec<Json> = Vec::new();
            let mut state = components;
            proof {
                json::lemma_list_model(all);
                assert(models.take(0) =~= Seq::empty());
            }
            for x in iter: items
                invariant
                    iter.seq() == all,
                    models.len() == all.len(),
                    forall|i: int| 0 <= i < all.len() ==> #[trigger] models[i] == all[i].model(),
                    forall|x: Json, c: Vec<Component>| call_requires(f, (x, c)),
                    forall|x: Json, c: Vec<Component>, y: (Json, Vec<Component>)|
                        call_ensures(f, (x, c), y) ==> (y.0@, rig_model(y.1@)) == model(
                            x@,
                            rig_model(c@),
                        ),
                    (json::list_model(out@), rig_model(state@)) == thread_items(
                        models.take(iter.index() as int),
                        start,
                        model,
                    ),
            {
                let ghost i = iter.index() as int;
                let (y, after) = f(x, state);
                proof {
                    assert(models[i] == x@);
                    json::lemma_list_model_push(out@, y);
                    assert(models.take(i + 1).drop_last() =~= models.take(i));
                }
                out.push(y);
                state = after;
            }
            assert(models.take(all.len() as int) =~= models);
            (Json::List(out), state)
        },
        other => (other, components),
    }
}

/// Rewrites the member `key` by `f`, handing the components along.
fn walk_member<F: Fn(Json, Vec<Component>) -> (Json, Vec<Component>)>(
    j: Json,
    key: &str,
    components: Vec<Component>,
    f: F,
    Ghost(model): Ghost<
        spec_fn(JsonModel, Seq<ComponentModel>) -> (JsonModel, Seq<ComponentModel>),
    >,
) -> (r: (Json, Vec<Component>))
    requires
        forall|x: Json, c: Vec<Component>| call_requires(f, (x, c)),
        forall|x: Json, c: Vec<Component>, y: (Json, Vec<Component>)|
            call_ensures(f, (x, c), y) ==> (y.0@, rig_model(y.1@)) == model(x@, rig_model(c@)),
    ensures
        (r.0@, rig_model(r.1@)) == thread_member(j@, key@, rig_model(components@), model),
{
    let ghost before = j@;
    let (rest, found) = take_member(j, key);
    match found {
        Some(x) => {
            let (y, after) = f(x, components);
            proof {
                if let JsonModel::Object(m) = before {
                    assert(m.remove(key@).insert(key@, y@) =~= m.insert(key@, y@));
                }
            }
            (put_member(rest, key, y), after)
        },
        None => (rest, components),
    }
}

fn harvest_nodes(nodes: Json, components: Vec<Component>) -> (r: (Json, Vec<Component>))
    ensures
        (r.0@, rig_model(r.1@)) == thread_list(
            nodes@,
            rig_model(components@),
            |n: JsonModel, c: Seq<ComponentModel>| node_harvested(n, c),
        ),
{
    walk_items(
        nodes,
        components,
        harvest_node,
        Ghost(|n: JsonModel, c: Seq<ComponentModel>| node_harvested(n, c)),
    )
}

fn harvest_graph(graph: Json, components: Vec<Component>) -> (r: (Json, Vec<Component>))
    ensures
        (r.0@, rig_model(r.1@)) == graph_harvested(graph@, rig_model(components@)),
{
    walk_member(
        graph,
        "nodes",
        components,
        harvest_nodes,
        Ghost(
            |nodes: JsonModel, cs: Seq<ComponentModel>|
                thread_list(nodes, cs, |n: JsonModel, c: Seq<ComponentModel>| node_harvested(n, c)),
        ),
    )
}

fn harvest_patch(patch: Json, components: Vec<Component>) -> (r: (Json, Vec<Component>))
    ensures
        (r.0@, rig_model(r.1@)) == patch_harvested(patch@, rig_model(components@)),
{
    walk_member(
        patch,
        "graph",
        components,
        harvest_graph,
        Ghost(|g: JsonModel, cs: Seq<ComponentModel>| graph_harvested(g, cs)),
    )
}

fn harvest_patches(patches: Json, components: Vec<Component>) -> (r: (Json, Vec<Component>))
    ensures
        (r.0@, rig_model(r.1@)) == thread_list(
            patches@,
            rig_model(components@),
            |p: JsonModel, c: Seq<ComponentModel>| patch_harvested(p, c),
        ),
{
    walk_items(
        patches,
        components,
        harvest_patch,
        Ghost(|p: JsonModel, c: Seq<ComponentModel>| patch_harvested(p, c)),
    )
}

fn harvest_song(song: Json, components: Vec<Component>) -> (r: (Json, Vec<Component>))
    ensures
        (r.0@, rig_model(r.1@)) == song_harvested(song@, rig_model(components@)),
{
    walk_member(
        song,
        "patches",
        components,
        harvest_patches,
        Ghost(
            |ps: JsonModel, cs: Seq<ComponentModel>|
                thread_list(ps, cs, |p: JsonModel, c: Seq<ComponentModel>| patch_harvested(p, c)),
        ),
    )
}

fn harvest_songs(songs: Json, components: Vec<Component>) -> (r: (Json, Vec<Component>))
    ensures
        (r.0@, rig_model(r.1@)) == thread_list(
            songs@,
            rig_model(components@),
            |s: JsonModel, c: Seq<ComponentModel>| song_harvested(s, c),
        ),
{
    walk_items(
        songs,
        components,
        harvest_song,
        Ghost(|s: JsonModel, c: Seq<ComponentModel>| song_harvested(s, c)),
    )
}

fn harvest_show(show: Json, components: Vec<Component>) -> (r: (Json, Vec<Component>))
    ensures
        (r.0@, rig_model(r.1@)) == show_harvested(show@, rig_model(components@)),
{
    walk_member(
        show,
        "songs",
        components,
        harvest_songs,
        Ghost(
            |ss: JsonModel, cs: Seq<ComponentModel>|
                thread_list(ss, cs, |s: JsonModel, c: Seq<ComponentModel>| song_harvested(s, c)),
        ),
    )
}

// ---------------------------------------------------------------------------
// The migration steps
// ---------------------------------------------------------------------------

/// The component that a labelled source of the rig becomes.
pub open spec fn labelled_component(source: JsonModel) -> ComponentModel {
    ComponentModel::Labelled {
        kind: match json::member(source, "kind"@) {
            Some(kind) => kind,
            None => JsonModel::Null,
        },
        name: match json::text_in(json::member(source, "label"@)) {
            Some(label) => label,
            None => "Component"@,
        },
    }
}

/// The components that the labelled sources of a rig become.
pub open spec fn labelled_components(sources: Option<JsonModel>) -> Seq<ComponentModel> {
    match sources {
        Some(JsonModel::List(items)) => items.map_values(
            |source: JsonModel| labelled_component(source),
        ),
        _ => Seq::empty(),
    }
}

/// The sources of a show's rig.
pub open spec fn rig_sources(show: JsonModel) -> Option<JsonModel> {
    match json::member(show, "rig"@) {
        Some(rig) => json::member(rig, "sources"@),
        None => None,
    }
}

/// Schema 2 to 3, a show: its labelled sources become components, its hardware
/// bindings become components that the nodes refer to, and the rig holds them
/// all.
pub open spec fn show_regrouped(show: JsonModel) -> JsonModel {
    let bare = json::on_member(show, "rig"@, |r: JsonModel| json::drop_member(r, "sources"@));
    let (walked, components) = show_harvested(bare, labelled_components(rig_sources(show)));
    json::on_member(
        walked,
        "rig"@,
        |r: JsonModel| json::set_member(r, "components"@, rig_json(components)),
    )
}

/// Rewrites every graph that a show document embeds.
pub open spec fn on_graphs(doc: JsonModel, f: spec_fn(JsonModel) -> JsonModel) -> JsonModel {
    json::on_member(doc, "show"@, |show: JsonModel| on_show_graphs(show, f))
}

/// Rewrites every graph of a show.
pub open spec fn on_show_graphs(show: JsonModel, f: spec_fn(JsonModel) -> JsonModel) -> JsonModel {
    json::on_member(
        show,
        "songs"@,
        |songs: JsonModel| json::on_items(songs, |song: JsonModel| on_song_graphs(song, f)),
    )
}

/// Rewrites every graph of a song.
pub open spec fn on_song_graphs(song: JsonModel, f: spec_fn(JsonModel) -> JsonModel) -> JsonModel {
    json::on_member(
        song,
        "patches"@,
        |patches: JsonModel|
            json::on_items(patches, |patch: JsonModel| json::on_member(patch, "graph"@, f)),
    )
}

/// A show document of schema `from` brought up to the current schema. From
/// schema 1 the graphs take their own step first. A schema without a step
/// stays as it is, but for the stamp.
pub open spec fn show_migrated(doc: JsonModel, from: u32) -> JsonModel {
    let renamed = if from == 1 {
        on_graphs(doc, |g: JsonModel| document::graph_migrated(g, 1, 2))
    } else {
        doc
    };
    let moved = if from == 1 || from == 2 {
        json::on_member(renamed, "show"@, |show: JsonModel| show_regrouped(show))
    } else {
        renamed
    };
    json::set_member(
        moved,
        "schemaVersion"@,
        JsonModel::Unsigned(CURRENT_SCHEMA_VERSION as u64),
    )
}

/// The component that a labelled source of the rig becomes.
fn label_component(source: Json) -> (r: Component)
    ensures
        r@ == labelled_component(source@),
{
    let name = match source.get_text("label") {
        Some(label) => copy_text(label),
        None => "Component".to_owned(),
    };
    let (_, found) = take_member(source, "kind");
    let kind = match found {
        Some(kind) => kind,
        None => Json::Null,
    };
    Component::Labelled { kind, name }
}

/// The components that the labelled sources of a rig become.
fn label_components(sources: Option<Json>) -> (r: Vec<Component>)
    ensures
        rig_model(r@) == labelled_components(opt_json(sources)),
{
    let mut out: Vec<Component> = Vec::new();
    let ghost models = labelled_components(opt_json(sources));
    if let Some(Json::List(items)) = sources {
        let ghost all = items@;
        proof {
            json::lemma_list_model(all);
        }
        for x in iter: items
            invariant
                iter.seq() == all,
                models.len() == all.len(),
                forall|i: int|
                    0 <= i < all.len() ==> #[trigger] models[i] == labelled_component(
                        all[i].model(),
                    ),
                out.len() == iter.index(),
                forall|i: int| 0 <= i < out.len() ==> (#[trigger] out@[i])@ == models[i],
        {
            assert(models[iter.index() as int] == labelled_component(x@));
            out.push(label_component(x));
        }
    }
    assert(rig_model(out@) =~= models);
    out
}

/// Schema 2 to 3, a show.
fn regroup_show(show: Json) -> (r: Json)
    ensures
        r@ == show_regrouped(show@),
{
    let ghost before = show@;
    let (rest, found) = take_member(show, "rig");
    let (bare, sources) = match found {
        Some(rig) => {
            let (kept, sources) = take_member(rig, "sources");
            proof {
                if let JsonModel::Object(m) = before {
                    assert(m.remove("rig"@).insert("rig"@, kept@) =~= m.insert("rig"@, kept@));
                }
            }
            (put_member(rest, "rig", kept), sources)
        },
        None => (rest, None),
    };
    assert(opt_json(sources) == rig_sources(before));
    let (walked, components) = harvest_show(bare, label_components(sources));
    let ghost models = rig_model(components@);
    let ghost between = walked@;
    let list = write_rig(components);
    let (outer, rig) = take_member(walked, "rig");
    match rig {
        Some(rig) => {
            let full = put_member(rig, "components", list);
            proof {
                if let JsonModel::Object(m) = between {
                    assert(m.remove("rig"@).insert("rig"@, full@) =~= m.insert("rig"@, full@));
                }
            }
            put_member(outer, "rig", full)
        },
        None => outer,
    }
}

fn rename_graph(graph: Json) -> (r: Json)
    ensures
        r@ == document::graph_migrated(graph@, 1, 2),
{
    migrate_graph(graph, 1, 2)
}

fn rename_patch(patch: Json) -> (r: Json)
    ensures
        r@ == json::on_member(patch@, "graph"@, |g: JsonModel| document::graph_migrated(g, 1, 2)),
{
    update_member(
        patch,
        "graph",
        rename_graph,
        Ghost(|g: JsonModel| document::graph_migrated(g, 1, 2)),
    )
}

fn rename_patches(patches: Json) -> (r: Json)
    ensures
        r@ == json::on_items(
            patches@,
            |patch: JsonModel|
                json::on_member(patch, "graph"@, |g: JsonModel| document::graph_migrated(g, 1, 2)),
        ),
{
    update_items(
        patches,
        rename_patch,
        Ghost(
            |patch: JsonModel|
                json::on_member(patch, "graph"@, |g: JsonModel| document::graph_migrated(g, 1, 2)),
        ),
    )
}

fn rename_song(song: Json) -> (r: Json)
    ensures
        r@ == on_song_graphs(song@, |g: JsonModel| document::graph_migrated(g, 1, 2)),
{
    update_member(
        song,
        "patches",
        rename_patches,
        Ghost(
            |patches: JsonModel|
                json::on_items(
                    patches,
                    |patch: JsonModel|
                        json::on_member(
                            patch,
                            "graph"@,
                            |g: JsonModel| document::graph_migrated(g, 1, 2),
                        ),
                ),
        ),
    )
}

fn rename_songs(songs: Json) -> (r: Json)
    ensures
        r@ == json::on_items(
            songs@,
            |song: JsonModel|
                on_song_graphs(song, |g: JsonModel| document::graph_migrated(g, 1, 2)),
        ),
{
    update_items(
        songs,
        rename_song,
        Ghost(
            |song: JsonModel|
                on_song_graphs(song, |g: JsonModel| document::graph_migrated(g, 1, 2)),
        ),
    )
}

fn rename_show(show: Json) -> (r: Json)
    ensures
        r@ == on_show_graphs(show@, |g: JsonModel| document::graph_migrated(g, 1, 2)),
{
    update_member(
        show,
        "songs",
        rename_songs,
        Ghost(
            |songs: JsonModel|
                json::on_items(
                    songs,
                    |song: JsonModel|
                        on_song_graphs(song, |g: JsonModel| document::graph_migrated(g, 1, 2)),
                ),
        ),
    )
}

/// Brings a show document of schema `from_version` up to the current schema,
/// and stamps it with that.
pub fn migrate_show_value(value: &mut Json, from_version: u32)
    ensures
        final(value)@ == show_migrated(old(value)@, from_version),
{
    let mut doc = Json::Null;
    core::mem::swap(value, &mut doc);
    if from_version == 1 {
        doc = update_member(
            doc,
            "show",
            rename_show,
            Ghost(
                |show: JsonModel|
                    on_show_graphs(show, |g: JsonModel| document::graph_migrated(g, 1, 2)),
            ),
        );
    }
    if from_version == 1 || from_version == 2 {
        doc = update_member(
            doc,
            "show",
            regroup_show,
            Ghost(|show: JsonModel| show_regrouped(show)),
        );
    }
    *value = put_member(doc, "schemaVersion", Json::Unsigned(CURRENT_SCHEMA_VERSION as u64));
}

// ---------------------------------------------------------------------------
// Loading
// ---------------------------------------------------------------------------

/// Why a show document was not loaded.
#[derive(Debug)]
pub enum LoadError {
    /// A document of another kind.
    WrongKind { expected: &'static str, found: String },
    /// The kind or the schema version is missing from the header.
    MissingHeader,
    /// The document is of a later schema than this build understands.
    NewerSchema { document: u64, current: u32 },
    /// The text is not JSON.
    Json(serde_json::Error),
}

/// What an error says.
pub open spec fn load_message(e: LoadError, r: Seq<char>) -> bool {
    match e {
        LoadError::WrongKind { expected, found } => r
            == "not a stardust show document: kind was "@ + text::quoted_text(found@)
            + ", expected "@ + text::quoted_text(expected@),
        LoadError::MissingHeader => r
            == "show document is missing required header fields (kind, schemaVersion)"@,
        LoadError::NewerSchema { document, current } => r == "show document is schema v"@
            + text::decimal_text(document as nat)
            + ", but this build only understands up to v"@ + text::decimal_text(current as nat),
        LoadError::Json(e) => r == json::error_said(e),
    }
}

impl LoadError {
    /// The error in words.
    pub fn message(&self) -> (r: String)
        ensures
            load_message(*self, r@),
    {
        match self {
            LoadError::WrongKind { expected, found } => {
                "not a stardust show document: kind was ".to_owned().concat(
                    quoted(found.as_str()).as_str(),
                ).concat(", expected ").concat(quoted(*expected).as_str())
            },
            LoadError::MissingHeader => {
                "show document is missing required header fields (kind, schemaVersion)".to_owned()
            },
            LoadError::NewerSchema { document, current } => {
                "show document is schema v".to_owned().concat(
                    decimal(*document).as_str(),
                ).concat(", but this build only understands up to v").concat(
                    decimal(*current as u64).as_str(),
                )
            },
            LoadError::Json(e) => error_text(e),
        }
    }
}

/// What loading a show document makes of a JSON value: the migrated value, or
/// the fault in its header.
pub open spec fn show_loaded(doc: JsonModel, r: Result<Json, LoadError>) -> bool {
    match document::header_verdict(doc, SHOW_KIND@, CURRENT_SCHEMA_VERSION) {
        HeaderVerdict::Missing => r == Err::<Json, LoadError>(LoadError::MissingHeader),
        HeaderVerdict::OtherKind(kind) => r matches Err(LoadError::WrongKind { expected, found })
            && expected@ == SHOW_KIND@ && found@ == kind,
        HeaderVerdict::Newer(v) => r == Err::<Json, LoadError>(
            LoadError::NewerSchema { document: v, current: CURRENT_SCHEMA_VERSION },
        ),
        HeaderVerdict::Readable(v) => r matches Ok(out) && out@ == show_migrated(doc, v),
    }
}

/// Checks the header of a show document and brings it up to the current
/// schema.
pub fn accept_show_value(doc: Json) -> (r: Result<Json, LoadError>)
    ensures
        show_loaded(doc@, r),
{
    match check_header(&doc, SHOW_KIND, CURRENT_SCHEMA_VERSION) {
        HeaderCheck::Missing => Err(LoadError::MissingHeader),
        HeaderCheck::OtherKind(found) => Err(LoadError::WrongKind { expected: SHOW_KIND, found }),
        HeaderCheck::Newer(document) => Err(
            LoadError::NewerSchema { document, current: CURRENT_SCHEMA_VERSION },
        ),
        HeaderCheck::Readable(version) => {
            let mut value = doc;
            migrate_show_value(&mut value, version);
            Ok(value)
        },
    }
}

/// Reads the text of a show document: the JSON value that it holds, checked
/// and brought up to the current schema.
pub fn load_show_value(text: &str) -> (r: Result<Json, LoadError>)
    ensures
        (match json::json_of_text(text@) {
            Ok(doc) => show_loaded(doc, r),
            Err(said) => r matches Err(LoadError::Json(e)) && json::error_said(e) == said,
        }),
{
    match Json::parse(text) {
        Ok(doc) => accept_show_value(doc),
        Err(e) => Err(LoadError::Json(e)),
    }
}

} // verus!
