//! What holds of the show migrations as a whole.

use vstd::prelude::*;

use crate::json;
use crate::json::JsonModel;
use crate::patch::document;
use crate::patch::document::HeaderVerdict;
use crate::show::document as show_document;
use crate::show::document::{
    BindingKey, ComponentModel, LoadError, CURRENT_SCHEMA_VERSION, SHOW_KIND,
};
use crate::patch::laws as patch_laws;
use crate::patch::validate as graph_validate;
use crate::show::types;
use crate::show::types::{Patch, RigComponent, SavedBlock, Show, Song};
use crate::show::validate;
use crate::show::validate::{ShowFault, ShowValidationError};
use crate::text;

verus! {

// ---------------------------------------------------------------------------
// Relating a document to what became of it
// ---------------------------------------------------------------------------

/// Two values that differ at most in the member `key`, which stands in both or
/// in neither and is related by `rel`.
pub open spec fn member_related<S>(
    before: JsonModel,
    after: JsonModel,
    key: Seq<char>,
    state: S,
    rel: spec_fn(JsonModel, JsonModel, S) -> bool,
) -> bool {
    match json::member(before, key) {
        Some(x) => {
            &&& json::member(after, key) matches Some(y)
            &&& rel(x, y, state)
            &&& after == json::set_member(before, key, y)
        },
        None => after == before,
    }
}

/// Two lists of one length with each item related by `rel`, or one value that
/// is no list.
pub open spec fn items_related<S>(
    before: JsonModel,
    after: JsonModel,
    state: S,
    rel: spec_fn(JsonModel, JsonModel, S) -> bool,
) -> bool {
    match before {
        JsonModel::List(xs) => {
            &&& after matches JsonModel::List(ys)
            &&& ys.len() == xs.len()
            &&& forall|i: int| 0 <= i < xs.len() ==> rel(#[trigger] xs[i], ys[i], state)
        },
        _ => after == before,
    }
}

/// Whether a step keeps to `rel` and to `grows`.
pub open spec fn step_keeps<S>(
    f: spec_fn(JsonModel, S) -> (JsonModel, S),
    rel: spec_fn(JsonModel, JsonModel, S) -> bool,
    grows: spec_fn(S, S) -> bool,
) -> bool {
    &&& forall|x: JsonModel, s: S| rel(x, (#[trigger] f(x, s)).0, f(x, s).1)
    &&& forall|x: JsonModel, s: S| grows(s, (#[trigger] f(x, s)).1)
}

/// Whether `grows` is a preorder along which `rel` lasts.
pub open spec fn lasting<S>(
    rel: spec_fn(JsonModel, JsonModel, S) -> bool,
    grows: spec_fn(S, S) -> bool,
) -> bool {
    &&& forall|s: S| #[trigger] grows(s, s)
    &&& forall|a: S, b: S, c: S| #[trigger] grows(a, b) && #[trigger] grows(b, c) ==> grows(a, c)
    &&& forall|x: JsonModel, y: JsonModel, a: S, b: S| #[trigger]
        rel(x, y, a) && #[trigger] grows(a, b) ==> rel(x, y, b)
}

proof fn lemma_thread_items<S>(
    items: Seq<JsonModel>,
    state: S,
    f: spec_fn(JsonModel, S) -> (JsonModel, S),
    rel: spec_fn(JsonModel, JsonModel, S) -> bool,
    grows: spec_fn(S, S) -> bool,
)
    requires
        step_keeps(f, rel, grows),
        lasting(rel, grows),
    ensures
        show_document::thread_items(items, state, f).0.len() == items.len(),
        forall|i: int|
            0 <= i < items.len() ==> rel(
                #[trigger] items[i],
                show_document::thread_items(items, state, f).0[i],
                show_document::thread_items(items, state, f).1,
            ),
        grows(state, show_document::thread_items(items, state, f).1),
    decreases items.len(),
{
    if items.len() > 0 {
        lemma_thread_items(items.drop_last(), state, f, rel, grows);
        let (done, before) = show_document::thread_items(items.drop_last(), state, f);
        let (item, after) = f(items.last(), before);
        assert(grows(before, after));
        assert forall|i: int| 0 <= i < items.len() implies rel(
            #[trigger] items[i],
            done.push(item)[i],
            after,
        ) by {
            if i < items.len() - 1 {
                assert(items.drop_last()[i] == items[i]);
                assert(rel(items[i], done[i], before));
            }
        }
    }
}

proof fn lemma_thread_list<S>(
    f: spec_fn(JsonModel, S) -> (JsonModel, S),
    rel: spec_fn(JsonModel, JsonModel, S) -> bool,
    grows: spec_fn(S, S) -> bool,
)
    requires
        step_keeps(f, rel, grows),
        lasting(rel, grows),
    ensures
        step_keeps(
            |j: JsonModel, s: S| show_document::thread_list(j, s, f),
            |x: JsonModel, y: JsonModel, s: S| items_related(x, y, s, rel),
            grows,
        ),
        lasting(|x: JsonModel, y: JsonModel, s: S| items_related(x, y, s, rel), grows),
{
    let g = |j: JsonModel, s: S| show_document::thread_list(j, s, f);
    let listed = |x: JsonModel, y: JsonModel, s: S| items_related(x, y, s, rel);
    assert forall|x: JsonModel, s: S|
        listed(x, (#[trigger] g(x, s)).0, g(x, s).1) && grows(s, g(x, s).1) by {
        if let JsonModel::List(items) = x {
            lemma_thread_items(items, s, f, rel, grows);
        }
    }
    assert forall|x: JsonModel, y: JsonModel, a: S, b: S| #[trigger]
        listed(x, y, a) && #[trigger] grows(a, b) implies listed(x, y, b) by {
        if let JsonModel::List(xs) = x {
            let ys = y->List_0;
            assert forall|i: int| 0 <= i < xs.len() implies rel(#[trigger] xs[i], ys[i], b) by {
                assert(rel(xs[i], ys[i], a));
            }
        }
    }
}

proof fn lemma_thread_member<S>(
    key: Seq<char>,
    f: spec_fn(JsonModel, S) -> (JsonModel, S),
    rel: spec_fn(JsonModel, JsonModel, S) -> bool,
    grows: spec_fn(S, S) -> bool,
)
    requires
        step_keeps(f, rel, grows),
        lasting(rel, grows),
    ensures
        step_keeps(
            |j: JsonModel, s: S| show_document::thread_member(j, key, s, f),
            |x: JsonModel, y: JsonModel, s: S| member_related(x, y, key, s, rel),
            grows,
        ),
        lasting(|x: JsonModel, y: JsonModel, s: S| member_related(x, y, key, s, rel), grows),
{
    let g = |j: JsonModel, s: S| show_document::thread_member(j, key, s, f);
    assert forall|x: JsonModel, s: S|
        member_related(x, (#[trigger] g(x, s)).0, key, g(x, s).1, rel) && grows(s, g(x, s).1) by {
        if let Some(inner) = json::member(x, key) {
            assert(rel(inner, f(inner, s).0, f(inner, s).1));
            assert(grows(s, f(inner, s).1));
        }
    }
}

// ---------------------------------------------------------------------------
// How the components grow
// ---------------------------------------------------------------------------

/// Whether the note range `inner` lies in `outer`.
pub open spec fn range_within(inner: Option<(u64, u64)>, outer: Option<(u64, u64)>) -> bool {
    match (inner, outer) {
        (None, _) => true,
        (Some((low, high)), Some((lo, hi))) => lo <= low && high <= hi,
        (Some(_), None) => false,
    }
}

/// The note range of a component.
pub open spec fn component_notes(c: ComponentModel) -> Option<(u64, u64)> {
    match c {
        ComponentModel::Labelled { .. } => None,
        ComponentModel::Bound { notes, .. } => notes,
    }
}

/// One component as it may come to be: its note range grows, the rest stays.
pub open spec fn component_grows(a: ComponentModel, b: ComponentModel) -> bool {
    &&& range_within(component_notes(a), component_notes(b))
    &&& b == show_document::widened(a, component_notes(b)) || b == a
    &&& show_document::component_key(b) == show_document::component_key(a)
}

/// Whether no two components stand for one device.
pub open spec fn keys_distinct(components: Seq<ComponentModel>) -> bool {
    forall|i: int, j: int|
        0 <= i < j < components.len() && show_document::component_key(#[trigger] components[i])
            == show_document::component_key(#[trigger] components[j])
            ==> show_document::component_key(components[i]) is None
}

/// Components as they may come to be: each stays where it is, new ones come
/// behind, and no device gets a second one.
pub open spec fn components_grow(a: Seq<ComponentModel>, b: Seq<ComponentModel>) -> bool {
    &&& a.len() <= b.len()
    &&& forall|i: int| 0 <= i < a.len() ==> component_grows(#[trigger] a[i], b[i])
    &&& keys_distinct(a) ==> keys_distinct(b)
}

/// The device that a node of schema 2 is bound to.
pub open spec fn node_binding(node: JsonModel) -> Option<JsonModel> {
    match json::member(node, "config"@) {
        Some(config) => json::member(config, "hardwareBinding"@),
        None => None,
    }
}

/// The component that a node of schema 3 refers to.
pub open spec fn node_component(node: JsonModel) -> Option<JsonModel> {
    match json::member(node, "config"@) {
        Some(config) => json::member(config, "rigComponentId"@),
        None => None,
    }
}

/// A member of the configuration of a node.
pub open spec fn config_member(node: JsonModel, key: Seq<char>) -> Option<JsonModel> {
    match json::member(node, "config"@) {
        Some(config) => json::member(config, key),
        None => None,
    }
}

/// What tells the device of a node's binding from others.
pub open spec fn node_key(node: JsonModel, binding: JsonModel) -> BindingKey {
    show_document::component_key(
        show_document::component_for(
            show_document::or_empty(json::text_in(json::member(node, "kind"@))),
            binding,
        ),
    )->0
}

/// What becomes of a node: it has no binding any more. Where its binding named
/// a device, it refers to the component that stands for the device, and the
/// component's note range holds the binding's.
pub open spec fn node_moved(
    before: JsonModel,
    after: JsonModel,
    components: Seq<ComponentModel>,
) -> bool {
    &&& node_binding(after) is None
    &&& node_binding(before) matches Some(binding) ==> show_document::has_identity(binding) ==> {
        &&& show_document::key_index(components, node_key(before, binding)) matches Some(i)
        &&& node_component(after) == Some(JsonModel::Text(show_document::component_id(i)))
        &&& range_within(
            show_document::note_range(binding),
            component_notes(components[i as int]),
        )
    }
    &&& forall|key: Seq<char>|
        key != "config"@ ==> #[trigger] json::member(after, key) == json::member(before, key)
    &&& forall|key: Seq<char>|
        key != "hardwareBinding"@ && key != "rigComponentId"@ ==> #[trigger] config_member(
            after,
            key,
        ) == config_member(before, key)
    &&& (node_binding(before) is None || !show_document::has_identity(node_binding(before)->0))
        ==> node_component(after) == node_component(before)
}

proof fn lemma_range_within_transitive(
    a: Option<(u64, u64)>,
    b: Option<(u64, u64)>,
    c: Option<(u64, u64)>,
)
    requires
        range_within(a, b),
        range_within(b, c),
    ensures
        range_within(a, c),
{
}

proof fn lemma_component_grows_transitive(a: ComponentModel, b: ComponentModel, c: ComponentModel)
    requires
        component_grows(a, b),
        component_grows(b, c),
    ensures
        component_grows(a, c),
{
    lemma_range_within_transitive(component_notes(a), component_notes(b), component_notes(c));
}

proof fn lemma_components_grow_transitive(
    a: Seq<ComponentModel>,
    b: Seq<ComponentModel>,
    c: Seq<ComponentModel>,
)
    requires
        components_grow(a, b),
        components_grow(b, c),
    ensures
        components_grow(a, c),
{
    assert forall|i: int| 0 <= i < a.len() implies component_grows(#[trigger] a[i], c[i]) by {
        assert(component_grows(b[i], c[i]));
        lemma_component_grows_transitive(a[i], b[i], c[i]);
    }
}

/// The index of a key stays as components grow.
proof fn lemma_key_index_grows(
    a: Seq<ComponentModel>,
    b: Seq<ComponentModel>,
    key: BindingKey,
)
    requires
        components_grow(a, b),
        show_document::key_index(a, key) is Some,
    ensures
        show_document::key_index(b, key) == show_document::key_index(a, key),
    decreases b.len(),
{
    show_document::lemma_key_index(a, key);
    show_document::lemma_key_index(b, key);
    let i = show_document::key_index(a, key)->0 as int;
    assert(component_grows(a[i], b[i]));
    lemma_key_index_first(a, key);
    lemma_key_index_first(b, key);
    let j = show_document::key_index(b, key)->0 as int;
    if j < i {
        assert(component_grows(a[j], b[j]));
    }
}

/// No component before the index of a key has that key.
proof fn lemma_key_index_first(components: Seq<ComponentModel>, key: BindingKey)
    ensures
        show_document::key_index(components, key) matches Some(i) ==> forall|j: int|
            0 <= j < i ==> show_document::component_key(#[trigger] components[j]) != Some(key),
    decreases components.len(),
{
    if components.len() > 0 {
        let rest = components.drop_last();
        lemma_key_index_first(rest, key);
        show_document::lemma_key_index(rest, key);
        if let Some(i) = show_document::key_index(components, key) {
            assert forall|j: int| 0 <= j < i implies show_document::component_key(
                #[trigger] components[j],
            ) != Some(key) by {
                assert(rest[j] == components[j]);
            }
        }
    }
}

proof fn lemma_attached(components: Seq<ComponentModel>, kind: Seq<char>, binding: JsonModel)
    ensures
        ({
            let (after, i) = show_document::attached(components, kind, binding);
            let key = show_document::component_key(
                show_document::component_for(kind, binding),
            )->0;
            &&& components_grow(components, after)
            &&& show_document::key_index(after, key) == Some(i)
            &&& range_within(
                show_document::note_range(binding),
                component_notes(after[i as int]),
            )
        }),
{
    let (after, i) = show_document::attached(components, kind, binding);
    let key = show_document::component_key(show_document::component_for(kind, binding))->0;
    show_document::lemma_key_index(components, key);
    show_document::lemma_key_index(after, key);
    lemma_key_index_first(after, key);
    lemma_key_index_first(components, key);
    assert forall|k: int| 0 <= k < components.len() implies component_grows(
        #[trigger] components[k],
        after[k],
    ) by {}
    assert(show_document::component_key(after[i as int]) == Some(key));
    assert forall|a: int, b: int|
        keys_distinct(components) && 0 <= a < b < after.len() && show_document::component_key(
            #[trigger] after[a],
        ) == show_document::component_key(#[trigger] after[b]) implies show_document::component_key(
        after[a],
    ) is None by {
        assert(component_grows(components[a], after[a]));
        if b < components.len() {
            assert(component_grows(components[b], after[b]));
        }
    }
    let j = show_document::key_index(after, key)->0 as int;
    if j < i {
        assert(component_grows(components[j], after[j]));
    }
}

proof fn lemma_node_harvested(node: JsonModel, components: Seq<ComponentModel>)
    ensures
        ({
            let (after, grown) = show_document::node_harvested(node, components);
            &&& node_moved(node, after, grown)
            &&& components_grow(components, grown)
        }),
{
    reveal_strlit("hardwareBinding");
    reveal_strlit("rigComponentId");
    assert("hardwareBinding"@.len() != "rigComponentId"@.len());
    if let Some(binding) = node_binding(node) {
        let kind = show_document::or_empty(json::text_in(json::member(node, "kind"@)));
        lemma_attached(components, kind, binding);
        let i = show_document::attached(components, kind, binding).1;
        let config = json::member(node, "config"@)->0->Object_0.remove("hardwareBinding"@).insert(
            "rigComponentId"@,
            JsonModel::Text(show_document::component_id(i)),
        );
        assert(config.dom().contains("rigComponentId"@));
        assert(config != Map::<Seq<char>, JsonModel>::empty());
    }
    if let Some(JsonModel::Object(config)) = json::member(node, "config"@) {
        let rest = config.remove("hardwareBinding"@);
        let after = show_document::node_harvested(node, components).0;
        assert forall|key: Seq<char>|
            key != "hardwareBinding"@ && key != "rigComponentId"@ implies #[trigger] config_member(
            after,
            key,
        ) == config_member(node, key) by {
            assert(rest.dom().contains(key) == config.dom().contains(key));
            if rest == Map::<Seq<char>, JsonModel>::empty() {
                assert(!rest.dom().contains(key));
            }
        }
        assert(rest.dom().contains("rigComponentId"@) == config.dom().contains(
            "rigComponentId"@,
        ));
        if rest == Map::<Seq<char>, JsonModel>::empty() {
            assert(!rest.dom().contains("rigComponentId"@));
        }
    }
}

proof fn lemma_node_moved_lasts()
    ensures
        lasting(
            |x: JsonModel, y: JsonModel, s: Seq<ComponentModel>| node_moved(x, y, s),
            |a: Seq<ComponentModel>, b: Seq<ComponentModel>| components_grow(a, b),
        ),
{
    let rel = |x: JsonModel, y: JsonModel, s: Seq<ComponentModel>| node_moved(x, y, s);
    let grows = |a: Seq<ComponentModel>, b: Seq<ComponentModel>| components_grow(a, b);
    assert forall|a: Seq<ComponentModel>, b: Seq<ComponentModel>, c: Seq<ComponentModel>| #[trigger]
        grows(a, b) && #[trigger] grows(b, c) implies grows(a, c) by {
        lemma_components_grow_transitive(a, b, c);
    }
    assert forall|x: JsonModel, y: JsonModel, a: Seq<ComponentModel>, b: Seq<ComponentModel>|
        #[trigger] rel(x, y, a) && #[trigger] grows(a, b) implies rel(x, y, b) by {
        if let Some(binding) = node_binding(x) {
            if show_document::has_identity(binding) {
                let key = node_key(x, binding);
                lemma_key_index_grows(a, b, key);
                show_document::lemma_key_index(a, key);
                let i = show_document::key_index(a, key)->0 as int;
                assert(component_grows(a[i], b[i]));
                lemma_range_within_transitive(
                    show_document::note_range(binding),
                    component_notes(a[i]),
                    component_notes(b[i]),
                );
            }
        }
    }
}

/// What becomes of the graph of a patch: each node moves.
pub open spec fn graph_moved(
    before: JsonModel,
    after: JsonModel,
    components: Seq<ComponentModel>,
) -> bool {
    member_related(
        before,
        after,
        "nodes"@,
        components,
        |xs: JsonModel, ys: JsonModel, s: Seq<ComponentModel>|
            items_related(
                xs,
                ys,
                s,
                |x: JsonModel, y: JsonModel, c: Seq<ComponentModel>| node_moved(x, y, c),
            ),
    )
}

/// What becomes of a patch: its graph moves.
pub open spec fn patch_moved(
    before: JsonModel,
    after: JsonModel,
    components: Seq<ComponentModel>,
) -> bool {
    member_related(
        before,
        after,
        "graph"@,
        components,
        |x: JsonModel, y: JsonModel, s: Seq<ComponentModel>| graph_moved(x, y, s),
    )
}

/// What becomes of a song: each patch moves.
pub open spec fn song_moved(
    before: JsonModel,
    after: JsonModel,
    components: Seq<ComponentModel>,
) -> bool {
    member_related(
        before,
        after,
        "patches"@,
        components,
        |xs: JsonModel, ys: JsonModel, s: Seq<ComponentModel>|
            items_related(
                xs,
                ys,
                s,
                |x: JsonModel, y: JsonModel, c: Seq<ComponentModel>| patch_moved(x, y, c),
            ),
    )
}

/// What becomes of the songs of a show: each song moves.
pub open spec fn songs_moved(
    before: JsonModel,
    after: JsonModel,
    components: Seq<ComponentModel>,
) -> bool {
    member_related(
        before,
        after,
        "songs"@,
        components,
        |xs: JsonModel, ys: JsonModel, s: Seq<ComponentModel>|
            items_related(
                xs,
                ys,
                s,
                |x: JsonModel, y: JsonModel, c: Seq<ComponentModel>| song_moved(x, y, c),
            ),
    )
}

proof fn lemma_graph_harvested()
    ensures
        step_keeps(
            |g: JsonModel, s: Seq<ComponentModel>| show_document::graph_harvested(g, s),
            |x: JsonModel, y: JsonModel, s: Seq<ComponentModel>| graph_moved(x, y, s),
            |a: Seq<ComponentModel>, b: Seq<ComponentModel>| components_grow(a, b),
        ),
        lasting(
            |x: JsonModel, y: JsonModel, s: Seq<ComponentModel>| graph_moved(x, y, s),
            |a: Seq<ComponentModel>, b: Seq<ComponentModel>| components_grow(a, b),
        ),
{
    let grows = |a: Seq<ComponentModel>, b: Seq<ComponentModel>| components_grow(a, b);
    let step = |n: JsonModel, c: Seq<ComponentModel>| show_document::node_harvested(n, c);
    let rel = |x: JsonModel, y: JsonModel, c: Seq<ComponentModel>| node_moved(x, y, c);
    assert forall|x: JsonModel, s: Seq<ComponentModel>|
        rel(x, (#[trigger] step(x, s)).0, step(x, s).1) && grows(s, step(x, s).1) by {
        lemma_node_harvested(x, s);
    }
    lemma_node_moved_lasts();
    lemma_thread_list(step, rel, grows);
    let list_step = |j: JsonModel, s: Seq<ComponentModel>|
        show_document::thread_list(j, s, step);
    let list_rel = |x: JsonModel, y: JsonModel, s: Seq<ComponentModel>|
        items_related(x, y, s, rel);
    lemma_thread_member("nodes"@, list_step, list_rel, grows);
}

proof fn lemma_patch_harvested()
    ensures
        step_keeps(
            |g: JsonModel, s: Seq<ComponentModel>| show_document::patch_harvested(g, s),
            |x: JsonModel, y: JsonModel, s: Seq<ComponentModel>| patch_moved(x, y, s),
            |a: Seq<ComponentModel>, b: Seq<ComponentModel>| components_grow(a, b),
        ),
        lasting(
            |x: JsonModel, y: JsonModel, s: Seq<ComponentModel>| patch_moved(x, y, s),
            |a: Seq<ComponentModel>, b: Seq<ComponentModel>| components_grow(a, b),
        ),
{
    lemma_graph_harvested();
    lemma_thread_member(
        "graph"@,
        |g: JsonModel, s: Seq<ComponentModel>| show_document::graph_harvested(g, s),
        |x: JsonModel, y: JsonModel, s: Seq<ComponentModel>| graph_moved(x, y, s),
        |a: Seq<ComponentModel>, b: Seq<ComponentModel>| components_grow(a, b),
    );
}

proof fn lemma_song_harvested()
    ensures
        step_keeps(
            |g: JsonModel, s: Seq<ComponentModel>| show_document::song_harvested(g, s),
            |x: JsonModel, y: JsonModel, s: Seq<ComponentModel>| song_moved(x, y, s),
            |a: Seq<ComponentModel>, b: Seq<ComponentModel>| components_grow(a, b),
        ),
        lasting(
            |x: JsonModel, y: JsonModel, s: Seq<ComponentModel>| song_moved(x, y, s),
            |a: Seq<ComponentModel>, b: Seq<ComponentModel>| components_grow(a, b),
        ),
{
    lemma_patch_harvested();
    let grows = |a: Seq<ComponentModel>, b: Seq<ComponentModel>| components_grow(a, b);
    let step = |p: JsonModel, c: Seq<ComponentModel>| show_document::patch_harvested(p, c);
    let rel = |x: JsonModel, y: JsonModel, c: Seq<ComponentModel>| patch_moved(x, y, c);
    lemma_thread_list(step, rel, grows);
    let list_step = |j: JsonModel, s: Seq<ComponentModel>|
        show_document::thread_list(j, s, step);
    let list_rel = |x: JsonModel, y: JsonModel, s: Seq<ComponentModel>|
        items_related(x, y, s, rel);
    lemma_thread_member("patches"@, list_step, list_rel, grows);
}

proof fn lemma_show_harvested(show: JsonModel, components: Seq<ComponentModel>)
    ensures
        songs_moved(
            show,
            show_document::show_harvested(show, components).0,
            show_document::show_harvested(show, components).1,
        ),
        components_grow(components, show_document::show_harvested(show, components).1),
{
    lemma_song_harvested();
    let grows = |a: Seq<ComponentModel>, b: Seq<ComponentModel>| components_grow(a, b);
    let step = |p: JsonModel, c: Seq<ComponentModel>| show_document::song_harvested(p, c);
    let rel = |x: JsonModel, y: JsonModel, c: Seq<ComponentModel>| song_moved(x, y, c);
    lemma_thread_list(step, rel, grows);
    let list_step = |j: JsonModel, s: Seq<ComponentModel>|
        show_document::thread_list(j, s, step);
    let list_rel = |x: JsonModel, y: JsonModel, s: Seq<ComponentModel>|
        items_related(x, y, s, rel);
    lemma_thread_member("songs"@, list_step, list_rel, grows);
    let whole = |j: JsonModel, s: Seq<ComponentModel>|
        show_document::thread_member(j, "songs"@, s, list_step);
    assert(whole(show, components) == show_document::show_harvested(show, components));
}

/// The components that the rig of a show of schema 2 comes to hold.
pub open spec fn show_components(show: JsonModel) -> Seq<ComponentModel> {
    show_document::show_harvested(
        json::on_member(show, "rig"@, |r: JsonModel| json::drop_member(r, "sources"@)),
        show_document::labelled_components(show_document::rig_sources(show)),
    ).1
}

// ---------------------------------------------------------------------------
// Laws
// ---------------------------------------------------------------------------

/// From schema 2 to 3 no node keeps a hardware binding, and each node whose
/// binding named a device refers to the component that stands for that device.
/// Nothing else of the songs changes.
pub proof fn law_bindings_move_to_the_rig(show: JsonModel)
    ensures
        (match json::member(show, "songs"@) {
            Some(songs) => json::member(show_document::show_regrouped(show), "songs"@) matches Some(
                after,
            ) && items_related(
                songs,
                after,
                show_components(show),
                |x: JsonModel, y: JsonModel, c: Seq<ComponentModel>| song_moved(x, y, c),
            ),
            None => json::member(show_document::show_regrouped(show), "songs"@) is None,
        }),
{
    reveal_strlit("songs");
    reveal_strlit("rig");
    assert("songs"@.len() != "rig"@.len());
    let bare = json::on_member(show, "rig"@, |r: JsonModel| json::drop_member(r, "sources"@));
    let labelled = show_document::labelled_components(show_document::rig_sources(show));
    lemma_show_harvested(bare, labelled);
    assert(json::member(bare, "songs"@) == json::member(show, "songs"@));
}

/// Whether something holds of every node of a graph.
pub open spec fn graph_nodes_all(graph: JsonModel, p: spec_fn(JsonModel) -> bool) -> bool {
    json::member(graph, "nodes"@) matches Some(JsonModel::List(nodes)) ==> forall|i: int|
        0 <= i < nodes.len() ==> p(#[trigger] nodes[i])
}

/// Whether something holds of every node of a patch.
pub open spec fn patch_nodes_all(patch: JsonModel, p: spec_fn(JsonModel) -> bool) -> bool {
    json::member(patch, "graph"@) matches Some(graph) ==> graph_nodes_all(graph, p)
}

/// Whether something holds of every node of a song.
pub open spec fn song_nodes_all(song: JsonModel, p: spec_fn(JsonModel) -> bool) -> bool {
    json::member(song, "patches"@) matches Some(JsonModel::List(patches)) ==> forall|i: int|
        0 <= i < patches.len() ==> patch_nodes_all(#[trigger] patches[i], p)
}

/// Whether something holds of every node of a show.
pub open spec fn show_nodes_all(show: JsonModel, p: spec_fn(JsonModel) -> bool) -> bool {
    json::member(show, "songs"@) matches Some(JsonModel::List(songs)) ==> forall|i: int|
        0 <= i < songs.len() ==> song_nodes_all(#[trigger] songs[i], p)
}

/// What moving a node takes from one property to another, moving a song does
/// to all its nodes.
proof fn lemma_song_moved_nodes(
    before: JsonModel,
    after: JsonModel,
    components: Seq<ComponentModel>,
    p: spec_fn(JsonModel) -> bool,
    q: spec_fn(JsonModel) -> bool,
)
    requires
        song_moved(before, after, components),
        song_nodes_all(before, p),
        forall|x: JsonModel, y: JsonModel|
            p(x) && #[trigger] node_moved(x, y, components) ==> q(y),
    ensures
        song_nodes_all(after, q),
{
    if let Some(JsonModel::List(patches)) = json::member(after, "patches"@) {
        assert forall|i: int| 0 <= i < patches.len() implies patch_nodes_all(
            #[trigger] patches[i],
            q,
        ) by {
            let old_patches = json::member(before, "patches"@)->0->List_0;
            assert(patch_moved(old_patches[i], patches[i], components));
            assert(patch_nodes_all(old_patches[i], p));
            if let Some(graph) = json::member(patches[i], "graph"@) {
                let old_graph = json::member(old_patches[i], "graph"@)->0;
                assert(graph_moved(old_graph, graph, components));
                if let Some(JsonModel::List(nodes)) = json::member(graph, "nodes"@) {
                    let old_nodes = json::member(old_graph, "nodes"@)->0->List_0;
                    assert forall|k: int| 0 <= k < nodes.len() implies q(#[trigger] nodes[k]) by {
                        assert(node_moved(old_nodes[k], nodes[k], components));
                        assert(p(old_nodes[k]));
                    }
                }
            }
        }
    }
}

/// From schema 2 to 3, what moving a node takes from one property to another,
/// the migration does to all nodes of the show.
proof fn lemma_regrouped_nodes(
    show: JsonModel,
    p: spec_fn(JsonModel) -> bool,
    q: spec_fn(JsonModel) -> bool,
)
    requires
        show_nodes_all(show, p),
        forall|x: JsonModel, y: JsonModel|
            p(x) && #[trigger] node_moved(x, y, show_components(show)) ==> q(y),
    ensures
        show_nodes_all(show_document::show_regrouped(show), q),
{
    law_bindings_move_to_the_rig(show);
    let after = show_document::show_regrouped(show);
    if let Some(JsonModel::List(songs)) = json::member(after, "songs"@) {
        let old_songs = json::member(show, "songs"@)->0->List_0;
        assert forall|i: int| 0 <= i < songs.len() implies song_nodes_all(
            #[trigger] songs[i],
            q,
        ) by {
            assert(song_moved(old_songs[i], songs[i], show_components(show)));
            assert(song_nodes_all(old_songs[i], p));
            lemma_song_moved_nodes(old_songs[i], songs[i], show_components(show), p, q);
        }
    }
}

/// Once a show of schema 2 has been migrated, no node in it has a hardware
/// binding.
pub proof fn law_no_binding_is_left(show: JsonModel)
    ensures
        show_nodes_all(
            show_document::show_regrouped(show),
            |n: JsonModel| node_binding(n) is None,
        ),
{
    let any = |n: JsonModel| true;
    assert(show_nodes_all(show, any)) by {
        if let Some(JsonModel::List(songs)) = json::member(show, "songs"@) {
            assert forall|i: int| 0 <= i < songs.len() implies song_nodes_all(
                #[trigger] songs[i],
                any,
            ) by {
                if let Some(JsonModel::List(patches)) = json::member(songs[i], "patches"@) {
                    assert forall|k: int| 0 <= k < patches.len() implies patch_nodes_all(
                        #[trigger] patches[k],
                        any,
                    ) by {}
                }
            }
        }
    }
    lemma_regrouped_nodes(show, any, |n: JsonModel| node_binding(n) is None);
}

/// Whether a node is not of the kind that schema 2 renamed.
pub open spec fn not_sine(node: JsonModel) -> bool {
    json::member(node, "kind"@) != Some(JsonModel::Text("instrument.sine"@))
}

/// Once a show of schema 1 has been migrated, no node in it is of the kind that
/// was renamed.
pub proof fn law_no_sine_is_left(show: JsonModel)
    ensures
        show_nodes_all(
            show_document::show_regrouped(
                show_document::on_show_graphs(
                    show,
                    |g: JsonModel| document::graph_migrated(g, 1, 2),
                ),
            ),
            |n: JsonModel| not_sine(n),
        ),
{
    reveal_strlit("kind");
    reveal_strlit("config");
    reveal_strlit("instrument.sine");
    reveal_strlit("instrument.testtone");
    assert("kind"@.len() != "config"@.len());
    assert("instrument.sine"@.len() != "instrument.testtone"@.len());
    let f = |g: JsonModel| document::graph_migrated(g, 1, 2);
    let p = |n: JsonModel| not_sine(n);
    let renamed = show_document::on_show_graphs(show, f);
    assert(show_nodes_all(renamed, p)) by {
        if let Some(JsonModel::List(songs)) = json::member(renamed, "songs"@) {
            let old_songs = json::member(show, "songs"@)->0->List_0;
            assert forall|i: int| 0 <= i < songs.len() implies song_nodes_all(
                #[trigger] songs[i],
                p,
            ) by {
                assert(songs[i] == show_document::on_song_graphs(old_songs[i], f));
                if let Some(JsonModel::List(patches)) = json::member(songs[i], "patches"@) {
                    let old_patches = json::member(old_songs[i], "patches"@)->0->List_0;
                    assert forall|k: int| 0 <= k < patches.len() implies patch_nodes_all(
                        #[trigger] patches[k],
                        p,
                    ) by {
                        assert(patches[k] == json::on_member(old_patches[k], "graph"@, f));
                        if let Some(graph) = json::member(patches[k], "graph"@) {
                            let old_graph = json::member(old_patches[k], "graph"@)->0;
                            lemma_renamed_graph(old_graph);
                        }
                    }
                }
            }
        }
    }
    assert forall|x: JsonModel, y: JsonModel|
        p(x) && #[trigger] node_moved(x, y, show_components(renamed)) implies p(y) by {
        assert(json::member(y, "kind"@) == json::member(x, "kind"@));
    }
    lemma_regrouped_nodes(renamed, p, p);
}

proof fn lemma_renamed_graph(graph: JsonModel)
    ensures
        graph_nodes_all(document::graph_migrated(graph, 1, 2), |n: JsonModel| not_sine(n)),
{
    reveal_strlit("instrument.sine");
    reveal_strlit("instrument.testtone");
    assert("instrument.sine"@.len() != "instrument.testtone"@.len());
    let renamed = document::on_nodes(graph, |n: JsonModel| document::node_renamed(n));
    assert(document::graph_migrated(renamed, 2, 2) == renamed);
    assert(document::graph_migrated(graph, 1, 2) == renamed);
}

/// The show of a migrated document is the show of the document with its graphs
/// renamed, where it was of schema 1, and regrouped.
pub proof fn law_migration_regroups_the_show(doc: JsonModel, from: u32)
    requires
        from == 1 || from == 2,
    ensures
        json::member(show_document::show_migrated(doc, from), "show"@) == (match json::member(
            doc,
            "show"@,
        ) {
            Some(show) => Some(
                show_document::show_regrouped(
                    if from == 1 {
                        show_document::on_show_graphs(
                            show,
                            |g: JsonModel| document::graph_migrated(g, 1, 2),
                        )
                    } else {
                        show
                    },
                ),
            ),
            None => None,
        }),
{
    reveal_strlit("show");
    reveal_strlit("schemaVersion");
    assert("show"@.len() != "schemaVersion"@.len());
}

/// From schema 2 to 3 the labelled sources of a rig become its first
/// components, in order, and no device has two components.
pub proof fn law_rig_holds_each_device_once(show: JsonModel)
    ensures
        keys_distinct(show_components(show)),
        ({
            let labelled = show_document::labelled_components(show_document::rig_sources(show));
            &&& labelled.len() <= show_components(show).len()
            &&& forall|i: int|
                0 <= i < labelled.len() ==> #[trigger] labelled[i] == show_components(show)[i]
        }),
        (match json::member(show, "rig"@) {
            Some(JsonModel::Object(rig)) => json::member(
                show_document::show_regrouped(show),
                "rig"@,
            ) == Some(
                JsonModel::Object(
                    rig.remove("sources"@).insert(
                        "components"@,
                        show_document::rig_json(show_components(show)),
                    ),
                ),
            ),
            found => json::member(show_document::show_regrouped(show), "rig"@) == found,
        }),
{
    reveal_strlit("songs");
    reveal_strlit("rig");
    assert("songs"@.len() != "rig"@.len());
    let bare = json::on_member(show, "rig"@, |r: JsonModel| json::drop_member(r, "sources"@));
    let labelled = show_document::labelled_components(show_document::rig_sources(show));
    lemma_show_harvested(bare, labelled);
    assert forall|i: int| 0 <= i < labelled.len() implies #[trigger] labelled[i]
        == show_components(show)[i] by {
        assert(component_grows(labelled[i], show_components(show)[i]));
    }
    let walked = show_document::show_harvested(bare, labelled).0;
    assert(json::member(walked, "rig"@) == json::member(bare, "rig"@));
}

/// No two components of a rig have one id.
pub proof fn law_component_ids_distinct(i: nat, j: nat)
    requires
        i != j,
    ensures
        show_document::component_id(i) != show_document::component_id(j),
{
    let a = text::decimal_text(i + 1);
    let b = text::decimal_text(j + 1);
    if show_document::component_id(i) == show_document::component_id(j) {
        assert(("rc-"@ + a).skip("rc-"@.len() as int) =~= a);
        assert(("rc-"@ + b).skip("rc-"@.len() as int) =~= b);
        text::lemma_decimal_injective(i + 1, j + 1);
    }
}

/// Each component of a rig carries the id by which the nodes refer to it.
pub proof fn law_component_ids_are_found(components: Seq<ComponentModel>, i: int)
    requires
        0 <= i < components.len(),
    ensures
        show_document::rig_json(components) matches JsonModel::List(items) && json::member(
            items[i],
            "id"@,
        ) == Some(JsonModel::Text(show_document::component_id(i as nat))),
{
    reveal_strlit("id");
    reveal_strlit("kind");
    reveal_strlit("name");
    reveal_strlit("config");
    assert("id"@.len() == 2 && "kind"@.len() == 4 && "name"@.len() == 4 && "config"@.len() == 6);
}

/// A migrated document carries the current schema, and is otherwise changed
/// only in its member `show`.
pub proof fn law_migration_stamps_the_schema(doc: JsonModel, from: u32, key: Seq<char>)
    ensures
        doc is Object ==> json::member(show_document::show_migrated(doc, from), "schemaVersion"@)
            == Some(JsonModel::Unsigned(CURRENT_SCHEMA_VERSION as u64)),
        key != "schemaVersion"@ && key != "show"@ ==> json::member(
            show_document::show_migrated(doc, from),
            key,
        ) == json::member(doc, key),
{
}

/// A migrated document can be read again, and migrating it again changes
/// nothing.
pub proof fn law_migration_settles(doc: JsonModel, from: u32)
    requires
        document::header_verdict(doc, SHOW_KIND@, CURRENT_SCHEMA_VERSION)
            == HeaderVerdict::Readable(from),
    ensures
        document::header_verdict(
            show_document::show_migrated(doc, from),
            SHOW_KIND@,
            CURRENT_SCHEMA_VERSION,
        ) == HeaderVerdict::Readable(CURRENT_SCHEMA_VERSION),
        show_document::show_migrated(
            show_document::show_migrated(doc, from),
            CURRENT_SCHEMA_VERSION,
        ) == show_document::show_migrated(doc, from),
{
    reveal_strlit("kind");
    reveal_strlit("show");
    reveal_strlit("schemaVersion");
    assert("kind"@.len() == 4 && "schemaVersion"@.len() == 13);
    assert("kind"@[0] == 'k' && "show"@[0] == 's');
    let once = show_document::show_migrated(doc, from);
    let m = once->Object_0;
    assert(m.insert("schemaVersion"@, JsonModel::Unsigned(CURRENT_SCHEMA_VERSION as u64)) =~= m);
}

/// A show document of a later schema than this build writes is refused.
pub proof fn law_newer_show_is_refused(doc: JsonModel, version: u64)
    requires
        json::text_in(json::member(doc, "kind"@)) == Some(SHOW_KIND@),
        json::unsigned_in(json::member(doc, "schemaVersion"@)) == Some(version),
        version > CURRENT_SCHEMA_VERSION,
    ensures
        document::header_verdict(doc, SHOW_KIND@, CURRENT_SCHEMA_VERSION) == HeaderVerdict::Newer(
            version,
        ),
{
}

// ---------------------------------------------------------------------------
// Valid shows
// ---------------------------------------------------------------------------

/// Whether no two songs share an id.
pub open spec fn songs_distinct(songs: Seq<Song>) -> bool {
    forall|i: int, j: int|
        0 <= i < j < songs.len() ==> (#[trigger] songs[i]).id@ != (#[trigger] songs[j]).id@
}

/// Whether no two patches share an id.
pub open spec fn patches_distinct(patches: Seq<Patch>) -> bool {
    forall|i: int, j: int|
        0 <= i < j < patches.len() ==> (#[trigger] patches[i]).id@ != (#[trigger] patches[j]).id@
}

/// Whether two songs have no patch id in common.
pub open spec fn patches_apart(a: Song, b: Song) -> bool {
    forall|i: int|
        0 <= i < b.patches@.len() ==> !types::has_patch(
            a.patches@,
            (#[trigger] b.patches@[i]).id@,
        )
}

/// Whether no two patches of the show share an id, and every graph is sound.
pub open spec fn patches_sound(songs: Seq<Song>) -> bool {
    &&& forall|i: int, j: int|
        0 <= i < j < songs.len() ==> patches_apart(#[trigger] songs[i], #[trigger] songs[j])
    &&& forall|i: int| 0 <= i < songs.len() ==> patches_distinct((#[trigger] songs[i]).patches@)
    &&& forall|i: int| 0 <= i < songs.len() ==> graphs_sound((#[trigger] songs[i]).patches@)
}

/// Whether the graph of every patch is sound.
pub open spec fn graphs_sound(patches: Seq<Patch>) -> bool {
    forall|i: int|
        0 <= i < patches.len() ==> patch_laws::graph_sound((#[trigger] patches[i]).graph)
}

/// Whether no two components share an id.
pub open spec fn components_distinct(components: Seq<RigComponent>) -> bool {
    forall|i: int, j: int|
        0 <= i < j < components.len() ==> (#[trigger] components[i]).id@ != (
        #[trigger] components[j]).id@
}

/// Whether no two saved blocks share an id.
pub open spec fn blocks_distinct(blocks: Seq<SavedBlock>) -> bool {
    forall|i: int, j: int|
        0 <= i < j < blocks.len() ==> (#[trigger] blocks[i]).id@ != (#[trigger] blocks[j]).id@
}

/// A show as it should be.
pub open spec fn show_sound(show: Show) -> bool {
    &&& songs_distinct(show.songs@)
    &&& patches_sound(show.songs@)
    &&& components_distinct(show.rig.components@)
    &&& blocks_distinct(show.saved_blocks@)
}

proof fn lemma_song_faults(songs: Seq<Song>)
    ensures
        validate::song_faults(songs).len() == 0 <==> songs_distinct(songs),
    decreases songs.len(),
{
    if songs.len() > 0 {
        let rest = songs.drop_last();
        let last = songs.last();
        lemma_song_faults(rest);
        if validate::song_faults(songs).len() == 0 {
            assert forall|i: int, j: int| 0 <= i < j < songs.len() implies (
            #[trigger] songs[i]).id@ != (#[trigger] songs[j]).id@ by {
                assert(rest[i] == songs[i]);
                if j < rest.len() {
                    assert(rest[j] == songs[j]);
                }
            }
        }
        if songs_distinct(songs) {
            assert forall|i: int, j: int| 0 <= i < j < rest.len() implies (
            #[trigger] rest[i]).id@ != (#[trigger] rest[j]).id@ by {
                assert(rest[i] == songs[i] && rest[j] == songs[j]);
            }
            assert forall|i: int| 0 <= i < rest.len() implies (#[trigger] rest[i]).id@
                != last.id@ by {
                assert(songs[i].id@ != songs[songs.len() - 1].id@);
            }
        }
    }
}

proof fn lemma_component_faults(components: Seq<RigComponent>)
    ensures
        validate::component_faults(components).len() == 0 <==> components_distinct(components),
    decreases components.len(),
{
    if components.len() > 0 {
        let rest = components.drop_last();
        let last = components.last();
        lemma_component_faults(rest);
        if validate::component_faults(components).len() == 0 {
            assert forall|i: int, j: int| 0 <= i < j < components.len() implies (
            #[trigger] components[i]).id@ != (#[trigger] components[j]).id@ by {
                assert(rest[i] == components[i]);
                if j < rest.len() {
                    assert(rest[j] == components[j]);
                }
            }
        }
        if components_distinct(components) {
            assert forall|i: int, j: int| 0 <= i < j < rest.len() implies (
            #[trigger] rest[i]).id@ != (#[trigger] rest[j]).id@ by {
                assert(rest[i] == components[i] && rest[j] == components[j]);
            }
            assert forall|i: int| 0 <= i < rest.len() implies (#[trigger] rest[i]).id@
                != last.id@ by {
                assert(components[i].id@ != components[components.len() - 1].id@);
            }
        }
    }
}

proof fn lemma_block_faults(blocks: Seq<SavedBlock>)
    ensures
        validate::block_faults(blocks).len() == 0 <==> blocks_distinct(blocks),
    decreases blocks.len(),
{
    if blocks.len() > 0 {
        let rest = blocks.drop_last();
        let last = blocks.last();
        lemma_block_faults(rest);
        if validate::block_faults(blocks).len() == 0 {
            assert forall|i: int, j: int| 0 <= i < j < blocks.len() implies (
            #[trigger] blocks[i]).id@ != (#[trigger] blocks[j]).id@ by {
                assert(rest[i] == blocks[i]);
                if j < rest.len() {
                    assert(rest[j] == blocks[j]);
                }
            }
        }
        if blocks_distinct(blocks) {
            assert forall|i: int, j: int| 0 <= i < j < rest.len() implies (
            #[trigger] rest[i]).id@ != (#[trigger] rest[j]).id@ by {
                assert(rest[i] == blocks[i] && rest[j] == blocks[j]);
            }
            assert forall|i: int| 0 <= i < rest.len() implies (#[trigger] rest[i]).id@
                != last.id@ by {
                assert(blocks[i].id@ != blocks[blocks.len() - 1].id@);
            }
        }
    }
}

proof fn lemma_song_patch_faults(before: Seq<Song>, song: Seq<char>, patches: Seq<Patch>)
    ensures
        validate::song_patch_faults(before, song, patches).len() == 0 <==> (patches_distinct(
            patches,
        ) && graphs_sound(patches) && forall|i: int|
            0 <= i < patches.len() ==> !validate::has_patch_in(
                before,
                (#[trigger] patches[i]).id@,
            )),
    decreases patches.len(),
{
    if patches.len() > 0 {
        let rest = patches.drop_last();
        let last = patches.last();
        lemma_song_patch_faults(before, song, rest);
        patch_laws::law_valid_graph_is_sound(last.graph);
        if validate::song_patch_faults(before, song, patches).len() == 0 {
            assert forall|i: int, j: int| 0 <= i < j < patches.len() implies (
            #[trigger] patches[i]).id@ != (#[trigger] patches[j]).id@ by {
                assert(rest[i] == patches[i]);
                if j < rest.len() {
                    assert(rest[j] == patches[j]);
                }
            }
            assert forall|i: int| 0 <= i < patches.len() implies patch_laws::graph_sound(
                (#[trigger] patches[i]).graph,
            ) && !validate::has_patch_in(before, patches[i].id@) by {
                if i < rest.len() {
                    assert(rest[i] == patches[i]);
                }
            }
        }
        if patches_distinct(patches) && graphs_sound(patches) && forall|i: int|
            0 <= i < patches.len() ==> !validate::has_patch_in(
                before,
                (#[trigger] patches[i]).id@,
            ) {
            assert forall|i: int, j: int| 0 <= i < j < rest.len() implies (
            #[trigger] rest[i]).id@ != (#[trigger] rest[j]).id@ by {
                assert(rest[i] == patches[i] && rest[j] == patches[j]);
            }
            assert forall|i: int| 0 <= i < rest.len() implies patch_laws::graph_sound(
                (#[trigger] rest[i]).graph,
            ) && !validate::has_patch_in(before, rest[i].id@) && rest[i].id@ != last.id@ by {
                assert(patches[i].id@ != patches[patches.len() - 1].id@);
            }
            assert(patch_laws::graph_sound(patches[patches.len() - 1].graph));
            assert(!validate::has_patch_in(before, patches[patches.len() - 1].id@));
        }
    }
}

#[verifier::rlimit(60)]
#[verifier::spinoff_prover]
proof fn lemma_patch_faults(songs: Seq<Song>)
    ensures
        validate::patch_faults(songs).len() == 0 <==> patches_sound(songs),
    decreases songs.len(),
{
    if songs.len() > 0 {
        let rest = songs.drop_last();
        let last = songs.last();
        lemma_patch_faults(rest);
        lemma_song_patch_faults(rest, last.id@, last.patches@);
        if validate::patch_faults(songs).len() == 0 {
            assert forall|i: int, j: int| 0 <= i < j < songs.len() implies patches_apart(
                #[trigger] songs[i],
                #[trigger] songs[j],
            ) by {
                assert(rest[i] == songs[i]);
                if j < rest.len() {
                    assert(rest[j] == songs[j]);
                } else {
                    assert forall|k: int| 0 <= k < last.patches@.len() implies !types::has_patch(
                        songs[i].patches@,
                        (#[trigger] last.patches@[k]).id@,
                    ) by {
                        assert(!validate::has_patch_in(rest, last.patches@[k].id@));
                    }
                }
            }
            assert forall|i: int| 0 <= i < songs.len() implies patches_distinct(
                (#[trigger] songs[i]).patches@,
            ) && graphs_sound(songs[i].patches@) by {
                if i < rest.len() {
                    assert(rest[i] == songs[i]);
                }
            }
        }
        if patches_sound(songs) {
            assert forall|i: int, j: int| 0 <= i < j < rest.len() implies patches_apart(
                #[trigger] rest[i],
                #[trigger] rest[j],
            ) by {
                assert(rest[i] == songs[i] && rest[j] == songs[j]);
            }
            assert forall|i: int| 0 <= i < rest.len() implies patches_distinct(
                (#[trigger] rest[i]).patches@,
            ) && graphs_sound(rest[i].patches@) by {
                assert(rest[i] == songs[i]);
            }
            assert forall|k: int| 0 <= k < last.patches@.len() implies !validate::has_patch_in(
                rest,
                (#[trigger] last.patches@[k]).id@,
            ) by {
                assert forall|i: int| 0 <= i < rest.len() implies !types::has_patch(
                    (#[trigger] rest[i]).patches@,
                    last.patches@[k].id@,
                ) by {
                    assert(patches_apart(songs[i], songs[songs.len() - 1]));
                }
            }
            assert(patches_distinct(songs[songs.len() - 1].patches@));
            assert(graphs_sound(songs[songs.len() - 1].patches@));
        }
    }
}

/// Validation finds nothing exactly in the shows that are as they should be:
/// ids are distinct, those of patches over all songs, and every graph is
/// sound.
pub proof fn law_valid_show_is_sound(show: Show)
    ensures
        validate::show_faults(show).len() == 0 <==> show_sound(show),
{
    lemma_song_faults(show.songs@);
    lemma_patch_faults(show.songs@);
    lemma_component_faults(show.rig.components@);
    lemma_block_faults(show.saved_blocks@);
}

/// Taking a component out of the rig does not make a valid show invalid,
/// whichever nodes refer to it.
pub proof fn law_deleting_a_component_is_harmless(before: Show, after: Show, i: int)
    requires
        validate::show_faults(before).len() == 0,
        0 <= i < before.rig.components@.len(),
        after.rig.components@ == before.rig.components@.remove(i),
        after.songs@ == before.songs@,
        after.saved_blocks@ == before.saved_blocks@,
    ensures
        validate::show_faults(after).len() == 0,
{
    law_valid_show_is_sound(before);
    law_valid_show_is_sound(after);
    let all = before.rig.components@;
    let left = after.rig.components@;
    assert forall|a: int, b: int| 0 <= a < b < left.len() implies (#[trigger] left[a]).id@ != (
    #[trigger] left[b]).id@ by {
        let a2 = if a < i {
            a
        } else {
            a + 1
        };
        let b2 = if b < i {
            b
        } else {
            b + 1
        };
        assert(left[a] == all[a2] && left[b] == all[b2]);
    }
}

// ---------------------------------------------------------------------------
// Which faults are told
// ---------------------------------------------------------------------------

/// Whether the patch number `k` of the song number `i` has the given id.
pub open spec fn patch_at(songs: Seq<Song>, i: int, k: int, id: Seq<char>) -> bool {
    &&& 0 <= i < songs.len()
    &&& 0 <= k < songs[i].patches@.len()
    &&& songs[i].patches@[k].id@ == id
}

/// Whether a patch comes before that number `k` of the song number `i` and has its
/// id.
pub open spec fn repeated_patch(songs: Seq<Song>, i: int, k: int) -> bool {
    exists|i2: int, k2: int|
        (i2 < i || (i2 == i && k2 < k)) && #[trigger] patch_at(
            songs,
            i2,
            k2,
            songs[i].patches@[k].id@,
        )
}

/// Whether a show has the given fault. This says of each fault what it is about.
pub open spec fn is_at_fault(show: Show, f: ShowFault) -> bool {
    let songs = show.songs@;
    match f {
        ShowFault::DuplicateSongId(id) => exists|i: int, j: int|
            0 <= i < j < songs.len() && (#[trigger] songs[i]).id@ == id && (
            #[trigger] songs[j]).id@ == id,
        ShowFault::DuplicatePatchId(id) => exists|i: int, k: int| #[trigger]
            patch_at(songs, i, k, id) && repeated_patch(songs, i, k),
        ShowFault::DuplicateRigComponentId(id) => exists|i: int, j: int|
            0 <= i < j < show.rig.components@.len() && (#[trigger] show.rig.components@[i]).id@
                == id && (#[trigger] show.rig.components@[j]).id@ == id,
        ShowFault::DuplicateBlockId(id) => exists|i: int, j: int|
            0 <= i < j < show.saved_blocks@.len() && (#[trigger] show.saved_blocks@[i]).id@ == id
                && (#[trigger] show.saved_blocks@[j]).id@ == id,
        ShowFault::PatchInvalid { song, patch, faults } => exists|i: int, k: int|
            0 <= i < songs.len() && songs[i].id@ == song && 0 <= k < songs[i].patches@.len() && (
            #[trigger] songs[i].patches@[k]).id@ == patch && faults.len() > 0 && faults
                == graph_validate::graph_faults(songs[i].patches@[k].graph),
    }
}

proof fn lemma_joined_contains(a: Seq<ShowFault>, b: Seq<ShowFault>, x: ShowFault)
    ensures
        (a + b).contains(x) == (a.contains(x) || b.contains(x)),
{
    if a.contains(x) {
        let i = choose|i: int| 0 <= i < a.len() && a[i] == x;
        assert((a + b)[i] == x);
    }
    if b.contains(x) {
        let i = choose|i: int| 0 <= i < b.len() && b[i] == x;
        assert((a + b)[a.len() + i] == x);
    }
    if (a + b).contains(x) {
        let i = choose|i: int| 0 <= i < (a + b).len() && (a + b)[i] == x;
        if i < a.len() {
            assert(a[i] == x);
        } else {
            assert(b[i - a.len()] == x);
        }
    }
}

proof fn lemma_show_fault_if(faulty: bool, fault: ShowFault, f: ShowFault)
    ensures
        validate::show_fault_if(faulty, fault).contains(f) == (faulty && f == fault),
{
    if faulty {
        assert(seq![fault][0] == fault);
    }
}

proof fn lemma_told_songs(all: Seq<Song>, f: ShowFault)
    ensures
        validate::song_faults(all).contains(f) <==> exists|i: int, j: int|
            0 <= i < j < all.len() && f == ShowFault::DuplicateSongId((#[trigger] all[j]).id@) && (
            #[trigger] all[i]).id@ == all[j].id@,
    decreases all.len(),
{
    if all.len() > 0 {
        let rest = all.drop_last();
        let n = all.len() - 1;
        let here = validate::has_song(rest, all[n].id@);
        let fault = ShowFault::DuplicateSongId(all[n].id@);
        lemma_told_songs(rest, f);
        lemma_show_fault_if(here, fault, f);
        lemma_joined_contains(
            validate::song_faults(rest),
            validate::show_fault_if(here, fault),
            f,
        );
        assert forall|i: int| 0 <= i < n implies #[trigger] rest[i] == all[i] by {}
        if here && f == fault {
            let i = choose|i: int| 0 <= i < rest.len() && (#[trigger] rest[i]).id@ == all[n].id@;
            assert(all[i].id@ == all[n].id@);
        }
        if validate::song_faults(rest).contains(f) {
            let (i, j) = choose|i: int, j: int|
                0 <= i < j < rest.len() && f == ShowFault::DuplicateSongId((#[trigger] rest[j]).id@) && (
                #[trigger] rest[i]).id@ == rest[j].id@;
            assert(all[i] == rest[i] && all[j] == rest[j]);
        }
        if exists|i: int, j: int|
            0 <= i < j < all.len() && f == ShowFault::DuplicateSongId((#[trigger] all[j]).id@) && (
            #[trigger] all[i]).id@ == all[j].id@ {
            let (i, j) = choose|i: int, j: int|
                0 <= i < j < all.len() && f == ShowFault::DuplicateSongId((#[trigger] all[j]).id@) && (
                #[trigger] all[i]).id@ == all[j].id@;
            assert(rest[i] == all[i]);
            if j < n {
                assert(rest[j] == all[j]);
            }
        }
    }
}

proof fn lemma_told_components(all: Seq<RigComponent>, f: ShowFault)
    ensures
        validate::component_faults(all).contains(f) <==> exists|i: int, j: int|
            0 <= i < j < all.len() && f == ShowFault::DuplicateRigComponentId((#[trigger] all[j]).id@) && (
            #[trigger] all[i]).id@ == all[j].id@,
    decreases all.len(),
{
    if all.len() > 0 {
        let rest = all.drop_last();
        let n = all.len() - 1;
        let here = validate::has_component(rest, all[n].id@);
        let fault = ShowFault::DuplicateRigComponentId(all[n].id@);
        lemma_told_components(rest, f);
        lemma_show_fault_if(here, fault, f);
        lemma_joined_contains(
            validate::component_faults(rest),
            validate::show_fault_if(here, fault),
            f,
        );
        assert forall|i: int| 0 <= i < n implies #[trigger] rest[i] == all[i] by {}
        if here && f == fault {
            let i = choose|i: int| 0 <= i < rest.len() && (#[trigger] rest[i]).id@ == all[n].id@;
            assert(all[i].id@ == all[n].id@);
        }
        if validate::component_faults(rest).contains(f) {
            let (i, j) = choose|i: int, j: int|
                0 <= i < j < rest.len() && f == ShowFault::DuplicateRigComponentId((#[trigger] rest[j]).id@) && (
                #[trigger] rest[i]).id@ == rest[j].id@;
            assert(all[i] == rest[i] && all[j] == rest[j]);
        }
        if exists|i: int, j: int|
            0 <= i < j < all.len() && f == ShowFault::DuplicateRigComponentId((#[trigger] all[j]).id@) && (
            #[trigger] all[i]).id@ == all[j].id@ {
            let (i, j) = choose|i: int, j: int|
                0 <= i < j < all.len() && f == ShowFault::DuplicateRigComponentId((#[trigger] all[j]).id@) && (
                #[trigger] all[i]).id@ == all[j].id@;
            assert(rest[i] == all[i]);
            if j < n {
                assert(rest[j] == all[j]);
            }
        }
    }
}

proof fn lemma_told_blocks(all: Seq<SavedBlock>, f: ShowFault)
    ensures
        validate::block_faults(all).contains(f) <==> exists|i: int, j: int|
            0 <= i < j < all.len() && f == ShowFault::DuplicateBlockId((#[trigger] all[j]).id@) && (
            #[trigger] all[i]).id@ == all[j].id@,
    decreases all.len(),
{
    if all.len() > 0 {
        let rest = all.drop_last();
        let n = all.len() - 1;
        let here = validate::has_block(rest, all[n].id@);
        let fault = ShowFault::DuplicateBlockId(all[n].id@);
        lemma_told_blocks(rest, f);
        lemma_show_fault_if(here, fault, f);
        lemma_joined_contains(
            validate::block_faults(rest),
            validate::show_fault_if(here, fault),
            f,
        );
        assert forall|i: int| 0 <= i < n implies #[trigger] rest[i] == all[i] by {}
        if here && f == fault {
            let i = choose|i: int| 0 <= i < rest.len() && (#[trigger] rest[i]).id@ == all[n].id@;
            assert(all[i].id@ == all[n].id@);
        }
        if validate::block_faults(rest).contains(f) {
            let (i, j) = choose|i: int, j: int|
                0 <= i < j < rest.len() && f == ShowFault::DuplicateBlockId((#[trigger] rest[j]).id@) && (
                #[trigger] rest[i]).id@ == rest[j].id@;
            assert(all[i] == rest[i] && all[j] == rest[j]);
        }
        if exists|i: int, j: int|
            0 <= i < j < all.len() && f == ShowFault::DuplicateBlockId((#[trigger] all[j]).id@) && (
            #[trigger] all[i]).id@ == all[j].id@ {
            let (i, j) = choose|i: int, j: int|
                0 <= i < j < all.len() && f == ShowFault::DuplicateBlockId((#[trigger] all[j]).id@) && (
                #[trigger] all[i]).id@ == all[j].id@;
            assert(rest[i] == all[i]);
            if j < n {
                assert(rest[j] == all[j]);
            }
        }
    }
}

/// Whether a fault lies in the patch number `k` of the song number `i`.
spec fn patch_fault(songs: Seq<Song>, i: int, k: int, f: ShowFault) -> bool {
    let patch = songs[i].patches@[k];
    let graph = graph_validate::graph_faults(patch.graph);
    ||| repeated_patch(songs, i, k) && f == ShowFault::DuplicatePatchId(patch.id@)
    ||| graph.len() > 0 && f == (ShowFault::PatchInvalid {
        song: songs[i].id@,
        patch: patch.id@,
        faults: graph,
    })
}

proof fn lemma_repeated_patch(songs: Seq<Song>, i: int, k: int)
    requires
        0 <= i < songs.len(),
        0 <= k < songs[i].patches@.len(),
    ensures
        ({
            let id = songs[i].patches@[k].id@;
            repeated_patch(songs, i, k) == (validate::has_patch_in(songs.take(i), id)
                || types::has_patch(songs[i].patches@.take(k), id))
        }),
{
    let id = songs[i].patches@[k].id@;
    let before = songs.take(i);
    let earlier = songs[i].patches@.take(k);
    if repeated_patch(songs, i, k) {
        let (i2, k2) = choose|i2: int, k2: int|
            (i2 < i || (i2 == i && k2 < k)) && #[trigger] patch_at(songs, i2, k2, id);
        if i2 < i {
            assert(before[i2] == songs[i2]);
            assert(before[i2].patches@[k2].id@ == id);
            assert(types::has_patch(before[i2].patches@, id));
        } else {
            assert(earlier[k2].id@ == id);
        }
    }
    if validate::has_patch_in(before, id) {
        let i2 = choose|i2: int|
            0 <= i2 < before.len() && types::has_patch((#[trigger] before[i2]).patches@, id);
        let k2 = choose|k2: int|
            0 <= k2 < before[i2].patches@.len() && (#[trigger] before[i2].patches@[k2]).id@ == id;
        assert(before[i2] == songs[i2]);
        assert(patch_at(songs, i2, k2, id));
    }
    if types::has_patch(earlier, id) {
        let k2 = choose|k2: int| 0 <= k2 < earlier.len() && (#[trigger] earlier[k2]).id@ == id;
        assert(earlier[k2] == songs[i].patches@[k2]);
        assert(patch_at(songs, i, k2, id));
    }
}

proof fn lemma_told_song_patches(songs: Seq<Song>, i: int, m: int, f: ShowFault)
    requires
        0 <= i < songs.len(),
        0 <= m <= songs[i].patches@.len(),
    ensures
        validate::song_patch_faults(
            songs.take(i),
            songs[i].id@,
            songs[i].patches@.take(m),
        ).contains(f) <==> exists|k: int| 0 <= k < m && #[trigger] patch_fault(songs, i, k, f),
    decreases m,
{
    if m > 0 {
        let all = songs[i].patches@;
        let n = m - 1;
        let earlier = all.take(n);
        let before = songs.take(i);
        let patch = all[n];
        let graph = graph_validate::graph_faults(patch.graph);
        assert(all.take(m).drop_last() =~= earlier);
        assert(all.take(m).last() == patch);
        lemma_told_song_patches(songs, i, n, f);
        lemma_repeated_patch(songs, i, n);
        let twice = validate::has_patch_in(before, patch.id@) || types::has_patch(
            earlier,
            patch.id@,
        );
        let a = validate::song_patch_faults(before, songs[i].id@, earlier);
        let first = ShowFault::DuplicatePatchId(patch.id@);
        let second = ShowFault::PatchInvalid { song: songs[i].id@, patch: patch.id@, faults: graph };
        let b = validate::show_fault_if(twice, first);
        let c = validate::show_fault_if(graph.len() > 0, second);
        lemma_show_fault_if(twice, first, f);
        lemma_show_fault_if(graph.len() > 0, second, f);
        lemma_joined_contains(a, b, f);
        lemma_joined_contains(a + b, c, f);
        assert(patch_fault(songs, i, n, f) == (b.contains(f) || c.contains(f)));
    }
}

proof fn lemma_told_patches(songs: Seq<Song>, m: int, f: ShowFault)
    requires
        0 <= m <= songs.len(),
    ensures
        validate::patch_faults(songs.take(m)).contains(f) <==> exists|i: int, k: int|
            0 <= i < m && 0 <= k < songs[i].patches@.len() && #[trigger] patch_fault(
                songs,
                i,
                k,
                f,
            ),
    decreases m,
{
    if m > 0 {
        let n = m - 1;
        assert(songs.take(m).drop_last() =~= songs.take(n));
        assert(songs.take(m).last() == songs[n]);
        lemma_told_patches(songs, n, f);
        let all = songs[n].patches@;
        assert(all.take(all.len() as int) =~= all);
        lemma_told_song_patches(songs, n, all.len() as int, f);
        lemma_joined_contains(
            validate::patch_faults(songs.take(n)),
            validate::song_patch_faults(songs.take(n), songs[n].id@, all),
            f,
        );
        if exists|i: int, k: int|
            0 <= i < m && 0 <= k < songs[i].patches@.len() && #[trigger] patch_fault(
                songs,
                i,
                k,
                f,
            ) {
            let (i, k) = choose|i: int, k: int|
                0 <= i < m && 0 <= k < songs[i].patches@.len() && #[trigger] patch_fault(
                    songs,
                    i,
                    k,
                    f,
                );
            if i == n {
                assert(patch_fault(songs, n, k, f));
            }
        }
    }
}

/// Validation tells exactly the faults that a show has, each with the ids that it is
/// about, and the faults of a graph together with its song and patch.
pub proof fn law_faults_are_told_as_they_are(show: Show, f: ShowFault)
    ensures
        validate::show_faults(show).contains(f) <==> is_at_fault(show, f),
{
    let songs = show.songs@;
    assert(songs.take(songs.len() as int) =~= songs);
    lemma_told_songs(songs, f);
    lemma_told_patches(songs, songs.len() as int, f);
    lemma_told_components(show.rig.components@, f);
    lemma_told_blocks(show.saved_blocks@, f);
    let a = validate::song_faults(songs);
    let b = validate::patch_faults(songs);
    let c = validate::component_faults(show.rig.components@);
    let d = validate::block_faults(show.saved_blocks@);
    lemma_joined_contains(a, b, f);
    lemma_joined_contains(a + b, c, f);
    lemma_joined_contains(a + b + c, d, f);
    match f {
        ShowFault::DuplicateSongId(id) => {
            assert(a.contains(f) == is_at_fault(show, f));
        },
        ShowFault::DuplicatePatchId(id) => {
            if b.contains(f) {
                let (i, k) = choose|i: int, k: int|
                    0 <= i < songs.len() && 0 <= k < songs[i].patches@.len()
                        && #[trigger] patch_fault(songs, i, k, f);
                assert(patch_at(songs, i, k, id));
            }
            if is_at_fault(show, f) {
                let (i, k) = choose|i: int, k: int| #[trigger]
                    patch_at(songs, i, k, id) && repeated_patch(songs, i, k);
                assert(patch_fault(songs, i, k, f));
            }
        },
        ShowFault::DuplicateRigComponentId(id) => {
            assert(c.contains(f) == is_at_fault(show, f));
        },
        ShowFault::DuplicateBlockId(id) => {
            assert(d.contains(f) == is_at_fault(show, f));
        },
        ShowFault::PatchInvalid { song, patch, faults } => {
            if b.contains(f) {
                let (i, k) = choose|i: int, k: int|
                    0 <= i < songs.len() && 0 <= k < songs[i].patches@.len()
                        && #[trigger] patch_fault(songs, i, k, f);
                assert(songs[i].patches@[k].id@ == patch);
            }
            if is_at_fault(show, f) {
                let (i, k) = choose|i: int, k: int|
                    0 <= i < songs.len() && songs[i].id@ == song && 0 <= k
                        < songs[i].patches@.len() && (#[trigger] songs[i].patches@[k]).id@ == patch
                        && faults.len() > 0 && faults == graph_validate::graph_faults(
                        songs[i].patches@[k].graph,
                    );
                assert(patch_fault(songs, i, k, f));
            }
        },
    }
}

/// What validation returns tells each fault with the ids that it is about, and the
/// faults of a graph one by one.
pub proof fn law_errors_carry_their_faults(e: ShowValidationError)
    ensures
        (match e {
            ShowValidationError::DuplicateSongId(id) => e@ == ShowFault::DuplicateSongId(id.0@),
            ShowValidationError::DuplicatePatchId(id) => e@ == ShowFault::DuplicatePatchId(id.0@),
            ShowValidationError::DuplicateBlockId(id) => e@ == ShowFault::DuplicateBlockId(id.0@),
            ShowValidationError::DuplicateRigComponentId(id) => e@
                == ShowFault::DuplicateRigComponentId(id.0@),
            ShowValidationError::PatchInvalid { song, patch, errors } => {
                &&& e@ matches ShowFault::PatchInvalid { song: s, patch: p, faults }
                &&& s == song.0@ && p == patch.0@
                &&& faults.len() == errors@.len()
                &&& forall|i: int| 0 <= i < faults.len() ==> #[trigger] faults[i] == errors@[i]@
            },
        }),
{
}

// ---------------------------------------------------------------------------
// Finding songs, patches and components
// ---------------------------------------------------------------------------

/// The song that is found has the id, and no song before it does.
pub proof fn law_first_song_is_found(songs: Seq<Song>, id: Seq<char>, i: int, j: int)
    requires
        types::song_index(songs, id, i),
        0 <= j < songs.len(),
        songs[j].id.0@ == id,
    ensures
        0 <= i <= j,
        songs[i].id.0@ == id,
{
    if j < i {
        assert(songs[j].id@ != id);
    }
}

/// The component that is found has the id, and no component before it does.
pub proof fn law_first_component_is_found(
    components: Seq<RigComponent>,
    id: Seq<char>,
    i: int,
    j: int,
)
    requires
        types::component_index(components, id, i),
        0 <= j < components.len(),
        components[j].id.0@ == id,
    ensures
        0 <= i <= j,
        components[i].id.0@ == id,
{
    if j < i {
        assert(components[j].id@ != id);
    }
}

/// The patch that is found has the id, stands in the song that it is found with, and
/// no patch before it has the id, in that song or in an earlier one.
pub proof fn law_first_patch_is_found(
    songs: Seq<Song>,
    id: Seq<char>,
    i: int,
    k: int,
    i2: int,
    k2: int,
)
    requires
        types::patch_index(songs, id, i, k),
        patch_at(songs, i2, k2, id),
    ensures
        patch_at(songs, i, k, id),
        i < i2 || (i == i2 && k <= k2),
        types::has_patch(songs[i2].patches@, id),
{
    assert(songs[i2].patches@[k2].id@ == id);
    if i2 < i {
        assert(!types::has_patch(songs[i2].patches@, id));
    }
    if i2 == i && k2 < k {
        assert(songs[i].patches@.take(k)[k2] == songs[i].patches@[k2]);
    }
}

// ---------------------------------------------------------------------------
// Messages
// ---------------------------------------------------------------------------

/// The message about a fault names what is at fault, each id by its type: of a patch
/// with faults first the patch, then the song that it is in.
pub proof fn law_message_names_the_fault(e: ShowValidationError)
    ensures
        ({
            let said = validate::show_fault_text(e@);
            match e {
                ShowValidationError::DuplicateSongId(id) => said == "duplicate song id "@
                    + named_id("SongId"@, id.0@),
                ShowValidationError::DuplicatePatchId(id) => said == "duplicate patch id "@
                    + named_id("PatchId"@, id.0@),
                ShowValidationError::DuplicateBlockId(id) => said == "duplicate saved-block id "@
                    + named_id("BlockId"@, id.0@),
                ShowValidationError::DuplicateRigComponentId(id) => said
                    == "duplicate rig-component id "@ + named_id("RigComponentId"@, id.0@),
                ShowValidationError::PatchInvalid { song, patch, errors } => said == "patch "@
                    + named_id("PatchId"@, patch.0@) + " (in song "@ + named_id(
                    "SongId"@,
                    song.0@,
                ) + ") has structural errors"@,
            }
        }),
{
}

/// An id behind the name of its type, in quotes and brackets.
pub open spec fn named_id(name: Seq<char>, id: Seq<char>) -> Seq<char> {
    name + "("@ + text::quoted_text(id) + ")"@
}

/// The message about a document that cannot be loaded tells what was found, then what
/// was expected: the kinds, or the schema versions. It tells what is wrong with a text
/// that is not JSON.
pub proof fn law_message_tells_what_was_found(e: LoadError, said: Seq<char>)
    requires
        show_document::load_message(e, said),
    ensures
        match e {
            LoadError::WrongKind { expected, found } => said
                == "not a stardust show document: kind was "@ + text::quoted_text(found@)
                + ", expected "@ + text::quoted_text(expected@),
            LoadError::MissingHeader => said
                == "show document is missing required header fields (kind, schemaVersion)"@,
            LoadError::NewerSchema { document, current } => said == "show document is schema v"@
                + text::decimal_text(document as nat)
                + ", but this build only understands up to v"@ + text::decimal_text(current as nat),
            LoadError::Json(why) => said == json::error_said(why),
        },
{
}

/// A list of errors tells one fault for each, in their order.
pub proof fn law_faults_are_told_in_order(errors: Seq<ShowValidationError>, i: int)
    requires
        0 <= i < errors.len(),
    ensures
        validate::show_faults_of(errors).len() == errors.len(),
        validate::show_faults_of(errors)[i] == errors[i]@,
{
}

/// What a fault is about: songs, patches, components of the rig, or saved blocks.
pub open spec fn concern(f: ShowFault) -> int {
    match f {
        ShowFault::DuplicateSongId(_) => 0,
        ShowFault::DuplicatePatchId(_) | ShowFault::PatchInvalid { .. } => 1,
        ShowFault::DuplicateRigComponentId(_) => 2,
        ShowFault::DuplicateBlockId(_) => 3,
    }
}

/// Whether all faults are about the same.
spec fn all_concern(faults: Seq<ShowFault>, n: int) -> bool {
    forall|i: int| 0 <= i < faults.len() ==> concern(#[trigger] faults[i]) == n
}

proof fn lemma_songs_concern(songs: Seq<Song>)
    ensures
        all_concern(validate::song_faults(songs), 0),
    decreases songs.len(),
{
    if songs.len() > 0 {
        lemma_songs_concern(songs.drop_last());
    }
}

proof fn lemma_song_patches_concern(before: Seq<Song>, song: Seq<char>, patches: Seq<Patch>)
    ensures
        all_concern(validate::song_patch_faults(before, song, patches), 1),
    decreases patches.len(),
{
    if patches.len() > 0 {
        lemma_song_patches_concern(before, song, patches.drop_last());
    }
}

proof fn lemma_patches_concern(songs: Seq<Song>)
    ensures
        all_concern(validate::patch_faults(songs), 1),
    decreases songs.len(),
{
    if songs.len() > 0 {
        let before = songs.drop_last();
        lemma_patches_concern(before);
        lemma_song_patches_concern(before, songs.last().id@, songs.last().patches@);
    }
}

proof fn lemma_components_concern(components: Seq<RigComponent>)
    ensures
        all_concern(validate::component_faults(components), 2),
    decreases components.len(),
{
    if components.len() > 0 {
        lemma_components_concern(components.drop_last());
    }
}

proof fn lemma_blocks_concern(blocks: Seq<SavedBlock>)
    ensures
        all_concern(validate::block_faults(blocks), 3),
    decreases blocks.len(),
{
    if blocks.len() > 0 {
        lemma_blocks_concern(blocks.drop_last());
    }
}

/// Faults in the ids of songs are told first, then those in patches, then those in the
/// rig, and last those in the saved blocks.
pub proof fn law_faults_are_told_by_what_they_concern(show: Show, i: int, j: int)
    requires
        0 <= i < j < validate::show_faults(show).len(),
    ensures
        concern(validate::show_faults(show)[i]) <= concern(validate::show_faults(show)[j]),
{
    lemma_songs_concern(show.songs@);
    lemma_patches_concern(show.songs@);
    lemma_components_concern(show.rig.components@);
    lemma_blocks_concern(show.saved_blocks@);
}

/// One fault where there is one.
pub open spec fn if_faulty(faulty: bool, f: ShowFault) -> Seq<ShowFault> {
    if faulty {
        seq![f]
    } else {
        Seq::empty()
    }
}

/// Of each further song, component or saved block the id is told, once, where one before
/// has it.
pub proof fn law_repeated_ids_are_told_one_by_one(
    songs: Seq<Song>,
    song: Song,
    components: Seq<RigComponent>,
    component: RigComponent,
    blocks: Seq<SavedBlock>,
    block: SavedBlock,
)
    ensures
        validate::song_faults(songs.push(song)) == validate::song_faults(songs) + if_faulty(
            exists|i: int| 0 <= i < songs.len() && (#[trigger] songs[i]).id.0@ == song.id.0@,
            ShowFault::DuplicateSongId(song.id.0@),
        ),
        validate::component_faults(components.push(component)) == validate::component_faults(
            components,
        ) + if_faulty(
            exists|i: int|
                0 <= i < components.len() && (#[trigger] components[i]).id.0@ == component.id.0@,
            ShowFault::DuplicateRigComponentId(component.id.0@),
        ),
        validate::block_faults(blocks.push(block)) == validate::block_faults(blocks) + if_faulty(
            exists|i: int| 0 <= i < blocks.len() && (#[trigger] blocks[i]).id.0@ == block.id.0@,
            ShowFault::DuplicateBlockId(block.id.0@),
        ),
{
    assert(songs.push(song).drop_last() =~= songs);
    assert(components.push(component).drop_last() =~= components);
    assert(blocks.push(block).drop_last() =~= blocks);
}

/// Song after song, of each further patch the id is told where a patch before it in the
/// show has it, and then the faults of its graph, where there are any, with the song and
/// the patch.
pub proof fn law_patches_are_told_one_by_one(
    songs: Seq<Song>,
    song: Song,
    patches: Seq<Patch>,
    patch: Patch,
)
    ensures
        validate::patch_faults(songs.push(song)) == validate::patch_faults(songs)
            + validate::song_patch_faults(songs, song.id.0@, song.patches@),
        validate::song_patch_faults(songs, song.id.0@, patches.push(patch))
            == validate::song_patch_faults(songs, song.id.0@, patches) + if_faulty(
            (exists|i: int| 0 <= i < patches.len() && (#[trigger] patches[i]).id.0@ == patch.id.0@)
                || exists|s: int|
                0 <= s < songs.len() && types::has_patch(
                    (#[trigger] songs[s]).patches@,
                    patch.id.0@,
                ),
            ShowFault::DuplicatePatchId(patch.id.0@),
        ) + if_faulty(
            graph_validate::graph_faults(patch.graph).len() > 0,
            ShowFault::PatchInvalid {
                song: song.id.0@,
                patch: patch.id.0@,
                faults: graph_validate::graph_faults(patch.graph),
            },
        ),
{
    assert(songs.push(song).drop_last() =~= songs);
    assert(patches.push(patch).drop_last() =~= patches);
}

} // verus!
