//! Patch documents: the header that every persisted file carries, and the
//! migrations that bring an older document up to the current schema.
//!
//! A document is checked and migrated as a JSON value; decoding the graph out
//! of the migrated value is left to the caller.

use vstd::prelude::*;
use vstd::string::*;

use crate::json;
use crate::json::{error_text, put_member, update_items, update_member, Json, JsonModel};
use crate::patch::types::PatchGraph;
use crate::text;
use crate::text::{copy_text, decimal, quoted, same_text};

verus! {

/// What a patch document says its kind is.
pub const PATCH_KIND: &'static str = "stardust.patch";

/// The schema that this build writes.
pub const CURRENT_SCHEMA_VERSION: u32 = 3;

/// The header of a persisted file.
#[derive(Clone, Debug, PartialEq)]
pub struct Header {
    pub kind: String,
    pub schema_version: u32,
    pub stardust_version: Option<String>,
    pub saved_at: Option<String>,
}

impl Header {
    /// The header of a patch document written now, without the two optional
    /// fields.
    pub fn current() -> (r: Header)
        ensures
            r.kind@ == PATCH_KIND@,
            r.schema_version == CURRENT_SCHEMA_VERSION,
            r.stardust_version is None,
            r.saved_at is None,
    {
        Header {
            kind: PATCH_KIND.to_owned(),
            schema_version: CURRENT_SCHEMA_VERSION,
            stardust_version: None,
            saved_at: None,
        }
    }
}

/// A patch graph with the header under which it is stored.
#[derive(Clone, Debug, PartialEq)]
pub struct PatchDocument {
    pub header: Header,
    pub graph: PatchGraph,
}

impl PatchDocument {
    /// A document of the current schema.
    pub fn new(graph: PatchGraph) -> (r: PatchDocument)
        ensures
            r.graph == graph,
            r.header.kind@ == PATCH_KIND@,
            r.header.schema_version == CURRENT_SCHEMA_VERSION,
            r.header.stardust_version is None,
            r.header.saved_at is None,
    {
        PatchDocument { header: Header::current(), graph }
    }
}

// ---------------------------------------------------------------------------
// Header check
// ---------------------------------------------------------------------------

/// What a document's header says to a build that reads `kind` documents up to
/// schema `current`.
pub enum HeaderVerdict {
    /// No kind, or no schema version.
    Missing,
    /// A document of another kind, which is given.
    OtherKind(Seq<char>),
    /// A schema that is too new, which is given.
    Newer(u64),
    /// A document that can be read, with its schema.
    Readable(u32),
}

/// The verdict on a document.
pub open spec fn header_verdict(doc: JsonModel, kind: Seq<char>, current: u32) -> HeaderVerdict {
    match json::text_in(json::member(doc, "kind"@)) {
        None => HeaderVerdict::Missing,
        Some(found) => if found != kind {
            HeaderVerdict::OtherKind(found)
        } else {
            match json::unsigned_in(json::member(doc, "schemaVersion"@)) {
                None => HeaderVerdict::Missing,
                Some(n) => if n > current {
                    HeaderVerdict::Newer(n)
                } else {
                    HeaderVerdict::Readable(n as u32)
                },
            }
        },
    }
}

/// The outcome of a header check.
pub(crate) enum HeaderCheck {
    Missing,
    OtherKind(String),
    Newer(u64),
    Readable(u32),
}

/// Checks the header of `doc`.
pub(crate) fn check_header(doc: &Json, kind: &str, current: u32) -> (r: HeaderCheck)
    ensures
        (match r {
            HeaderCheck::Missing => header_verdict(doc@, kind@, current) == HeaderVerdict::Missing,
            HeaderCheck::OtherKind(found) => header_verdict(doc@, kind@, current)
                == HeaderVerdict::OtherKind(found@),
            HeaderCheck::Newer(v) => header_verdict(doc@, kind@, current) == HeaderVerdict::Newer(
                v,
            ),
            HeaderCheck::Readable(v) => header_verdict(doc@, kind@, current)
                == HeaderVerdict::Readable(v),
        }),
{
    let found = match doc.get_text("kind") {
        Some(s) => s,
        None => {
            return HeaderCheck::Missing;
        },
    };
    if !same_text(found.as_str(), kind) {
        return HeaderCheck::OtherKind(copy_text(found));
    }
    match doc.get_unsigned("schemaVersion") {
        None => HeaderCheck::Missing,
        Some(n) => {
            if n > current as u64 {
                HeaderCheck::Newer(n)
            } else {
                HeaderCheck::Readable(n as u32)
            }
        },
    }
}

// ---------------------------------------------------------------------------
// Migration
// ---------------------------------------------------------------------------

/// Schema 1 to 2, one node: the built-in tone generator is renamed.
pub open spec fn node_renamed(node: JsonModel) -> JsonModel {
    if json::member(node, "kind"@) == Some(JsonModel::Text("instrument.sine"@)) {
        json::set_member(node, "kind"@, JsonModel::Text("instrument.testtone"@))
    } else {
        node
    }
}

/// Schema 2 to 3, one node: the hardware binding goes, and with it a
/// configuration that holds nothing else.
pub open spec fn node_unbound(node: JsonModel) -> JsonModel {
    match node {
        JsonModel::Object(m) => match json::member(node, "config"@) {
            Some(JsonModel::Object(config)) => {
                let rest = config.remove("hardwareBinding"@);
                if rest == Map::<Seq<char>, JsonModel>::empty() {
                    JsonModel::Object(m.remove("config"@))
                } else {
                    JsonModel::Object(m.insert("config"@, JsonModel::Object(rest)))
                }
            },
            _ => node,
        },
        _ => node,
    }
}

/// Rewrites the nodes of a graph.
pub open spec fn on_nodes(
    graph: JsonModel,
    f: spec_fn(JsonModel) -> JsonModel,
) -> JsonModel {
    json::on_member(graph, "nodes"@, |nodes: JsonModel| json::on_items(nodes, f))
}

/// A graph of schema `from` brought up to schema `to`, one step at a time. A
/// schema without a step stays as it is.
pub open spec fn graph_migrated(graph: JsonModel, from: u32, to: u32) -> JsonModel
    decreases to - from,
{
    if from >= to {
        graph
    } else if from == 1 {
        graph_migrated(on_nodes(graph, |n: JsonModel| node_renamed(n)), 2, to)
    } else if from == 2 {
        graph_migrated(on_nodes(graph, |n: JsonModel| node_unbound(n)), 3, to)
    } else {
        graph
    }
}

/// A patch document of schema `from` brought up to the current schema.
pub open spec fn patch_migrated(doc: JsonModel, from: u32) -> JsonModel {
    json::set_member(
        json::on_member(
            doc,
            "graph"@,
            |g: JsonModel| graph_migrated(g, from, CURRENT_SCHEMA_VERSION),
        ),
        "schemaVersion"@,
        JsonModel::Unsigned(CURRENT_SCHEMA_VERSION as u64),
    )
}

fn rename_node(node: Json) -> (r: Json)
    ensures
        r@ == node_renamed(node@),
{
    let sine = match node.get_text("kind") {
        Some(kind) => same_text(kind.as_str(), "instrument.sine"),
        None => false,
    };
    if sine {
        put_member(node, "kind", Json::Text("instrument.testtone".to_owned()))
    } else {
        node
    }
}

fn unbind_node(node: Json) -> (r: Json)
    ensures
        r@ == node_unbound(node@),
{
    match node {
        Json::Object(o) => {
            let ghost m = o@;
            let (rest, found) = o.remove("config");
            match found {
                Some(Json::Object(config)) => {
                    let (left, _) = config.remove("hardwareBinding");
                    if left.is_empty() {
                        Json::Object(rest)
                    } else {
                        assert(m.remove("config"@).insert("config"@, JsonModel::Object(left@))
                            =~= m.insert("config"@, JsonModel::Object(left@)));
                        Json::Object(rest.insert("config".to_owned(), Json::Object(left)))
                    }
                },
                Some(other) => {
                    assert(m.remove("config"@).insert("config"@, other@) =~= m);
                    Json::Object(rest.insert("config".to_owned(), other))
                },
                None => {
                    assert(m.remove("config"@) =~= m);
                    Json::Object(rest)
                },
            }
        },
        other => other,
    }
}

fn rename_nodes(nodes: Json) -> (r: Json)
    ensures
        r@ == json::on_items(nodes@, |n: JsonModel| node_renamed(n)),
{
    update_items(nodes, rename_node, Ghost(|n: JsonModel| node_renamed(n)))
}

fn unbind_nodes(nodes: Json) -> (r: Json)
    ensures
        r@ == json::on_items(nodes@, |n: JsonModel| node_unbound(n)),
{
    update_items(nodes, unbind_node, Ghost(|n: JsonModel| node_unbound(n)))
}

/// Brings a graph of schema `from` up to schema `to`.
pub fn migrate_graph_value(graph: &mut Json, from: u32, to: u32)
    ensures
        final(graph)@ == graph_migrated(old(graph)@, from, to),
{
    let mut g = Json::Null;
    core::mem::swap(graph, &mut g);
    *graph = migrate_graph(g, from, to);
}

pub(crate) fn migrate_graph(graph: Json, from: u32, to: u32) -> (r: Json)
    ensures
        r@ == graph_migrated(graph@, from, to),
{
    let ghost start = graph@;
    let mut g = graph;
    let mut v: u32 = from;
    while v < to
        invariant_except_break
            graph_migrated(g@, v, to) == graph_migrated(start, from, to),
        ensures
            g@ == graph_migrated(start, from, to),
        decreases to - v,
    {
        if v == 1 {
            g = update_member(
                g,
                "nodes",
                rename_nodes,
                Ghost(|nodes: JsonModel| json::on_items(nodes, |n: JsonModel| node_renamed(n))),
            );
        } else if v == 2 {
            g = update_member(
                g,
                "nodes",
                unbind_nodes,
                Ghost(|nodes: JsonModel| json::on_items(nodes, |n: JsonModel| node_unbound(n))),
            );
        } else {
            break;
        }
        v = v + 1;
    }
    g
}

/// Brings a patch document of schema `from_version` up to the current schema,
/// and stamps it with that.
pub fn migrate_patch_value(value: &mut Json, from_version: u32)
    ensures
        final(value)@ == patch_migrated(old(value)@, from_version),
{
    let mut v = Json::Null;
    core::mem::swap(value, &mut v);
    let step = |g: Json| -> (r: Json)
        ensures
            r@ == graph_migrated(g@, from_version, CURRENT_SCHEMA_VERSION),
        { migrate_graph(g, from_version, CURRENT_SCHEMA_VERSION) };
    let moved = update_member(
        v,
        "graph",
        step,
        Ghost(|g: JsonModel| graph_migrated(g, from_version, CURRENT_SCHEMA_VERSION)),
    );
    *value = put_member(moved, "schemaVersion", Json::Unsigned(CURRENT_SCHEMA_VERSION as u64));
}

// ---------------------------------------------------------------------------
// Loading
// ---------------------------------------------------------------------------

/// Why a patch document was not loaded.
#[derive(Debug)]
pub enum LoadError {
    /// A document of another kind.
    WrongKind { expected: &'static str, found: String },
    /// The kind or the schema version is missing from the header.
    MissingHeader,
    /// The document is of a later schema than this build understands.
    NewerSchema { document: u64, current: u32 },
    /// The text is not JSON.
    Json(serde_json::Error),
}

/// What an error says.
pub open spec fn load_message(e: LoadError, r: Seq<char>) -> bool {
    match e {
        LoadError::WrongKind { expected, found } => r
            == "not a stardust patch document: kind was "@ + text::quoted_text(found@)
            + ", expected "@ + text::quoted_text(expected@),
        LoadError::MissingHeader => r
            == "patch document is missing required header fields (kind, schemaVersion)"@,
        LoadError::NewerSchema { document, current } => r == "patch document is schema v"@
            + text::decimal_text(document as nat)
            + ", but this build only understands up to v"@ + text::decimal_text(current as nat),
        LoadError::Json(e) => r == "malformed patch JSON: "@ + json::error_said(e),
    }
}

impl LoadError {
    /// The error in words.
    pub fn message(&self) -> (r: String)
        ensures
            load_message(*self, r@),
    {
        match self {
            LoadError::WrongKind { expected, found } => {
                "not a stardust patch document: kind was ".to_owned().concat(
                    quoted(found.as_str()).as_str(),
                ).concat(", expected ").concat(quoted(*expected).as_str())
            },
            LoadError::MissingHeader => {
                "patch document is missing required header fields (kind, schemaVersion)".to_owned()
            },
            LoadError::NewerSchema { document, current } => {
                "patch document is schema v".to_owned().concat(
                    decimal(*document).as_str(),
                ).concat(", but this build only understands up to v").concat(
                    decimal(*current as u64).as_str(),
                )
            },
            LoadError::Json(e) => {
                "malformed patch JSON: ".to_owned().concat(error_text(e).as_str())
            },
        }
    }
}

/// What loading a patch document makes of a JSON value: the migrated value, or
/// the fault in its header.
pub open spec fn patch_loaded(doc: JsonModel, r: Result<Json, LoadError>) -> bool {
    match header_verdict(doc, PATCH_KIND@, CURRENT_SCHEMA_VERSION) {
        HeaderVerdict::Missing => r == Err::<Json, LoadError>(LoadError::MissingHeader),
        HeaderVerdict::OtherKind(kind) => r matches Err(LoadError::WrongKind { expected, found })
            && expected@ == PATCH_KIND@ && found@ == kind,
        HeaderVerdict::Newer(v) => r == Err::<Json, LoadError>(
            LoadError::NewerSchema { document: v, current: CURRENT_SCHEMA_VERSION },
        ),
        HeaderVerdict::Readable(v) => r matches Ok(out) && out@ == patch_migrated(doc, v),
    }
}

/// Checks the header of a patch document and brings it up to the current
/// schema.
pub fn accept_patch_value(doc: Json) -> (r: Result<Json, LoadError>)
    ensures
        patch_loaded(doc@, r),
{
    match check_header(&doc, PATCH_KIND, CURRENT_SCHEMA_VERSION) {
        HeaderCheck::Missing => Err(LoadError::MissingHeader),
        HeaderCheck::OtherKind(found) => Err(LoadError::WrongKind { expected: PATCH_KIND, found }),
        HeaderCheck::Newer(document) => Err(
            LoadError::NewerSchema { document, current: CURRENT_SCHEMA_VERSION },
        ),
        HeaderCheck::Readable(version) => {
            let mut value = doc;
            migrate_patch_value(&mut value, version);
            Ok(value)
        },
    }
}

/// Reads the text of a patch document: the JSON value that it holds, checked
/// and brought up to the current schema.
pub fn load_patch_value(text: &str) -> (r: Result<Json, LoadError>)
    ensures
        (match json::json_of_text(text@) {
            Ok(doc) => patch_loaded(doc, r),
            Err(said) => r matches Err(LoadError::Json(e)) && json::error_said(e) == said,
        }),
{
    match Json::parse(text) {
        Ok(doc) => accept_patch_value(doc),
        Err(e) => Err(LoadError::Json(e)),
    }
}

} // verus!
