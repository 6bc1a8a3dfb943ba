//! JSON values as plain data, and the reader that makes them out of text.
//!
//! The documents of this project are rewritten at the JSON level before they
//! are decoded, so a value here is an ordinary tree that verified code can
//! take apart. `serde_json` reads the text.

use serde_json::Value;
use vstd::prelude::*;

use crate::numbers;
use crate::numbers::equal_real64;
use crate::text::{copy_text, same_text};

verus! {

/// A JSON value.
#[derive(Debug)]
pub enum Json {
    Null,
    Bool(bool),
    /// A number that is an unsigned integer.
    Unsigned(u64),
    /// A number that is a negative integer.
    Negative(i64),
    /// Any other number, as the bits of its double-precision form.
    Real(u64),
    Text(String),
    List(Vec<Json>),
    Object(JsonObject),
}

/// The members of a JSON object. Where a name occurs twice, the later entry
/// counts.
#[derive(Debug)]
pub struct JsonObject {
    pub entries: Vec<(String, Json)>,
}

/// What a JSON value stands for: objects are maps, lists are sequences.
#[verifier::ext_equal]
pub enum JsonModel {
    Null,
    Bool(bool),
    Unsigned(u64),
    Negative(i64),
    Real(u64),
    Text(Seq<char>),
    List(Seq<JsonModel>),
    Object(Map<Seq<char>, JsonModel>),
}

impl Json {
    /// The value that this tree stands for.
    pub open spec fn model(self) -> JsonModel
        decreases self,
    {
        match self {
            Json::Null => JsonModel::Null,
            Json::Bool(b) => JsonModel::Bool(b),
            Json::Unsigned(n) => JsonModel::Unsigned(n),
            Json::Negative(n) => JsonModel::Negative(n),
            Json::Real(n) => JsonModel::Real(n),
            Json::Text(s) => JsonModel::Text(s@),
            Json::List(v) => JsonModel::List(list_model(v@)),
            Json::Object(o) => JsonModel::Object(entries_model(o.entries@)),
        }
    }
}

/// The values of a list of trees.
pub open spec fn list_model(items: Seq<Json>) -> Seq<JsonModel>
    decreases items,
{
    if items.len() == 0 {
        Seq::empty()
    } else {
        list_model(items.drop_last()).push(items.last().model())
    }
}

/// The map that a sequence of entries stands for.
pub open spec fn entries_model(entries: Seq<(String, Json)>) -> Map<Seq<char>, JsonModel>
    decreases entries,
{
    if entries.len() == 0 {
        Map::empty()
    } else {
        entries_model(entries.drop_last()).insert(entries.last().0@, entries.last().1.model())
    }
}

impl View for Json {
    type V = JsonModel;

    open spec fn view(&self) -> JsonModel {
        self.model()
    }
}

impl View for JsonObject {
    type V = Map<Seq<char>, JsonModel>;

    open spec fn view(&self) -> Map<Seq<char>, JsonModel> {
        entries_model(self.entries@)
    }
}

/// A list's model holds, at each index, the model of the item there.
pub proof fn lemma_list_model(items: Seq<Json>)
    ensures
        list_model(items).len() == items.len(),
        forall|i: int|
            0 <= i < items.len() ==> #[trigger] list_model(items)[i] == items[i].model(),
    decreases items.len(),
{
    if items.len() > 0 {
        lemma_list_model(items.drop_last());
        assert forall|i: int| 0 <= i < items.len() implies #[trigger] list_model(items)[i]
            == items[i].model() by {
            if i < items.len() - 1 {
                assert(items.drop_last()[i] == items[i]);
            }
        }
    }
}

/// Appending an item appends its model.
pub proof fn lemma_list_model_push(items: Seq<Json>, item: Json)
    ensures
        list_model(items.push(item)) == list_model(items).push(item.model()),
{
    assert(items.push(item).drop_last() =~= items);
}

/// Appending an entry sets its name.
pub proof fn lemma_entries_model_push(entries: Seq<(String, Json)>, entry: (String, Json))
    ensures
        entries_model(entries.push(entry)) == entries_model(entries).insert(
            entry.0@,
            entry.1.model(),
        ),
{
    assert(entries.push(entry).drop_last() =~= entries);
}

/// An object has a member exactly when some entry has its name.
proof fn lemma_entries_model_dom(entries: Seq<(String, Json)>, key: Seq<char>)
    ensures
        entries_model(entries).dom().contains(key) <==> exists|i: int|
            0 <= i < entries.len() && (#[trigger] entries[i]).0@ == key,
    decreases entries.len(),
{
    if entries.len() > 0 {
        let rest = entries.drop_last();
        lemma_entries_model_dom(rest, key);
        if entries_model(entries).dom().contains(key) {
            if entries.last().0@ == key {
                assert(entries[entries.len() - 1].0@ == key);
            } else {
                let i = choose|i: int| 0 <= i < rest.len() && (#[trigger] rest[i]).0@ == key;
                assert(entries[i].0@ == key);
            }
        }
        if exists|i: int| 0 <= i < entries.len() && (#[trigger] entries[i]).0@ == key {
            let i = choose|i: int| 0 <= i < entries.len() && (#[trigger] entries[i]).0@ == key;
            if i < rest.len() {
                assert(rest[i].0@ == key);
            }
        }
    }
}

/// The entries from `i` on do not touch `key` when none of them has that name.
proof fn lemma_entries_model_suffix(entries: Seq<(String, Json)>, i: int, key: Seq<char>)
    requires
        0 <= i <= entries.len(),
        forall|j: int| i <= j < entries.len() ==> (#[trigger] entries[j]).0@ != key,
    ensures
        entries_model(entries).dom().contains(key) == entries_model(
            entries.take(i),
        ).dom().contains(key),
        entries_model(entries)[key] == entries_model(entries.take(i))[key],
    decreases entries.len() - i,
{
    if i == entries.len() {
        assert(entries.take(i) =~= entries);
    } else {
        let rest = entries.drop_last();
        lemma_entries_model_suffix(rest, i, key);
        assert(rest.take(i) =~= entries.take(i));
        assert(entries[entries.len() - 1].0@ != key);
    }
}

impl JsonObject {
    /// An object without members.
    pub fn empty() -> (r: JsonObject)
        ensures
            r@ == Map::<Seq<char>, JsonModel>::empty(),
    {
        JsonObject { entries: Vec::new() }
    }

    /// Whether the object has no members.
    pub fn is_empty(&self) -> (r: bool)
        ensures
            r == (self@ == Map::<Seq<char>, JsonModel>::empty()),
    {
        proof {
            if self.entries@.len() > 0 {
                assert(self@.dom().contains(self.entries@.last().0@));
            }
        }
        self.entries.len() == 0
    }

    /// The index of the entry that counts for `key`, if there is one.
    fn find(&self, key: &str) -> (r: Option<usize>)
        ensures
            (match r {
                Some(i) => i < self.entries@.len() && self.entries@[i as int].0@ == key@
                    && self@.dom().contains(key@) && self.entries@[i as int].1@ == self@[key@],
                None => !self@.dom().contains(key@),
            }),
    {
        let mut i: usize = self.entries.len();
        while i > 0
            invariant
                i <= self.entries.len(),
                forall|j: int|
                    i <= j < self.entries.len() ==> (#[trigger] self.entries@[j]).0@ != key@,
            decreases i,
        {
            i = i - 1;
            if same_text(self.entries[i].0.as_str(), key) {
                proof {
                    lemma_entries_model_suffix(self.entries@, i + 1, key@);
                    assert(self.entries@.take(i + 1).last() == self.entries@[i as int]);
                }
                return Some(i);
            }
        }
        proof {
            lemma_entries_model_dom(self.entries@, key@);
        }
        None
    }

    /// The member named `key`, if there is one.
    pub fn get(&self, key: &str) -> (r: Option<&Json>)
        ensures
            (match r {
                Some(j) => self@.dom().contains(key@) && j@ == self@[key@],
                None => !self@.dom().contains(key@),
            }),
    {
        match self.find(key) {
            Some(i) => Some(&self.entries[i].1),
            None => None,
        }
    }

    /// Sets the member named `key`, in place of the one it may have had.
    pub fn insert(self, key: String, value: Json) -> (r: JsonObject)
        ensures
            r@ == self@.insert(key@, value@),
    {
        let (rest, _) = self.remove(key.as_str());
        let mut entries = rest.entries;
        proof {
            lemma_entries_model_push(entries@, (key, value));
            assert(self@.remove(key@).insert(key@, value@) =~= self@.insert(key@, value@));
        }
        entries.push((key, value));
        JsonObject { entries }
    }

    /// Takes the member named `key` out, if there is one.
    pub fn remove(self, key: &str) -> (r: (JsonObject, Option<Json>))
        ensures
            r.0@ == self@.remove(key@),
            (match r.1 {
                Some(j) => self@.dom().contains(key@) && j@ == self@[key@],
                None => !self@.dom().contains(key@),
            }),
    {
        let ghost before = self.entries@;
        let mut kept: Vec<(String, Json)> = Vec::new();
        let mut found: Option<Json> = None;
        assert(before.take(0) =~= Seq::empty());
        assert(Map::<Seq<char>, JsonModel>::empty().remove(key@) =~= Map::empty());
        for entry in iter: self.entries
            invariant
                iter.seq() == before,
                entries_model(kept@) == entries_model(before.take(iter.index() as int)).remove(key@),
                (match found {
                    Some(j) => entries_model(before.take(iter.index() as int)).dom().contains(key@)
                        && j@ == entries_model(before.take(iter.index() as int))[key@],
                    None => !entries_model(before.take(iter.index() as int)).dom().contains(key@),
                }),
        {
            let ghost seen = before.take(iter.index() as int);
            proof {
                assert(before.take(iter.index() as int + 1) =~= seen.push(entry));
                lemma_entries_model_push(seen, entry);
                lemma_entries_model_push(kept@, entry);
            }
            if same_text(entry.0.as_str(), key) {
                assert(entries_model(seen).insert(key@, entry.1@).remove(key@) =~= entries_model(
                    seen,
                ).remove(key@));
                found = Some(entry.1);
            } else {
                assert(entries_model(seen).insert(entry.0@, entry.1@).remove(key@)
                    =~= entries_model(seen).remove(key@).insert(entry.0@, entry.1@));
                kept.push(entry);
            }
        }
        assert(before.take(before.len() as int) =~= before);
        (JsonObject { entries: kept }, found)
    }
}

// ---------------------------------------------------------------------------
// Comparing
// ---------------------------------------------------------------------------

/// Whether two values are equal: numbers that are not integers as numbers, and
/// objects member by member.
pub open spec fn json_equal(a: JsonModel, b: JsonModel) -> bool
    decreases a,
{
    match (a, b) {
        (JsonModel::Real(x), JsonModel::Real(y)) => numbers::same_real64(x, y),
        (JsonModel::List(x), JsonModel::List(y)) => {
            &&& x.len() == y.len()
            &&& forall|i: int| 0 <= i < x.len() ==> json_equal(#[trigger] x[i], y[i])
        },
        (JsonModel::Object(x), JsonModel::Object(y)) => members_equal(x, y),
        _ => a == b,
    }
}

/// Whether two objects have the same members.
pub open spec fn members_equal(
    x: Map<Seq<char>, JsonModel>,
    y: Map<Seq<char>, JsonModel>,
) -> bool
    decreases x,
{
    &&& x.dom().finite()
    &&& forall|k: Seq<char>| #[trigger] x.dom().contains(k) <==> y.dom().contains(k)
    &&& forall|k: Seq<char>| #[trigger] x.dom().contains(k) ==> json_equal(x[k], y[k])
}

proof fn lemma_entries_model_finite(entries: Seq<(String, Json)>)
    ensures
        entries_model(entries).dom().finite(),
    decreases entries.len(),
{
    if entries.len() > 0 {
        lemma_entries_model_finite(entries.drop_last());
    }
}

/// Whether two trees stand for equal values.
fn same_value(a: &Json, b: &Json) -> (r: bool)
    ensures
        r == json_equal(a@, b@),
    decreases a,
{
    match (a, b) {
        (Json::Null, Json::Null) => true,
        (Json::Bool(x), Json::Bool(y)) => *x == *y,
        (Json::Unsigned(x), Json::Unsigned(y)) => *x == *y,
        (Json::Negative(x), Json::Negative(y)) => *x == *y,
        (Json::Real(x), Json::Real(y)) => equal_real64(*x, *y),
        (Json::Text(x), Json::Text(y)) => same_text(x.as_str(), y.as_str()),
        (Json::List(x), Json::List(y)) => same_items(x, y),
        (Json::Object(x), Json::Object(y)) => same_members(x, y),
        _ => false,
    }
}

fn same_items(x: &Vec<Json>, y: &Vec<Json>) -> (r: bool)
    ensures
        r == json_equal(JsonModel::List(list_model(x@)), JsonModel::List(list_model(y@))),
    decreases x,
{
    proof {
        lemma_list_model(x@);
        lemma_list_model(y@);
    }
    if x.len() != y.len() {
        return false;
    }
    let n: usize = x.len();
    for i in 0..n
        invariant
            n == x.len() == y.len(),
            list_model(x@).len() == n == list_model(y@).len(),
            forall|j: int| 0 <= j < n ==> #[trigger] list_model(x@)[j] == x@[j].model(),
            forall|j: int| 0 <= j < n ==> #[trigger] list_model(y@)[j] == y@[j].model(),
            forall|j: int|
                0 <= j < i ==> json_equal(#[trigger] list_model(x@)[j], list_model(y@)[j]),
    {
        assert(decreases_to!(x => x@[i as int]));
        if !same_value(&x[i], &y[i]) {
            assert(!json_equal(list_model(x@)[i as int], list_model(y@)[i as int]));
            return false;
        }
    }
    true
}

fn same_members(x: &JsonObject, y: &JsonObject) -> (r: bool)
    ensures
        r == members_equal(x@, y@),
    decreases x,
{
    proof {
        lemma_entries_model_finite(x.entries@);
    }
    let n: usize = x.entries.len();
    for i in 0..n
        invariant
            n == x.entries.len(),
            forall|k: int|
                0 <= k < i ==> y@.dom().contains((#[trigger] x.entries@[k]).0@) && json_equal(
                    x@[x.entries@[k].0@],
                    y@[x.entries@[k].0@],
                ),
    {
        let key = x.entries[i].0.as_str();
        proof {
            lemma_entries_model_dom(x.entries@, key@);
            assert(x@.dom().contains(key@));
        }
        match (x.find(key), y.find(key)) {
            (Some(a), Some(b)) => {
                assert(decreases_to!(x => x.entries@[a as int]));
                if !same_value(&x.entries[a].1, &y.entries[b].1) {
                    return false;
                }
            },
            _ => {
                return false;
            },
        }
    }
    let m: usize = y.entries.len();
    for j in 0..m
        invariant
            m == y.entries.len(),
            forall|k: int|
                0 <= k < j ==> x@.dom().contains((#[trigger] y.entries@[k]).0@),
    {
        let key = y.entries[j].0.as_str();
        proof {
            lemma_entries_model_dom(y.entries@, key@);
            assert(y@.dom().contains(key@));
        }
        if x.find(key).is_none() {
            return false;
        }
    }
    proof {
        assert forall|key: Seq<char>| #[trigger] x@.dom().contains(key) implies y@.dom().contains(
            key,
        ) && json_equal(x@[key], y@[key]) by {
            lemma_entries_model_dom(x.entries@, key);
        }
        assert forall|key: Seq<char>| y@.dom().contains(key) implies #[trigger] x@.dom().contains(
            key,
        ) by {
            lemma_entries_model_dom(y.entries@, key);
        }
    }
    true
}

impl PartialEq for Json {
    fn eq(&self, other: &Json) -> (r: bool) {
        same_value(self, other)
    }
}

impl vstd::std_specs::cmp::PartialEqSpecImpl for Json {
    open spec fn obeys_eq_spec() -> bool {
        true
    }

    open spec fn eq_spec(&self, other: &Json) -> bool {
        json_equal(self@, other@)
    }
}

impl PartialEq for JsonObject {
    fn eq(&self, other: &JsonObject) -> (r: bool) {
        same_members(self, other)
    }
}

impl vstd::std_specs::cmp::PartialEqSpecImpl for JsonObject {
    open spec fn obeys_eq_spec() -> bool {
        true
    }

    open spec fn eq_spec(&self, other: &JsonObject) -> bool {
        members_equal(self@, other@)
    }
}

// ---------------------------------------------------------------------------
// Copying
// ---------------------------------------------------------------------------

/// Another tree that stands for the same value.
fn copy_value(j: &Json) -> (r: Json)
    ensures
        r@ == j@,
    decreases j,
{
    match j {
        Json::Null => Json::Null,
        Json::Bool(b) => Json::Bool(*b),
        Json::Unsigned(n) => Json::Unsigned(*n),
        Json::Negative(n) => Json::Negative(*n),
        Json::Real(n) => Json::Real(*n),
        Json::Text(s) => Json::Text(copy_text(s)),
        Json::List(v) => Json::List(copy_items(v)),
        Json::Object(o) => Json::Object(copy_members(o)),
    }
}

fn copy_items(v: &Vec<Json>) -> (r: Vec<Json>)
    ensures
        list_model(r@) == list_model(v@),
    decreases v,
{
    let mut out: Vec<Json> = Vec::new();
    let n: usize = v.len();
    assert(v@.take(0) =~= out@);
    for i in 0..n
        invariant
            n == v.len(),
            list_model(out@) == list_model(v@.take(i as int)),
    {
        assert(decreases_to!(v => v@[i as int]));
        let item = copy_value(&v[i]);
        proof {
            lemma_list_model_push(out@, item);
            lemma_list_model_push(v@.take(i as int), v@[i as int]);
            assert(v@.take(i + 1) =~= v@.take(i as int).push(v@[i as int]));
        }
        out.push(item);
    }
    assert(v@.take(n as int) =~= v@);
    out
}

fn copy_members(o: &JsonObject) -> (r: JsonObject)
    ensures
        r@ == o@,
    decreases o,
{
    let mut entries: Vec<(String, Json)> = Vec::new();
    let n: usize = o.entries.len();
    assert(o.entries@.take(0) =~= entries@);
    for i in 0..n
        invariant
            n == o.entries.len(),
            entries_model(entries@) == entries_model(o.entries@.take(i as int)),
    {
        assert(decreases_to!(o => o.entries@[i as int]));
        let entry = (copy_text(&o.entries[i].0), copy_value(&o.entries[i].1));
        proof {
            lemma_entries_model_push(entries@, entry);
            lemma_entries_model_push(o.entries@.take(i as int), o.entries@[i as int]);
            assert(o.entries@.take(i + 1) =~= o.entries@.take(i as int).push(
                o.entries@[i as int],
            ));
        }
        entries.push(entry);
    }
    assert(o.entries@.take(n as int) =~= o.entries@);
    JsonObject { entries }
}

impl Clone for Json {
    fn clone(&self) -> (r: Json)
        ensures
            r@ == self@,
    {
        copy_value(self)
    }
}

impl Clone for JsonObject {
    fn clone(&self) -> (r: JsonObject)
        ensures
            r@ == self@,
    {
        copy_members(self)
    }
}

// ---------------------------------------------------------------------------
// Reading
// ---------------------------------------------------------------------------

/// The error of `serde_json`'s reader.
#[verifier::external_type_specification]
#[verifier::external_body]
pub struct ExJsonError(serde_json::Error);

/// A value as `serde_json` holds it.
#[verifier::external_type_specification]
#[verifier::external_body]
pub struct ExValue(Value);

/// What `serde_json` reads out of a text: the value it stands for, or what is
/// said of the fault where the text is not JSON that `serde_json` accepts.
pub uninterp spec fn json_of_text(text: Seq<char>) -> Result<JsonModel, Seq<char>>;

/// What an error of `serde_json` says.
pub uninterp spec fn error_said(e: serde_json::Error) -> Seq<char>;

/// The tree that a `serde_json` value holds.
pub uninterp spec fn value_model(value: Value) -> JsonModel;

/// How deep the tree of a `serde_json` value is.
pub uninterp spec fn value_depth(value: Value) -> nat;

/// One level of a `serde_json` value.
pub enum Layer {
    Null,
    Bool(bool),
    /// The number as an unsigned integer and as a signed one, where it is
    /// one, and the bits of its double-precision form.
    Number(Option<u64>, Option<i64>, Option<u64>),
    Text(String),
    List(Vec<Value>),
    Object(Vec<(String, Value)>),
}

/// The kind of number that its three readings make it.
pub open spec fn number_model(
    unsigned: Option<u64>,
    signed: Option<i64>,
    bits: Option<u64>,
) -> JsonModel {
    match (unsigned, signed, bits) {
        (Some(n), _, _) => JsonModel::Unsigned(n),
        (None, Some(n), _) => JsonModel::Negative(n),
        (None, None, Some(b)) => JsonModel::Real(b),
        (None, None, None) => JsonModel::Null,
    }
}

/// The trees of a list of `serde_json` values.
pub open spec fn values_model(values: Seq<Value>) -> Seq<JsonModel> {
    values.map_values(|v: Value| value_model(v))
}

/// The map of a list of members.
pub open spec fn members_model(members: Seq<(String, Value)>) -> Map<Seq<char>, JsonModel>
    decreases members.len(),
{
    if members.len() == 0 {
        Map::empty()
    } else {
        members_model(members.drop_last()).insert(
            members.last().0@,
            value_model(members.last().1),
        )
    }
}

/// What a level stands for, given what its parts stand for.
pub open spec fn layer_model(layer: Layer) -> JsonModel {
    match layer {
        Layer::Null => JsonModel::Null,
        Layer::Bool(b) => JsonModel::Bool(b),
        Layer::Number(unsigned, signed, bits) => number_model(unsigned, signed, bits),
        Layer::Text(s) => JsonModel::Text(s@),
        Layer::List(v) => JsonModel::List(values_model(v@)),
        Layer::Object(v) => JsonModel::Object(members_model(v@)),
    }
}

/// Every part of a level is less deep than `depth`.
pub open spec fn layer_below(layer: Layer, depth: nat) -> bool {
    match layer {
        Layer::List(v) => forall|i: int|
            0 <= i < v.len() ==> value_depth(#[trigger] v@[i]) < depth,
        Layer::Object(v) => forall|i: int|
            0 <= i < v.len() ==> value_depth((#[trigger] v@[i]).1) < depth,
        _ => true,
    }
}

/// `serde_json::from_str` into a `Value`: reads the text, and fails where it
/// is not JSON. Which texts it accepts, and what its error says of the others,
/// is a matter of the text alone and left to the name of the result.
#[verifier::external_body]
fn read_value(text: &str) -> (r: Result<Value, serde_json::Error>)
    ensures
        (match r {
            Ok(v) => json_of_text(text@) == Ok::<JsonModel, Seq<char>>(value_model(v)),
            Err(e) => json_of_text(text@) == Err::<JsonModel, Seq<char>>(error_said(e)),
        }),
{
    serde_json::from_str(text)
}

/// Takes a `serde_json::Value` apart by one level: its variants are matched
/// one by one, and a number is handed out by `Number::as_u64`, `as_i64` and
/// `as_f64`. The parts of a value are less deep than the value.
#[verifier::external_body]
fn open_value(value: Value) -> (r: Layer)
    ensures
        layer_model(r) == value_model(value),
        layer_below(r, value_depth(value)),
{
    match value {
        Value::Null => Layer::Null,
        Value::Bool(b) => Layer::Bool(b),
        Value::Number(n) => {
            Layer::Number(n.as_u64(), n.as_i64(), n.as_f64().map(|x| x.to_bits()))
        },
        Value::String(s) => Layer::Text(s),
        Value::Array(items) => Layer::List(items),
        Value::Object(members) => Layer::Object(members.into_iter().collect()),
    }
}

/// The tree of a `serde_json` value, as plain data.
fn tree_of(value: Value) -> (r: Json)
    ensures
        r@ == value_model(value),
    decreases value_depth(value),
{
    match open_value(value) {
        Layer::Null => Json::Null,
        Layer::Bool(b) => Json::Bool(b),
        Layer::Number(Some(n), _, _) => Json::Unsigned(n),
        Layer::Number(None, Some(n), _) => Json::Negative(n),
        Layer::Number(None, None, Some(bits)) => Json::Real(bits),
        Layer::Number(None, None, None) => Json::Null,
        Layer::Text(s) => Json::Text(s),
        Layer::List(values) => {
            let ghost all = values@;
            let mut items: Vec<Json> = Vec::new();
            for v in iter: values
                invariant
                    iter.seq() == all,
                    forall|i: int|
                        0 <= i < all.len() ==> value_depth(#[trigger] all[i]) < value_depth(value),
                    list_model(items@) == values_model(all.take(iter.index() as int)),
            {
                assert(all[iter.index() as int] == v);
                let item = tree_of(v);
                proof {
                    lemma_list_model_push(items@, item);
                    assert(values_model(all.take(iter.index() as int + 1)) =~= values_model(
                        all.take(iter.index() as int),
                    ).push(value_model(v)));
                }
                items.push(item);
            }
            assert(all.take(all.len() as int) =~= all);
            Json::List(items)
        },
        Layer::Object(members) => {
            let ghost all = members@;
            let mut entries: Vec<(String, Json)> = Vec::new();
            assert(all.take(0) =~= Seq::empty());
            for m in iter: members
                invariant
                    iter.seq() == all,
                    forall|i: int|
                        0 <= i < all.len() ==> value_depth((#[trigger] all[i]).1) < value_depth(
                            value,
                        ),
                    entries_model(entries@) == members_model(all.take(iter.index() as int)),
            {
                assert(all[iter.index() as int] == m);
                let item = tree_of(m.1);
                proof {
                    lemma_entries_model_push(entries@, (m.0, item));
                    assert(all.take(iter.index() as int + 1).drop_last() =~= all.take(
                        iter.index() as int,
                    ));
                }
                entries.push((m.0, item));
            }
            assert(all.take(all.len() as int) =~= all);
            Json::Object(JsonObject { entries })
        },
    }
}

impl Json {
    /// Reads a JSON text.
    pub fn parse(text: &str) -> (r: Result<Json, serde_json::Error>)
        ensures
            (match r {
                Ok(j) => json_of_text(text@) == Ok::<JsonModel, Seq<char>>(j@),
                Err(e) => json_of_text(text@) == Err::<JsonModel, Seq<char>>(error_said(e)),
            }),
    {
        match read_value(text) {
            Ok(v) => Ok(tree_of(v)),
            Err(e) => Err(e),
        }
    }
}

// ---------------------------------------------------------------------------
// Looking into and rewriting values
// ---------------------------------------------------------------------------

/// The member `key` of a value; nothing where the value is no object.
pub open spec fn member(j: JsonModel, key: Seq<char>) -> Option<JsonModel> {
    match j {
        JsonModel::Object(m) => if m.dom().contains(key) {
            Some(m[key])
        } else {
            None
        },
        _ => None,
    }
}

/// The text that a value is, where it is one.
pub open spec fn text_in(j: Option<JsonModel>) -> Option<Seq<char>> {
    match j {
        Some(JsonModel::Text(s)) => Some(s),
        _ => None,
    }
}

/// The unsigned integer that a value is, where it is one.
pub open spec fn unsigned_in(j: Option<JsonModel>) -> Option<u64> {
    match j {
        Some(JsonModel::Unsigned(n)) => Some(n),
        _ => None,
    }
}

/// Rewrites the member `key`, where there is one.
pub open spec fn on_member(
    j: JsonModel,
    key: Seq<char>,
    f: spec_fn(JsonModel) -> JsonModel,
) -> JsonModel {
    match j {
        JsonModel::Object(m) => if m.dom().contains(key) {
            JsonModel::Object(m.insert(key, f(m[key])))
        } else {
            j
        },
        _ => j,
    }
}

/// Rewrites every item, where the value is a list.
pub open spec fn on_items(j: JsonModel, f: spec_fn(JsonModel) -> JsonModel) -> JsonModel {
    match j {
        JsonModel::List(items) => JsonModel::List(items.map_values(f)),
        _ => j,
    }
}

/// Sets the member `key`, where the value is an object.
pub open spec fn set_member(j: JsonModel, key: Seq<char>, value: JsonModel) -> JsonModel {
    match j {
        JsonModel::Object(m) => JsonModel::Object(m.insert(key, value)),
        _ => j,
    }
}

impl Json {
    /// The member `key`; nothing where this is no object.
    pub fn get(&self, key: &str) -> (r: Option<&Json>)
        ensures
            (match r {
                Some(j) => member(self@, key@) == Some(j@),
                None => member(self@, key@) is None,
            }),
    {
        match self {
            Json::Object(o) => o.get(key),
            _ => None,
        }
    }

    /// The text of the member `key`, where that is a text.
    pub fn get_text(&self, key: &str) -> (r: Option<&String>)
        ensures
            (match r {
                Some(s) => text_in(member(self@, key@)) == Some(s@),
                None => text_in(member(self@, key@)) is None,
            }),
    {
        match self.get(key) {
            Some(Json::Text(s)) => Some(s),
            _ => None,
        }
    }

    /// The member `key` as an unsigned integer, where it is one.
    pub fn get_unsigned(&self, key: &str) -> (r: Option<u64>)
        ensures
            r == unsigned_in(member(self@, key@)),
    {
        match self.get(key) {
            Some(Json::Unsigned(n)) => Some(*n),
            _ => None,
        }
    }
}

/// Rewrites the member `key` by `f`, where there is one.
pub(crate) fn update_member<F: Fn(Json) -> Json>(
    j: Json,
    key: &str,
    f: F,
    Ghost(model): Ghost<spec_fn(JsonModel) -> JsonModel>,
) -> (r: Json)
    requires
        forall|x: Json| call_requires(f, (x,)),
        forall|x: Json, y: Json| call_ensures(f, (x,), y) ==> y@ == model(x@),
    ensures
        r@ == on_member(j@, key@, model),
{
    match j {
        Json::Object(o) => {
            let ghost before = o@;
            let (rest, found) = o.remove(key);
            match found {
                Some(x) => {
                    let y = f(x);
                    let out = rest.insert(key.to_owned(), y);
                    assert(before.remove(key@).insert(key@, y@) =~= before.insert(key@, y@));
                    Json::Object(out)
                },
                None => {
                    assert(before.remove(key@) =~= before);
                    Json::Object(rest)
                },
            }
        },
        other => other,
    }
}

/// Rewrites every item by `f`, where the value is a list.
pub(crate) fn update_items<F: Fn(Json) -> Json>(
    j: Json,
    f: F,
    Ghost(model): Ghost<spec_fn(JsonModel) -> JsonModel>,
) -> (r: Json)
    requires
        forall|x: Json| call_requires(f, (x,)),
        forall|x: Json, y: Json| call_ensures(f, (x,), y) ==> y@ == model(x@),
    ensures
        r@ == on_items(j@, model),
{
    match j {
        Json::List(items) => {
            let ghost all = items@;
            let mut out: Vec<Json> = Vec::new();
            proof {
                lemma_list_model(all);
                assert(list_model(all).take(0).map_values(model) =~= list_model(out@));
            }
            for x in iter: items
                invariant
                    iter.seq() == all,
                    list_model(all).len() == all.len(),
                    forall|i: int|
                        0 <= i < all.len() ==> #[trigger] list_model(all)[i] == all[i].model(),
                    forall|x: Json| call_requires(f, (x,)),
                    forall|x: Json, y: Json| call_ensures(f, (x,), y) ==> y@ == model(x@),
                    list_model(out@) == list_model(all).take(iter.index() as int).map_values(model),
            {
                let y = f(x);
                proof {
                    let i = iter.index() as int;
                    assert(list_model(all)[i] == x@);
                    lemma_list_model_push(out@, y);
                    assert(list_model(all).take(i + 1).map_values(model) =~= list_model(all).take(
                        i,
                    ).map_values(model).push(model(x@)));
                }
                out.push(y);
            }
            assert(list_model(all).take(all.len() as int) =~= list_model(all));
            Json::List(out)
        },
        other => other,
    }
}

/// Sets the member `key`, where the value is an object.
pub(crate) fn put_member(j: Json, key: &str, value: Json) -> (r: Json)
    ensures
        r@ == set_member(j@, key@, value@),
{
    match j {
        Json::Object(o) => Json::Object(o.insert(key.to_owned(), value)),
        other => other,
    }
}

/// A value without its member `key`.
pub open spec fn drop_member(j: JsonModel, key: Seq<char>) -> JsonModel {
    match j {
        JsonModel::Object(m) => JsonModel::Object(m.remove(key)),
        _ => j,
    }
}

/// Takes the member `key` out, where there is one.
pub(crate) fn take_member(j: Json, key: &str) -> (r: (Json, Option<Json>))
    ensures
        r.0@ == drop_member(j@, key@),
        (match r.1 {
            Some(x) => member(j@, key@) == Some(x@),
            None => member(j@, key@) is None && r.0@ == j@,
        }),
{
    match j {
        Json::Object(o) => {
            let ghost m = o@;
            let (rest, found) = o.remove(key);
            proof {
                if found is None {
                    assert(m.remove(key@) =~= m);
                }
            }
            (Json::Object(rest), found)
        },
        other => (other, None),
    }
}

/// `Display` of `serde_json::Error`. It says what the error stands for and
/// where in the text it is; the wording is left to the name of the result.
#[verifier::external_body]
pub(crate) fn error_text(e: &serde_json::Error) -> (r: String)
    ensures
        r@ == error_said(*e),
{
    e.to_string()
}

// ---------------------------------------------------------------------------
// Laws
// ---------------------------------------------------------------------------

/// Of members with one name the last counts, and the others keep theirs.
pub proof fn law_later_member_counts(
    before: Seq<(String, Json)>,
    name: String,
    value: Json,
    key: Seq<char>,
)
    ensures
        ({
            let m = entries_model(before.push((name, value)));
            &&& m.dom().contains(name@)
            &&& m[name@] == value@
            &&& key != name@ ==> m.dom().contains(key) == entries_model(before).dom().contains(key)
            &&& key != name@ ==> m[key] == entries_model(before)[key]
        }),
        !entries_model(Seq::empty()).dom().contains(key),
{
    lemma_entries_model_push(before, (name, value));
}

/// A tree stands for what it is made of: texts and numbers for themselves, lists for
/// their items in order, objects for their members.
pub proof fn law_tree_stands_for_its_parts(j: Json)
    ensures
        (match j {
            Json::Null => j@ == JsonModel::Null,
            Json::Bool(b) => j@ == JsonModel::Bool(b),
            Json::Unsigned(n) => j@ == JsonModel::Unsigned(n),
            Json::Negative(n) => j@ == JsonModel::Negative(n),
            Json::Real(bits) => j@ == JsonModel::Real(bits),
            Json::Text(s) => j@ == JsonModel::Text(s@),
            Json::List(v) => match j@ {
                JsonModel::List(items) => items.len() == v@.len() && forall|i: int|
                    0 <= i < v@.len() ==> #[trigger] items[i] == v@[i]@,
                _ => false,
            },
            Json::Object(o) => j@ == JsonModel::Object(o@),
        }),
{
    if let Json::List(v) = j {
        lemma_list_model(v@);
    }
}

/// What a member was set to is what it is, and setting or dropping one member leaves the
/// others as they were. What is no object has no members.
pub proof fn law_members_are_set_one_by_one(
    m: Map<Seq<char>, JsonModel>,
    key: Seq<char>,
    value: JsonModel,
    other: Seq<char>,
)
    requires
        other != key,
    ensures
        ({
            let j = JsonModel::Object(m);
            &&& m.dom().contains(key) ==> member(j, key) == Some(m[key])
            &&& !m.dom().contains(key) ==> member(j, key) is None
            &&& member(set_member(j, key, value), key) == Some(value)
            &&& member(set_member(j, key, value), other) == member(j, other)
            &&& member(drop_member(j, key), key) is None
            &&& member(drop_member(j, key), other) == member(j, other)
            &&& set_member(j, key, value) is Object
            &&& drop_member(j, key) is Object
        }),
        member(JsonModel::Null, key) is None,
        forall|items: Seq<JsonModel>| #[trigger]
            member(JsonModel::List(items), key) is None,
{
}

/// Rewriting a member touches that member and no other, and adds none; rewriting the items
/// of a list rewrites each in its place.
pub proof fn law_rewriting_keeps_the_rest(
    j: JsonModel,
    key: Seq<char>,
    other: Seq<char>,
    f: spec_fn(JsonModel) -> JsonModel,
)
    requires
        other != key,
    ensures
        member(j, key) matches Some(x) ==> member(on_member(j, key, f), key) == Some(f(x)),
        member(j, key) is None ==> on_member(j, key, f) == j,
        member(on_member(j, key, f), other) == member(j, other),
        j matches JsonModel::List(items) ==> match on_items(j, f) {
            JsonModel::List(out) => out.len() == items.len() && forall|i: int|
                0 <= i < items.len() ==> #[trigger] out[i] == f(items[i]),
            _ => false,
        },
        !(j is List) ==> on_items(j, f) == j,
{
}

/// A number is an unsigned integer wherever it can be read as one, else a negative one
/// wherever it can be read as an integer, else a real number.
pub proof fn law_numbers_are_integers_where_they_can_be(n: u64, i: i64, bits: u64)
    ensures
        number_model(Some(n), Some(i), Some(bits)) == JsonModel::Unsigned(n),
        number_model(Some(n), None, Some(bits)) == JsonModel::Unsigned(n),
        number_model(None, Some(i), Some(bits)) == JsonModel::Negative(i),
        number_model(None, None, Some(bits)) == JsonModel::Real(bits),
        unsigned_in(Some(JsonModel::Unsigned(n))) == Some(n),
        unsigned_in(Some(JsonModel::Negative(i))) is None,
        unsigned_in(Some(JsonModel::Real(bits))) is None,
        unsigned_in(None) is None,
        text_in(Some(JsonModel::Unsigned(n))) is None,
{
}

/// Two values are equal exactly where they are of one kind and their parts are equal.
pub proof fn law_equal_values_have_equal_parts(
    x: Seq<JsonModel>,
    y: Seq<JsonModel>,
    a: JsonModel,
    b: JsonModel,
    s: Seq<char>,
    t: Seq<char>,
    n: u64,
    m: u64,
)
    ensures
        json_equal(JsonModel::List(x.push(a)), JsonModel::List(y.push(b))) == (json_equal(a, b)
            && json_equal(JsonModel::List(x), JsonModel::List(y))),
        json_equal(JsonModel::Text(s), JsonModel::Text(t)) == (s == t),
        json_equal(JsonModel::Unsigned(n), JsonModel::Unsigned(m)) == (n == m),
        json_equal(JsonModel::Real(n), JsonModel::Real(m)) == numbers::same_real64(n, m),
        !json_equal(JsonModel::Unsigned(n), JsonModel::Real(n)),
        !json_equal(JsonModel::Text(s), JsonModel::Null),
        x.len() != y.len() ==> !json_equal(JsonModel::List(x), JsonModel::List(y)),
{
    let xs = x.push(a);
    let ys = y.push(b);
    if x.len() == y.len() {
        let n = x.len() as int;
        assert(xs[n] == a && ys[n] == b);
        if json_equal(JsonModel::List(xs), JsonModel::List(ys)) {
            assert(json_equal(xs[n], ys[n]));
            assert forall|i: int| 0 <= i < x.len() implies json_equal(#[trigger] x[i], y[i]) by {
                assert(json_equal(xs[i], ys[i]));
                assert(xs[i] == x[i] && ys[i] == y[i]);
            }
        }
        if json_equal(a, b) && json_equal(JsonModel::List(x), JsonModel::List(y)) {
            assert forall|i: int| 0 <= i < xs.len() implies json_equal(#[trigger] xs[i], ys[i]) by {
                if i < x.len() {
                    assert(json_equal(x[i], y[i]));
                    assert(xs[i] == x[i] && ys[i] == y[i]);
                }
            }
        }
    }
}

} // verus!
