//! What a plugin bundle says of the plugins in it.

use vstd::prelude::*;
use vstd::string::*;

use crate::text;
use crate::text::copy_text;

verus! {

/// Why a bundle could not be read.
#[derive(Debug, Clone, PartialEq, Eq)]
pub enum ClapError {
    /// There is nothing at the path.
    PathNotAccessible(String),
    /// The bundle could not be loaded, for the reason given.
    Load(String),
    /// The bundle was loaded, but has no plugin factory.
    NoFactory,
}

/// An error in words.
pub open spec fn error_words(e: ClapError) -> Seq<char> {
    match e {
        ClapError::PathNotAccessible(path) => "CLAP path not accessible: "@ + path@,
        ClapError::Load(reason) => "failed to load CLAP entry: "@ + reason@,
        ClapError::NoFactory => "CLAP bundle exposed no plugin factory"@,
    }
}

impl ClapError {
    /// The error in words.
    pub fn message(&self) -> (r: String)
        ensures
            r@ == error_words(*self),
    {
        match self {
            ClapError::PathNotAccessible(path) => {
                "CLAP path not accessible: ".to_owned().concat(path.as_str())
            },
            ClapError::Load(reason) => {
                "failed to load CLAP entry: ".to_owned().concat(reason.as_str())
            },
            ClapError::NoFactory => "CLAP bundle exposed no plugin factory".to_owned(),
        }
    }
}

/// What a plugin says of itself. The id and the name are never empty; the
/// other texts are empty where the plugin says nothing.
#[derive(Debug, PartialEq, Eq)]
pub struct PluginDescriptor {
    pub id: String,
    pub name: String,
    pub vendor: String,
    pub version: String,
    pub description: String,
    /// The plugin's tags, in its own order.
    pub features: Vec<String>,
}

/// What a descriptor says.
pub ghost struct DescriptorModel {
    pub id: Seq<char>,
    pub name: Seq<char>,
    pub vendor: Seq<char>,
    pub version: Seq<char>,
    pub description: Seq<char>,
    pub features: Seq<Seq<char>>,
}

impl View for PluginDescriptor {
    type V = DescriptorModel;

    open spec fn view(&self) -> DescriptorModel {
        DescriptorModel {
            id: self.id@,
            name: self.name@,
            vendor: self.vendor@,
            version: self.version@,
            description: self.description@,
            features: text::string_views(self.features@),
        }
    }
}

/// A bundle and the plugins in it.
#[derive(Debug, Clone)]
pub struct ScannedBundle {
    pub path: String,
    pub descriptors: Vec<PluginDescriptor>,
}

/// What several descriptors say.
pub open spec fn descriptor_views(v: Seq<PluginDescriptor>) -> Seq<DescriptorModel> {
    v.map_values(|d: PluginDescriptor| d@)
}

impl Clone for PluginDescriptor {
    fn clone(&self) -> (r: PluginDescriptor)
        ensures
            r@ == self@,
    {
        let mut features: Vec<String> = Vec::new();
        let n: usize = self.features.len();
        for i in 0..n
            invariant
                n == self.features.len(),
                features.len() == i,
                forall|j: int| 0 <= j < i ==> (#[trigger] features@[j])@ == self.features@[j]@,
        {
            features.push(copy_text(&self.features[i]));
        }
        assert(text::string_views(features@) =~= text::string_views(self.features@));
        PluginDescriptor {
            id: copy_text(&self.id),
            name: copy_text(&self.name),
            vendor: copy_text(&self.vendor),
            version: copy_text(&self.version),
            description: copy_text(&self.description),
            features,
        }
    }
}

/// Descriptors that say the same.
pub(crate) fn copy_descriptors(v: &Vec<PluginDescriptor>) -> (r: Vec<PluginDescriptor>)
    ensures
        descriptor_views(r@) == descriptor_views(v@),
{
    let mut out: Vec<PluginDescriptor> = Vec::new();
    let n: usize = v.len();
    for i in 0..n
        invariant
            n == v.len(),
            out.len() == i,
            forall|j: int| 0 <= j < i ==> (#[trigger] out@[j])@ == v@[j]@,
    {
        out.push(v[i].clone());
    }
    assert(descriptor_views(out@) =~= descriptor_views(v@));
    out
}

// ---------------------------------------------------------------------------
// From what the factory gives
// ---------------------------------------------------------------------------

/// A descriptor as a bundle's factory gives it: a text is missing where it was
/// not given or is not UTF-8.
#[derive(Debug, Clone)]
pub struct RawDescriptor {
    pub id: Option<String>,
    pub name: Option<String>,
    pub vendor: Option<String>,
    pub version: Option<String>,
    pub description: Option<String>,
    pub features: Vec<Option<String>>,
}

/// What came of the attempt to load a bundle.
#[derive(Debug, Clone)]
pub enum Probe {
    /// There is nothing at the path.
    Missing,
    /// It could not be loaded, for the reason given.
    Unloadable(String),
    /// It was loaded, but has no plugin factory.
    NoFactory,
    /// It was loaded, and its factory gives these descriptors.
    Plugins(Vec<RawDescriptor>),
}

/// A text that was given: it is there and is not empty.
pub open spec fn given(s: Option<String>) -> Option<Seq<char>> {
    match s {
        Some(s) => if s@.len() > 0 {
            Some(s@)
        } else {
            None
        },
        None => None,
    }
}

/// A text that was given, else an empty one.
pub open spec fn given_or_empty(s: Option<String>) -> Seq<char> {
    match given(s) {
        Some(s) => s,
        None => Seq::empty(),
    }
}

/// The tags that were given.
pub open spec fn given_features(v: Seq<Option<String>>) -> Seq<Seq<char>>
    decreases v.len(),
{
    if v.len() == 0 {
        Seq::empty()
    } else {
        match given(v.last()) {
            Some(s) => given_features(v.drop_last()).push(s),
            None => given_features(v.drop_last()),
        }
    }
}

/// The descriptor that a raw one stands for; none where the id or the name is
/// missing.
pub open spec fn described(raw: RawDescriptor) -> Option<DescriptorModel> {
    match (given(raw.id), given(raw.name)) {
        (Some(id), Some(name)) => Some(
            DescriptorModel {
                id,
                name,
                vendor: given_or_empty(raw.vendor),
                version: given_or_empty(raw.version),
                description: given_or_empty(raw.description),
                features: given_features(raw.features@),
            },
        ),
        _ => None,
    }
}

/// The descriptors that raw ones stand for, without those that have no id or
/// no name.
pub open spec fn all_described(raws: Seq<RawDescriptor>) -> Seq<DescriptorModel>
    decreases raws.len(),
{
    if raws.len() == 0 {
        Seq::empty()
    } else {
        match described(raws.last()) {
            Some(d) => all_described(raws.drop_last()).push(d),
            None => all_described(raws.drop_last()),
        }
    }
}

fn keep_given(s: &Option<String>) -> (r: Option<String>)
    ensures
        (match r {
            Some(t) => given(*s) == Some(t@),
            None => given(*s) is None,
        }),
{
    match s {
        Some(t) => if t.as_str().is_empty() {
            None
        } else {
            Some(copy_text(t))
        },
        None => None,
    }
}

fn keep_or_empty(s: &Option<String>) -> (r: String)
    ensures
        r@ == given_or_empty(*s),
{
    match keep_given(s) {
        Some(t) => t,
        None => {
            let e = String::new();
            assert(e@ =~= Seq::empty());
            e
        },
    }
}

fn keep_features(v: &Vec<Option<String>>) -> (r: Vec<String>)
    ensures
        text::string_views(r@) == given_features(v@),
{
    let mut out: Vec<String> = Vec::new();
    let n: usize = v.len();
    assert(v@.take(0) =~= Seq::empty());
    assert(text::string_views(out@) =~= Seq::empty());
    for i in 0..n
        invariant
            n == v.len(),
            text::string_views(out@) == given_features(v@.take(i as int)),
    {
        let ghost before = text::string_views(out@);
        assert(v@.take(i + 1).drop_last() =~= v@.take(i as int));
        if let Some(s) = keep_given(&v[i]) {
            out.push(s);
            assert(text::string_views(out@) =~= before.push(s@));
        }
    }
    assert(v@.take(n as int) =~= v@);
    out
}

/// What a bundle says of its plugins, given what came of loading it.
pub fn load_bundle(path: &str, probe: Probe) -> (r: Result<ScannedBundle, ClapError>)
    ensures
        (match probe {
            Probe::Missing => r matches Err(ClapError::PathNotAccessible(p)) && p@ == path@,
            Probe::Unloadable(reason) => r == Err::<ScannedBundle, ClapError>(
                ClapError::Load(reason),
            ),
            Probe::NoFactory => r == Err::<ScannedBundle, ClapError>(ClapError::NoFactory),
            Probe::Plugins(raws) => r matches Ok(bundle) && bundle.path@ == path@
                && descriptor_views(bundle.descriptors@) == all_described(raws@),
        }),
{
    let raws = match probe {
        Probe::Missing => {
            return Err(ClapError::PathNotAccessible(path.to_owned()));
        },
        Probe::Unloadable(reason) => {
            return Err(ClapError::Load(reason));
        },
        Probe::NoFactory => {
            return Err(ClapError::NoFactory);
        },
        Probe::Plugins(raws) => raws,
    };
    let mut descriptors: Vec<PluginDescriptor> = Vec::new();
    let n: usize = raws.len();
    assert(raws@.take(0) =~= Seq::empty());
    assert(descriptor_views(descriptors@) =~= Seq::empty());
    for i in 0..n
        invariant
            n == raws.len(),
            descriptor_views(descriptors@) == all_described(raws@.take(i as int)),
    {
        let ghost before = descriptor_views(descriptors@);
        assert(raws@.take(i + 1).drop_last() =~= raws@.take(i as int));
        let raw = &raws[i];
        if let (Some(id), Some(name)) = (keep_given(&raw.id), keep_given(&raw.name)) {
            let d = PluginDescriptor {
                id,
                name,
                vendor: keep_or_empty(&raw.vendor),
                version: keep_or_empty(&raw.version),
                description: keep_or_empty(&raw.description),
                features: keep_features(&raw.features),
            };
            descriptors.push(d);
            assert(descriptor_views(descriptors@) =~= before.push(d@));
        }
    }
    assert(raws@.take(n as int) =~= raws@);
    Ok(ScannedBundle { path: path.to_owned(), descriptors })
}

/// Every descriptor of a bundle has an id and a name.
pub proof fn law_descriptors_are_named(raws: Seq<RawDescriptor>)
    ensures
        forall|i: int|
            0 <= i < all_described(raws).len() ==> (#[trigger] all_described(raws)[i]).id.len() > 0
                && all_described(raws)[i].name.len() > 0,
    decreases raws.len(),
{
    if raws.len() > 0 {
        let rest = all_described(raws.drop_last());
        law_descriptors_are_named(raws.drop_last());
        assert forall|i: int| 0 <= i < all_described(raws).len() implies (
        #[trigger] all_described(raws)[i]).id.len() > 0 && all_described(raws)[i].name.len()
            > 0 by {
            if i < rest.len() {
                assert(all_described(raws)[i] == rest[i]);
            }
        }
    }
}

/// Whether a text that a descriptor has is the one that its raw form gives, or
/// empty where that gives none.
pub open spec fn taken_from(s: String, raw: Option<String>) -> bool {
    match raw {
        Some(t) => s@ == t@,
        None => s@.len() == 0,
    }
}

/// Whether a raw descriptor has an id and a name.
pub open spec fn is_named(raw: RawDescriptor) -> bool {
    &&& raw.id matches Some(id) && id@.len() > 0
    &&& raw.name matches Some(name) && name@.len() > 0
}

/// Whether a descriptor says of a plugin what its raw form says: each text is the
/// raw text of the same name.
pub open spec fn says_the_same(d: PluginDescriptor, raw: RawDescriptor) -> bool {
    &&& taken_from(d.id, raw.id)
    &&& taken_from(d.name, raw.name)
    &&& taken_from(d.vendor, raw.vendor)
    &&& taken_from(d.version, raw.version)
    &&& taken_from(d.description, raw.description)
}

/// Whether numbers rise.
pub open spec fn rising(from: Seq<int>) -> bool {
    forall|i: int, j: int| 0 <= i < j < from.len() ==> #[trigger] from[i] < #[trigger] from[j]
}

proof fn lemma_taken(s: String, raw: Option<String>)
    ensures
        s@ == given_or_empty(raw) ==> taken_from(s, raw),
{
    if let Some(t) = raw {
        if t@.len() == 0 {
            assert(t@ =~= Seq::empty());
        }
    }
}

/// Each descriptor of a bundle comes from one raw descriptor with an id and a
/// name, in order, and says what that says. No raw descriptor with an id and a
/// name is left out. Gives the number of the raw descriptor of each.
pub proof fn law_descriptors_say_what_the_plugins_say(
    raws: Seq<RawDescriptor>,
    ds: Seq<PluginDescriptor>,
) -> (from: Seq<int>)
    requires
        descriptor_views(ds) == all_described(raws),
    ensures
        from.len() == ds.len(),
        rising(from),
        forall|i: int|
            0 <= i < ds.len() ==> 0 <= #[trigger] from[i] < raws.len() && is_named(
                raws[from[i]],
            ) && says_the_same(ds[i], raws[from[i]]),
        forall|k: int|
            0 <= k < raws.len() && is_named(#[trigger] raws[k]) ==> exists|i: int|
                0 <= i < from.len() && #[trigger] from[i] == k,
    decreases raws.len(),
{
    let views = descriptor_views(ds);
    assert(views.len() == ds.len());
    if raws.len() == 0 {
        Seq::empty()
    } else {
        let rest = raws.drop_last();
        let last = raws.last();
        match described(last) {
            Some(d) => {
                let before = ds.drop_last();
                assert(views.drop_last() =~= all_described(rest));
                assert(descriptor_views(before) =~= views.drop_last());
                let first = law_descriptors_say_what_the_plugins_say(rest, before);
                let from = first.push(raws.len() - 1);
                assert(views.last() == d);
                assert(views.last() == ds.last()@);
                assert forall|i: int| 0 <= i < ds.len() implies 0 <= #[trigger] from[i]
                    < raws.len() && is_named(raws[from[i]]) && says_the_same(
                    ds[i],
                    raws[from[i]],
                ) by {
                    if i < before.len() {
                        assert(from[i] == first[i]);
                        assert(rest[first[i]] == raws[first[i]]);
                        assert(before[i] == ds[i]);
                    } else {
                        lemma_taken(ds[i].id, last.id);
                        lemma_taken(ds[i].name, last.name);
                        lemma_taken(ds[i].vendor, last.vendor);
                        lemma_taken(ds[i].version, last.version);
                        lemma_taken(ds[i].description, last.description);
                    }
                }
                assert forall|i: int, j: int| 0 <= i < j < from.len() implies #[trigger] from[i]
                    < #[trigger] from[j] by {
                    assert(from[i] == first[i]);
                    if j < first.len() {
                        assert(from[j] == first[j]);
                    }
                }
                assert forall|k: int|
                    0 <= k < raws.len() && is_named(#[trigger] raws[k]) implies exists|i: int|
                    0 <= i < from.len() && #[trigger] from[i] == k by {
                    if k < rest.len() {
                        assert(rest[k] == raws[k]);
                        let i = choose|i: int| 0 <= i < first.len() && #[trigger] first[i] == k;
                        assert(from[i] == k);
                    } else {
                        assert(from[first.len() as int] == k);
                    }
                }
                from
            },
            None => {
                let from = law_descriptors_say_what_the_plugins_say(rest, ds);
                assert(!is_named(last));
                assert forall|i: int| 0 <= i < ds.len() implies 0 <= #[trigger] from[i]
                    < raws.len() && is_named(raws[from[i]]) && says_the_same(
                    ds[i],
                    raws[from[i]],
                ) by {
                    assert(rest[from[i]] == raws[from[i]]);
                }
                assert forall|k: int|
                    0 <= k < raws.len() && is_named(#[trigger] raws[k]) implies exists|i: int|
                    0 <= i < from.len() && #[trigger] from[i] == k by {
                    assert(rest[k] == raws[k]);
                }
                from
            },
        }
    }
}

/// The tags of a plugin are kept in their order; only those that are missing or
/// empty are left out. The tags of two lists, one behind the other, are the tags of
/// each, one behind the other.
pub proof fn law_features_are_kept_in_order(a: Seq<Option<String>>, b: Seq<Option<String>>)
    ensures
        given_features(a + b) == given_features(a) + given_features(b),
        forall|s: String|
            #![trigger given_features(seq![Some(s)])]
            s@.len() > 0 ==> given_features(seq![Some(s)]) == seq![s@],
        forall|s: String|
            #![trigger given_features(seq![Some(s)])]
            s@.len() == 0 ==> given_features(seq![Some(s)]).len() == 0,
        given_features(seq![None]).len() == 0,
    decreases b.len(),
{
    if b.len() == 0 {
        assert(a + b =~= a);
        assert(given_features(a) + given_features(b) =~= given_features(a));
    } else {
        law_features_are_kept_in_order(a, b.drop_last());
        assert((a + b).drop_last() =~= a + b.drop_last());
        assert((a + b).last() == b.last());
        if let Some(s) = given(b.last()) {
            assert(given_features(a + b) =~= given_features(a) + given_features(b));
        }
    }
    let none: Seq<Option<String>> = seq![None];
    assert(none.drop_last() =~= Seq::empty());
    assert(given(none.last()) is None);
    assert(given_features(none) == given_features(none.drop_last()));
    assert forall|s: String|
        #![trigger given_features(seq![Some(s)])]
        (s@.len() > 0 ==> given_features(seq![Some(s)]) == seq![s@]) && (s@.len() == 0
            ==> given_features(seq![Some(s)]).len() == 0) by {
        let one: Seq<Option<String>> = seq![Some(s)];
        assert(one.drop_last() =~= Seq::empty());
        assert(given_features(one.drop_last()).len() == 0);
        if s@.len() > 0 {
            assert(given_features(one) =~= seq![s@]);
        }
    }
}

/// The tags of a descriptor are those that its raw form gives.
pub proof fn law_features_come_from_the_same_plugin(raw: RawDescriptor, d: PluginDescriptor)
    requires
        described(raw) == Some(d@),
    ensures
        d.features@.len() == given_features(raw.features@).len(),
        forall|i: int|
            0 <= i < d.features@.len() ==> (#[trigger] d.features@[i])@ == given_features(
                raw.features@,
            )[i],
{
    let shown = text::string_views(d.features@);
    assert(d@.features == shown);
    assert forall|i: int| 0 <= i < d.features@.len() implies (#[trigger] d.features@[i])@
        == given_features(raw.features@)[i] by {
        assert(shown[i] == d.features@[i]@);
    }
}

/// An error names what it is about: a missing bundle its path, one that does not
/// load the reason. The three kinds of error read differently.
pub proof fn law_errors_name_their_cause(a: String, b: String)
    ensures
        ({
            let missing = error_words(ClapError::PathNotAccessible(a));
            let bad = error_words(ClapError::Load(b));
            let bare = error_words(ClapError::NoFactory);
            &&& missing.len() > a@.len() && missing.skip(missing.len() - a@.len()) == a@
            &&& bad.len() > b@.len() && bad.skip(bad.len() - b@.len()) == b@
            &&& missing[0] == 'C' && missing[5] == 'p'
            &&& bad[0] == 'f'
            &&& bare[0] == 'C' && bare[5] == 'b'
        }),
{
    reveal_strlit("CLAP path not accessible: ");
    reveal_strlit("failed to load CLAP entry: ");
    reveal_strlit("CLAP bundle exposed no plugin factory");
    let missing = error_words(ClapError::PathNotAccessible(a));
    let bad = error_words(ClapError::Load(b));
    assert(missing.skip(missing.len() - a@.len()) =~= a@);
    assert(bad.skip(bad.len() - b@.len()) =~= b@);
}

} // verus!
