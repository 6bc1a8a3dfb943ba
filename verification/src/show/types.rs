//! The show: the rig, songs with their patches, and saved blocks.

use vstd::prelude::*;
use vstd::std_specs::convert::FromSpec;
use vstd::string::*;

use crate::json::Json;
use crate::patch::types::{NodeKind, PatchGraph};
use crate::text::{copy_text, same_text};

verus! {

// ---------------------------------------------------------------------------
// Ids
// ---------------------------------------------------------------------------

/// The id of a song.
#[derive(Debug, Eq, Hash, PartialEq, Ord, PartialOrd)]
pub struct SongId(pub String);

impl View for SongId {
    type V = Seq<char>;

    open spec fn view(&self) -> Seq<char> {
        self.0@
    }
}

impl SongId {
    pub fn new(s: &str) -> (r: SongId)
        ensures
            r@ == s@,
    {
        SongId(s.to_owned())
    }

    pub fn as_str(&self) -> (r: &str)
        ensures
            r@ == self@,
    {
        self.0.as_str()
    }
}

impl Clone for SongId {
    fn clone(&self) -> (r: SongId)
        ensures
            r@ == self@,
    {
        SongId(copy_text(&self.0))
    }
}

impl vstd::std_specs::convert::FromSpecImpl<&str> for SongId {
    open spec fn obeys_from_spec() -> bool {
        false
    }

    open spec fn from_spec(s: &str) -> SongId {
        arbitrary()
    }
}

impl From<&str> for SongId {
    fn from(s: &str) -> (r: SongId)
        ensures
            r@ == s@,
    {
        SongId(s.to_owned())
    }
}

impl vstd::std_specs::convert::FromSpecImpl<String> for SongId {
    open spec fn obeys_from_spec() -> bool {
        true
    }

    open spec fn from_spec(s: String) -> SongId {
        SongId(s)
    }
}

impl From<String> for SongId {
    fn from(s: String) -> (r: SongId) {
        SongId(s)
    }
}

/// The id of a patch.
#[derive(Debug, Eq, Hash, PartialEq, Ord, PartialOrd)]
pub struct PatchId(pub String);

impl View for PatchId {
    type V = Seq<char>;

    open spec fn view(&self) -> Seq<char> {
        self.0@
    }
}

impl PatchId {
    pub fn new(s: &str) -> (r: PatchId)
        ensures
            r@ == s@,
    {
        PatchId(s.to_owned())
    }

    pub fn as_str(&self) -> (r: &str)
        ensures
            r@ == self@,
    {
        self.0.as_str()
    }
}

impl Clone for PatchId {
    fn clone(&self) -> (r: PatchId)
        ensures
            r@ == self@,
    {
        PatchId(copy_text(&self.0))
    }
}

impl vstd::std_specs::convert::FromSpecImpl<&str> for PatchId {
    open spec fn obeys_from_spec() -> bool {
        false
    }

    open spec fn from_spec(s: &str) -> PatchId {
        arbitrary()
    }
}

impl From<&str> for PatchId {
    fn from(s: &str) -> (r: PatchId)
        ensures
            r@ == s@,
    {
        PatchId(s.to_owned())
    }
}

impl vstd::std_specs::convert::FromSpecImpl<String> for PatchId {
    open spec fn obeys_from_spec() -> bool {
        true
    }

    open spec fn from_spec(s: String) -> PatchId {
        PatchId(s)
    }
}

impl From<String> for PatchId {
    fn from(s: String) -> (r: PatchId) {
        PatchId(s)
    }
}

/// The id of a saved block.
#[derive(Debug, Eq, Hash, PartialEq, Ord, PartialOrd)]
pub struct BlockId(pub String);

impl View for BlockId {
    type V = Seq<char>;

    open spec fn view(&self) -> Seq<char> {
        self.0@
    }
}

impl BlockId {
    pub fn new(s: &str) -> (r: BlockId)
        ensures
            r@ == s@,
    {
        BlockId(s.to_owned())
    }

    pub fn as_str(&self) -> (r: &str)
        ensures
            r@ == self@,
    {
        self.0.as_str()
    }
}

impl Clone for BlockId {
    fn clone(&self) -> (r: BlockId)
        ensures
            r@ == self@,
    {
        BlockId(copy_text(&self.0))
    }
}

impl vstd::std_specs::convert::FromSpecImpl<&str> for BlockId {
    open spec fn obeys_from_spec() -> bool {
        false
    }

    open spec fn from_spec(s: &str) -> BlockId {
        arbitrary()
    }
}

impl From<&str> for BlockId {
    fn from(s: &str) -> (r: BlockId)
        ensures
            r@ == s@,
    {
        BlockId(s.to_owned())
    }
}

impl vstd::std_specs::convert::FromSpecImpl<String> for BlockId {
    open spec fn obeys_from_spec() -> bool {
        true
    }

    open spec fn from_spec(s: String) -> BlockId {
        BlockId(s)
    }
}

impl From<String> for BlockId {
    fn from(s: String) -> (r: BlockId) {
        BlockId(s)
    }
}

/// The id of a rig component.
#[derive(Debug, Eq, Hash, PartialEq, Ord, PartialOrd)]
pub struct RigComponentId(pub String);

impl View for RigComponentId {
    type V = Seq<char>;

    open spec fn view(&self) -> Seq<char> {
        self.0@
    }
}

impl RigComponentId {
    pub fn new(s: &str) -> (r: RigComponentId)
        ensures
            r@ == s@,
    {
        RigComponentId(s.to_owned())
    }

    pub fn as_str(&self) -> (r: &str)
        ensures
            r@ == self@,
    {
        self.0.as_str()
    }
}

impl Clone for RigComponentId {
    fn clone(&self) -> (r: RigComponentId)
        ensures
            r@ == self@,
    {
        RigComponentId(copy_text(&self.0))
    }
}

impl vstd::std_specs::convert::FromSpecImpl<&str> for RigComponentId {
    open spec fn obeys_from_spec() -> bool {
        false
    }

    open spec fn from_spec(s: &str) -> RigComponentId {
        arbitrary()
    }
}

impl From<&str> for RigComponentId {
    fn from(s: &str) -> (r: RigComponentId)
        ensures
            r@ == s@,
    {
        RigComponentId(s.to_owned())
    }
}

impl vstd::std_specs::convert::FromSpecImpl<String> for RigComponentId {
    open spec fn obeys_from_spec() -> bool {
        true
    }

    open spec fn from_spec(s: String) -> RigComponentId {
        RigComponentId(s)
    }
}

impl From<String> for RigComponentId {
    fn from(s: String) -> (r: RigComponentId) {
        RigComponentId(s)
    }
}

// ---------------------------------------------------------------------------
// The rig
// ---------------------------------------------------------------------------

/// A physical component of the rig: a keyboard, a pedal, a bank of pads. Two
/// components may be of one kind.
///
/// The component owns the identity of the hardware: a source node refers to it
/// and takes its device over. What the kind makes of it is in `config`.
#[derive(Clone, Debug, PartialEq)]
pub struct RigComponent {
    pub id: RigComponentId,
    pub kind: NodeKind,
    pub name: String,
    pub config: Option<Json>,
}

/// The components at hand.
#[derive(Clone, Debug, PartialEq)]
pub struct Rig {
    pub components: Vec<RigComponent>,
}

impl Default for Rig {
    fn default() -> (r: Rig)
        ensures
            r.components@.len() == 0,
    {
        Rig { components: Vec::new() }
    }
}

/// Whether the component at index `i` is the first with an id.
pub open spec fn component_index(components: Seq<RigComponent>, id: Seq<char>, i: int) -> bool {
    &&& 0 <= i < components.len()
    &&& components[i].id@ == id
    &&& forall|j: int| 0 <= j < i ==> (#[trigger] components[j]).id@ != id
}

impl Rig {
    /// The first component with the given id.
    pub fn find_component(&self, id: &RigComponentId) -> (r: Option<&RigComponent>)
        ensures
            (match r {
                Some(c) => exists|i: int|
                    component_index(self.components@, id@, i) && *c == self.components@[i],
                None => forall|i: int|
                    0 <= i < self.components@.len() ==> (#[trigger] self.components@[i]).id@ != id@,
            }),
    {
        let n: usize = self.components.len();
        for i in 0..n
            invariant
                n == self.components@.len(),
                forall|j: int| 0 <= j < i ==> (#[trigger] self.components@[j]).id@ != id@,
        {
            if same_text(self.components[i].id.as_str(), id.as_str()) {
                assert(component_index(self.components@, id@, i as int));
                return Some(&self.components[i]);
            }
        }
        None
    }
}

// ---------------------------------------------------------------------------
// Songs and patches
// ---------------------------------------------------------------------------

/// A composite block that the user saved.
#[derive(Clone, Debug, PartialEq)]
pub struct SavedBlock {
    pub id: BlockId,
    pub name: String,
    pub node_count: u32,
}

/// A patch of a song, with its graph.
#[derive(Clone, Debug, PartialEq)]
pub struct Patch {
    pub id: PatchId,
    pub number: u32,
    pub name: String,
    pub compound: bool,
    pub graph: PatchGraph,
}

/// A song.
#[derive(Clone, Debug, PartialEq)]
pub struct Song {
    pub id: SongId,
    pub number: u32,
    pub name: String,
    pub patches: Vec<Patch>,
}

/// A show.
#[derive(Clone, Debug, PartialEq)]
pub struct Show {
    pub name: String,
    pub songs: Vec<Song>,
    pub rig: Rig,
    pub saved_blocks: Vec<SavedBlock>,
}

impl Default for Show {
    fn default() -> (r: Show)
        ensures
            r.name@.len() == 0,
            r.songs@.len() == 0,
            r.rig.components@.len() == 0,
            r.saved_blocks@.len() == 0,
    {
        Show {
            name: String::new(),
            songs: Vec::new(),
            rig: Rig { components: Vec::new() },
            saved_blocks: Vec::new(),
        }
    }
}

/// Whether the song at index `i` is the first with an id.
pub open spec fn song_index(songs: Seq<Song>, id: Seq<char>, i: int) -> bool {
    &&& 0 <= i < songs.len()
    &&& songs[i].id@ == id
    &&& forall|j: int| 0 <= j < i ==> (#[trigger] songs[j]).id@ != id
}

/// Whether one of the patches has the given id.
pub open spec fn has_patch(patches: Seq<Patch>, id: Seq<char>) -> bool {
    exists|i: int| 0 <= i < patches.len() && (#[trigger] patches[i]).id@ == id
}

/// Whether the patch at index `j` of the song at index `i` is the first with
/// an id.
pub open spec fn patch_index(songs: Seq<Song>, id: Seq<char>, i: int, j: int) -> bool {
    &&& 0 <= i < songs.len()
    &&& 0 <= j < songs[i].patches@.len()
    &&& songs[i].patches@[j].id@ == id
    &&& !has_patch(songs[i].patches@.take(j), id)
    &&& forall|k: int| 0 <= k < i ==> !has_patch((#[trigger] songs[k]).patches@, id)
}

impl Show {
    /// The first song with the given id.
    pub fn find_song(&self, id: &SongId) -> (r: Option<&Song>)
        ensures
            (match r {
                Some(song) => exists|i: int|
                    song_index(self.songs@, id@, i) && *song == self.songs@[i],
                None => forall|i: int|
                    0 <= i < self.songs@.len() ==> (#[trigger] self.songs@[i]).id@ != id@,
            }),
    {
        let n: usize = self.songs.len();
        for i in 0..n
            invariant
                n == self.songs@.len(),
                forall|j: int| 0 <= j < i ==> (#[trigger] self.songs@[j]).id@ != id@,
        {
            if same_text(self.songs[i].id.as_str(), id.as_str()) {
                assert(song_index(self.songs@, id@, i as int));
                return Some(&self.songs[i]);
            }
        }
        None
    }

    /// The first patch with the given id, and the song that it belongs to.
    pub fn find_patch(&self, id: &PatchId) -> (r: Option<(&Song, &Patch)>)
        ensures
            (match r {
                Some((song, patch)) => exists|i: int, j: int| #[trigger]
                    patch_index(self.songs@, id@, i, j) && *song == self.songs@[i] && *patch
                        == self.songs@[i].patches@[j],
                None => forall|i: int|
                    0 <= i < self.songs@.len() ==> !has_patch(
                        (#[trigger] self.songs@[i]).patches@,
                        id@,
                    ),
            }),
    {
        let n: usize = self.songs.len();
        for i in 0..n
            invariant
                n == self.songs@.len(),
                forall|k: int|
                    0 <= k < i ==> !has_patch((#[trigger] self.songs@[k]).patches@, id@),
        {
            let song = &self.songs[i];
            let m: usize = song.patches.len();
            for j in 0..m
                invariant
                    i < n,
                    n == self.songs@.len(),
                    *song == self.songs@[i as int],
                    m == song.patches@.len(),
                    forall|k: int|
                        0 <= k < i ==> !has_patch((#[trigger] self.songs@[k]).patches@, id@),
                    forall|k: int| 0 <= k < j ==> (#[trigger] song.patches@[k]).id@ != id@,
            {
                if same_text(song.patches[j].id.as_str(), id.as_str()) {
                    assert(patch_index(self.songs@, id@, i as int, j as int));
                    return Some((song, &song.patches[j]));
                }
            }
        }
        None
    }
}

/// Whether a flag may be left out when it is written: it is not set.
pub fn is_false(b: &bool) -> (r: bool)
    ensures
        r == !*b,
{
    !*b
}

/// An id that is made of a text is that text.
pub proof fn law_ids_are_their_texts(s: String)
    ensures
        SongId::from_spec(s).0@ == s@,
        SongId::from_spec(s)@ == s@,
        PatchId::from_spec(s).0@ == s@,
        PatchId::from_spec(s)@ == s@,
        BlockId::from_spec(s).0@ == s@,
        BlockId::from_spec(s)@ == s@,
        RigComponentId::from_spec(s).0@ == s@,
        RigComponentId::from_spec(s)@ == s@,
{
}

} // verus!
