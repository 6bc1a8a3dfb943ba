//! Structural validation of a show.
//!
//! As with patch graphs, every fault is collected. The faults of an embedded
//! graph are told together with the song and the patch that hold it.

use vstd::prelude::*;

use crate::patch::validate;
use crate::patch::validate::{Fault, ValidationError};
use crate::show::types;
use crate::show::types::{
    BlockId, Patch, PatchId, RigComponent, RigComponentId, SavedBlock, Show, Song, SongId,
};
use crate::text;
use crate::text::{same_text, wrapped};

verus! {

/// A fault in a show.
#[derive(Clone, Debug, PartialEq)]
pub enum ShowValidationError {
    /// An earlier song has the same id.
    DuplicateSongId(SongId),
    /// An earlier patch of the show has the same id.
    DuplicatePatchId(PatchId),
    /// An earlier saved block has the same id.
    DuplicateBlockId(BlockId),
    /// An earlier component of the rig has the same id.
    DuplicateRigComponentId(RigComponentId),
    /// The graph of a patch has faults.
    PatchInvalid { song: SongId, patch: PatchId, errors: Vec<ValidationError> },
}

/// What a fault says.
pub enum ShowFault {
    DuplicateSongId(Seq<char>),
    DuplicatePatchId(Seq<char>),
    DuplicateBlockId(Seq<char>),
    DuplicateRigComponentId(Seq<char>),
    PatchInvalid { song: Seq<char>, patch: Seq<char>, faults: Seq<Fault> },
}

impl View for ShowValidationError {
    type V = ShowFault;

    open spec fn view(&self) -> ShowFault {
        match self {
            ShowValidationError::DuplicateSongId(id) => ShowFault::DuplicateSongId(id@),
            ShowValidationError::DuplicatePatchId(id) => ShowFault::DuplicatePatchId(id@),
            ShowValidationError::DuplicateBlockId(id) => ShowFault::DuplicateBlockId(id@),
            ShowValidationError::DuplicateRigComponentId(id) => {
                ShowFault::DuplicateRigComponentId(id@)
            },
            ShowValidationError::PatchInvalid { song, patch, errors } => ShowFault::PatchInvalid {
                song: song@,
                patch: patch@,
                faults: validate::faults(errors@),
            },
        }
    }
}

/// A fault in words. What is wrong in a graph is told by its own faults.
pub open spec fn show_fault_text(fault: ShowFault) -> Seq<char> {
    match fault {
        ShowFault::DuplicateSongId(id) => "duplicate song id "@ + text::wrapped_text("SongId"@, id),
        ShowFault::DuplicatePatchId(id) => "duplicate patch id "@
            + text::wrapped_text("PatchId"@, id),
        ShowFault::DuplicateBlockId(id) => "duplicate saved-block id "@
            + text::wrapped_text("BlockId"@, id),
        ShowFault::DuplicateRigComponentId(id) => "duplicate rig-component id "@
            + text::wrapped_text("RigComponentId"@, id),
        ShowFault::PatchInvalid { song, patch, faults } => "patch "@
            + text::wrapped_text("PatchId"@, patch)
            + " (in song "@
            + text::wrapped_text("SongId"@, song)
            + ") has structural errors"@,
    }
}

impl ShowValidationError {
    /// The fault in words.
    pub fn message(&self) -> (r: String)
        ensures
            r@ == show_fault_text(self@),
    {
        match self {
            ShowValidationError::DuplicateSongId(id) => {
                "duplicate song id ".to_owned()
                    .concat(wrapped("SongId", id.0.as_str()).as_str())
            },
            ShowValidationError::DuplicatePatchId(id) => {
                "duplicate patch id ".to_owned()
                    .concat(wrapped("PatchId", id.0.as_str()).as_str())
            },
            ShowValidationError::DuplicateBlockId(id) => {
                "duplicate saved-block id ".to_owned()
                    .concat(wrapped("BlockId", id.0.as_str()).as_str())
            },
            ShowValidationError::DuplicateRigComponentId(id) => {
                "duplicate rig-component id ".to_owned()
                    .concat(wrapped("RigComponentId", id.0.as_str()).as_str())
            },
            ShowValidationError::PatchInvalid{ song, patch, .. } => {
                "patch ".to_owned()
                    .concat(wrapped("PatchId", patch.0.as_str()).as_str())
                    .concat(" (in song ")
                    .concat(wrapped("SongId", song.0.as_str()).as_str())
                    .concat(") has structural errors")
            },
        }
    }
}

/// What a list of faults says.
pub open spec fn show_faults_of(errors: Seq<ShowValidationError>) -> Seq<ShowFault> {
    errors.map_values(|e: ShowValidationError| e@)
}

/// Nothing, or one fault where `faulty` holds.
pub open spec fn show_fault_if(faulty: bool, fault: ShowFault) -> Seq<ShowFault> {
    if faulty {
        seq![fault]
    } else {
        Seq::empty()
    }
}

/// Whether one of the songs has the given id.
pub open spec fn has_song(songs: Seq<Song>, id: Seq<char>) -> bool {
    exists|i: int| 0 <= i < songs.len() && (#[trigger] songs[i]).id@ == id
}

/// The faults in the ids of the songs.
pub open spec fn song_faults(songs: Seq<Song>) -> Seq<ShowFault>
    decreases songs.len(),
{
    if songs.len() == 0 {
        Seq::empty()
    } else {
        let before = songs.drop_last();
        let id = songs.last().id@;
        song_faults(before) + show_fault_if(has_song(before, id), ShowFault::DuplicateSongId(id))
    }
}

/// Whether one of the songs has a patch with the given id.
pub open spec fn has_patch_in(songs: Seq<Song>, id: Seq<char>) -> bool {
    exists|i: int| 0 <= i < songs.len() && types::has_patch((#[trigger] songs[i]).patches@, id)
}

/// The faults in the patches of a song that comes after `before`. Patch ids
/// are to be unique in the whole show.
pub open spec fn song_patch_faults(
    before: Seq<Song>,
    song: Seq<char>,
    patches: Seq<Patch>,
) -> Seq<ShowFault>
    decreases patches.len(),
{
    if patches.len() == 0 {
        Seq::empty()
    } else {
        let earlier = patches.drop_last();
        let id = patches.last().id@;
        let graph = validate::graph_faults(patches.last().graph);
        song_patch_faults(before, song, earlier) + show_fault_if(
            has_patch_in(before, id) || types::has_patch(earlier, id),
            ShowFault::DuplicatePatchId(id),
        ) + show_fault_if(
            graph.len() > 0,
            ShowFault::PatchInvalid { song, patch: id, faults: graph },
        )
    }
}

/// The faults in the patches of all songs.
pub open spec fn patch_faults(songs: Seq<Song>) -> Seq<ShowFault>
    decreases songs.len(),
{
    if songs.len() == 0 {
        Seq::empty()
    } else {
        let before = songs.drop_last();
        patch_faults(before) + song_patch_faults(
            before,
            songs.last().id@,
            songs.last().patches@,
        )
    }
}

/// Whether one of the components has the given id.
pub open spec fn has_component(components: Seq<RigComponent>, id: Seq<char>) -> bool {
    exists|i: int| 0 <= i < components.len() && (#[trigger] components[i]).id@ == id
}

/// The faults in the ids of the rig's components.
pub open spec fn component_faults(components: Seq<RigComponent>) -> Seq<ShowFault>
    decreases components.len(),
{
    if components.len() == 0 {
        Seq::empty()
    } else {
        let before = components.drop_last();
        let id = components.last().id@;
        component_faults(before) + show_fault_if(
            has_component(before, id),
            ShowFault::DuplicateRigComponentId(id),
        )
    }
}

/// Whether one of the saved blocks has the given id.
pub open spec fn has_block(blocks: Seq<SavedBlock>, id: Seq<char>) -> bool {
    exists|i: int| 0 <= i < blocks.len() && (#[trigger] blocks[i]).id@ == id
}

/// The faults in the ids of the saved blocks.
pub open spec fn block_faults(blocks: Seq<SavedBlock>) -> Seq<ShowFault>
    decreases blocks.len(),
{
    if blocks.len() == 0 {
        Seq::empty()
    } else {
        let before = blocks.drop_last();
        let id = blocks.last().id@;
        block_faults(before) + show_fault_if(has_block(before, id), ShowFault::DuplicateBlockId(id))
    }
}

/// Every fault of a show, in the order in which they are told. A node that
/// refers to a component that is not there is no fault: deleting a component
/// must not make a show unloadable.
pub open spec fn show_faults(show: Show) -> Seq<ShowFault> {
    song_faults(show.songs@) + patch_faults(show.songs@) + component_faults(show.rig.components@)
        + block_faults(show.saved_blocks@)
}

/// Adds a fault.
fn report(errors: &mut Vec<ShowValidationError>, e: ShowValidationError)
    ensures
        show_faults_of(final(errors)@) == show_faults_of(old(errors)@) + seq![e@],
{
    errors.push(e);
    assert(show_faults_of(errors@) =~= show_faults_of(old(errors)@) + seq![e@]);
}

/// Whether one of the first `upto` patches has the given id.
fn patch_before(patches: &Vec<Patch>, upto: usize, id: &str) -> (r: bool)
    requires
        upto <= patches.len(),
    ensures
        r == types::has_patch(patches@.take(upto as int), id@),
{
    for i in 0..upto
        invariant
            upto <= patches.len(),
            forall|j: int| 0 <= j < i ==> (#[trigger] patches@[j]).id@ != id@,
    {
        if same_text(patches[i].id.as_str(), id) {
            assert(patches@.take(upto as int)[i as int].id@ == id@);
            return true;
        }
    }
    false
}

/// Whether one of the first `upto` songs has a patch with the given id.
fn patch_in_songs(songs: &Vec<Song>, upto: usize, id: &str) -> (r: bool)
    requires
        upto <= songs.len(),
    ensures
        r == has_patch_in(songs@.take(upto as int), id@),
{
    for i in 0..upto
        invariant
            upto <= songs.len(),
            forall|j: int| 0 <= j < i ==> !types::has_patch((#[trigger] songs@[j]).patches@, id@),
    {
        let patches = &songs[i].patches;
        assert(patches@.take(patches@.len() as int) =~= patches@);
        if patch_before(patches, patches.len(), id) {
            assert(types::has_patch(songs@.take(upto as int)[i as int].patches@, id@));
            return true;
        }
    }
    false
}

/// Adds the faults in the patches of the song at index `at`.
fn check_song_patches(songs: &Vec<Song>, at: usize, errors: &mut Vec<ShowValidationError>)
    requires
        at < songs.len(),
    ensures
        show_faults_of(final(errors)@) == show_faults_of(old(errors)@) + song_patch_faults(
            songs@.take(at as int),
            songs@[at as int].id@,
            songs@[at as int].patches@,
        ),
{
    let song = &songs[at];
    let ghost start = show_faults_of(errors@);
    let ghost before = songs@.take(at as int);
    let n: usize = song.patches.len();
    assert(song.patches@.take(0) =~= Seq::empty());
    assert(start + Seq::<ShowFault>::empty() =~= start);
    for i in 0..n
        invariant
            at < songs.len(),
            *song == songs@[at as int],
            before == songs@.take(at as int),
            n == song.patches.len(),
            show_faults_of(errors@) == start + song_patch_faults(
                before,
                song.id@,
                song.patches@.take(i as int),
            ),
    {
        let patch = &song.patches[i];
        assert(song.patches@.take(i + 1).drop_last() =~= song.patches@.take(i as int));
        if patch_in_songs(songs, at, patch.id.as_str()) || patch_before(
            &song.patches,
            i,
            patch.id.as_str(),
        ) {
            report(errors, ShowValidationError::DuplicatePatchId(patch.id.clone()));
        }
        if let Err(graph_errors) = patch.graph.validate() {
            assert(validate::faults(graph_errors@).len() == graph_errors.len());
            report(
                errors,
                ShowValidationError::PatchInvalid {
                    song: song.id.clone(),
                    patch: patch.id.clone(),
                    errors: graph_errors,
                },
            );
        }
        assert(show_faults_of(errors@) =~= start + song_patch_faults(
            before,
            song.id@,
            song.patches@.take(i + 1),
        ));
    }
    assert(song.patches@.take(n as int) =~= song.patches@);
}

/// Adds the faults in the patches of all songs.
fn check_patches(songs: &Vec<Song>, errors: &mut Vec<ShowValidationError>)
    ensures
        show_faults_of(final(errors)@) == show_faults_of(old(errors)@) + patch_faults(songs@),
{
    let ghost start = show_faults_of(errors@);
    let n: usize = songs.len();
    assert(songs@.take(0) =~= Seq::empty());
    assert(start + Seq::<ShowFault>::empty() =~= start);
    for i in 0..n
        invariant
            n == songs.len(),
            show_faults_of(errors@) == start + patch_faults(songs@.take(i as int)),
    {
        assert(songs@.take(i + 1).drop_last() =~= songs@.take(i as int));
        check_song_patches(songs, i, errors);
        assert(show_faults_of(errors@) =~= start + patch_faults(songs@.take(i + 1)));
    }
    assert(songs@.take(n as int) =~= songs@);
}

/// Adds the faults in the ids of the songs.
fn check_songs(songs: &Vec<Song>, errors: &mut Vec<ShowValidationError>)
    ensures
        show_faults_of(final(errors)@) == show_faults_of(old(errors)@) + song_faults(songs@),
{
    let ghost start = show_faults_of(errors@);
    let n: usize = songs.len();
    assert(songs@.take(0) =~= Seq::empty());
    assert(start + Seq::<ShowFault>::empty() =~= start);
    for i in 0..n
        invariant
            n == songs.len(),
            show_faults_of(errors@) == start + song_faults(songs@.take(i as int)),
    {
        let ghost before = songs@.take(i as int);
        let id = &songs[i].id;
        assert(songs@.take(i + 1).drop_last() =~= before);
        let mut again = false;
        for j in 0..i
            invariant
                i < songs.len(),
                before == songs@.take(i as int),
                id@ == songs@[i as int].id@,
                again == exists|k: int| 0 <= k < j && (#[trigger] before[k]).id@ == id@,
        {
            assert(before[j as int] == songs@[j as int]);
            if same_text(songs[j].id.as_str(), id.as_str()) {
                again = true;
            }
        }
        if again {
            report(errors, ShowValidationError::DuplicateSongId(id.clone()));
        }
        assert(show_faults_of(errors@) =~= start + song_faults(songs@.take(i + 1)));
    }
    assert(songs@.take(n as int) =~= songs@);
}

/// Adds the faults in the ids of the rig's components.
fn check_components(components: &Vec<RigComponent>, errors: &mut Vec<ShowValidationError>)
    ensures
        show_faults_of(final(errors)@) == show_faults_of(old(errors)@) + component_faults(components@),
{
    let ghost start = show_faults_of(errors@);
    let n: usize = components.len();
    assert(components@.take(0) =~= Seq::empty());
    assert(start + Seq::<ShowFault>::empty() =~= start);
    for i in 0..n
        invariant
            n == components.len(),
            show_faults_of(errors@) == start + component_faults(components@.take(i as int)),
    {
        let ghost before = components@.take(i as int);
        let id = &components[i].id;
        assert(components@.take(i + 1).drop_last() =~= before);
        let mut again = false;
        for j in 0..i
            invariant
                i < components.len(),
                before == components@.take(i as int),
                id@ == components@[i as int].id@,
                again == exists|k: int| 0 <= k < j && (#[trigger] before[k]).id@ == id@,
        {
            assert(before[j as int] == components@[j as int]);
            if same_text(components[j].id.as_str(), id.as_str()) {
                again = true;
            }
        }
        if again {
            report(errors, ShowValidationError::DuplicateRigComponentId(id.clone()));
        }
        assert(show_faults_of(errors@) =~= start + component_faults(components@.take(i + 1)));
    }
    assert(components@.take(n as int) =~= components@);
}

/// Adds the faults in the ids of the saved blocks.
fn check_blocks(blocks: &Vec<SavedBlock>, errors: &mut Vec<ShowValidationError>)
    ensures
        show_faults_of(final(errors)@) == show_faults_of(old(errors)@) + block_faults(blocks@),
{
    let ghost start = show_faults_of(errors@);
    let n: usize = blocks.len();
    assert(blocks@.take(0) =~= Seq::empty());
    assert(start + Seq::<ShowFault>::empty() =~= start);
    for i in 0..n
        invariant
            n == blocks.len(),
            show_faults_of(errors@) == start + block_faults(blocks@.take(i as int)),
    {
        let ghost before = blocks@.take(i as int);
        let id = &blocks[i].id;
        assert(blocks@.take(i + 1).drop_last() =~= before);
        let mut again = false;
        for j in 0..i
            invariant
                i < blocks.len(),
                before == blocks@.take(i as int),
                id@ == blocks@[i as int].id@,
                again == exists|k: int| 0 <= k < j && (#[trigger] before[k]).id@ == id@,
        {
            assert(before[j as int] == blocks@[j as int]);
            if same_text(blocks[j].id.as_str(), id.as_str()) {
                again = true;
            }
        }
        if again {
            report(errors, ShowValidationError::DuplicateBlockId(id.clone()));
        }
        assert(show_faults_of(errors@) =~= start + block_faults(blocks@.take(i + 1)));
    }
    assert(blocks@.take(n as int) =~= blocks@);
}

impl Show {
    /// Checks the show and every graph in it, and gives every fault.
    pub fn validate(&self) -> (r: Result<(), Vec<ShowValidationError>>)
        ensures
            (match r {
                Ok(()) => show_faults(*self).len() == 0,
                Err(errors) => errors.len() > 0 && show_faults_of(errors@) == show_faults(*self),
            }),
    {
        let mut errors: Vec<ShowValidationError> = Vec::new();
        check_songs(&self.songs, &mut errors);
        check_patches(&self.songs, &mut errors);
        check_components(&self.rig.components, &mut errors);
        check_blocks(&self.saved_blocks, &mut errors);
        assert(show_faults_of(errors@) =~= show_faults(*self));
        if errors.is_empty() {
            Ok(())
        } else {
            Err(errors)
        }
    }
}

} // verus!
