use vstd::prelude::*;
use crate::model::{Craft, SaveWorld, WorldSettings, WorldView, views, copy_bytes};
use crate::resolve::{
    ChangeNote, ConflictError, NoteKind, conflicts_spec, merged_spec, notes_spec, note_views,
    resolve,
};
use crate::diff::id_views;
use crate::play_time::{clamp_counter, merge_play_time};
use vstd::string::StringSliceAdditionalSpecFns;

verus! {

/// The merged world together with the summary of the local contribution.
#[derive(Debug)]
pub struct MergeResult {
    pub world: SaveWorld,
    pub notes: Vec<ChangeNote>,
}

/// The settings of the merged world: the remote section, with the play time
/// of both sides accumulated.
pub open spec fn merged_settings_time(base: WorldView, local: WorldView, remote: WorldView) -> int {
    clamp_counter(
        remote.settings.play_time as int + (local.settings.play_time as int
            - base.settings.play_time as int),
    )
}

pub fn copy_crafts(crafts: &Vec<Craft>) -> (r: Vec<Craft>)
    ensures
        views(r@) == views(crafts@),
{
    let mut r: Vec<Craft> = Vec::new();
    let mut i: usize = 0;
    while i < crafts.len()
        invariant
            0 <= i <= crafts@.len(),
            views(r@) == views(crafts@).take(i as int),
        decreases crafts@.len() - i,
    {
        let ghost prev = r@;
        let c = crafts[i].duplicate();
        r.push(c);
        assert(views(r@) =~= views(prev).push(crafts@[i as int]@));
        i = i + 1;
        assert(views(r@) =~= views(crafts@).take(i as int));
    }
    assert(views(crafts@).take(crafts@.len() as int) =~= views(crafts@));
    r
}

/// Merges the local work into the freshly fetched remote world. On a
/// conflict nothing is produced but the list of conflicting identifiers.
pub fn reconcile_for_upload(
    base: &SaveWorld,
    local: &SaveWorld,
    remote: &SaveWorld,
    author: &Vec<u8>,
) -> (r: Result<MergeResult, ConflictError>)
    requires
        base@.wf(),
        local@.wf(),
        remote@.wf(),
    ensures
        match r {
            Ok(m) => {
                &&& conflicts_spec(base@.crafts, local@.crafts, remote@.crafts).len() == 0
                &&& m.world@.wf()
                &&& m.world@.crafts == merged_spec(
                    base@.crafts,
                    local@.crafts,
                    remote@.crafts,
                    author@,
                )
                &&& m.world@.settings.play_time as int == merged_settings_time(
                    base@,
                    local@,
                    remote@,
                )
                &&& m.world@.settings.passthrough == remote@.settings.passthrough
                &&& m.world@.persistent == remote@.persistent
                &&& note_views(m.notes@) == notes_spec(
                    base@.crafts,
                    local@.crafts,
                    remote@.crafts,
                )
            },
            Err(e) => {
                &&& conflicts_spec(base@.crafts, local@.crafts, remote@.crafts).len() > 0
                &&& id_views(e.identifiers@) == conflicts_spec(
                    base@.crafts,
                    local@.crafts,
                    remote@.crafts,
                )
            },
        },
{
    let res = resolve(base, local, remote, author)?;
    let settings = WorldSettings {
        total_play_time_seconds: merge_play_time(
            base.settings.total_play_time_seconds,
            local.settings.total_play_time_seconds,
            remote.settings.total_play_time_seconds,
        ),
        passthrough: copy_bytes(&remote.settings.passthrough),
    };
    let world = SaveWorld {
        crafts: res.crafts,
        settings,
        persistent_data: copy_bytes(&remote.persistent_data),
    };
    Ok(MergeResult { world, notes: res.notes })
}

/// The local copy written after an update: the shared world with its play
/// time counter reset, so that the next upload contributes only new time.
pub fn reconcile_for_update(remote: &SaveWorld) -> (r: SaveWorld)
    ensures
        r@.crafts == remote@.crafts,
        remote@.wf() ==> r@.wf(),
        r@.settings.play_time == 0,
        r@.settings.passthrough == remote@.settings.passthrough,
        r@.persistent == remote@.persistent,
{
    SaveWorld {
        crafts: copy_crafts(&remote.crafts),
        settings: WorldSettings {
            total_play_time_seconds: 0,
            passthrough: copy_bytes(&remote.settings.passthrough),
        },
        persistent_data: copy_bytes(&remote.persistent_data),
    }
}

/// The words that describe a summary entry.
pub open spec fn phrase(kind: NoteKind) -> Seq<u8> {
    match kind {
        NoteKind::Added => "added ".spec_bytes(),
        NoteKind::Removed => "removed ".spec_bytes(),
        NoteKind::Altered => "altered ".spec_bytes(),
        NoteKind::Rekeyed => "added under a new identifier ".spec_bytes(),
        NoteKind::KeptAltered => "resolved conflict on ".spec_bytes(),
    }
}

pub open spec fn phrase_tail(kind: NoteKind) -> Seq<u8> {
    match kind {
        NoteKind::KeptAltered => ": kept altered version".spec_bytes(),
        _ => Seq::empty(),
    }
}

/// One summary line: `<author>: <phrase><craft name><tail>`.
pub open spec fn note_text(author: Seq<u8>, note: (NoteKind, Seq<u8>, Seq<u8>)) -> Seq<u8> {
    author + ": ".spec_bytes() + phrase(note.0) + note.2 + phrase_tail(note.0)
}

fn append_bytes(out: &mut Vec<u8>, b: &[u8])
    ensures
        final(out)@ == old(out)@ + b@,
{
    let mut i: usize = 0;
    while i < b.len()
        invariant
            0 <= i <= b@.len(),
            out@ == old(out)@ + b@.take(i as int),
        decreases b@.len() - i,
    {
        out.push(b[i]);
        i = i + 1;
        assert(out@ =~= old(out)@ + b@.take(i as int));
    }
    assert(b@.take(b@.len() as int) =~= b@);
}

/// Renders one summary entry, attributed to `author`.
pub fn render_note(author: &Vec<u8>, note: &ChangeNote) -> (r: Vec<u8>)
    ensures
        r@ == note_text(author@, note@),
{
    let mut out = copy_bytes(author);
    append_bytes(&mut out, ": ".as_bytes());
    let ghost start = out@;
    match note.kind {
        NoteKind::Added => append_bytes(&mut out, "added ".as_bytes()),
        NoteKind::Removed => append_bytes(&mut out, "removed ".as_bytes()),
        NoteKind::Altered => append_bytes(&mut out, "altered ".as_bytes()),
        NoteKind::Rekeyed => append_bytes(&mut out, "added under a new identifier ".as_bytes()),
        NoteKind::KeptAltered => append_bytes(&mut out, "resolved conflict on ".as_bytes()),
    }
    assert(out@ == start + phrase(note.kind));
    append_bytes(&mut out, note.craft_name.as_slice());
    if note.kind == NoteKind::KeptAltered {
        append_bytes(&mut out, ": kept altered version".as_bytes());
    } else {
        assert(out@ =~= out@ + phrase_tail(note.kind));
    }
    assert(out@ =~= note_text(author@, note@));
    out
}

/// Renders the whole summary, one line per entry, in order.
pub fn render_summary(author: &Vec<u8>, notes: &Vec<ChangeNote>) -> (r: Vec<Vec<u8>>)
    ensures
        r@.len() == notes@.len(),
        forall|i: int| 0 <= i < notes@.len() ==> #[trigger] r@[i]@ == note_text(author@, notes@[i]@),
{
    let mut r: Vec<Vec<u8>> = Vec::new();
    let mut i: usize = 0;
    while i < notes.len()
        invariant
            0 <= i <= notes@.len(),
            r@.len() == i,
            forall|j: int| 0 <= j < i ==> #[trigger] r@[j]@ == note_text(author@, notes@[j]@),
        decreases notes@.len() - i,
    {
        r.push(render_note(author, &notes[i]));
        i = i + 1;
    }
    r
}

/// How the remote store answered a publish.
#[derive(PartialEq, Eq, Structural, Clone, Copy, Debug)]
pub enum PublishOutcome {
    Published,
    StaleBase,
}

/// What the uploader does next.
#[derive(PartialEq, Eq, Structural, Clone, Copy, Debug)]
pub enum UploadAction {
    /// Fetch the remote snapshot again and recompute the merge from it.
    Refetch,
    Finished,
    /// The remote kept moving: stop without writing anything.
    GiveUp,
}

/// How many publish attempts one upload makes at most.
pub const MAX_PUBLISH_ATTEMPTS: u32 = 3;

pub open spec fn next_action_spec(outcome: PublishOutcome, attempts: u32, limit: u32) -> UploadAction {
    match outcome {
        PublishOutcome::Published => UploadAction::Finished,
        PublishOutcome::StaleBase => if attempts < limit {
            UploadAction::Refetch
        } else {
            UploadAction::GiveUp
        },
    }
}

/// Decides what follows a publish, given how many attempts have been made.
pub fn next_action(outcome: PublishOutcome, attempts: u32, limit: u32) -> (r: UploadAction)
    ensures
        r == next_action_spec(outcome, attempts, limit),
{
    match outcome {
        PublishOutcome::Published => UploadAction::Finished,
        PublishOutcome::StaleBase => if attempts < limit {
            UploadAction::Refetch
        } else {
            UploadAction::GiveUp
        },
    }
}

/// A publish rejected for a stale base while attempts are left leads to a
/// fresh fetch and a new merge, and the publish that goes through ends the
/// upload. With the contract of `reconcile_for_upload`, which fails only on
/// conflicts, a retry whose local changes apply cleanly to the fresh fetch
/// succeeds.
pub proof fn lemma_stale_base_retry(attempts: u32, limit: u32)
    requires
        attempts < limit,
    ensures
        next_action_spec(PublishOutcome::StaleBase, attempts, limit) == UploadAction::Refetch,
        next_action_spec(PublishOutcome::Published, (attempts + 1) as u32, limit)
            == UploadAction::Finished,
{
}

} // verus!
