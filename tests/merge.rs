use shared_save::model::{Craft, CraftStatus, SaveWorld, WorldSettings};
use shared_save::diff::diff;
use shared_save::resolve::{resolve, NoteKind};
use shared_save::driver::{
    next_action, reconcile_for_update, reconcile_for_upload, render_note, render_summary,
    PublishOutcome, UploadAction, MAX_PUBLISH_ATTEMPTS,
};
use shared_save::play_time::merge_play_time;

fn craft(id: &str, name: &str, author: &str, payload: &[u8]) -> Craft {
    Craft {
        id: id.as_bytes().to_vec(),
        name: name.as_bytes().to_vec(),
        author: author.as_bytes().to_vec(),
        payload: payload.to_vec(),
        status: CraftStatus::Active,
    }
}

fn world(crafts: Vec<Craft>, play_time: u64) -> SaveWorld {
    SaveWorld {
        crafts,
        settings: WorldSettings { total_play_time_seconds: play_time, passthrough: b"difficulty=normal".to_vec() },
        persistent_data: b"persistent".to_vec(),
    }
}

fn ids(w: &SaveWorld) -> Vec<Vec<u8>> {
    w.crafts.iter().map(|c| c.id.clone()).collect()
}

fn find<'a>(w: &'a SaveWorld, id: &str) -> Option<&'a Craft> {
    w.crafts.iter().find(|c| c.id == id.as_bytes())
}

#[test]
fn diff_of_world_with_itself_is_empty() {
    let w = world(vec![craft("a", "Alpha", "ann", b"p1"), craft("b", "Beta", "bob", b"p2")], 5);
    let cs = diff(&w, &w);
    assert!(cs.added.is_empty());
    assert!(cs.removed.is_empty());
    assert!(cs.altered.is_empty());
}

#[test]
fn diff_classifies_each_change() {
    let base = world(
        vec![
            craft("keep", "Keep", "ann", b"k"),
            craft("gone", "Gone", "ann", b"g"),
            craft("boom", "Boom", "ann", b"b"),
            craft("edit", "Edit", "ann", b"e"),
        ],
        0,
    );
    let mut boom = craft("boom", "Boom", "ann", b"b");
    boom.status = CraftStatus::Destroyed;
    let other = world(
        vec![
            craft("keep", "Keep", "ann", b"k"),
            boom,
            craft("edit", "Edit", "ann", b"e2"),
            craft("new", "New", "bob", b"n"),
        ],
        0,
    );
    let cs = diff(&base, &other);
    assert_eq!(cs.added.len(), 1);
    assert_eq!(cs.added[0].id, b"new".to_vec());
    assert_eq!(cs.removed, vec![b"gone".to_vec(), b"boom".to_vec()]);
    assert_eq!(cs.altered.len(), 1);
    assert_eq!(cs.altered[0].before.payload, b"e".to_vec());
    assert_eq!(cs.altered[0].after.payload, b"e2".to_vec());
    for a in &cs.added {
        assert!(!cs.removed.contains(&a.id));
        assert!(cs.altered.iter().all(|x| x.after.id != a.id));
    }
    for r in &cs.removed {
        assert!(cs.altered.iter().all(|x| &x.after.id != r));
    }
}

#[test]
fn independent_additions_are_both_kept_in_either_order() {
    let base = world(vec![craft("hub", "Hub", "ann", b"h")], 0);
    let local = world(vec![craft("hub", "Hub", "ann", b"h"), craft("x", "Module X", "", b"x")], 0);
    let remote = world(vec![craft("hub", "Hub", "ann", b"h"), craft("y", "Module Y", "bob", b"y")], 0);
    let m1 = reconcile_for_upload(&base, &local, &remote, &b"alice".to_vec()).unwrap();
    let m2 = reconcile_for_upload(&base, &remote, &local, &b"alice".to_vec()).unwrap();
    for m in [&m1, &m2] {
        assert!(find(&m.world, "x").is_some());
        assert!(find(&m.world, "y").is_some());
        assert!(find(&m.world, "hub").is_some());
        assert_eq!(m.world.crafts.len(), 3);
    }
    assert_eq!(find(&m1.world, "x").unwrap().author, b"alice".to_vec());
    assert_eq!(find(&m1.world, "y").unwrap().author, b"bob".to_vec());
}

#[test]
fn same_key_divergent_additions_are_rekeyed() {
    let base = world(vec![], 0);
    let local = world(vec![craft("k", "Station", "", b"X")], 0);
    let remote = world(vec![craft("k", "Station", "bob", b"Y")], 0);
    let m = reconcile_for_upload(&base, &local, &remote, &b"alice".to_vec()).unwrap();
    assert_eq!(m.world.crafts.len(), 2);
    let all = ids(&m.world);
    assert_ne!(all[0], all[1]);
    assert_eq!(find(&m.world, "k").unwrap().payload, b"Y".to_vec());
    let moved = find(&m.world, "k@alice").unwrap();
    assert_eq!(moved.payload, b"X".to_vec());
    assert_eq!(moved.author, b"alice".to_vec());
    assert_eq!(m.notes.len(), 1);
    assert_eq!(m.notes[0].kind, NoteKind::Rekeyed);
}

#[test]
fn same_key_identical_additions_are_kept_once() {
    let base = world(vec![], 0);
    let local = world(vec![craft("k", "Station", "", b"X")], 0);
    let remote = world(vec![craft("k", "Station", "bob", b"X")], 0);
    let m = reconcile_for_upload(&base, &local, &remote, &b"alice".to_vec()).unwrap();
    assert_eq!(m.world.crafts.len(), 1);
    assert!(m.notes.is_empty());
}

#[test]
fn rekey_skips_identifiers_already_in_use() {
    let base = world(vec![craft("k@alice", "Old", "bob", b"Z")], 0);
    let local = world(vec![craft("k@alice", "Old", "bob", b"Z"), craft("k", "Station", "", b"X")], 0);
    let remote = world(
        vec![craft("k@alice", "Old", "bob", b"Z"), craft("k", "Station", "bob", b"Y"), craft("k@alice#", "Other", "bob", b"W")],
        0,
    );
    let m = reconcile_for_upload(&base, &local, &remote, &b"alice".to_vec()).unwrap();
    assert_eq!(m.world.crafts.len(), 4);
    assert_eq!(find(&m.world, "k").unwrap().payload, b"Y".to_vec());
    assert_eq!(find(&m.world, "k@alice").unwrap().payload, b"Z".to_vec());
    assert_eq!(find(&m.world, "k@alice#").unwrap().payload, b"W".to_vec());
    let moved = find(&m.world, "k@alice##").unwrap();
    assert_eq!(moved.payload, b"X".to_vec());
    assert_eq!(moved.author, b"alice".to_vec());
}

#[test]
fn two_rekeyed_additions_get_distinct_keys() {
    let base = world(vec![], 0);
    let local = world(vec![craft("a", "A", "", b"1"), craft("a@alice", "B", "", b"2")], 0);
    let remote = world(vec![craft("a", "A", "bob", b"3"), craft("a@alice", "B", "bob", b"4")], 0);
    let m = reconcile_for_upload(&base, &local, &remote, &b"alice".to_vec()).unwrap();
    assert_eq!(m.world.crafts.len(), 4);
    let mut all = ids(&m.world);
    all.sort();
    all.dedup();
    assert_eq!(all.len(), 4);
    assert_eq!(find(&m.world, "a@alice#").unwrap().payload, b"1".to_vec());
    assert_eq!(find(&m.world, "a@alice@alice").unwrap().payload, b"2".to_vec());
}

#[test]
fn divergent_renames_with_equal_payload_keep_the_remote_version() {
    let base = world(vec![craft("k", "Rover", "ann", b"P")], 0);
    let local = world(vec![craft("k", "Rover L", "ann", b"P")], 0);
    let remote = world(vec![craft("k", "Rover R", "ann", b"P")], 0);
    let m = reconcile_for_upload(&base, &local, &remote, &b"alice".to_vec()).unwrap();
    assert_eq!(m.world.crafts.len(), 1);
    assert_eq!(m.world.crafts[0].name, b"Rover R".to_vec());
}

#[test]
fn play_time_accumulates_and_resets_after_update() {
    assert_eq!(merge_play_time(100, 130, 150), 180);
    let base = world(vec![], 100);
    let local = world(vec![], 130);
    let remote = world(vec![], 150);
    let m = reconcile_for_upload(&base, &local, &remote, &b"alice".to_vec()).unwrap();
    assert_eq!(m.world.settings.total_play_time_seconds, 180);
    let updated = reconcile_for_update(&m.world);
    assert_eq!(updated.settings.total_play_time_seconds, 0);
    let again = reconcile_for_upload(&updated, &updated, &m.world, &b"alice".to_vec()).unwrap();
    assert_eq!(again.world.settings.total_play_time_seconds, 180);
}

#[test]
fn play_time_is_clamped() {
    assert_eq!(merge_play_time(100, 10, 20), 0);
    assert_eq!(merge_play_time(0, u64::MAX, 5), u64::MAX);
    assert_eq!(merge_play_time(7, 7, 42), 42);
}

#[test]
fn update_keeps_crafts_and_passthrough() {
    let remote = world(vec![craft("a", "Alpha", "ann", b"p")], 99);
    let local = reconcile_for_update(&remote);
    assert_eq!(ids(&local), vec![b"a".to_vec()]);
    assert_eq!(local.settings.passthrough, remote.settings.passthrough);
    assert_eq!(local.persistent_data, remote.persistent_data);
}

#[test]
fn removal_against_alteration_keeps_the_altered_craft() {
    let base = world(vec![craft("k", "Lander", "ann", b"p")], 0);
    let local = world(vec![], 0);
    let remote = world(vec![craft("k", "Lander Mk2", "ann", b"p")], 0);
    let m = reconcile_for_upload(&base, &local, &remote, &b"alice".to_vec()).unwrap();
    assert_eq!(m.world.crafts.len(), 1);
    assert_eq!(m.world.crafts[0].name, b"Lander Mk2".to_vec());
    assert_eq!(m.notes.len(), 1);
    assert_eq!(m.notes[0].kind, NoteKind::KeptAltered);
    let line = render_note(&b"alice".to_vec(), &m.notes[0]);
    assert_eq!(line, b"alice: resolved conflict on Lander Mk2: kept altered version".to_vec());
}

#[test]
fn local_alteration_against_remote_removal_keeps_the_alteration() {
    let base = world(vec![craft("k", "Lander", "ann", b"p")], 0);
    let local = world(vec![craft("k", "Lander", "ann", b"p2")], 0);
    let remote = world(vec![], 0);
    let m = reconcile_for_upload(&base, &local, &remote, &b"alice".to_vec()).unwrap();
    assert_eq!(m.world.crafts.len(), 1);
    assert_eq!(m.world.crafts[0].payload, b"p2".to_vec());
    assert_eq!(m.notes[0].kind, NoteKind::KeptAltered);
}

#[test]
fn divergent_alterations_fail_with_a_conflict() {
    let base = world(vec![craft("k", "Rover", "ann", b"P0"), craft("j", "Jet", "ann", b"J")], 0);
    let local = world(vec![craft("k", "Rover", "ann", b"P1"), craft("j", "Jet", "ann", b"J")], 0);
    let remote = world(vec![craft("k", "Rover", "ann", b"P2"), craft("j", "Jet", "ann", b"J")], 0);
    let e = reconcile_for_upload(&base, &local, &remote, &b"alice".to_vec()).unwrap_err();
    assert_eq!(e.identifiers, vec![b"k".to_vec()]);
    assert!(resolve(&base, &local, &remote, &b"alice".to_vec()).is_err());
}

#[test]
fn accepted_removal_and_alteration_are_summarised() {
    let base = world(vec![craft("a", "Alpha", "ann", b"1"), craft("b", "Beta", "ann", b"2")], 0);
    let local = world(vec![craft("b", "Beta", "ann", b"3"), craft("c", "Gamma", "", b"4")], 0);
    let remote = world(vec![craft("a", "Alpha", "ann", b"1"), craft("b", "Beta", "ann", b"2")], 0);
    let m = reconcile_for_upload(&base, &local, &remote, &b"alice".to_vec()).unwrap();
    assert_eq!(ids(&m.world), vec![b"b".to_vec(), b"c".to_vec()]);
    let lines = render_summary(&b"alice".to_vec(), &m.notes);
    assert_eq!(
        lines,
        vec![
            b"alice: removed Alpha".to_vec(),
            b"alice: altered Beta".to_vec(),
            b"alice: added Gamma".to_vec(),
        ]
    );
}

#[test]
fn destroyed_crafts_leave_the_merged_world() {
    let base = world(vec![craft("a", "Alpha", "ann", b"1")], 0);
    let mut gone = craft("a", "Alpha", "ann", b"1");
    gone.status = CraftStatus::Destroyed;
    let local = world(vec![gone], 0);
    let remote = world(vec![craft("a", "Alpha", "ann", b"1")], 0);
    let m = reconcile_for_upload(&base, &local, &remote, &b"alice".to_vec()).unwrap();
    assert!(m.world.crafts.is_empty());
    assert_eq!(m.notes[0].kind, NoteKind::Removed);
}

#[test]
fn stale_base_leads_to_refetch_and_the_retry_succeeds() {
    assert_eq!(next_action(PublishOutcome::StaleBase, 1, MAX_PUBLISH_ATTEMPTS), UploadAction::Refetch);
    assert_eq!(next_action(PublishOutcome::StaleBase, MAX_PUBLISH_ATTEMPTS, MAX_PUBLISH_ATTEMPTS), UploadAction::GiveUp);
    assert_eq!(next_action(PublishOutcome::Published, 2, MAX_PUBLISH_ATTEMPTS), UploadAction::Finished);
    let base = world(vec![craft("hub", "Hub", "ann", b"h")], 10);
    let local = world(vec![craft("hub", "Hub", "ann", b"h"), craft("x", "X", "", b"x")], 20);
    let fresh = world(vec![craft("hub", "Hub", "ann", b"h"), craft("z", "Z", "bob", b"z")], 40);
    let m = reconcile_for_upload(&base, &local, &fresh, &b"alice".to_vec()).unwrap();
    assert!(find(&m.world, "x").is_some());
    assert!(find(&m.world, "z").is_some());
    assert_eq!(m.world.settings.total_play_time_seconds, 50);
}

#[test]
fn idle_upload_publishes_the_remote_world() {
    let base = world(vec![craft("a", "Alpha", "ann", b"1")], 10);
    let mut wreck = craft("w", "Wreck", "bob", b"2");
    wreck.status = CraftStatus::Destroyed;
    let remote = world(vec![craft("a", "Alpha", "ann", b"9"), wreck, craft("n", "New", "bob", b"3")], 70);
    let m = reconcile_for_upload(&base, &base, &remote, &b"alice".to_vec()).unwrap();
    assert_eq!(ids(&m.world), vec![b"a".to_vec(), b"n".to_vec()]);
    assert_eq!(find(&m.world, "a").unwrap().payload, b"9".to_vec());
    assert_eq!(m.world.settings.total_play_time_seconds, 70);
    assert!(m.notes.is_empty());
}

#[test]
fn summary_entries_name_distinct_crafts() {
    let base = world(vec![craft("a", "Alpha", "ann", b"1"), craft("b", "Beta", "ann", b"2")], 0);
    let local = world(vec![craft("b", "Beta", "ann", b"5"), craft("k", "Kay", "", b"6")], 0);
    let remote = world(vec![craft("a", "Alpha", "ann", b"7"), craft("b", "Beta", "ann", b"2"), craft("k", "Kay", "bob", b"8")], 0);
    let m = reconcile_for_upload(&base, &local, &remote, &b"alice".to_vec()).unwrap();
    let note_ids: Vec<Vec<u8>> = m.notes.iter().map(|n| n.craft_id.clone()).collect();
    assert_eq!(note_ids, vec![b"a".to_vec(), b"b".to_vec(), b"k".to_vec()]);
    assert_eq!(m.notes[0].kind, NoteKind::KeptAltered);
    assert_eq!(m.notes[1].kind, NoteKind::Altered);
    assert_eq!(m.notes[2].kind, NoteKind::Rekeyed);
    assert_eq!(find(&m.world, "k@alice").unwrap().payload, b"6".to_vec());
}
