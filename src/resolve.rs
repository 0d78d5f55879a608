use vstd::prelude::*;
use crate::model::{
    Craft, CraftStatus, CraftView, SaveWorld, views, unique_ids, has_id, craft_with,
    content_differs, lemma_craft_with_index, position_of, copy_bytes, bytes_equal,
};
use crate::diff::{
    is_removal, id_views, diff_spec, removed_step, altered_step, lemma_filter_map_origin,
    lemma_filter_map_none,
};

verus! {

/// How one side changed a craft relative to the base.
#[derive(PartialEq, Eq, Structural, Clone, Copy, Debug)]
pub enum Change {
    NotInBase,
    Unchanged,
    Removed,
    Altered,
}

pub open spec fn change_kind(base: Seq<CraftView>, side: Seq<CraftView>, k: Seq<u8>) -> Change {
    if !has_id(base, k) {
        Change::NotInBase
    } else if !has_id(side, k) || is_removal(craft_with(base, k), craft_with(side, k)) {
        Change::Removed
    } else if content_differs(craft_with(base, k), craft_with(side, k)) {
        Change::Altered
    } else {
        Change::Unchanged
    }
}

/// What a summary line reports about a craft.
#[derive(PartialEq, Eq, Structural, Clone, Copy, Debug)]
pub enum NoteKind {
    Added,
    Removed,
    Altered,
    Rekeyed,
    KeptAltered,
}

/// One entry of the change summary: what happened, and to which craft.
#[derive(Debug)]
pub struct ChangeNote {
    pub kind: NoteKind,
    pub craft_id: Vec<u8>,
    pub craft_name: Vec<u8>,
}

impl View for ChangeNote {
    type V = (NoteKind, Seq<u8>, Seq<u8>);

    open spec fn view(&self) -> (NoteKind, Seq<u8>, Seq<u8>) {
        (self.kind, self.craft_id@, self.craft_name@)
    }
}

pub open spec fn note_views(s: Seq<ChangeNote>) -> Seq<(NoteKind, Seq<u8>, Seq<u8>)> {
    s.map_values(|n: ChangeNote| n@)
}

/// Identifiers that could not be merged automatically.
#[derive(Debug)]
pub struct ConflictError {
    pub identifiers: Vec<Vec<u8>>,
}

/// The crafts of the merged world and the summary of the local side's part.
#[derive(Debug)]
pub struct Resolution {
    pub crafts: Vec<Craft>,
    pub notes: Vec<ChangeNote>,
}

/// The separator between an identifier and an author label in a new key.
pub const REKEY_SEPARATOR: u8 = 64;

/// The byte appended to a new key until it is free.
pub const REKEY_PAD: u8 = 35;

/// The `n`-th key tried for a local addition that collides with a different
/// remote one: the identifier, the separator and the author label, followed
/// by `n` pad bytes.
pub open spec fn rekey_candidate(k: Seq<u8>, label: Seq<u8>, n: nat) -> Seq<u8>
    decreases n,
{
    if n == 0 {
        k.push(REKEY_SEPARATOR) + label
    } else {
        rekey_candidate(k, label, (n - 1) as nat).push(REKEY_PAD)
    }
}

/// Whether a key is used by the remote world, the local world, or the crafts
/// merged so far.
pub open spec fn key_taken(
    local: Seq<CraftView>,
    remote: Seq<CraftView>,
    merged: Seq<CraftView>,
    key: Seq<u8>,
) -> bool {
    has_id(remote, key) || has_id(local, key) || has_id(merged, key)
}

/// `n` is the first attempt whose key is free.
pub open spec fn is_first_free(
    local: Seq<CraftView>,
    remote: Seq<CraftView>,
    merged: Seq<CraftView>,
    k: Seq<u8>,
    label: Seq<u8>,
    n: nat,
) -> bool {
    &&& !key_taken(local, remote, merged, rekey_candidate(k, label, n))
    &&& forall|m: nat|
        m < n ==> key_taken(local, remote, merged, #[trigger] rekey_candidate(k, label, m))
}

/// The new key of a rekeyed local addition: the first free candidate.
pub open spec fn fresh_key(
    local: Seq<CraftView>,
    remote: Seq<CraftView>,
    merged: Seq<CraftView>,
    k: Seq<u8>,
    label: Seq<u8>,
) -> Seq<u8> {
    rekey_candidate(k, label, choose|n: nat| is_first_free(local, remote, merged, k, label, n))
}

/// The craft with the author label filled in when it has none.
pub open spec fn annotate(c: CraftView, label: Seq<u8>) -> CraftView {
    if c.author.len() == 0 {
        CraftView { author: label, ..c }
    } else {
        c
    }
}

pub open spec fn keep_active(o: Option<CraftView>) -> Option<CraftView> {
    match o {
        Some(c) => if c.status == CraftStatus::Active {
            Some(c)
        } else {
            None
        },
        None => None,
    }
}

/// Both sides altered the craft under `k`, and their payloads differ.
pub open spec fn payloads_diverge(
    base: Seq<CraftView>,
    local: Seq<CraftView>,
    remote: Seq<CraftView>,
    k: Seq<u8>,
) -> bool {
    change_kind(base, local, k) == Change::Altered && change_kind(base, remote, k)
        == Change::Altered && craft_with(local, k).payload != craft_with(remote, k).payload
}

/// The version kept for a craft of the remote world. When both sides altered
/// it with the same payload, the remote version (its name and status) is kept.
pub open spec fn remote_choice(
    base: Seq<CraftView>,
    local: Seq<CraftView>,
    remote: Seq<CraftView>,
    c: CraftView,
) -> Option<CraftView> {
    let lk = change_kind(base, local, c.id);
    let rk = change_kind(base, remote, c.id);
    if lk == Change::Altered {
        if rk == Change::Altered {
            if craft_with(local, c.id).payload != c.payload {
                None
            } else {
                Some(c)
            }
        } else {
            Some(craft_with(local, c.id))
        }
    } else if lk == Change::Removed {
        if rk == Change::Altered {
            Some(c)
        } else {
            None
        }
    } else {
        Some(c)
    }
}

/// Whether a local craft collides with a different remote addition.
pub open spec fn divergent_addition(
    base: Seq<CraftView>,
    remote: Seq<CraftView>,
    c: CraftView,
) -> bool {
    !has_id(base, c.id) && has_id(remote, c.id) && content_differs(c, craft_with(remote, c.id))
}

/// The version contributed by a craft of the local world that the remote
/// world does not already account for, given the crafts merged before it.
pub open spec fn local_choice(
    base: Seq<CraftView>,
    local: Seq<CraftView>,
    remote: Seq<CraftView>,
    label: Seq<u8>,
    merged: Seq<CraftView>,
    c: CraftView,
) -> Option<CraftView> {
    if !has_id(base, c.id) && !has_id(remote, c.id) {
        Some(annotate(c, label))
    } else if divergent_addition(base, remote, c) {
        Some(
            annotate(CraftView { id: fresh_key(local, remote, merged, c.id, label), ..c }, label),
        )
    } else if has_id(base, c.id) && !has_id(remote, c.id) && change_kind(base, local, c.id)
        == Change::Altered {
        Some(c)
    } else {
        None
    }
}

pub open spec fn remote_kept(
    base: Seq<CraftView>,
    local: Seq<CraftView>,
    remote: Seq<CraftView>,
) -> spec_fn(CraftView) -> Option<CraftView> {
    |c: CraftView| keep_active(remote_choice(base, local, remote, c))
}

/// What the crafts of `s` (a prefix of the local world) add after `front`,
/// in order; each rekeyed craft gets a key free of everything merged before.
pub open spec fn local_pass(
    base: Seq<CraftView>,
    local: Seq<CraftView>,
    remote: Seq<CraftView>,
    label: Seq<u8>,
    front: Seq<CraftView>,
    s: Seq<CraftView>,
) -> Seq<CraftView>
    decreases s.len(),
{
    if s.len() == 0 {
        Seq::empty()
    } else {
        let prev = local_pass(base, local, remote, label, front, s.drop_last());
        match keep_active(local_choice(base, local, remote, label, front + prev, s.last())) {
            Some(x) => prev.push(x),
            None => prev,
        }
    }
}

pub open spec fn remote_conflict(
    base: Seq<CraftView>,
    local: Seq<CraftView>,
    remote: Seq<CraftView>,
) -> spec_fn(CraftView) -> Option<Seq<u8>> {
    |c: CraftView|
        if payloads_diverge(base, local, remote, c.id) {
            Some(c.id)
        } else {
            None
        }
}

pub open spec fn remote_note(
    base: Seq<CraftView>,
    local: Seq<CraftView>,
    remote: Seq<CraftView>,
) -> spec_fn(CraftView) -> Option<(NoteKind, Seq<u8>, Seq<u8>)> {
    |c: CraftView|
        {
            let lk = change_kind(base, local, c.id);
            let rk = change_kind(base, remote, c.id);
            if lk == Change::Altered && rk == Change::Unchanged {
                Some((NoteKind::Altered, c.id, craft_with(local, c.id).name))
            } else if lk == Change::Altered && rk == Change::Removed {
                Some((NoteKind::KeptAltered, c.id, craft_with(local, c.id).name))
            } else if lk == Change::Removed && rk == Change::Altered {
                Some((NoteKind::KeptAltered, c.id, c.name))
            } else if lk == Change::Removed && rk == Change::Unchanged {
                Some((NoteKind::Removed, c.id, craft_with(base, c.id).name))
            } else {
                None
            }
        }
}

pub open spec fn local_note(
    base: Seq<CraftView>,
    local: Seq<CraftView>,
    remote: Seq<CraftView>,
) -> spec_fn(CraftView) -> Option<(NoteKind, Seq<u8>, Seq<u8>)> {
    |c: CraftView|
        if !has_id(base, c.id) && !has_id(remote, c.id) {
            Some((NoteKind::Added, c.id, c.name))
        } else if divergent_addition(base, remote, c) {
            Some((NoteKind::Rekeyed, c.id, c.name))
        } else if has_id(base, c.id) && !has_id(remote, c.id) && change_kind(base, local, c.id)
            == Change::Altered {
            Some((NoteKind::KeptAltered, c.id, c.name))
        } else {
            None
        }
}

/// Identifiers on which the two sides cannot be reconciled: crafts that both
/// sides altered with different payloads.
pub open spec fn conflicts_spec(
    base: Seq<CraftView>,
    local: Seq<CraftView>,
    remote: Seq<CraftView>,
) -> Seq<Seq<u8>> {
    remote.filter_map(remote_conflict(base, local, remote))
}

/// The crafts of the merged world: the remote crafts as resolved, then what
/// only the local side brings.
pub open spec fn merged_spec(
    base: Seq<CraftView>,
    local: Seq<CraftView>,
    remote: Seq<CraftView>,
    label: Seq<u8>,
) -> Seq<CraftView> {
    let front = remote.filter_map(remote_kept(base, local, remote));
    front + local_pass(base, local, remote, label, front, local)
}

pub open spec fn notes_spec(
    base: Seq<CraftView>,
    local: Seq<CraftView>,
    remote: Seq<CraftView>,
) -> Seq<(NoteKind, Seq<u8>, Seq<u8>)> {
    remote.filter_map(remote_note(base, local, remote)) + local.filter_map(
        local_note(base, local, remote),
    )
}

/// Classifies the change one side made to the craft under `id`, and finds it
/// in the base and in that side.
fn change_on(base: &Vec<Craft>, side: &Vec<Craft>, id: &Vec<u8>) -> (r: (
    Change,
    Option<usize>,
    Option<usize>,
))
    requires
        unique_ids(views(base@)),
        unique_ids(views(side@)),
    ensures
        r.0 == change_kind(views(base@), views(side@), id@),
        match r.1 {
            Some(j) => j < base@.len() && has_id(views(base@), id@) && base@[j as int]@
                == craft_with(views(base@), id@),
            None => !has_id(views(base@), id@),
        },
        match r.2 {
            Some(j) => j < side@.len() && has_id(views(side@), id@) && side@[j as int]@
                == craft_with(views(side@), id@),
            None => !has_id(views(side@), id@),
        },
{
    let bpos = position_of(base, id);
    let spos = position_of(side, id);
    proof {
        if let Some(j) = bpos {
            assert(views(base@)[j as int] == base@[j as int]@);
            lemma_craft_with_index(views(base@), j as int);
        }
        if let Some(j) = spos {
            assert(views(side@)[j as int] == side@[j as int]@);
            lemma_craft_with_index(views(side@), j as int);
        }
    }
    let kind = match bpos {
        None => Change::NotInBase,
        Some(bj) => match spos {
            None => Change::Removed,
            Some(sj) => {
                let b = &base[bj];
                let s = &side[sj];
                if b.status == CraftStatus::Active && s.status == CraftStatus::Destroyed {
                    Change::Removed
                } else if b.differs_from(s) {
                    Change::Altered
                } else {
                    Change::Unchanged
                }
            },
        },
    };
    (kind, bpos, spos)
}

fn annotated(c: &Craft, label: &Vec<u8>) -> (r: Craft)
    ensures
        r@ == annotate(c@, label@),
{
    let mut r = c.duplicate();
    if r.author.len() == 0 {
        r.author = copy_bytes(label);
    }
    r
}

fn rekeyed(k: &Vec<u8>, label: &Vec<u8>) -> (r: Vec<u8>)
    ensures
        r@ == rekey_candidate(k@, label@, 0),
{
    let mut r = copy_bytes(k);
    r.push(REKEY_SEPARATOR);
    let mut i: usize = 0;
    while i < label.len()
        invariant
            0 <= i <= label@.len(),
            r@ == k@.push(REKEY_SEPARATOR) + label@.take(i as int),
        decreases label@.len() - i,
    {
        r.push(label[i]);
        i = i + 1;
        assert(r@ =~= k@.push(REKEY_SEPARATOR) + label@.take(i as int));
    }
    assert(label@.take(label@.len() as int) =~= label@);
    r
}

fn push_kept(out: &mut Vec<Craft>, c: Craft)
    ensures
        views(final(out)@) == match keep_active(Some(c@)) {
            Some(x) => views(old(out)@).push(x),
            None => views(old(out)@),
        },
{
    if c.status == CraftStatus::Active {
        out.push(c);
        assert(views(out@) =~= views(old(out)@).push(c@));
    }
}

fn push_note(notes: &mut Vec<ChangeNote>, kind: NoteKind, id: &Vec<u8>, name: &Vec<u8>)
    ensures
        note_views(final(notes)@) == note_views(old(notes)@).push((kind, id@, name@)),
{
    notes.push(ChangeNote { kind, craft_id: copy_bytes(id), craft_name: copy_bytes(name) });
    assert(note_views(notes@) =~= note_views(old(notes)@).push((kind, id@, name@)));
}

fn push_id(ids: &mut Vec<Vec<u8>>, id: &Vec<u8>)
    ensures
        id_views(final(ids)@) == id_views(old(ids)@).push(id@),
{
    ids.push(copy_bytes(id));
    assert(id_views(ids@) =~= id_views(old(ids)@).push(id@));
}

/// One more element of the source adds at most one element to a `filter_map`.
pub proof fn lemma_filter_map_step<A, B>(s: Seq<A>, n: int, f: spec_fn(A) -> Option<B>)
    requires
        0 <= n < s.len(),
    ensures
        s.take(n + 1).filter_map(f) == match f(s[n]) {
            Some(x) => s.take(n).filter_map(f).push(x),
            None => s.take(n).filter_map(f),
        },
{
    assert(s.take(n + 1).drop_last() =~= s.take(n));
    assert(s.take(n + 1).last() == s[n]);
    if let Some(x) = f(s[n]) {
        assert(s.take(n).filter_map(f) + seq![x] =~= s.take(n).filter_map(f).push(x));
    }
}

proof fn lemma_candidate_len(k: Seq<u8>, label: Seq<u8>, n: nat)
    ensures
        rekey_candidate(k, label, n).len() == k.len() + 1 + label.len() + n,
    decreases n,
{
    if n > 0 {
        lemma_candidate_len(k, label, (n - 1) as nat);
    }
}

/// The length of the longest identifier in `s`.
pub open spec fn max_id_len(s: Seq<CraftView>) -> nat
    decreases s.len(),
{
    if s.len() == 0 {
        0
    } else {
        let m = max_id_len(s.drop_last());
        if s.last().id.len() > m {
            s.last().id.len()
        } else {
            m
        }
    }
}

proof fn lemma_max_id_len(s: Seq<CraftView>, i: int)
    requires
        0 <= i < s.len(),
    ensures
        s[i].id.len() <= max_id_len(s),
    decreases s.len(),
{
    if i < s.len() - 1 {
        assert(s.drop_last()[i] == s[i]);
        lemma_max_id_len(s.drop_last(), i);
    }
}

proof fn lemma_long_key_free(s: Seq<CraftView>, key: Seq<u8>)
    requires
        key.len() > max_id_len(s),
    ensures
        !has_id(s, key),
{
    if has_id(s, key) {
        let i = choose|i: int| 0 <= i < s.len() && #[trigger] s[i].id == key;
        lemma_max_id_len(s, i);
    }
}

proof fn lemma_first_free_below(
    local: Seq<CraftView>,
    remote: Seq<CraftView>,
    merged: Seq<CraftView>,
    k: Seq<u8>,
    label: Seq<u8>,
    n: nat,
)
    requires
        !key_taken(local, remote, merged, rekey_candidate(k, label, n)),
    ensures
        exists|m: nat| is_first_free(local, remote, merged, k, label, m),
    decreases n,
{
    if forall|m: nat|
        m < n ==> key_taken(local, remote, merged, #[trigger] rekey_candidate(k, label, m)) {
        assert(is_first_free(local, remote, merged, k, label, n));
    } else {
        let m = choose|m: nat|
            m < n && !key_taken(local, remote, merged, #[trigger] rekey_candidate(k, label, m));
        lemma_first_free_below(local, remote, merged, k, label, m);
    }
}

/// Some candidate key is free, since the candidates grow longer than every
/// identifier in use; so there is a first free one.
proof fn lemma_first_free_exists(
    local: Seq<CraftView>,
    remote: Seq<CraftView>,
    merged: Seq<CraftView>,
    k: Seq<u8>,
    label: Seq<u8>,
)
    ensures
        exists|m: nat| is_first_free(local, remote, merged, k, label, m),
{
    let big = max_id_len(local) + max_id_len(remote) + max_id_len(merged) + 1;
    let key = rekey_candidate(k, label, big);
    lemma_candidate_len(k, label, big);
    lemma_long_key_free(local, key);
    lemma_long_key_free(remote, key);
    lemma_long_key_free(merged, key);
    lemma_first_free_below(local, remote, merged, k, label, big);
}

proof fn lemma_first_free_unique(
    local: Seq<CraftView>,
    remote: Seq<CraftView>,
    merged: Seq<CraftView>,
    k: Seq<u8>,
    label: Seq<u8>,
    a: nat,
    b: nat,
)
    requires
        is_first_free(local, remote, merged, k, label, a),
        is_first_free(local, remote, merged, k, label, b),
    ensures
        a == b,
{
    if a < b {
        assert(key_taken(local, remote, merged, rekey_candidate(k, label, a)));
    } else if b < a {
        assert(key_taken(local, remote, merged, rekey_candidate(k, label, b)));
    }
}

/// The fresh key is free of the remote world, the local world and the crafts
/// merged so far.
pub proof fn lemma_fresh_key_free(
    local: Seq<CraftView>,
    remote: Seq<CraftView>,
    merged: Seq<CraftView>,
    k: Seq<u8>,
    label: Seq<u8>,
)
    ensures
        !key_taken(local, remote, merged, fresh_key(local, remote, merged, k, label)),
{
    lemma_first_free_exists(local, remote, merged, k, label);
}

fn key_in_use(remote: &Vec<Craft>, local: &Vec<Craft>, merged: &Vec<Craft>, key: &Vec<u8>) -> (r:
    bool)
    ensures
        r == key_taken(views(local@), views(remote@), views(merged@), key@),
{
    let a = position_of(remote, key);
    let b = position_of(local, key);
    let c = position_of(merged, key);
    proof {
        if let Some(t) = a {
            assert(views(remote@)[t as int] == remote@[t as int]@);
            assert(views(remote@)[t as int].id == key@);
        }
        if let Some(t) = b {
            assert(views(local@)[t as int] == local@[t as int]@);
            assert(views(local@)[t as int].id == key@);
        }
        if let Some(t) = c {
            assert(views(merged@)[t as int] == merged@[t as int]@);
            assert(views(merged@)[t as int].id == key@);
        }
    }
    match (a, b, c) {
        (None, None, None) => false,
        _ => true,
    }
}

/// Finds the first candidate key that nothing uses yet.
fn free_key(
    remote: &Vec<Craft>,
    local: &Vec<Craft>,
    merged: &Vec<Craft>,
    k: &Vec<u8>,
    label: &Vec<u8>,
) -> (r: Vec<u8>)
    ensures
        r@ == fresh_key(views(local@), views(remote@), views(merged@), k@, label@),
{
    let ghost lv = views(local@);
    let ghost rv = views(remote@);
    let ghost mv = views(merged@);
    proof {
        lemma_first_free_exists(lv, rv, mv, k@, label@);
    }
    let ghost target = choose|n: nat| is_first_free(lv, rv, mv, k@, label@, n);
    let mut cand = rekeyed(k, label);
    let ghost mut n: nat = 0;
    while key_in_use(remote, local, merged, &cand)
        invariant
            lv == views(local@),
            rv == views(remote@),
            mv == views(merged@),
            is_first_free(lv, rv, mv, k@, label@, target),
            n <= target,
            cand@ == rekey_candidate(k@, label@, n),
            forall|m: nat| m < n ==> key_taken(lv, rv, mv, #[trigger] rekey_candidate(k@, label@, m)),
        decreases target - n,
    {
        assert(n != target);
        cand.push(REKEY_PAD);
        proof {
            n = n + 1;
        }
        assert(cand@ == rekey_candidate(k@, label@, n));
    }
    proof {
        lemma_first_free_unique(lv, rv, mv, k@, label@, n, target);
    }
    cand
}

/// Three-way merge of the crafts of `local` and `remote`, both derived from
/// `base`. Independent additions are all kept; a local addition that collides
/// with a different remote one under the same key is kept under a fresh key;
/// a removal loses to an alteration; alterations of one craft to different
/// payloads are a conflict, and then nothing is merged.
pub fn resolve(base: &SaveWorld, local: &SaveWorld, remote: &SaveWorld, author: &Vec<u8>) -> (r:
    Result<Resolution, ConflictError>)
    requires
        base@.wf(),
        local@.wf(),
        remote@.wf(),
    ensures
        match r {
            Ok(res) => {
                &&& conflicts_spec(base@.crafts, local@.crafts, remote@.crafts).len() == 0
                &&& unique_ids(views(res.crafts@))
                &&& views(res.crafts@) == merged_spec(
                    base@.crafts,
                    local@.crafts,
                    remote@.crafts,
                    author@,
                )
                &&& note_views(res.notes@) == notes_spec(
                    base@.crafts,
                    local@.crafts,
                    remote@.crafts,
                )
            },
            Err(e) => {
                &&& conflicts_spec(base@.crafts, local@.crafts, remote@.crafts).len() > 0
                &&& id_views(e.identifiers@) == conflicts_spec(
                    base@.crafts,
                    local@.crafts,
                    remote@.crafts,
                )
            },
        },
{
    let ghost bv = base@.crafts;
    let ghost lv = local@.crafts;
    let ghost rv = remote@.crafts;
    let ghost label = author@;
    let mut crafts: Vec<Craft> = Vec::new();
    let mut notes: Vec<ChangeNote> = Vec::new();
    let mut conflicts: Vec<Vec<u8>> = Vec::new();
    let mut i: usize = 0;
    while i < remote.crafts.len()
        invariant
            bv == views(base.crafts@),
            lv == views(local.crafts@),
            rv == views(remote.crafts@),
            label == author@,
            unique_ids(bv),
            unique_ids(lv),
            unique_ids(rv),
            0 <= i <= rv.len(),
            views(crafts@) == rv.take(i as int).filter_map(remote_kept(bv, lv, rv)),
            note_views(notes@) == rv.take(i as int).filter_map(remote_note(bv, lv, rv)),
            id_views(conflicts@) == rv.take(i as int).filter_map(remote_conflict(bv, lv, rv)),
        decreases rv.len() - i,
    {
        let c = &remote.crafts[i];
        let ghost pre = rv.take(i as int);
        proof {
            assert(rv.take(i + 1).drop_last() =~= pre);
            assert(rv.take(i + 1).last() == c@);
            assert(rv[i as int] == c@);
            lemma_craft_with_index(rv, i as int);
        }
        let (lk, bpos, lpos) = change_on(&base.crafts, &local.crafts, &c.id);
        let (rk, _, _) = change_on(&base.crafts, &remote.crafts, &c.id);
        if lk == Change::Altered {
            let l = &local.crafts[lpos.unwrap()];
            if rk == Change::Altered {
                if !bytes_equal(l.payload.as_slice(), c.payload.as_slice()) {
                    push_id(&mut conflicts, &c.id);
                } else {
                    push_kept(&mut crafts, c.duplicate());
                }
            } else {
                push_kept(&mut crafts, l.duplicate());
                if rk == Change::Unchanged {
                    push_note(&mut notes, NoteKind::Altered, &c.id, &l.name);
                } else {
                    push_note(&mut notes, NoteKind::KeptAltered, &c.id, &l.name);
                }
            }
        } else if lk == Change::Removed {
            if rk == Change::Altered {
                push_kept(&mut crafts, c.duplicate());
                push_note(&mut notes, NoteKind::KeptAltered, &c.id, &c.name);
            } else if rk == Change::Unchanged {
                let b = &base.crafts[bpos.unwrap()];
                push_note(&mut notes, NoteKind::Removed, &c.id, &b.name);
            }
        } else {
            push_kept(&mut crafts, c.duplicate());
        }
        assert(views(crafts@) =~= rv.take(i + 1).filter_map(remote_kept(bv, lv, rv)));
        assert(note_views(notes@) =~= rv.take(i + 1).filter_map(remote_note(bv, lv, rv)));
        assert(id_views(conflicts@) =~= rv.take(i + 1).filter_map(remote_conflict(bv, lv, rv)));
        i = i + 1;
    }
    assert(rv.take(rv.len() as int) =~= rv);
    if conflicts.len() > 0 {
        return Err(ConflictError { identifiers: conflicts });
    }
    let ghost kept_r = rv.filter_map(remote_kept(bv, lv, rv));
    let ghost notes_r = rv.filter_map(remote_note(bv, lv, rv));
    let mut j: usize = 0;
    while j < local.crafts.len()
        invariant
            bv == views(base.crafts@),
            lv == views(local.crafts@),
            rv == views(remote.crafts@),
            label == author@,
            unique_ids(bv),
            unique_ids(lv),
            unique_ids(rv),
            0 <= j <= lv.len(),
            kept_r == rv.filter_map(remote_kept(bv, lv, rv)),
            notes_r == rv.filter_map(remote_note(bv, lv, rv)),
            views(crafts@) == kept_r + local_pass(bv, lv, rv, label, kept_r, lv.take(j as int)),
            note_views(notes@) == notes_r + lv.take(j as int).filter_map(local_note(bv, lv, rv)),
        decreases lv.len() - j,
    {
        let c = &local.crafts[j];
        let ghost prev = local_pass(bv, lv, rv, label, kept_r, lv.take(j as int));
        proof {
            assert(lv.take(j + 1).drop_last() =~= lv.take(j as int));
            assert(lv.take(j + 1).last() == c@);
            assert(lv[j as int] == c@);
            lemma_craft_with_index(lv, j as int);
        }
        let (lk, _, _) = change_on(&base.crafts, &local.crafts, &c.id);
        let rpos = position_of(&remote.crafts, &c.id);
        let ghost before_c = views(crafts@);
        let ghost before_n = note_views(notes@);
        match rpos {
            None => {
                if lk == Change::NotInBase {
                    push_kept(&mut crafts, annotated(c, author));
                    push_note(&mut notes, NoteKind::Added, &c.id, &c.name);
                } else if lk == Change::Altered {
                    push_kept(&mut crafts, c.duplicate());
                    push_note(&mut notes, NoteKind::KeptAltered, &c.id, &c.name);
                }
            },
            Some(rj) => {
                let o = &remote.crafts[rj];
                proof {
                    assert(rv[rj as int] == o@);
                    lemma_craft_with_index(rv, rj as int);
                }
                if lk == Change::NotInBase && c.differs_from(o) {
                    let new_id = free_key(&remote.crafts, &local.crafts, &crafts, &c.id, author);
                    let mut moved = annotated(c, author);
                    moved.id = new_id;
                    assert(local_choice(bv, lv, rv, label, before_c, c@) == Some(moved@));
                    push_kept(&mut crafts, moved);
                    push_note(&mut notes, NoteKind::Rekeyed, &c.id, &c.name);
                } else {
                    assert(has_id(rv, c@.id));
                    assert(local_choice(bv, lv, rv, label, before_c, c@) is None);
                }
            },
        }
        proof {
            lemma_filter_map_step(lv, j as int, local_note(bv, lv, rv));
            assert(views(crafts@) == match keep_active(
                local_choice(bv, lv, rv, label, before_c, c@),
            ) {
                Some(x) => before_c.push(x),
                None => before_c,
            });
            assert(note_views(notes@) == match local_note(bv, lv, rv)(c@) {
                Some(x) => before_n.push(x),
                None => before_n,
            });
            if let Some(x) = keep_active(local_choice(bv, lv, rv, label, before_c, c@)) {
                assert(kept_r + prev.push(x) =~= before_c.push(x));
            }
        }
        assert(views(crafts@) =~= kept_r + local_pass(bv, lv, rv, label, kept_r, lv.take(j + 1)));
        assert(note_views(notes@) =~= notes_r + lv.take(j + 1).filter_map(local_note(bv, lv, rv)));
        j = j + 1;
    }
    assert(lv.take(lv.len() as int) =~= lv);
    proof {
        lemma_merged_unique(bv, lv, rv, label);
    }
    Ok(Resolution { crafts, notes })
}

/// An element that `f` keeps is in the `filter_map`.
pub proof fn lemma_filter_map_keeps<A, B>(s: Seq<A>, f: spec_fn(A) -> Option<B>, i: int)
    requires
        0 <= i < s.len(),
        f(s[i]) is Some,
    ensures
        s.filter_map(f).contains(f(s[i])->Some_0),
    decreases s.len(),
{
    let v = f(s[i])->Some_0;
    if i == s.len() - 1 {
        assert(s.last() == s[i]);
        assert(s.filter_map(f)[s.filter_map(f).len() - 1] == v);
    } else {
        let rest = s.drop_last();
        assert(rest[i] == s[i]);
        lemma_filter_map_keeps(rest, f, i);
        let k = choose|k: int| 0 <= k < rest.filter_map(f).len() && rest.filter_map(f)[k] == v;
        match f(s.last()) {
            Some(w) => {
                assert(s.filter_map(f)[k] == v);
            },
            None => {
                assert(s.filter_map(f)[k] == v);
            },
        }
    }
}

/// A craft that the local pass keeps at some index is in what it adds.
proof fn lemma_local_pass_keeps(
    base: Seq<CraftView>,
    local: Seq<CraftView>,
    remote: Seq<CraftView>,
    label: Seq<u8>,
    front: Seq<CraftView>,
    n: int,
    i: int,
)
    requires
        0 <= i < n <= local.len(),
        keep_active(
            local_choice(
                base,
                local,
                remote,
                label,
                front + local_pass(base, local, remote, label, front, local.take(i)),
                local[i],
            ),
        ) is Some,
    ensures
        local_pass(base, local, remote, label, front, local.take(n)).contains(
            keep_active(
                local_choice(
                    base,
                    local,
                    remote,
                    label,
                    front + local_pass(base, local, remote, label, front, local.take(i)),
                    local[i],
                ),
            )->Some_0,
        ),
    decreases n,
{
    let s = local.take(n);
    assert(s.drop_last() =~= local.take(n - 1));
    assert(s.last() == local[n - 1]);
    let prev = local_pass(base, local, remote, label, front, local.take(n - 1));
    let p = local_pass(base, local, remote, label, front, s);
    if i == n - 1 {
        assert(p[p.len() - 1] == keep_active(
            local_choice(base, local, remote, label, front + prev, local[i]),
        )->Some_0);
    } else {
        lemma_local_pass_keeps(base, local, remote, label, front, n - 1, i);
        let v = keep_active(
            local_choice(
                base,
                local,
                remote,
                label,
                front + local_pass(base, local, remote, label, front, local.take(i)),
                local[i],
            ),
        )->Some_0;
        let y = choose|y: int| 0 <= y < prev.len() && prev[y] == v;
        assert(p[y] == v);
    }
}

/// Crafts added independently on the two sides under different identifiers
/// both end up in the merged world, whichever side is taken as local.
pub proof fn lemma_independent_additions(
    base: Seq<CraftView>,
    local: Seq<CraftView>,
    remote: Seq<CraftView>,
    label: Seq<u8>,
    i: int,
    j: int,
)
    requires
        0 <= i < local.len(),
        0 <= j < remote.len(),
        local[i].status == CraftStatus::Active,
        remote[j].status == CraftStatus::Active,
        !has_id(base, local[i].id),
        !has_id(remote, local[i].id),
        !has_id(base, remote[j].id),
        !has_id(local, remote[j].id),
    ensures
        merged_spec(base, local, remote, label).contains(annotate(local[i], label)),
        merged_spec(base, local, remote, label).contains(remote[j]),
        merged_spec(base, remote, local, label).contains(annotate(remote[j], label)),
        merged_spec(base, remote, local, label).contains(local[i]),
{
    lemma_keeps_remote_addition(base, local, remote, label, j);
    lemma_keeps_local_addition(base, local, remote, label, i);
    lemma_keeps_remote_addition(base, remote, local, label, i);
    lemma_keeps_local_addition(base, remote, local, label, j);
}

proof fn lemma_keeps_remote_addition(
    base: Seq<CraftView>,
    local: Seq<CraftView>,
    remote: Seq<CraftView>,
    label: Seq<u8>,
    j: int,
)
    requires
        0 <= j < remote.len(),
        remote[j].status == CraftStatus::Active,
        !has_id(base, remote[j].id),
    ensures
        merged_spec(base, local, remote, label).contains(remote[j]),
{
    let f = remote_kept(base, local, remote);
    assert(f(remote[j]) == Some(remote[j]));
    lemma_filter_map_keeps(remote, f, j);
    let m = merged_spec(base, local, remote, label);
    let k = choose|k: int| 0 <= k < remote.filter_map(f).len() && remote.filter_map(f)[k]
        == remote[j];
    assert(m[k] == remote[j]);
}

/// What the local pass keeps at index `i` is in the merged crafts.
proof fn lemma_merged_has_local(
    base: Seq<CraftView>,
    local: Seq<CraftView>,
    remote: Seq<CraftView>,
    label: Seq<u8>,
    i: int,
)
    requires
        0 <= i < local.len(),
        keep_active(
            local_choice(
                base,
                local,
                remote,
                label,
                remote.filter_map(remote_kept(base, local, remote)) + local_pass(
                    base,
                    local,
                    remote,
                    label,
                    remote.filter_map(remote_kept(base, local, remote)),
                    local.take(i),
                ),
                local[i],
            ),
        ) is Some,
    ensures
        merged_spec(base, local, remote, label).contains(
            keep_active(
                local_choice(
                    base,
                    local,
                    remote,
                    label,
                    remote.filter_map(remote_kept(base, local, remote)) + local_pass(
                        base,
                        local,
                        remote,
                        label,
                        remote.filter_map(remote_kept(base, local, remote)),
                        local.take(i),
                    ),
                    local[i],
                ),
            )->Some_0,
        ),
{
    let front = remote.filter_map(remote_kept(base, local, remote));
    lemma_local_pass_keeps(base, local, remote, label, front, local.len() as int, i);
    assert(local.take(local.len() as int) =~= local);
    let p = local_pass(base, local, remote, label, front, local);
    let v = keep_active(
        local_choice(
            base,
            local,
            remote,
            label,
            front + local_pass(base, local, remote, label, front, local.take(i)),
            local[i],
        ),
    )->Some_0;
    let y = choose|y: int| 0 <= y < p.len() && p[y] == v;
    let m = merged_spec(base, local, remote, label);
    assert(m[front.len() + y] == v);
}

proof fn lemma_keeps_local_addition(
    base: Seq<CraftView>,
    local: Seq<CraftView>,
    remote: Seq<CraftView>,
    label: Seq<u8>,
    i: int,
)
    requires
        0 <= i < local.len(),
        local[i].status == CraftStatus::Active,
        !has_id(base, local[i].id),
        !has_id(remote, local[i].id),
    ensures
        merged_spec(base, local, remote, label).contains(annotate(local[i], label)),
{
    lemma_merged_has_local(base, local, remote, label, i);
}

/// When both sides alter the same craft to different payloads, the merge
/// reports that craft's identifier as a conflict.
pub proof fn lemma_divergent_alterations_conflict(
    base: Seq<CraftView>,
    local: Seq<CraftView>,
    remote: Seq<CraftView>,
    k: Seq<u8>,
)
    requires
        unique_ids(remote),
        payloads_diverge(base, local, remote, k),
    ensures
        conflicts_spec(base, local, remote).contains(k),
{
    let j = choose|j: int| 0 <= j < remote.len() && #[trigger] remote[j].id == k;
    lemma_craft_with_index(remote, j);
    let f = remote_conflict(base, local, remote);
    assert(f(remote[j]) == Some(k));
    lemma_filter_map_keeps(remote, f, j);
}

/// The merge fails only where both sides altered one craft to different
/// payloads: every reported identifier is such a craft.
pub proof fn lemma_conflicts_are_divergent_payloads(
    base: Seq<CraftView>,
    local: Seq<CraftView>,
    remote: Seq<CraftView>,
    x: int,
)
    requires
        0 <= x < conflicts_spec(base, local, remote).len(),
    ensures
        payloads_diverge(base, local, remote, conflicts_spec(base, local, remote)[x]),
{
    lemma_filter_map_origin(remote, remote_conflict(base, local, remote), x);
}

proof fn lemma_filter_map_unique(s: Seq<CraftView>, f: spec_fn(CraftView) -> Option<CraftView>)
    requires
        forall|i: int, j: int|
            0 <= i < s.len() && 0 <= j < s.len() && i != j && (#[trigger] f(s[i])) is Some && (
            #[trigger] f(s[j])) is Some ==> f(s[i])->Some_0.id != f(s[j])->Some_0.id,
    ensures
        unique_ids(s.filter_map(f)),
    decreases s.len(),
{
    if s.len() > 0 {
        let rest = s.drop_last();
        assert forall|i: int, j: int|
            0 <= i < rest.len() && 0 <= j < rest.len() && i != j && (#[trigger] f(rest[i])) is Some
                && (#[trigger] f(rest[j])) is Some implies f(rest[i])->Some_0.id != f(
            rest[j],
        )->Some_0.id by {
            assert(rest[i] == s[i] && rest[j] == s[j]);
        }
        lemma_filter_map_unique(rest, f);
        let fm = s.filter_map(f);
        let prev = rest.filter_map(f);
        if let Some(v) = f(s.last()) {
            assert forall|a: int, b: int|
                0 <= a < fm.len() && 0 <= b < fm.len() && a != b implies #[trigger] fm[a].id
                != #[trigger] fm[b].id by {
                if a < prev.len() && b < prev.len() {
                    assert(fm[a] == prev[a] && fm[b] == prev[b]);
                } else {
                    let k = if a < prev.len() {
                        a
                    } else {
                        b
                    };
                    lemma_filter_map_origin(rest, f, k);
                    let i = choose|i: int| 0 <= i < rest.len() && f(#[trigger] rest[i]) == Some(
                        prev[k],
                    );
                    assert(rest[i] == s[i]);
                    assert(f(s[i]) is Some && f(s[s.len() - 1]) is Some);
                    assert(fm[k] == prev[k]);
                }
            }
        }
    }
}

proof fn lemma_craft_with_id(s: Seq<CraftView>, k: Seq<u8>)
    requires
        has_id(s, k),
    ensures
        craft_with(s, k).id == k,
{
}

/// Every identifier that the local pass adds comes from a craft of the
/// local prefix, or is used nowhere in the local world.
pub open spec fn from_prefix(local: Seq<CraftView>, n: int, id: Seq<u8>) -> bool {
    (exists|i: int| 0 <= i < n && #[trigger] local[i].id == id) || !has_id(local, id)
}

proof fn lemma_push_unique(s: Seq<CraftView>, x: CraftView)
    requires
        unique_ids(s),
        !has_id(s, x.id),
    ensures
        unique_ids(s.push(x)),
{
    let t = s.push(x);
    assert forall|a: int, b: int|
        0 <= a < t.len() && 0 <= b < t.len() && a != b implies #[trigger] t[a].id
        != #[trigger] t[b].id by {
        if a == s.len() {
            assert(t[b] == s[b]);
        } else if b == s.len() {
            assert(t[a] == s[a]);
        } else {
            assert(t[a] == s[a] && t[b] == s[b]);
        }
    }
}

proof fn lemma_local_pass_unique(
    base: Seq<CraftView>,
    local: Seq<CraftView>,
    remote: Seq<CraftView>,
    label: Seq<u8>,
    front: Seq<CraftView>,
    n: int,
)
    requires
        unique_ids(local),
        unique_ids(front),
        forall|y: int| 0 <= y < front.len() ==> has_id(remote, #[trigger] front[y].id),
        0 <= n <= local.len(),
    ensures
        unique_ids(front + local_pass(base, local, remote, label, front, local.take(n))),
        forall|y: int|
            0 <= y < local_pass(base, local, remote, label, front, local.take(n)).len()
                ==> from_prefix(
                local,
                n,
                #[trigger] local_pass(base, local, remote, label, front, local.take(n))[y].id,
            ),
    decreases n,
{
    if n == 0 {
        assert(front + local_pass(base, local, remote, label, front, local.take(0)) =~= front);
    } else {
        lemma_local_pass_unique(base, local, remote, label, front, n - 1);
        let s = local.take(n);
        assert(s.drop_last() =~= local.take(n - 1));
        assert(s.last() == local[n - 1]);
        let prev = local_pass(base, local, remote, label, front, local.take(n - 1));
        let m = front + prev;
        let c = local[n - 1];
        let p = local_pass(base, local, remote, label, front, s);
        assert forall|y: int| 0 <= y < prev.len() implies from_prefix(local, n, #[trigger] prev[y].id) by {
            assert(from_prefix(local, n - 1, prev[y].id));
        }
        match keep_active(local_choice(base, local, remote, label, m, c)) {
            None => {
                assert(p == prev);
            },
            Some(x) => {
                assert(p == prev.push(x));
                lemma_fresh_key_free(local, remote, m, c.id, label);
                assert(has_id(local, c.id));
                if x.id == c.id {
                    assert(!has_id(remote, c.id));
                    assert forall|y: int| 0 <= y < m.len() implies #[trigger] m[y].id != c.id by {
                        if y < front.len() {
                            assert(has_id(remote, front[y].id));
                        } else {
                            let z = y - front.len();
                            assert(m[y] == prev[z]);
                            assert(from_prefix(local, n - 1, prev[z].id));
                            if !has_id(local, prev[z].id) {
                                assert(local[n - 1].id == c.id);
                            }
                        }
                    }
                    assert(local[n - 1].id == x.id);
                }
                assert(!has_id(m, x.id));
                lemma_push_unique(m, x);
                assert(front + p =~= m.push(x));
                assert forall|y: int| 0 <= y < p.len() implies from_prefix(local, n, #[trigger] p[y].id) by {
                    if y < prev.len() {
                        assert(p[y] == prev[y]);
                    } else {
                        assert(p[y] == x);
                    }
                }
            },
        }
    }
}

/// The merged crafts never share an identifier.
pub proof fn lemma_merged_unique(
    base: Seq<CraftView>,
    local: Seq<CraftView>,
    remote: Seq<CraftView>,
    label: Seq<u8>,
)
    requires
        unique_ids(base),
        unique_ids(local),
        unique_ids(remote),
    ensures
        unique_ids(merged_spec(base, local, remote, label)),
{
    let fr = remote_kept(base, local, remote);
    assert forall|c: CraftView| #[trigger] fr(c) is Some implies fr(c)->Some_0.id == c.id by {
        if change_kind(base, local, c.id) == Change::Altered {
            lemma_craft_with_id(local, c.id);
        }
    }
    assert forall|i: int, j: int|
        0 <= i < remote.len() && 0 <= j < remote.len() && i != j && (#[trigger] fr(remote[i])) is Some
            && (#[trigger] fr(remote[j])) is Some implies fr(remote[i])->Some_0.id != fr(
        remote[j],
    )->Some_0.id by {}
    lemma_filter_map_unique(remote, fr);
    let front = remote.filter_map(fr);
    assert forall|y: int| 0 <= y < front.len() implies has_id(remote, #[trigger] front[y].id) by {
        lemma_filter_map_origin(remote, fr, y);
        let i = choose|i: int| 0 <= i < remote.len() && fr(#[trigger] remote[i]) == Some(front[y]);
        assert(remote[i].id == front[y].id);
    }
    lemma_local_pass_unique(base, local, remote, label, front, local.len() as int);
    assert(local.take(local.len() as int) =~= local);
}

/// Two different crafts added on both sides under one new identifier both
/// survive: the remote one under that identifier, the local one, with its
/// name and payload, under a key that neither world uses.
pub proof fn lemma_same_key_additions(
    base: Seq<CraftView>,
    local: Seq<CraftView>,
    remote: Seq<CraftView>,
    label: Seq<u8>,
    i: int,
    j: int,
)
    requires
        unique_ids(remote),
        0 <= i < local.len(),
        0 <= j < remote.len(),
        local[i].id == remote[j].id,
        !has_id(base, local[i].id),
        content_differs(local[i], remote[j]),
        local[i].status == CraftStatus::Active,
        remote[j].status == CraftStatus::Active,
    ensures
        merged_spec(base, local, remote, label).contains(remote[j]),
        exists|x: int|
            0 <= x < merged_spec(base, local, remote, label).len() && {
                let c = #[trigger] merged_spec(base, local, remote, label)[x];
                &&& c.payload == local[i].payload
                &&& c.name == local[i].name
                &&& !has_id(remote, c.id)
                &&& !has_id(local, c.id)
            },
{
    lemma_keeps_remote_addition(base, local, remote, label, j);
    lemma_craft_with_index(remote, j);
    let front = remote.filter_map(remote_kept(base, local, remote));
    let m = front + local_pass(base, local, remote, label, front, local.take(i));
    lemma_fresh_key_free(local, remote, m, local[i].id, label);
    lemma_merged_has_local(base, local, remote, label, i);
    let v = keep_active(local_choice(base, local, remote, label, m, local[i]))->Some_0;
    let all = merged_spec(base, local, remote, label);
    let x = choose|x: int| 0 <= x < all.len() && all[x] == v;
    assert(all[x] == v);
}

/// The classification the merge works from agrees with the change set of
/// the same side: an identifier is classified removed exactly when that
/// change set removes it, and altered exactly when it alters it.
pub proof fn lemma_change_kind_matches_diff(base: Seq<CraftView>, side: Seq<CraftView>, k: Seq<u8>)
    requires
        unique_ids(base),
        unique_ids(side),
    ensures
        (change_kind(base, side, k) == Change::Removed) == diff_spec(base, side).removed.contains(k),
        (change_kind(base, side, k) == Change::Altered) == (exists|x: int|
            0 <= x < diff_spec(base, side).altered.len() && #[trigger] diff_spec(
                base,
                side,
            ).altered[x].1.id == k),
{
    let cs = diff_spec(base, side);
    let fr = removed_step(side);
    let fa = altered_step(base);
    if has_id(base, k) {
        let j = choose|j: int| 0 <= j < base.len() && #[trigger] base[j].id == k;
        lemma_craft_with_index(base, j);
        if change_kind(base, side, k) == Change::Removed {
            assert(fr(base[j]) == Some(k));
            lemma_filter_map_keeps(base, fr, j);
        }
    }
    if has_id(side, k) {
        let i = choose|i: int| 0 <= i < side.len() && #[trigger] side[i].id == k;
        lemma_craft_with_index(side, i);
        if change_kind(base, side, k) == Change::Altered {
            assert(fa(side[i]) is Some);
            lemma_filter_map_keeps(side, fa, i);
            let x = choose|x: int| 0 <= x < cs.altered.len() && cs.altered[x] == fa(side[i])->Some_0;
            assert(cs.altered[x].1.id == k);
        }
    }
    if cs.removed.contains(k) {
        let x = choose|x: int| 0 <= x < cs.removed.len() && cs.removed[x] == k;
        lemma_filter_map_origin(base, fr, x);
        let j = choose|j: int| 0 <= j < base.len() && fr(#[trigger] base[j]) == Some(cs.removed[x]);
        lemma_craft_with_index(base, j);
    }
    if exists|x: int| 0 <= x < cs.altered.len() && #[trigger] cs.altered[x].1.id == k {
        let x = choose|x: int| 0 <= x < cs.altered.len() && #[trigger] cs.altered[x].1.id == k;
        lemma_filter_map_origin(side, fa, x);
        let i = choose|i: int| 0 <= i < side.len() && fa(#[trigger] side[i]) == Some(cs.altered[x]);
        lemma_craft_with_index(side, i);
    }
}

/// A craft removed locally but altered remotely is kept in its altered
/// version, the summary records the resolved conflict, and the craft is not
/// reported as a conflict.
pub proof fn lemma_removal_loses_to_alteration(
    base: Seq<CraftView>,
    local: Seq<CraftView>,
    remote: Seq<CraftView>,
    label: Seq<u8>,
    k: Seq<u8>,
)
    requires
        unique_ids(remote),
        change_kind(base, local, k) == Change::Removed,
        change_kind(base, remote, k) == Change::Altered,
        craft_with(remote, k).status == CraftStatus::Active,
    ensures
        merged_spec(base, local, remote, label).contains(craft_with(remote, k)),
        notes_spec(base, local, remote).contains(
            (NoteKind::KeptAltered, k, craft_with(remote, k).name),
        ),
        !conflicts_spec(base, local, remote).contains(k),
{
    let j = choose|j: int| 0 <= j < remote.len() && #[trigger] remote[j].id == k;
    lemma_craft_with_index(remote, j);
    let fr = remote_kept(base, local, remote);
    assert(fr(remote[j]) == Some(remote[j]));
    lemma_filter_map_keeps(remote, fr, j);
    let front = remote.filter_map(fr);
    let y = choose|y: int| 0 <= y < front.len() && front[y] == remote[j];
    assert(merged_spec(base, local, remote, label)[y] == remote[j]);
    let fnote = remote_note(base, local, remote);
    assert(fnote(remote[j]) == Some((NoteKind::KeptAltered, k, remote[j].name)));
    lemma_filter_map_keeps(remote, fnote, j);
    let nf = remote.filter_map(fnote);
    let z = choose|z: int| 0 <= z < nf.len() && nf[z] == (NoteKind::KeptAltered, k, remote[j].name);
    assert(notes_spec(base, local, remote)[z] == (NoteKind::KeptAltered, k, remote[j].name));
    if conflicts_spec(base, local, remote).contains(k) {
        let x = choose|x: int|
            0 <= x < conflicts_spec(base, local, remote).len() && conflicts_spec(
                base,
                local,
                remote,
            )[x] == k;
        lemma_conflicts_are_divergent_payloads(base, local, remote, x);
    }
}

proof fn lemma_local_pass_idle(
    base: Seq<CraftView>,
    remote: Seq<CraftView>,
    label: Seq<u8>,
    front: Seq<CraftView>,
    n: int,
)
    requires
        unique_ids(base),
        0 <= n <= base.len(),
    ensures
        local_pass(base, base, remote, label, front, base.take(n)).len() == 0,
    decreases n,
{
    if n > 0 {
        lemma_local_pass_idle(base, remote, label, front, n - 1);
        let s = base.take(n);
        assert(s.drop_last() =~= base.take(n - 1));
        assert(s.last() == base[n - 1]);
        lemma_craft_with_index(base, n - 1);
    }
}

/// An upload without local changes publishes the remote world as it is,
/// less its destroyed crafts, reports nothing, and cannot conflict.
pub proof fn lemma_idle_upload(base: Seq<CraftView>, remote: Seq<CraftView>, label: Seq<u8>)
    requires
        unique_ids(base),
    ensures
        merged_spec(base, base, remote, label) == remote.filter_map(
            |c: CraftView| keep_active(Some(c)),
        ),
        notes_spec(base, base, remote).len() == 0,
        conflicts_spec(base, base, remote).len() == 0,
{
    let idle = |c: CraftView| keep_active(Some(c));
    assert forall|c: CraftView| #[trigger] remote_kept(base, base, remote)(c) == idle(c) by {
        if has_id(base, c.id) {
            let i = choose|i: int| 0 <= i < base.len() && #[trigger] base[i].id == c.id;
            lemma_craft_with_index(base, i);
        }
    }
    assert(remote_kept(base, base, remote) =~= idle);
    let front = remote.filter_map(idle);
    lemma_local_pass_idle(base, remote, label, front, base.len() as int);
    assert(base.take(base.len() as int) =~= base);
    assert(merged_spec(base, base, remote, label) =~= front);
    assert forall|i: int| 0 <= i < remote.len() implies (#[trigger] remote_note(
        base,
        base,
        remote,
    )(remote[i])) is None && remote_conflict(base, base, remote)(remote[i]) is None by {
        if has_id(base, remote[i].id) {
            let j = choose|j: int| 0 <= j < base.len() && #[trigger] base[j].id == remote[i].id;
            lemma_craft_with_index(base, j);
        }
    }
    assert forall|i: int| 0 <= i < base.len() implies (#[trigger] local_note(base, base, remote)(
        base[i],
    )) is None by {
        lemma_craft_with_index(base, i);
    }
    lemma_filter_map_none(remote, remote_note(base, base, remote));
    lemma_filter_map_none(remote, remote_conflict(base, base, remote));
    lemma_filter_map_none(base, local_note(base, base, remote));
}

/// No two entries of a summary are about the same identifier.
pub open spec fn one_note_per_craft(n: Seq<(NoteKind, Seq<u8>, Seq<u8>)>) -> bool {
    forall|a: int, b: int|
        0 <= a < n.len() && 0 <= b < n.len() && a != b ==> #[trigger] n[a].1 != #[trigger] n[b].1
}

proof fn lemma_note_filter_distinct(
    s: Seq<CraftView>,
    f: spec_fn(CraftView) -> Option<(NoteKind, Seq<u8>, Seq<u8>)>,
)
    requires
        unique_ids(s),
        forall|c: CraftView| #[trigger] f(c) is Some ==> f(c)->Some_0.1 == c.id,
    ensures
        one_note_per_craft(s.filter_map(f)),
        forall|y: int|
            0 <= y < s.filter_map(f).len() ==> has_id(s, #[trigger] s.filter_map(f)[y].1),
    decreases s.len(),
{
    if s.len() > 0 {
        let rest = s.drop_last();
        assert forall|a: int, b: int|
            0 <= a < rest.len() && 0 <= b < rest.len() && a != b implies #[trigger] rest[a].id
            != #[trigger] rest[b].id by {
            assert(rest[a] == s[a] && rest[b] == s[b]);
        }
        lemma_note_filter_distinct(rest, f);
        let prev = rest.filter_map(f);
        let fm = s.filter_map(f);
        let last = s.len() - 1;
        assert forall|y: int| 0 <= y < prev.len() implies #[trigger] prev[y].1 != s[last].id && has_id(
            s,
            prev[y].1,
        ) by {
            let i = choose|i: int| 0 <= i < rest.len() && #[trigger] rest[i].id == prev[y].1;
            assert(rest[i] == s[i]);
        }
        if let Some(v) = f(s.last()) {
            assert(fm == prev.push(v));
            assert(v.1 == s[last].id);
            assert forall|a: int, b: int|
                0 <= a < fm.len() && 0 <= b < fm.len() && a != b implies #[trigger] fm[a].1
                != #[trigger] fm[b].1 by {
                if a < prev.len() && b < prev.len() {
                    assert(fm[a] == prev[a] && fm[b] == prev[b]);
                } else if a < prev.len() {
                    assert(fm[a] == prev[a]);
                } else {
                    assert(fm[b] == prev[b]);
                }
            }
            assert forall|y: int| 0 <= y < fm.len() implies has_id(s, #[trigger] fm[y].1) by {
                if y < prev.len() {
                    assert(fm[y] == prev[y]);
                } else {
                    assert(s[last].id == fm[y].1);
                }
            }
        } else {
            assert(fm == prev);
        }
    }
}

/// The summary names each craft at most once, so no craft is reported as
/// both added and removed, added and altered, or removed and altered.
pub proof fn lemma_one_note_per_craft(
    base: Seq<CraftView>,
    local: Seq<CraftView>,
    remote: Seq<CraftView>,
)
    requires
        unique_ids(local),
        unique_ids(remote),
    ensures
        one_note_per_craft(notes_spec(base, local, remote)),
{
    let fr = remote_note(base, local, remote);
    let fl = local_note(base, local, remote);
    assert forall|c: CraftView| #[trigger] fr(c) is Some implies fr(c)->Some_0.1 == c.id
        && has_id(base, c.id) by {}
    assert forall|c: CraftView| #[trigger] fl(c) is Some implies fl(c)->Some_0.1 == c.id && (
    !has_id(remote, c.id) || !has_id(base, c.id)) by {}
    lemma_note_filter_distinct(remote, fr);
    lemma_note_filter_distinct(local, fl);
    let a = remote.filter_map(fr);
    let b = local.filter_map(fl);
    let n = notes_spec(base, local, remote);
    assert forall|x: int, y: int|
        0 <= x < n.len() && 0 <= y < n.len() && x != y implies #[trigger] n[x].1 != #[trigger] n[y].1 by {
        if x < a.len() && y < a.len() {
            assert(n[x] == a[x] && n[y] == a[y]);
        } else if x >= a.len() && y >= a.len() {
            assert(n[x] == b[x - a.len()] && n[y] == b[y - a.len()]);
        } else {
            let (p, q) = if x < a.len() {
                (x, y - a.len())
            } else {
                (y, x - a.len())
            };
            lemma_filter_map_origin(remote, fr, p);
            lemma_filter_map_origin(local, fl, q);
            let i = choose|i: int| 0 <= i < remote.len() && fr(#[trigger] remote[i]) == Some(a[p]);
            let j = choose|j: int| 0 <= j < local.len() && fl(#[trigger] local[j]) == Some(b[q]);
            assert(a[p].1 == remote[i].id && has_id(base, remote[i].id));
            assert(has_id(remote, remote[i].id));
            assert(b[q].1 == local[j].id);
            assert(n[x].1 != n[y].1);
        }
    }
}

} // verus!
