use vstd::prelude::*;
use crate::model::{
    Craft, CraftStatus, CraftView, SaveWorld, views, unique_ids, has_id, craft_with,
    content_differs, lemma_craft_with_index, position_of,
};

verus! {

/// A craft that was active and is now marked destroyed.
pub open spec fn is_removal(before: CraftView, after: CraftView) -> bool {
    before.status == CraftStatus::Active && after.status == CraftStatus::Destroyed
}

pub open spec fn added_step(base: Seq<CraftView>) -> spec_fn(CraftView) -> Option<CraftView> {
    |c: CraftView|
        if !has_id(base, c.id) {
            Some(c)
        } else {
            None
        }
}

pub open spec fn removed_step(other: Seq<CraftView>) -> spec_fn(CraftView) -> Option<Seq<u8>> {
    |c: CraftView|
        if !has_id(other, c.id) || is_removal(c, craft_with(other, c.id)) {
            Some(c.id)
        } else {
            None
        }
}

pub open spec fn altered_step(base: Seq<CraftView>) -> spec_fn(CraftView) -> Option<
    (CraftView, CraftView),
> {
    |c: CraftView|
        if has_id(base, c.id) && !is_removal(craft_with(base, c.id), c) && content_differs(
            craft_with(base, c.id),
            c,
        ) {
            Some((craft_with(base, c.id), c))
        } else {
            None
        }
}

pub ghost struct ChangeSetView {
    pub added: Seq<CraftView>,
    pub removed: Seq<Seq<u8>>,
    pub altered: Seq<(CraftView, CraftView)>,
}

impl ChangeSetView {
    /// No identifier appears in two of the three parts.
    pub open spec fn disjoint(self) -> bool {
        &&& forall|i: int, j: int|
            0 <= i < self.added.len() && 0 <= j < self.removed.len() ==> #[trigger] self.added[i].id
                != #[trigger] self.removed[j]
        &&& forall|i: int, j: int|
            0 <= i < self.added.len() && 0 <= j < self.altered.len() ==> #[trigger] self.added[i].id
                != #[trigger] self.altered[j].1.id
        &&& forall|i: int, j: int|
            0 <= i < self.removed.len() && 0 <= j < self.altered.len() ==> #[trigger] self.removed[i]
                != #[trigger] self.altered[j].1.id
    }

    pub open spec fn is_empty(self) -> bool {
        self.added.len() == 0 && self.removed.len() == 0 && self.altered.len() == 0
    }
}

/// The change set that turns `base` into `other`: crafts only in `other` are
/// added; crafts missing from `other`, or newly destroyed there, are removed;
/// crafts whose name, payload or status changed otherwise are altered.
pub open spec fn diff_spec(base: Seq<CraftView>, other: Seq<CraftView>) -> ChangeSetView {
    ChangeSetView {
        added: other.filter_map(added_step(base)),
        removed: base.filter_map(removed_step(other)),
        altered: other.filter_map(altered_step(base)),
    }
}

/// A craft as it was and as it is now.
#[derive(Debug)]
pub struct Alteration {
    pub before: Craft,
    pub after: Craft,
}

/// The difference between a world and its base.
#[derive(Debug)]
pub struct ChangeSet {
    pub added: Vec<Craft>,
    pub removed: Vec<Vec<u8>>,
    pub altered: Vec<Alteration>,
}

pub open spec fn id_views(s: Seq<Vec<u8>>) -> Seq<Seq<u8>> {
    s.map_values(|v: Vec<u8>| v@)
}

pub open spec fn alteration_views(s: Seq<Alteration>) -> Seq<(CraftView, CraftView)> {
    s.map_values(|a: Alteration| (a.before@, a.after@))
}

impl View for ChangeSet {
    type V = ChangeSetView;

    open spec fn view(&self) -> ChangeSetView {
        ChangeSetView {
            added: views(self.added@),
            removed: id_views(self.removed@),
            altered: alteration_views(self.altered@),
        }
    }
}

pub proof fn lemma_filter_map_none<A, B>(s: Seq<A>, f: spec_fn(A) -> Option<B>)
    requires
        forall|i: int| 0 <= i < s.len() ==> f(#[trigger] s[i]) is None,
    ensures
        s.filter_map(f).len() == 0,
    decreases s.len(),
{
    if s.len() > 0 {
        let rest = s.drop_last();
        assert forall|i: int| 0 <= i < rest.len() implies f(#[trigger] rest[i]) is None by {
            assert(rest[i] == s[i]);
        }
        lemma_filter_map_none(rest, f);
        assert(f(s[s.len() - 1]) is None);
    }
}

/// Every element of a `filter_map` comes from some element of the source.
pub proof fn lemma_filter_map_origin<A, B>(s: Seq<A>, f: spec_fn(A) -> Option<B>, k: int)
    requires
        0 <= k < s.filter_map(f).len(),
    ensures
        exists|i: int| 0 <= i < s.len() && f(#[trigger] s[i]) == Some(s.filter_map(f)[k]),
    decreases s.len(),
{
    let rest = s.drop_last();
    match f(s.last()) {
        Some(v) => {
            if k == s.filter_map(f).len() - 1 {
                assert(f(s[s.len() - 1]) == Some(s.filter_map(f)[k]));
            } else {
                lemma_filter_map_origin(rest, f, k);
                let i = choose|i: int| 0 <= i < rest.len() && f(#[trigger] rest[i]) == Some(
                    rest.filter_map(f)[k],
                );
                assert(s[i] == rest[i]);
            }
        },
        None => {
            lemma_filter_map_origin(rest, f, k);
            let i = choose|i: int| 0 <= i < rest.len() && f(#[trigger] rest[i]) == Some(
                rest.filter_map(f)[k],
            );
            assert(s[i] == rest[i]);
        },
    }
}

/// Comparing a world with itself finds no change.
pub proof fn lemma_diff_identity(w: Seq<CraftView>)
    requires
        unique_ids(w),
    ensures
        diff_spec(w, w).is_empty(),
{
    assert forall|i: int| 0 <= i < w.len() implies (#[trigger] added_step(w)(w[i])) is None
        && removed_step(w)(w[i]) is None && altered_step(w)(w[i]) is None by {
        lemma_craft_with_index(w, i);
    }
    lemma_filter_map_none(w, added_step(w));
    lemma_filter_map_none(w, removed_step(w));
    lemma_filter_map_none(w, altered_step(w));
}

/// No identifier is both added and removed, added and altered, or removed
/// and altered.
pub proof fn lemma_diff_disjoint(base: Seq<CraftView>, other: Seq<CraftView>)
    requires
        unique_ids(base),
        unique_ids(other),
    ensures
        diff_spec(base, other).disjoint(),
{
    let cs = diff_spec(base, other);
    assert forall|a: int, r: int| 0 <= a < cs.added.len() && 0 <= r < cs.removed.len() implies
        #[trigger] cs.added[a].id != #[trigger] cs.removed[r] by {
        lemma_filter_map_origin(other, added_step(base), a);
        lemma_filter_map_origin(base, removed_step(other), r);
        let j = choose|j: int| 0 <= j < base.len() && removed_step(other)(#[trigger] base[j]) == Some(
            cs.removed[r],
        );
        assert(base[j].id == cs.removed[r]);
    }
    assert forall|a: int, x: int| 0 <= a < cs.added.len() && 0 <= x < cs.altered.len() implies
        #[trigger] cs.added[a].id != #[trigger] cs.altered[x].1.id by {
        lemma_filter_map_origin(other, added_step(base), a);
        lemma_filter_map_origin(other, altered_step(base), x);
    }
    assert forall|r: int, x: int| 0 <= r < cs.removed.len() && 0 <= x < cs.altered.len() implies
        #[trigger] cs.removed[r] != #[trigger] cs.altered[x].1.id by {
        lemma_filter_map_origin(base, removed_step(other), r);
        lemma_filter_map_origin(other, altered_step(base), x);
        let j = choose|j: int| 0 <= j < base.len() && removed_step(other)(#[trigger] base[j]) == Some(
            cs.removed[r],
        );
        let i = choose|i: int| 0 <= i < other.len() && altered_step(base)(#[trigger] other[i]) == Some(
            cs.altered[x],
        );
        if cs.removed[r] == cs.altered[x].1.id {
            lemma_craft_with_index(base, j);
            lemma_craft_with_index(other, i);
            assert(base[j].id == other[i].id);
        }
    }
}

/// Computes the change set from `base` to `other`.
pub fn diff(base: &SaveWorld, other: &SaveWorld) -> (cs: ChangeSet)
    requires
        base@.wf(),
        other@.wf(),
    ensures
        cs@ == diff_spec(base@.crafts, other@.crafts),
        cs@.disjoint(),
{
    let ghost bv = base@.crafts;
    let ghost ov = other@.crafts;
    let mut added: Vec<Craft> = Vec::new();
    let mut altered: Vec<Alteration> = Vec::new();
    let mut i: usize = 0;
    while i < other.crafts.len()
        invariant
            bv == views(base.crafts@),
            ov == views(other.crafts@),
            unique_ids(bv),
            0 <= i <= other.crafts@.len(),
            views(added@) == ov.take(i as int).filter_map(added_step(bv)),
            alteration_views(altered@) == ov.take(i as int).filter_map(altered_step(bv)),
        decreases other.crafts@.len() - i,
    {
        let c = &other.crafts[i];
        let ghost pre = ov.take(i as int);
        assert(ov.take(i + 1).drop_last() =~= pre);
        assert(ov.take(i + 1).last() == c@);
        match position_of(&base.crafts, &c.id) {
            None => {
                added.push(c.duplicate());
                assert(views(added@) =~= pre.filter_map(added_step(bv)).push(c@));
                assert(alteration_views(altered@) =~= pre.filter_map(altered_step(bv)));
            },
            Some(j) => {
                let b = &base.crafts[j];
                proof {
                    assert(bv[j as int] == b@);
                    lemma_craft_with_index(bv, j as int);
                }
                if !(b.status == CraftStatus::Active && c.status == CraftStatus::Destroyed)
                    && b.differs_from(c) {
                    altered.push(Alteration { before: b.duplicate(), after: c.duplicate() });
                    assert(alteration_views(altered@) =~= pre.filter_map(altered_step(bv)).push(
                        (b@, c@),
                    ));
                } else {
                    assert(alteration_views(altered@) =~= pre.filter_map(altered_step(bv)));
                }
                assert(views(added@) =~= pre.filter_map(added_step(bv)));
            },
        }
        i = i + 1;
    }
    assert(ov.take(ov.len() as int) =~= ov);
    let mut removed: Vec<Vec<u8>> = Vec::new();
    let mut k: usize = 0;
    while k < base.crafts.len()
        invariant
            bv == views(base.crafts@),
            ov == views(other.crafts@),
            unique_ids(ov),
            0 <= k <= base.crafts@.len(),
            id_views(removed@) == bv.take(k as int).filter_map(removed_step(ov)),
        decreases base.crafts@.len() - k,
    {
        let b = &base.crafts[k];
        let ghost pre = bv.take(k as int);
        assert(bv.take(k + 1).drop_last() =~= pre);
        assert(bv.take(k + 1).last() == b@);
        match position_of(&other.crafts, &b.id) {
            None => {
                removed.push(crate::model::copy_bytes(&b.id));
                assert(id_views(removed@) =~= pre.filter_map(removed_step(ov)).push(b@.id));
            },
            Some(j) => {
                let o = &other.crafts[j];
                proof {
                    assert(ov[j as int] == o@);
                    lemma_craft_with_index(ov, j as int);
                }
                if b.status == CraftStatus::Active && o.status == CraftStatus::Destroyed {
                    removed.push(crate::model::copy_bytes(&b.id));
                    assert(id_views(removed@) =~= pre.filter_map(removed_step(ov)).push(b@.id));
                } else {
                    assert(id_views(removed@) =~= pre.filter_map(removed_step(ov)));
                }
            },
        }
        k = k + 1;
    }
    assert(bv.take(bv.len() as int) =~= bv);
    let cs = ChangeSet { added, removed, altered };
    proof {
        lemma_diff_disjoint(bv, ov);
    }
    cs
}

} // verus!
