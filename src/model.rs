use vstd::prelude::*;

verus! {

/// Whether a craft is still in the world or has been destroyed.
#[derive(PartialEq, Eq, Structural, Clone, Copy, Debug)]
pub enum CraftStatus {
    Active,
    Destroyed,
}

/// A placed vehicle or structure. `id` is the stable key under which the
/// craft is stored; `payload` is its part tree, compared only for equality.
#[derive(Debug)]
pub struct Craft {
    pub id: Vec<u8>,
    pub name: Vec<u8>,
    pub author: Vec<u8>,
    pub payload: Vec<u8>,
    pub status: CraftStatus,
}

pub ghost struct CraftView {
    pub id: Seq<u8>,
    pub name: Seq<u8>,
    pub author: Seq<u8>,
    pub payload: Seq<u8>,
    pub status: CraftStatus,
}

impl View for Craft {
    type V = CraftView;

    open spec fn view(&self) -> CraftView {
        CraftView {
            id: self.id@,
            name: self.name@,
            author: self.author@,
            payload: self.payload@,
            status: self.status,
        }
    }
}

/// World-wide settings: the accumulated play time and the rest of the
/// section, carried through untouched.
#[derive(Debug)]
pub struct WorldSettings {
    pub total_play_time_seconds: u64,
    pub passthrough: Vec<u8>,
}

pub ghost struct SettingsView {
    pub play_time: u64,
    pub passthrough: Seq<u8>,
}

impl View for WorldSettings {
    type V = SettingsView;

    open spec fn view(&self) -> SettingsView {
        SettingsView { play_time: self.total_play_time_seconds, passthrough: self.passthrough@ }
    }
}

/// One snapshot of the shared world.
#[derive(Debug)]
pub struct SaveWorld {
    pub crafts: Vec<Craft>,
    pub settings: WorldSettings,
    pub persistent_data: Vec<u8>,
}

pub ghost struct WorldView {
    pub crafts: Seq<CraftView>,
    pub settings: SettingsView,
    pub persistent: Seq<u8>,
}

impl View for SaveWorld {
    type V = WorldView;

    open spec fn view(&self) -> WorldView {
        WorldView {
            crafts: views(self.crafts@),
            settings: self.settings@,
            persistent: self.persistent_data@,
        }
    }
}

pub open spec fn views(s: Seq<Craft>) -> Seq<CraftView> {
    s.map_values(|c: Craft| c@)
}

/// No two crafts share an identifier.
pub open spec fn unique_ids(s: Seq<CraftView>) -> bool {
    forall|i: int, j: int|
        0 <= i < s.len() && 0 <= j < s.len() && i != j ==> #[trigger] s[i].id != #[trigger] s[j].id
}

pub open spec fn has_id(s: Seq<CraftView>, id: Seq<u8>) -> bool {
    exists|i: int| 0 <= i < s.len() && #[trigger] s[i].id == id
}

/// The craft stored under `id` (meaningful when `has_id(s, id)`).
pub open spec fn craft_with(s: Seq<CraftView>, id: Seq<u8>) -> CraftView {
    s[choose|i: int| 0 <= i < s.len() && #[trigger] s[i].id == id]
}

/// The parts of a craft that an edit can change.
pub open spec fn content_differs(a: CraftView, b: CraftView) -> bool {
    a.name != b.name || a.payload != b.payload || a.status != b.status
}

impl WorldView {
    pub open spec fn wf(self) -> bool {
        unique_ids(self.crafts)
    }
}

/// In a sequence with unique identifiers, the craft found under an
/// identifier is the one at any index that carries it.
pub proof fn lemma_craft_with_index(s: Seq<CraftView>, i: int)
    requires
        unique_ids(s),
        0 <= i < s.len(),
    ensures
        has_id(s, s[i].id),
        craft_with(s, s[i].id) == s[i],
{
    let id = s[i].id;
    assert(0 <= i < s.len() && s[i].id == id);
    let j = choose|j: int| 0 <= j < s.len() && #[trigger] s[j].id == id;
    assert(s[j].id == s[i].id);
}

pub fn bytes_equal(a: &[u8], b: &[u8]) -> (r: bool)
    ensures
        r == (a@ == b@),
{
    if a.len() != b.len() {
        return false;
    }
    let mut i: usize = 0;
    while i < a.len()
        invariant
            a@.len() == b@.len(),
            0 <= i <= a@.len(),
            forall|j: int| 0 <= j < i ==> a@[j] == b@[j],
        decreases a@.len() - i,
    {
        if a[i] != b[i] {
            return false;
        }
        i = i + 1;
    }
    assert(a@ =~= b@);
    true
}

pub fn copy_bytes(a: &Vec<u8>) -> (r: Vec<u8>)
    ensures
        r@ == a@,
{
    let mut r: Vec<u8> = Vec::new();
    let mut i: usize = 0;
    while i < a.len()
        invariant
            0 <= i <= a@.len(),
            r@ == a@.take(i as int),
        decreases a@.len() - i,
    {
        r.push(a[i]);
        i = i + 1;
        assert(r@ =~= a@.take(i as int));
    }
    assert(a@.take(a@.len() as int) =~= a@);
    r
}

impl Craft {
    pub fn duplicate(&self) -> (r: Craft)
        ensures
            r@ == self@,
    {
        Craft {
            id: copy_bytes(&self.id),
            name: copy_bytes(&self.name),
            author: copy_bytes(&self.author),
            payload: copy_bytes(&self.payload),
            status: self.status,
        }
    }

    /// Whether name, payload or status differ between the two versions.
    pub fn differs_from(&self, other: &Craft) -> (r: bool)
        ensures
            r == content_differs(self@, other@),
    {
        !bytes_equal(self.name.as_slice(), other.name.as_slice()) || !bytes_equal(
            self.payload.as_slice(),
            other.payload.as_slice(),
        )
            || self.status != other.status
    }
}

impl WorldSettings {
    pub fn duplicate(&self) -> (r: WorldSettings)
        ensures
            r@ == self@,
    {
        WorldSettings {
            total_play_time_seconds: self.total_play_time_seconds,
            passthrough: copy_bytes(&self.passthrough),
        }
    }
}

/// Index of the craft stored under `id`, if any.
pub fn position_of(crafts: &Vec<Craft>, id: &Vec<u8>) -> (r: Option<usize>)
    ensures
        match r {
            Some(i) => i < crafts@.len() && crafts@[i as int].id@ == id@,
            None => !has_id(views(crafts@), id@),
        },
{
    let mut i: usize = 0;
    while i < crafts.len()
        invariant
            0 <= i <= crafts@.len(),
            forall|j: int| 0 <= j < i ==> crafts@[j].id@ != id@,
        decreases crafts@.len() - i,
    {
        if bytes_equal(crafts[i].id.as_slice(), id.as_slice()) {
            return Some(i);
        }
        i = i + 1;
    }
    assert forall|j: int| 0 <= j < views(crafts@).len() implies #[trigger] views(crafts@)[j].id
        != id@ by {
        assert(views(crafts@)[j] == crafts@[j]@);
    }
    None
}

} // verus!
