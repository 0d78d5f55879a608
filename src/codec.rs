use vstd::prelude::*;
use crate::model::{
    Craft, CraftStatus, CraftView, SaveWorld, SettingsView, WorldSettings, WorldView, views,
    unique_ids, bytes_equal,
};

verus! {

/// Why a snapshot could not be read.
#[derive(PartialEq, Eq, Structural, Clone, Copy, Debug)]
pub enum ParseError {
    MalformedSave,
    UnsupportedVersion,
}

/// The four bytes that open every snapshot: `SWLD`.
pub open spec fn magic() -> Seq<u8> {
    seq![83u8, 87u8, 76u8, 68u8]
}

/// The format version this engine reads and writes.
pub const FORMAT_VERSION: u8 = 1;

pub const STATUS_ACTIVE: u8 = 0;

pub const STATUS_DESTROYED: u8 = 1;

/// Little-endian encoding of a 64-bit integer.
pub open spec fn u64_bytes(n: u64) -> Seq<u8> {
    seq![
        (n & 0xff) as u8,
        ((n >> 8u64) & 0xff) as u8,
        ((n >> 16u64) & 0xff) as u8,
        ((n >> 24u64) & 0xff) as u8,
        ((n >> 32u64) & 0xff) as u8,
        ((n >> 40u64) & 0xff) as u8,
        ((n >> 48u64) & 0xff) as u8,
        ((n >> 56u64) & 0xff) as u8,
    ]
}

/// The integer that eight little-endian bytes encode.
pub open spec fn u64_of(b: Seq<u8>) -> u64 {
    (b[0] as u64) | ((b[1] as u64) << 8u64) | ((b[2] as u64) << 16u64) | ((b[3] as u64) << 24u64)
        | ((b[4] as u64) << 32u64) | ((b[5] as u64) << 40u64) | ((b[6] as u64) << 48u64) | ((
    b[7] as u64) << 56u64)
}

/// A byte string preceded by its length.
pub open spec fn blob(s: Seq<u8>) -> Seq<u8> {
    u64_bytes(s.len() as u64) + s
}

pub open spec fn status_byte(s: CraftStatus) -> u8 {
    match s {
        CraftStatus::Active => STATUS_ACTIVE,
        CraftStatus::Destroyed => STATUS_DESTROYED,
    }
}

pub open spec fn craft_bytes(c: CraftView) -> Seq<u8> {
    blob(c.id) + blob(c.name) + blob(c.author) + blob(c.payload) + seq![status_byte(c.status)]
}

pub open spec fn crafts_bytes(cs: Seq<CraftView>) -> Seq<u8>
    decreases cs.len(),
{
    if cs.len() == 0 {
        Seq::empty()
    } else {
        crafts_bytes(cs.drop_last()) + craft_bytes(cs.last())
    }
}

/// The encoding of a snapshot: header, settings, persistent data, crafts.
pub open spec fn world_bytes(w: WorldView) -> Seq<u8> {
    magic() + seq![FORMAT_VERSION] + u64_bytes(w.settings.play_time) + blob(
        w.settings.passthrough,
    ) + blob(w.persistent) + u64_bytes(w.crafts.len() as u64) + crafts_bytes(w.crafts)
}

pub open spec fn fits_u64(s: Seq<u8>) -> bool {
    s.len() <= u64::MAX
}

/// Every length in the world can be written as a 64-bit integer.
pub open spec fn encodable(w: WorldView) -> bool {
    &&& fits_u64(w.settings.passthrough)
    &&& fits_u64(w.persistent)
    &&& w.crafts.len() <= u64::MAX
    &&& forall|i: int|
        0 <= i < w.crafts.len() ==> {
            &&& fits_u64(#[trigger] w.crafts[i].id)
            &&& fits_u64(w.crafts[i].name)
            &&& fits_u64(w.crafts[i].author)
            &&& fits_u64(w.crafts[i].payload)
        }
}

pub open spec fn take_u64(b: Seq<u8>) -> Option<(u64, Seq<u8>)> {
    if b.len() < 8 {
        None
    } else {
        Some((u64_of(b.take(8)), b.skip(8)))
    }
}

pub open spec fn take_blob(b: Seq<u8>) -> Option<(Seq<u8>, Seq<u8>)> {
    match take_u64(b) {
        Some((n, r)) => if n <= r.len() {
            Some((r.take(n as int), r.skip(n as int)))
        } else {
            None
        },
        None => None,
    }
}

pub open spec fn status_of(x: u8) -> Option<CraftStatus> {
    if x == STATUS_ACTIVE {
        Some(CraftStatus::Active)
    } else if x == STATUS_DESTROYED {
        Some(CraftStatus::Destroyed)
    } else {
        None
    }
}

#[verifier::opaque]
pub open spec fn take_craft(b: Seq<u8>) -> Option<(CraftView, Seq<u8>)> {
    match take_blob(b) {
        None => None,
        Some((id, r1)) => match take_blob(r1) {
            None => None,
            Some((name, r2)) => match take_blob(r2) {
                None => None,
                Some((author, r3)) => match take_blob(r3) {
                    None => None,
                    Some((payload, r4)) => if r4.len() == 0 {
                        None
                    } else {
                        match status_of(r4[0]) {
                            None => None,
                            Some(status) => Some(
                                (CraftView { id, name, author, payload, status }, r4.skip(1)),
                            ),
                        }
                    },
                },
            },
        },
    }
}

pub open spec fn take_crafts(b: Seq<u8>, n: nat) -> Option<(Seq<CraftView>, Seq<u8>)>
    decreases n,
{
    if n == 0 {
        Some((Seq::empty(), b))
    } else {
        match take_craft(b) {
            None => None,
            Some((c, r)) => match take_crafts(r, (n - 1) as nat) {
                None => None,
                Some((cs, r2)) => Some((seq![c] + cs, r2)),
            },
        }
    }
}

/// What reading a snapshot yields.
pub open spec fn parse_spec(b: Seq<u8>) -> Result<WorldView, ParseError> {
    if b.len() < 5 || b.take(4) != magic() {
        Err(ParseError::MalformedSave)
    } else if b[4] != FORMAT_VERSION {
        Err(ParseError::UnsupportedVersion)
    } else {
        match take_u64(b.skip(5)) {
            None => Err(ParseError::MalformedSave),
            Some((play_time, r1)) => match take_blob(r1) {
                None => Err(ParseError::MalformedSave),
                Some((passthrough, r2)) => match take_blob(r2) {
                    None => Err(ParseError::MalformedSave),
                    Some((persistent, r3)) => match take_u64(r3) {
                        None => Err(ParseError::MalformedSave),
                        Some((count, r4)) => match take_crafts(r4, count as nat) {
                            None => Err(ParseError::MalformedSave),
                            Some((crafts, r5)) => if r5.len() == 0 && unique_ids(crafts) {
                                Ok(
                                    WorldView {
                                        crafts,
                                        settings: SettingsView { play_time, passthrough },
                                        persistent,
                                    },
                                )
                            } else {
                                Err(ParseError::MalformedSave)
                            },
                        },
                    },
                },
            },
        }
    }
}

proof fn lemma_u64_round_trip(n: u64)
    ensures
        u64_bytes(n).len() == 8,
        u64_of(u64_bytes(n)) == n,
{
    assert(((n & 0xff) as u8 as u64) | ((((n >> 8u64) & 0xff) as u8 as u64) << 8u64) | ((((n
        >> 16u64) & 0xff) as u8 as u64) << 16u64) | ((((n >> 24u64) & 0xff) as u8 as u64)
        << 24u64) | ((((n >> 32u64) & 0xff) as u8 as u64) << 32u64) | ((((n >> 40u64) & 0xff)
        as u8 as u64) << 40u64) | ((((n >> 48u64) & 0xff) as u8 as u64) << 48u64) | ((((n
        >> 56u64) & 0xff) as u8 as u64) << 56u64) == n) by (bit_vector);
}

proof fn lemma_take_u64(n: u64, rest: Seq<u8>)
    ensures
        take_u64(u64_bytes(n) + rest) == Some((n, rest)),
{
    lemma_u64_round_trip(n);
    assert((u64_bytes(n) + rest).take(8) =~= u64_bytes(n));
    assert((u64_bytes(n) + rest).skip(8) =~= rest);
}

proof fn lemma_take_blob(s: Seq<u8>, rest: Seq<u8>)
    requires
        fits_u64(s),
    ensures
        take_blob(blob(s) + rest) == Some((s, rest)),
{
    assert(blob(s) + rest =~= u64_bytes(s.len() as u64) + (s + rest));
    lemma_take_u64(s.len() as u64, s + rest);
    assert((s + rest).take(s.len() as int) =~= s);
    assert((s + rest).skip(s.len() as int) =~= rest);
}

#[verifier::rlimit(40)]
proof fn lemma_take_craft(c: CraftView, rest: Seq<u8>)
    requires
        fits_u64(c.id),
        fits_u64(c.name),
        fits_u64(c.author),
        fits_u64(c.payload),
    ensures
        take_craft(craft_bytes(c) + rest) == Some((c, rest)),
{
    reveal(take_craft);
    let x0 = blob(c.id) + blob(c.name);
    let x1 = x0 + blob(c.author);
    let x2 = x1 + blob(c.payload);
    let t4 = seq![status_byte(c.status)] + rest;
    let t3 = blob(c.payload) + t4;
    let t2 = blob(c.author) + t3;
    let t1 = blob(c.name) + t2;
    assert(craft_bytes(c) + rest =~= x2 + t4);
    assert(x2 + t4 =~= x1 + t3);
    assert(x1 + t3 =~= x0 + t2);
    assert(x0 + t2 =~= blob(c.id) + t1);
    lemma_take_blob(c.id, t1);
    lemma_take_blob(c.name, t2);
    lemma_take_blob(c.author, t3);
    lemma_take_blob(c.payload, t4);
    assert(t4[0] == status_byte(c.status));
    assert(status_of(t4[0]) == Some(c.status));
    let tail = t4;
    assert(tail.skip(1) =~= rest);
}

proof fn lemma_crafts_bytes_front(cs: Seq<CraftView>)
    requires
        cs.len() > 0,
    ensures
        crafts_bytes(cs) == craft_bytes(cs[0]) + crafts_bytes(cs.drop_first()),
    decreases cs.len(),
{
    if cs.len() == 1 {
        assert(cs.drop_last() =~= Seq::<CraftView>::empty());
        assert(cs.drop_first() =~= Seq::<CraftView>::empty());
        assert(crafts_bytes(cs.drop_last()) =~= Seq::<u8>::empty());
        assert(cs.last() == cs[0]);
        assert(crafts_bytes(cs) =~= craft_bytes(cs[0]));
        assert(crafts_bytes(cs.drop_first()) =~= Seq::<u8>::empty());
        assert(craft_bytes(cs[0]) + Seq::<u8>::empty() =~= craft_bytes(cs[0]));
    } else {
        lemma_crafts_bytes_front(cs.drop_last());
        assert(cs.drop_last().drop_first() =~= cs.drop_first().drop_last());
        assert(cs.drop_first().last() == cs.last());
        assert(cs.drop_last()[0] == cs[0]);
        assert(crafts_bytes(cs) =~= craft_bytes(cs[0]) + crafts_bytes(cs.drop_first()));
    }
}

proof fn lemma_take_crafts(cs: Seq<CraftView>, rest: Seq<u8>)
    requires
        forall|i: int|
            0 <= i < cs.len() ==> {
                &&& fits_u64(#[trigger] cs[i].id)
                &&& fits_u64(cs[i].name)
                &&& fits_u64(cs[i].author)
                &&& fits_u64(cs[i].payload)
            },
    ensures
        take_crafts(crafts_bytes(cs) + rest, cs.len()) == Some((cs, rest)),
    decreases cs.len(),
{
    if cs.len() > 0 {
        lemma_crafts_bytes_front(cs);
        let tail = cs.drop_first();
        assert(crafts_bytes(cs) + rest =~= craft_bytes(cs[0]) + (crafts_bytes(tail) + rest));
        assert(fits_u64(cs[0].id));
        lemma_take_craft(cs[0], crafts_bytes(tail) + rest);
        assert forall|i: int| 0 <= i < tail.len() implies {
            &&& fits_u64(#[trigger] tail[i].id)
            &&& fits_u64(tail[i].name)
            &&& fits_u64(tail[i].author)
            &&& fits_u64(tail[i].payload)
        } by {
            assert(tail[i] == cs[i + 1]);
        }
        lemma_take_crafts(tail, rest);
        let b = crafts_bytes(cs) + rest;
        assert(take_craft(b) == Some((cs[0], crafts_bytes(tail) + rest)));
        assert(take_crafts(crafts_bytes(tail) + rest, (cs.len() - 1) as nat) == Some((tail, rest)));
        assert(seq![cs[0]] + tail =~= cs);
        assert(take_crafts(b, cs.len()) == Some((seq![cs[0]] + tail, rest)));
    } else {
        assert(crafts_bytes(cs) + rest =~= rest);
        assert(cs =~= Seq::<CraftView>::empty());
    }
}

/// Reading back what was written gives the same world: every modelled field,
/// the settings and the persistent data are restored exactly.
#[verifier::rlimit(40)]
pub proof fn lemma_round_trip(w: WorldView)
    requires
        w.wf(),
        encodable(w),
    ensures
        parse_spec(world_bytes(w)) == Ok::<WorldView, ParseError>(w),
{
    let b = world_bytes(w);
    let r4 = crafts_bytes(w.crafts) + Seq::<u8>::empty();
    let r3 = u64_bytes(w.crafts.len() as u64) + r4;
    let r2 = blob(w.persistent) + r3;
    let r1 = blob(w.settings.passthrough) + r2;
    assert(b.take(4) =~= magic());
    assert(b[4] == FORMAT_VERSION);
    assert(b.skip(5) =~= u64_bytes(w.settings.play_time) + r1);
    lemma_take_u64(w.settings.play_time, r1);
    lemma_take_blob(w.settings.passthrough, r2);
    lemma_take_blob(w.persistent, r3);
    lemma_take_u64(w.crafts.len() as u64, r4);
    lemma_take_crafts(w.crafts, Seq::<u8>::empty());
    assert(crafts_bytes(w.crafts) + Seq::<u8>::empty() =~= crafts_bytes(w.crafts));
}

fn write_u64(out: &mut Vec<u8>, n: u64)
    ensures
        final(out)@ == old(out)@ + u64_bytes(n),
{
    out.push((n & 0xff) as u8);
    out.push(((n >> 8u64) & 0xff) as u8);
    out.push(((n >> 16u64) & 0xff) as u8);
    out.push(((n >> 24u64) & 0xff) as u8);
    out.push(((n >> 32u64) & 0xff) as u8);
    out.push(((n >> 40u64) & 0xff) as u8);
    out.push(((n >> 48u64) & 0xff) as u8);
    out.push(((n >> 56u64) & 0xff) as u8);
    assert(out@ =~= old(out)@ + u64_bytes(n));
}

fn write_blob(out: &mut Vec<u8>, s: &Vec<u8>)
    ensures
        final(out)@ == old(out)@ + blob(s@),
        fits_u64(s@),
{
    write_u64(out, s.len() as u64);
    let ghost mid = out@;
    let mut i: usize = 0;
    while i < s.len()
        invariant
            0 <= i <= s@.len(),
            out@ == mid + s@.take(i as int),
        decreases s@.len() - i,
    {
        out.push(s[i]);
        i = i + 1;
        assert(out@ =~= mid + s@.take(i as int));
    }
    assert(s@.take(s@.len() as int) =~= s@);
    assert(out@ =~= old(out)@ + blob(s@));
}

fn write_craft(out: &mut Vec<u8>, c: &Craft)
    ensures
        final(out)@ == old(out)@ + craft_bytes(c@),
        fits_u64(c@.id),
        fits_u64(c@.name),
        fits_u64(c@.author),
        fits_u64(c@.payload),
{
    write_blob(out, &c.id);
    write_blob(out, &c.name);
    write_blob(out, &c.author);
    write_blob(out, &c.payload);
    let st = match c.status {
        CraftStatus::Active => STATUS_ACTIVE,
        CraftStatus::Destroyed => STATUS_DESTROYED,
    };
    out.push(st);
    assert(out@ =~= old(out)@ + craft_bytes(c@));
}

/// Writes a snapshot in the save format.
pub fn serialize(w: &SaveWorld) -> (r: Vec<u8>)
    ensures
        r@ == world_bytes(w@),
        encodable(w@),
{
    let mut out: Vec<u8> = Vec::new();
    out.push(83u8);
    out.push(87u8);
    out.push(76u8);
    out.push(68u8);
    out.push(FORMAT_VERSION);
    write_u64(&mut out, w.settings.total_play_time_seconds);
    write_blob(&mut out, &w.settings.passthrough);
    write_blob(&mut out, &w.persistent_data);
    write_u64(&mut out, w.crafts.len() as u64);
    let ghost head = out@;
    let ghost cv = views(w.crafts@);
    let mut i: usize = 0;
    while i < w.crafts.len()
        invariant
            cv == views(w.crafts@),
            0 <= i <= cv.len(),
            out@ == head + crafts_bytes(cv.take(i as int)),
            forall|k: int|
                0 <= k < i ==> {
                    &&& fits_u64(#[trigger] cv[k].id)
                    &&& fits_u64(cv[k].name)
                    &&& fits_u64(cv[k].author)
                    &&& fits_u64(cv[k].payload)
                },
        decreases cv.len() - i,
    {
        write_craft(&mut out, &w.crafts[i]);
        assert(cv[i as int] == w.crafts@[i as int]@);
        assert(fits_u64(cv[i as int].id) && fits_u64(cv[i as int].name) && fits_u64(
            cv[i as int].author,
        ) && fits_u64(cv[i as int].payload));
        assert(cv.take(i + 1).drop_last() =~= cv.take(i as int));
        assert(cv.take(i + 1).last() == w.crafts@[i as int]@);
        i = i + 1;
        assert(out@ =~= head + crafts_bytes(cv.take(i as int)));
        assert forall|k: int| 0 <= k < i implies {
            &&& fits_u64(#[trigger] cv[k].id)
            &&& fits_u64(cv[k].name)
            &&& fits_u64(cv[k].author)
            &&& fits_u64(cv[k].payload)
        } by {
            if k < i - 1 {
                assert(fits_u64(cv[k].id));
            }
        }
    }
    assert(cv.take(cv.len() as int) =~= cv);
    assert(out@ =~= world_bytes(w@));
    assert(fits_u64(w@.settings.passthrough));
    assert(fits_u64(w@.persistent));
    assert(w@.crafts.len() <= u64::MAX);
    out
}

fn read_u64(b: &Vec<u8>, pos: usize) -> (r: Option<(u64, usize)>)
    requires
        pos <= b@.len(),
    ensures
        match r {
            Some((n, q)) => q <= b@.len() && take_u64(b@.skip(pos as int)) == Some(
                (n, b@.skip(q as int)),
            ),
            None => take_u64(b@.skip(pos as int)) is None,
        },
{
    if b.len() - pos < 8 {
        return None;
    }
    let n = (b[pos] as u64) | ((b[pos + 1] as u64) << 8u64) | ((b[pos + 2] as u64) << 16u64) | ((
    b[pos + 3] as u64) << 24u64) | ((b[pos + 4] as u64) << 32u64) | ((b[pos + 5] as u64)
        << 40u64) | ((b[pos + 6] as u64) << 48u64) | ((b[pos + 7] as u64) << 56u64);
    let ghost t = b@.skip(pos as int).take(8);
    assert(t[0] == b@[pos as int] && t[1] == b@[pos + 1] && t[2] == b@[pos + 2] && t[3] == b@[pos
        + 3] && t[4] == b@[pos + 4] && t[5] == b@[pos + 5] && t[6] == b@[pos + 6] && t[7] == b@[pos
        + 7]);
    assert(b@.skip(pos as int).skip(8) =~= b@.skip(pos + 8));
    Some((n, pos + 8))
}

fn copy_range(b: &Vec<u8>, from: usize, to: usize) -> (r: Vec<u8>)
    requires
        from <= to <= b@.len(),
    ensures
        r@ == b@.subrange(from as int, to as int),
{
    let mut r: Vec<u8> = Vec::new();
    let mut i: usize = from;
    while i < to
        invariant
            from <= i <= to <= b@.len(),
            r@ == b@.subrange(from as int, i as int),
        decreases to - i,
    {
        r.push(b[i]);
        i = i + 1;
        assert(r@ =~= b@.subrange(from as int, i as int));
    }
    r
}

fn read_blob(b: &Vec<u8>, pos: usize) -> (r: Option<(Vec<u8>, usize)>)
    requires
        pos <= b@.len(),
    ensures
        match r {
            Some((v, q)) => q <= b@.len() && take_blob(b@.skip(pos as int)) == Some(
                (v@, b@.skip(q as int)),
            ),
            None => take_blob(b@.skip(pos as int)) is None,
        },
{
    match read_u64(b, pos) {
        None => None,
        Some((n, p)) => {
            let remaining = b.len() - p;
            if n > remaining as u64 {
                None
            } else {
                let e = p + n as usize;
                let v = copy_range(b, p, e);
                assert(b@.skip(p as int).take(n as int) =~= b@.subrange(p as int, e as int));
                assert(b@.skip(p as int).skip(n as int) =~= b@.skip(e as int));
                Some((v, e))
            }
        },
    }
}

fn read_craft(b: &Vec<u8>, pos: usize) -> (r: Option<(Craft, usize)>)
    requires
        pos <= b@.len(),
    ensures
        match r {
            Some((c, q)) => q <= b@.len() && take_craft(b@.skip(pos as int)) == Some(
                (c@, b@.skip(q as int)),
            ),
            None => take_craft(b@.skip(pos as int)) is None,
        },
{
    reveal(take_craft);
    let (id, p1) = match read_blob(b, pos) {
        Some(x) => x,
        None => return None,
    };
    let (name, p2) = match read_blob(b, p1) {
        Some(x) => x,
        None => return None,
    };
    let (author, p3) = match read_blob(b, p2) {
        Some(x) => x,
        None => return None,
    };
    let (payload, p4) = match read_blob(b, p3) {
        Some(x) => x,
        None => return None,
    };
    if p4 >= b.len() {
        return None;
    }
    assert(b@.skip(p4 as int)[0] == b@[p4 as int]);
    let status = if b[p4] == STATUS_ACTIVE {
        CraftStatus::Active
    } else if b[p4] == STATUS_DESTROYED {
        CraftStatus::Destroyed
    } else {
        return None;
    };
    assert(b@.skip(p4 as int).skip(1) =~= b@.skip(p4 + 1));
    Some((Craft { id, name, author, payload, status }, p4 + 1))
}

/// Whether no two crafts share an identifier.
pub fn all_ids_unique(crafts: &Vec<Craft>) -> (r: bool)
    ensures
        r == unique_ids(views(crafts@)),
{
    let ghost cv = views(crafts@);
    let mut i: usize = 0;
    while i < crafts.len()
        invariant
            cv == views(crafts@),
            0 <= i <= cv.len(),
            forall|a: int, c: int| 0 <= a < c < i ==> #[trigger] cv[a].id != #[trigger] cv[c].id,
        decreases cv.len() - i,
    {
        let mut j: usize = 0;
        while j < i
            invariant
                cv == views(crafts@),
                0 <= j <= i < cv.len(),
                forall|a: int, c: int| 0 <= a < c < i ==> #[trigger] cv[a].id != #[trigger] cv[c].id,
                forall|a: int| 0 <= a < j ==> #[trigger] cv[a].id != cv[i as int].id,
            decreases i - j,
        {
            if bytes_equal(crafts[j].id.as_slice(), crafts[i].id.as_slice()) {
                assert(cv[j as int].id == cv[i as int].id);
                return false;
            }
            assert(cv[j as int] == crafts@[j as int]@);
            j = j + 1;
        }
        i = i + 1;
    }
    assert forall|a: int, c: int|
        0 <= a < cv.len() && 0 <= c < cv.len() && a != c implies #[trigger] cv[a].id
        != #[trigger] cv[c].id by {
        if a > c {
            assert(cv[c].id != cv[a].id);
        }
    }
    true
}

/// Reads a snapshot. Fails with `UnsupportedVersion` when the header carries
/// another format version, and with `MalformedSave` when the header, the
/// settings, the persistent data or the craft registry cannot be read, when
/// bytes are left over, or when two crafts share an identifier.
pub fn parse(b: &Vec<u8>) -> (r: Result<SaveWorld, ParseError>)
    ensures
        match r {
            Ok(w) => parse_spec(b@) == Ok::<WorldView, ParseError>(w@) && w@.wf(),
            Err(e) => parse_spec(b@) == Err::<WorldView, ParseError>(e),
        },
{
    if b.len() < 5 {
        return Err(ParseError::MalformedSave);
    }
    if b[0] != 83u8 || b[1] != 87u8 || b[2] != 76u8 || b[3] != 68u8 {
        assert(b@.take(4)[0] == b@[0] && b@.take(4)[1] == b@[1] && b@.take(4)[2] == b@[2]
            && b@.take(4)[3] == b@[3]);
        return Err(ParseError::MalformedSave);
    }
    assert(b@.take(4) =~= magic());
    if b[4] != FORMAT_VERSION {
        return Err(ParseError::UnsupportedVersion);
    }
    let (play_time, p1) = match read_u64(b, 5) {
        Some(x) => x,
        None => return Err(ParseError::MalformedSave),
    };
    let (passthrough, p2) = match read_blob(b, p1) {
        Some(x) => x,
        None => return Err(ParseError::MalformedSave),
    };
    let (persistent_data, p3) = match read_blob(b, p2) {
        Some(x) => x,
        None => return Err(ParseError::MalformedSave),
    };
    let (count, p4) = match read_u64(b, p3) {
        Some(x) => x,
        None => return Err(ParseError::MalformedSave),
    };
    let ghost start = b@.skip(p4 as int);
    let mut crafts: Vec<Craft> = Vec::new();
    let mut pos: usize = p4;
    let mut k: u64 = 0;
    while k < count
        invariant
            b@.len() >= 5,
            b@.take(4) == magic(),
            b@[4] == FORMAT_VERSION,
            take_u64(b@.skip(5)) == Some((play_time, b@.skip(p1 as int))),
            take_blob(b@.skip(p1 as int)) == Some((passthrough@, b@.skip(p2 as int))),
            take_blob(b@.skip(p2 as int)) == Some((persistent_data@, b@.skip(p3 as int))),
            take_u64(b@.skip(p3 as int)) == Some((count, start)),
            pos <= b@.len(),
            k <= count,
            take_crafts(start, count as nat) == match take_crafts(
                b@.skip(pos as int),
                (count - k) as nat,
            ) {
                Some((cs, rest)) => Some((views(crafts@) + cs, rest)),
                None => None,
            },
        decreases count - k,
    {
        match read_craft(b, pos) {
            None => {
                assert(take_crafts(b@.skip(pos as int), (count - k) as nat) is None);
                assert(take_crafts(start, count as nat) is None);
                assert(parse_spec(b@) == Err::<WorldView, ParseError>(ParseError::MalformedSave));
                return Err(ParseError::MalformedSave);
            },
            Some((c, q)) => {
                let ghost before = views(crafts@);
                proof {
                    let n = (count - k - 1) as nat;
                    if let Some((cs, rest)) = take_crafts(b@.skip(q as int), n) {
                        assert(before.push(c@) + cs =~= before + (seq![c@] + cs));
                    }
                }
                crafts.push(c);
                assert(views(crafts@) =~= before.push(c@));
                pos = q;
                k = k + 1;
            },
        }
    }
    assert(views(crafts@) + Seq::<CraftView>::empty() =~= views(crafts@));
    if pos != b.len() {
        return Err(ParseError::MalformedSave);
    }
    if !all_ids_unique(&crafts) {
        return Err(ParseError::MalformedSave);
    }
    Ok(
        SaveWorld {
            crafts,
            settings: WorldSettings { total_play_time_seconds: play_time, passthrough },
            persistent_data,
        },
    )
}

} // verus!
