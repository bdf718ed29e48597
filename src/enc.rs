//! Encoding a level into the bytes of a level file.
use vstd::prelude::*;
use crate::Position;
use crate::bytes::{u32_le, u64_le, text_field, put_u32, put_i32, put_u64, put_text};
use crate::cipher::{crypt, crypt_top10};
use crate::count::{count_bits, write_count_bits, MAX_COUNT, POLYGON_OFFSET, PICTURE_OFFSET};
use crate::error::LevelError;
use crate::lev::{animation_of, 
    Level, LevelView, Polygon, PolygonView, Object, ObjectType, Picture, PictureView, ListEntry,
    EntryView, Version, EOD, EOF, TOP10_MAX, polygons_view, pictures_view, entries_view,
};

verus! {

/// The format tag of a version.
pub open spec fn tag_of(v: Version) -> Seq<u8> {
    match v {
        Version::Elma => seq![80u8, 79u8, 84u8, 49u8, 52u8],
        Version::Across => seq![80u8, 79u8, 84u8, 48u8, 54u8],
    }
}

/// The stored code of an object type.
pub open spec fn code_of(t: ObjectType) -> i32 {
    match t {
        ObjectType::Exit => 1,
        ObjectType::Apple => 2,
        ObjectType::Killer => 3,
        ObjectType::Player => 4,
    }
}

/// The stored value of an animation index: one less, in 32-bit wraparound
/// arithmetic.
pub open spec fn stored_animation(a: i32) -> i32 {
    if a == i32::MIN {
        i32::MAX
    } else {
        (a - 1) as i32
    }
}

pub open spec fn pos_bytes(p: Position<u64>) -> Seq<u8> {
    u64_le(p.x) + u64_le(p.y)
}

pub open spec fn vertices_bytes(vs: Seq<Position<u64>>) -> Seq<u8>
    decreases vs.len(),
{
    if vs.len() == 0 {
        Seq::empty()
    } else {
        vertices_bytes(vs.drop_last()) + pos_bytes(vs.last())
    }
}

pub open spec fn polygon_bytes(p: PolygonView) -> Seq<u8> {
    u32_le(if p.grass { 1u32 } else { 0u32 }) + u32_le(p.vertices.len() as u32) + vertices_bytes(p.vertices)
}

pub open spec fn polygons_bytes(ps: Seq<PolygonView>) -> Seq<u8>
    decreases ps.len(),
{
    if ps.len() == 0 {
        Seq::empty()
    } else {
        polygons_bytes(ps.drop_last()) + polygon_bytes(ps.last())
    }
}

pub open spec fn object_bytes(o: Object) -> Seq<u8> {
    pos_bytes(o.position) + u32_le(code_of(o.object_type) as u32) + u32_le(o.gravity as u32)
        + u32_le(stored_animation(o.animation) as u32)
}

pub open spec fn objects_bytes(os: Seq<Object>) -> Seq<u8>
    decreases os.len(),
{
    if os.len() == 0 {
        Seq::empty()
    } else {
        objects_bytes(os.drop_last()) + object_bytes(os.last())
    }
}

pub open spec fn picture_bytes(p: PictureView) -> Seq<u8> {
    text_field(p.name, 10) + text_field(p.texture, 10) + text_field(p.mask, 10) + pos_bytes(p.position)
        + u32_le(p.distance as u32) + u32_le(p.clip as u32)
}

pub open spec fn pictures_bytes(ps: Seq<PictureView>) -> Seq<u8>
    decreases ps.len(),
{
    if ps.len() == 0 {
        Seq::empty()
    } else {
        pictures_bytes(ps.drop_last()) + picture_bytes(ps.last())
    }
}

/// The first `n` time slots of a leaderboard sub-block; a slot past the
/// entries holds zero.
pub open spec fn time_slots(es: Seq<EntryView>, n: nat) -> Seq<u8>
    decreases n,
{
    if n == 0 {
        Seq::empty()
    } else {
        let k = n - 1;
        time_slots(es, k as nat) + (if k < es.len() { u32_le(es[k].time as u32) } else { u32_le(0) })
    }
}

/// The first `n` slots of first names; a slot past the entries holds zeros.
pub open spec fn name_1_slots(es: Seq<EntryView>, n: nat) -> Seq<u8>
    decreases n,
{
    if n == 0 {
        Seq::empty()
    } else {
        let k = n - 1;
        name_1_slots(es, k as nat) + text_field(if k < es.len() { es[k].name_1 } else { Seq::empty() }, 15)
    }
}

/// The first `n` slots of second names; a slot past the entries holds zeros.
pub open spec fn name_2_slots(es: Seq<EntryView>, n: nat) -> Seq<u8>
    decreases n,
{
    if n == 0 {
        Seq::empty()
    } else {
        let k = n - 1;
        name_2_slots(es, k as nat) + text_field(if k < es.len() { es[k].name_2 } else { Seq::empty() }, 15)
    }
}

/// A plain leaderboard sub-block: count, ten times, ten first names, ten
/// second names.
pub open spec fn top10_block(es: Seq<EntryView>) -> Seq<u8> {
    u32_le(es.len() as u32) + time_slots(es, 10) + name_1_slots(es, 10) + name_2_slots(es, 10)
}

/// The bytes of a level file holding `l`.
#[verifier::opaque]
pub open spec fn level_bytes(l: LevelView) -> Seq<u8> {
    tag_of(l.version) + seq![0u8, 0u8] + u32_le(l.link as u32)
        + u64_le(l.integrity[0]) + u64_le(l.integrity[1]) + u64_le(l.integrity[2]) + u64_le(l.integrity[3])
        + text_field(l.name, 51) + text_field(l.lgr, 16) + text_field(l.ground, 10) + text_field(l.sky, 10)
        + u64_le(count_bits(l.polygons.len() as int, POLYGON_OFFSET)) + polygons_bytes(l.polygons)
        + u64_le(count_bits(l.objects.len() as int, POLYGON_OFFSET)) + objects_bytes(l.objects)
        + u64_le(count_bits(l.pictures.len() as int, PICTURE_OFFSET)) + pictures_bytes(l.pictures)
        + u32_le(EOD) + crypt(top10_block(l.top10_single) + top10_block(l.top10_multi)) + u32_le(EOF)
}

pub open spec fn picture_fits(p: PictureView) -> bool {
    p.name.len() < 10 && p.texture.len() < 10 && p.mask.len() < 10
}

pub open spec fn entry_fits(e: EntryView) -> bool {
    e.name_1.len() < 15 && e.name_2.len() < 15
}

/// Every text fits its field together with its terminating zero byte.
pub open spec fn texts_fit(l: LevelView) -> bool {
    &&& l.name.len() < 51 && l.lgr.len() < 16 && l.ground.len() < 10 && l.sky.len() < 10
    &&& forall|i: int| 0 <= i < l.pictures.len() ==> #[trigger] picture_fits(l.pictures[i])
    &&& forall|i: int| 0 <= i < l.top10_single.len() ==> #[trigger] entry_fits(l.top10_single[i])
    &&& forall|i: int| 0 <= i < l.top10_multi.len() ==> #[trigger] entry_fits(l.top10_multi[i])
}

/// Every count can be stored.
pub open spec fn counts_fit(l: LevelView) -> bool {
    &&& l.polygons.len() <= MAX_COUNT && l.objects.len() <= MAX_COUNT && l.pictures.len() <= MAX_COUNT
    &&& forall|i: int| 0 <= i < l.polygons.len() ==> #[trigger] l.polygons[i].vertices.len() <= i32::MAX
}

/// The length of a list, as the error that reports it holds it.
pub open spec fn reported_len(n: nat) -> i32 {
    if n > i32::MAX {
        i32::MAX
    } else {
        n as i32
    }
}

/// Why `l` cannot be encoded, if it cannot: texts are checked first, then
/// counts, then the lengths of the leaderboards.
pub open spec fn encode_error(l: LevelView) -> Option<LevelError> {
    if !texts_fit(l) {
        Some(LevelError::FieldTooLong)
    } else if !counts_fit(l) {
        Some(LevelError::InvalidCount)
    } else if l.top10_single.len() > TOP10_MAX {
        Some(LevelError::InvalidLeaderboardCount(reported_len(l.top10_single.len())))
    } else if l.top10_multi.len() > TOP10_MAX {
        Some(LevelError::InvalidLeaderboardCount(reported_len(l.top10_multi.len())))
    } else {
        None
    }
}

fn put_pos(out: &mut Vec<u8>, p: Position<u64>)
    ensures
        final(out)@ == old(out)@ + pos_bytes(p),
{
    put_u64(out, p.x);
    put_u64(out, p.y);
    assert(final(out)@ =~= old(out)@ + pos_bytes(p));
}

fn put_vertices(out: &mut Vec<u8>, vs: &Vec<Position<u64>>)
    ensures
        final(out)@ == old(out)@ + vertices_bytes(vs@),
{
    let ghost start = old(out)@;
    let mut i: usize = 0;
    assert(vs@.subrange(0, 0) =~= Seq::<Position<u64>>::empty());
    assert(out@ =~= start + vertices_bytes(vs@.subrange(0, 0)));
    while i < vs.len()
        invariant
            i <= vs@.len(),
            out@ == start + vertices_bytes(vs@.subrange(0, i as int)),
        decreases vs@.len() - i,
    {
        put_pos(out, vs[i]);
        assert(vs@.subrange(0, i + 1).drop_last() =~= vs@.subrange(0, i as int));
        i = i + 1;
        assert(out@ =~= start + vertices_bytes(vs@.subrange(0, i as int)));
    }
    assert(vs@.subrange(0, vs@.len() as int) =~= vs@);
}

fn put_polygons(out: &mut Vec<u8>, ps: &Vec<Polygon>)
    requires
        forall|i: int| 0 <= i < ps@.len() ==> #[trigger] ps@[i].vertices@.len() <= i32::MAX,
    ensures
        final(out)@ == old(out)@ + polygons_bytes(polygons_view(ps@)),
{
    let ghost start = old(out)@;
    let ghost pv = polygons_view(ps@);
    let mut i: usize = 0;
    assert(pv.subrange(0, 0) =~= Seq::<PolygonView>::empty());
    assert(out@ =~= start + polygons_bytes(pv.subrange(0, 0)));
    while i < ps.len()
        invariant
            i <= ps@.len(),
            pv == polygons_view(ps@),
            forall|i: int| 0 <= i < ps@.len() ==> #[trigger] ps@[i].vertices@.len() <= i32::MAX,
            out@ == start + polygons_bytes(pv.subrange(0, i as int)),
        decreases ps@.len() - i,
    {
        let p = &ps[i];
        let ghost before = out@;
        put_u32(out, if p.grass { 1u32 } else { 0u32 });
        put_u32(out, p.vertices.len() as u32);
        put_vertices(out, &p.vertices);
        assert(out@ =~= before + polygon_bytes(pv[i as int]));
        assert(pv.subrange(0, i + 1).drop_last() =~= pv.subrange(0, i as int));
        i = i + 1;
        assert(out@ =~= start + polygons_bytes(pv.subrange(0, i as int)));
    }
    assert(pv.subrange(0, pv.len() as int) =~= pv);
}

fn object_code(t: ObjectType) -> (r: i32)
    ensures
        r == code_of(t),
{
    match t {
        ObjectType::Exit => 1,
        ObjectType::Apple => 2,
        ObjectType::Killer => 3,
        ObjectType::Player => 4,
    }
}

fn put_objects(out: &mut Vec<u8>, os: &Vec<Object>)
    ensures
        final(out)@ == old(out)@ + objects_bytes(os@),
{
    let ghost start = old(out)@;
    let mut i: usize = 0;
    assert(os@.subrange(0, 0) =~= Seq::<Object>::empty());
    assert(out@ =~= start + objects_bytes(os@.subrange(0, 0)));
    while i < os.len()
        invariant
            i <= os@.len(),
            out@ == start + objects_bytes(os@.subrange(0, i as int)),
        decreases os@.len() - i,
    {
        let o = os[i];
        let ghost before = out@;
        put_pos(out, o.position);
        put_i32(out, object_code(o.object_type));
        put_i32(out, o.gravity);
        put_i32(out, o.animation.wrapping_sub(1));
        assert(out@ =~= before + object_bytes(o));
        assert(os@.subrange(0, i + 1).drop_last() =~= os@.subrange(0, i as int));
        i = i + 1;
        assert(out@ =~= start + objects_bytes(os@.subrange(0, i as int)));
    }
    assert(os@.subrange(0, os@.len() as int) =~= os@);
}

fn put_pictures(out: &mut Vec<u8>, ps: &Vec<Picture>)
    requires
        forall|i: int| 0 <= i < ps@.len() ==> #[trigger] picture_fits(ps@[i]@),
    ensures
        final(out)@ == old(out)@ + pictures_bytes(pictures_view(ps@)),
{
    let ghost start = old(out)@;
    let ghost pv = pictures_view(ps@);
    let mut i: usize = 0;
    assert(pv.subrange(0, 0) =~= Seq::<PictureView>::empty());
    assert(out@ =~= start + pictures_bytes(pv.subrange(0, 0)));
    while i < ps.len()
        invariant
            i <= ps@.len(),
            pv == pictures_view(ps@),
            forall|i: int| 0 <= i < ps@.len() ==> #[trigger] picture_fits(ps@[i]@),
            out@ == start + pictures_bytes(pv.subrange(0, i as int)),
        decreases ps@.len() - i,
    {
        let p = &ps[i];
        assert(picture_fits(ps@[i as int]@));
        let ghost before = out@;
        put_text(out, p.name.as_slice(), 10);
        put_text(out, p.texture.as_slice(), 10);
        put_text(out, p.mask.as_slice(), 10);
        put_pos(out, p.position);
        put_i32(out, p.distance);
        put_i32(out, p.clip);
        assert(out@ =~= before + picture_bytes(pv[i as int]));
        assert(pv.subrange(0, i + 1).drop_last() =~= pv.subrange(0, i as int));
        i = i + 1;
        assert(out@ =~= start + pictures_bytes(pv.subrange(0, i as int)));
    }
    assert(pv.subrange(0, pv.len() as int) =~= pv);
}

/// Builds the plain sub-block of a leaderboard.
fn build_top10(es: &Vec<ListEntry>) -> (r: Vec<u8>)
    requires
        es@.len() <= TOP10_MAX,
        forall|i: int| 0 <= i < es@.len() ==> #[trigger] entry_fits(es@[i]@),
    ensures
        r@ == top10_block(entries_view(es@)),
        r@.len() == 344,
{
    let ghost ev = entries_view(es@);
    let empty: Vec<u8> = Vec::new();
    let mut out: Vec<u8> = Vec::new();
    put_u32(&mut out, es.len() as u32);
    let ghost head = out@;
    let mut k: usize = 0;
    while k < 10
        invariant
            k <= 10,
            es@.len() <= TOP10_MAX,
            ev == entries_view(es@),
            out@ == head + time_slots(ev, k as nat),
            out@.len() == 4 + 4 * k,
        decreases 10 - k,
    {
        if k < es.len() {
            put_i32(&mut out, es[k].time);
        } else {
            put_u32(&mut out, 0);
        }
        k = k + 1;
    }
    let ghost head2 = out@;
    k = 0;
    while k < 10
        invariant
            k <= 10,
            es@.len() <= TOP10_MAX,
            ev == entries_view(es@),
            empty@ == Seq::<u8>::empty(),
            forall|i: int| 0 <= i < es@.len() ==> #[trigger] entry_fits(es@[i]@),
            out@ == head2 + name_1_slots(ev, k as nat),
            out@.len() == 44 + 15 * k,
        decreases 10 - k,
    {
        if k < es.len() {
            assert(entry_fits(es@[k as int]@));
            put_text(&mut out, es[k].name_1.as_slice(), 15);
        } else {
            put_text(&mut out, empty.as_slice(), 15);
        }
        k = k + 1;
    }
    let ghost head3 = out@;
    k = 0;
    while k < 10
        invariant
            k <= 10,
            es@.len() <= TOP10_MAX,
            ev == entries_view(es@),
            empty@ == Seq::<u8>::empty(),
            forall|i: int| 0 <= i < es@.len() ==> #[trigger] entry_fits(es@[i]@),
            out@ == head3 + name_2_slots(ev, k as nat),
            out@.len() == 194 + 15 * k,
        decreases 10 - k,
    {
        if k < es.len() {
            assert(entry_fits(es@[k as int]@));
            put_text(&mut out, es[k].name_2.as_slice(), 15);
        } else {
            put_text(&mut out, empty.as_slice(), 15);
        }
        k = k + 1;
    }
    assert(out@ =~= top10_block(ev));
    out
}

fn pictures_fit(ps: &Vec<Picture>) -> (r: bool)
    ensures
        r == forall|i: int| 0 <= i < ps@.len() ==> #[trigger] picture_fits(ps@[i]@),
{
    let mut i: usize = 0;
    while i < ps.len()
        invariant
            i <= ps@.len(),
            forall|j: int| 0 <= j < i ==> #[trigger] picture_fits(ps@[j]@),
        decreases ps@.len() - i,
    {
        let p = &ps[i];
        if !(p.name.len() < 10 && p.texture.len() < 10 && p.mask.len() < 10) {
            assert(!picture_fits(ps@[i as int]@));
            return false;
        }
        i = i + 1;
    }
    true
}

fn entries_fit(es: &Vec<ListEntry>) -> (r: bool)
    ensures
        r == forall|i: int| 0 <= i < es@.len() ==> #[trigger] entry_fits(es@[i]@),
{
    let mut i: usize = 0;
    while i < es.len()
        invariant
            i <= es@.len(),
            forall|j: int| 0 <= j < i ==> #[trigger] entry_fits(es@[j]@),
        decreases es@.len() - i,
    {
        let e = &es[i];
        if !(e.name_1.len() < 15 && e.name_2.len() < 15) {
            assert(!entry_fits(es@[i as int]@));
            return false;
        }
        i = i + 1;
    }
    true
}

fn vertex_counts_fit(ps: &Vec<Polygon>) -> (r: bool)
    ensures
        r == forall|i: int| 0 <= i < ps@.len() ==> #[trigger] ps@[i].vertices@.len() <= i32::MAX,
{
    let mut i: usize = 0;
    while i < ps.len()
        invariant
            i <= ps@.len(),
            forall|j: int| 0 <= j < i ==> #[trigger] ps@[j].vertices@.len() <= i32::MAX,
        decreases ps@.len() - i,
    {
        if ps[i].vertices.len() > i32::MAX as usize {
            return false;
        }
        i = i + 1;
    }
    true
}

fn len_for_error(n: usize) -> (r: i32)
    ensures
        r == reported_len(n as nat),
{
    if n > i32::MAX as usize {
        i32::MAX
    } else {
        n as i32
    }
}

/// Checks that `l` can be encoded.
fn check_encodable(l: &Level) -> (r: Result<(), LevelError>)
    ensures
        match r {
            Ok(_) => encode_error(l@) is None,
            Err(e) => encode_error(l@) == Some(e),
        },
{
    let ghost v = l@;
    let pf = pictures_fit(&l.pictures);
    let sf = entries_fit(&l.top10_single);
    let mf = entries_fit(&l.top10_multi);
    proof {
        if !pf {
            let i = choose|i: int| !(0 <= i < l.pictures@.len() ==> #[trigger] picture_fits(l.pictures@[i]@));
            assert(v.pictures[i] == l.pictures@[i]@);
        }
        if !sf {
            let i = choose|i: int| !(0 <= i < l.top10_single@.len() ==> #[trigger] entry_fits(l.top10_single@[i]@));
            assert(v.top10_single[i] == l.top10_single@[i]@);
        }
        if !mf {
            let i = choose|i: int| !(0 <= i < l.top10_multi@.len() ==> #[trigger] entry_fits(l.top10_multi@[i]@));
            assert(v.top10_multi[i] == l.top10_multi@[i]@);
        }
        assert forall|i: int| 0 <= i < v.pictures.len() && pf implies #[trigger] picture_fits(v.pictures[i]) by {
            assert(picture_fits(l.pictures@[i]@));
        }
        assert forall|i: int| 0 <= i < v.top10_single.len() && sf implies #[trigger] entry_fits(v.top10_single[i]) by {
            assert(entry_fits(l.top10_single@[i]@));
        }
        assert forall|i: int| 0 <= i < v.top10_multi.len() && mf implies #[trigger] entry_fits(v.top10_multi[i]) by {
            assert(entry_fits(l.top10_multi@[i]@));
        }
    }
    if !(l.name.len() < 51 && l.lgr.len() < 16 && l.ground.len() < 10 && l.sky.len() < 10 && pf && sf && mf) {
        return Err(LevelError::FieldTooLong);
    }
    let vf = vertex_counts_fit(&l.polygons);
    proof {
        if !vf {
            let i = choose|i: int| !(0 <= i < l.polygons@.len() ==> #[trigger] l.polygons@[i].vertices@.len() <= i32::MAX);
            assert(v.polygons[i] == l.polygons@[i]@);
            assert(!(v.polygons[i].vertices.len() <= i32::MAX));
            assert(!counts_fit(v));
        }
        assert forall|i: int| 0 <= i < v.polygons.len() && vf implies #[trigger] v.polygons[i].vertices.len() <= i32::MAX by {
            assert(l.polygons@[i].vertices@.len() <= i32::MAX);
            assert(v.polygons[i] == l.polygons@[i]@);
        }
    }
    if !(l.polygons.len() <= MAX_COUNT && l.objects.len() <= MAX_COUNT && l.pictures.len() <= MAX_COUNT && vf) {
        return Err(LevelError::InvalidCount);
    }
    if l.top10_single.len() > TOP10_MAX as usize {
        return Err(LevelError::InvalidLeaderboardCount(len_for_error(l.top10_single.len())));
    }
    if l.top10_multi.len() > TOP10_MAX as usize {
        return Err(LevelError::InvalidLeaderboardCount(len_for_error(l.top10_multi.len())));
    }
    Ok(())
}

impl Level {
    /// Encodes the level into the bytes of a level file. The integrity sums
    /// are written as they stand.
    pub fn encode(&self) -> (r: Result<Vec<u8>, LevelError>)
        ensures
            match r {
                Ok(b) => encode_error(self@) is None && b@ == level_bytes(self@),
                Err(e) => encode_error(self@) == Some(e),
            },
    {
        check_encodable(self)?;
        let ghost v = self@;
        assert forall|i: int| 0 <= i < self.pictures@.len() implies #[trigger] picture_fits(self.pictures@[i]@) by {
            assert(picture_fits(v.pictures[i]));
        }
        assert forall|i: int| 0 <= i < self.polygons@.len() implies #[trigger] self.polygons@[i].vertices@.len() <= i32::MAX by {
            assert(v.polygons[i].vertices.len() <= i32::MAX);
        }
        assert forall|i: int| 0 <= i < self.top10_single@.len() implies #[trigger] entry_fits(self.top10_single@[i]@) by {
            assert(entry_fits(v.top10_single[i]));
        }
        assert forall|i: int| 0 <= i < self.top10_multi@.len() implies #[trigger] entry_fits(self.top10_multi@[i]@) by {
            assert(entry_fits(v.top10_multi[i]));
        }
        let mut out: Vec<u8> = Vec::new();
        match self.version {
            Version::Elma => {
                out.push(80u8);
                out.push(79u8);
                out.push(84u8);
                out.push(49u8);
                out.push(52u8);
            },
            Version::Across => {
                out.push(80u8);
                out.push(79u8);
                out.push(84u8);
                out.push(48u8);
                out.push(54u8);
            },
        }
        out.push(0u8);
        out.push(0u8);
        assert(out@ =~= tag_of(v.version) + seq![0u8, 0u8]);
        put_i32(&mut out, self.link);
        put_u64(&mut out, self.integrity[0]);
        put_u64(&mut out, self.integrity[1]);
        put_u64(&mut out, self.integrity[2]);
        put_u64(&mut out, self.integrity[3]);
        put_text(&mut out, self.name.as_slice(), 51);
        put_text(&mut out, self.lgr.as_slice(), 16);
        put_text(&mut out, self.ground.as_slice(), 10);
        put_text(&mut out, self.sky.as_slice(), 10);
        put_u64(&mut out, write_count_bits(self.polygons.len(), POLYGON_OFFSET));
        put_polygons(&mut out, &self.polygons);
        put_u64(&mut out, write_count_bits(self.objects.len(), POLYGON_OFFSET));
        put_objects(&mut out, &self.objects);
        put_u64(&mut out, write_count_bits(self.pictures.len(), PICTURE_OFFSET));
        put_pictures(&mut out, &self.pictures);
        put_u32(&mut out, EOD);
        let mut block = build_top10(&self.top10_single);
        let mut multi = build_top10(&self.top10_multi);
        block.append(&mut multi);
        let mut enc = crypt_top10(block);
        out.append(&mut enc);
        put_u32(&mut out, EOF);
        proof {
            reveal(level_bytes);
        }
        assert(out@ =~= level_bytes(v));
        Ok(out)
    }

    /// Converts the level into the bytes of a level file.
    pub fn get_raw(self) -> (r: Result<Vec<u8>, LevelError>)
        ensures
            match r {
                Ok(b) => encode_error(self@) is None && b@ == level_bytes(self@),
                Err(e) => encode_error(self@) == Some(e),
            },
    {
        self.encode()
    }
}

/// An animation index is stored as one less and read back as one more: stored
/// 0 is index 1, and every index survives the trip.
pub proof fn lemma_animation_offset(a: i32, stored: i32)
    ensures
        animation_of(0) == 1,
        stored_animation(1) == 0,
        animation_of(stored_animation(a)) == a,
        stored_animation(animation_of(stored)) == stored,
{
}

} // verus!
